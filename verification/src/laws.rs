//! Laws of the engine: properties that relate several operations, stated and
//! proved over the same models that the operations' contracts use.

use vstd::prelude::*;

use crate::cell::{CellModel, Coord, ValueModel};
use crate::eval::{apply_writes, eval_ref_model};
use crate::sheet::{committed, invalidated, lemma_fold_preserves, recompute_fold, sheet_inv};

verus! {

/// Dependency symmetry: in a sheet satisfying the invariant, `a` is among
/// the dependents of `b` exactly when `b` is among the dependencies of `a`.
/// Every operation of the sheet preserves the invariant, so this holds after
/// every operation.
pub proof fn lemma_dependency_symmetry(m: Map<Coord, CellModel>, a: Coord, b: Coord)
    requires
        sheet_inv(m),
        m.contains_key(a),
        m.contains_key(b),
    ensures
        m[b].dependents.contains(a) <==> m[a].deps.contains(b),
{
}

/// Round trip: a successful write of `Number(x)` to `c` leaves `Number(x)`
/// stored at `c`, whatever the rest of the sheet holds and in whichever
/// order the dependents were recomputed.
pub proof fn lemma_number_round_trip(m: Map<Coord, CellModel>, c: Coord, x: i64, order: Seq<Coord>)
    requires
        m.dom().finite(),
    ensures
        ({
            let m3 = invalidated(committed(m, c, ValueModel::Number(x), None, Set::empty()), c);
            let mf = recompute_fold(m3, order);
            mf.contains_key(c) && mf[c].value == ValueModel::Number(x)
        }),
{
    let m2 = committed(m, c, ValueModel::Number(x), None, Set::empty());
    let m3 = invalidated(m2, c);
    assert(m2.contains_key(c) && m2[c].value == ValueModel::Number(x));
    assert(m3.contains_key(c) && m3[c].value == ValueModel::Number(x));
    assert(m2.dom() =~= m.dom().insert(c));
    assert(m3.dom() =~= m2.dom());
    lemma_fold_preserves(m3, order);
}

/// Idempotence: once evaluating a cell has succeeded, evaluating it again
/// with no intervening write returns the same number and records no new
/// cache write — nothing is recomputed.
pub proof fn lemma_evaluate_idempotent(m: Map<Coord, CellModel>, c: Coord)
    requires
        m.dom().finite(),
        m.contains_key(c),
        eval_ref_model(m, Map::empty(), c, Seq::empty()).0 is Ok,
    ensures
        ({
            let (r, w) = eval_ref_model(m, Map::empty(), c, Seq::empty());
            let m2 = apply_writes(m, w);
            eval_ref_model(m2, Map::empty(), c, Seq::empty()) == (r, Map::<Coord, i64>::empty())
        }),
{
    let (r, w) = eval_ref_model(m, Map::empty(), c, Seq::empty());
    let m2 = apply_writes(m, w);
    assert(m2.dom() =~= m.dom());
    match m[c].value {
        ValueModel::Number(n) => {
            assert(w =~= Map::<Coord, i64>::empty());
            assert(m2[c] == m[c]);
        },
        ValueModel::Formula(_) => {
            if m[c].evaluated {
                assert(w =~= Map::<Coord, i64>::empty());
                assert(m2[c] == m[c]);
            } else {
                match m[c].expr {
                    Some(e) => {
                        let (r1, w1) = crate::eval::eval_expr_model(
                            m,
                            Map::empty(),
                            e,
                            Seq::empty().push(c),
                        );
                        assert(r1 is Ok);
                        assert(w.contains_key(c));
                        assert(m2[c].evaluated && m2[c].value == m[c].value);
                        assert(r == Ok::<i64, crate::error::SpreadsheetError>(m2[c].cached));
                    },
                    None => {
                        assert(false);
                    },
                }
            }
        },
        ValueModel::Text(_) => {
            assert(false);
        },
        ValueModel::Empty => {
            assert(false);
        },
    }
}

} // verus!
