//! The sheet: the public API over the cell map, tying together the parser,
//! the dependency graph, and the evaluation scheduler.

use vstd::prelude::*;

use crate::cell::{CellModel, CellValue, Coord, ValueModel};
use crate::error::SpreadsheetError;
use crate::eval::{apply_writes, eval_ref_exec, eval_ref_model, stack_ok, writes_ok};
use crate::graph::{reachable_from, reaches, reaches_from};
use crate::parser::{parse, parse_formula_spec, Expr};
use crate::table::Table;

verus! {

/// The structural invariant of a sheet, as the dependency graph demands it:
/// the edges are symmetric (a coordinate is among a cell's dependents exactly
/// when that cell is among its dependencies), a cell carries a parsed tree
/// exactly while it holds a formula, the tree's references are the cell's
/// dependencies, and a non-formula cell depends on nothing.
pub open spec fn sheet_inv(m: Map<Coord, CellModel>) -> bool {
    &&& forall|a: Coord, b: Coord|
        m.contains_key(a) && m.contains_key(b) ==> (#[trigger] m[b].dependents.contains(a)
            <==> #[trigger] m[a].deps.contains(b))
    &&& forall|a: Coord, b: Coord|
        m.contains_key(a) && #[trigger] m[a].deps.contains(b) ==> m.contains_key(b)
    &&& forall|a: Coord, b: Coord|
        m.contains_key(a) && #[trigger] m[a].dependents.contains(b) ==> m.contains_key(b)
    &&& forall|c: Coord|
        #[trigger] m.contains_key(c) ==> ((m[c].value is Formula <==> m[c].expr is Some) && (match
            m[c].expr {
            Some(e) => m[c].deps == e.refs(),
            None => m[c].deps == Set::<Coord>::empty(),
        }))
}

/// The dependencies a coordinate has before a rewiring; none if it is not
/// stored.
pub open spec fn old_deps(m: Map<Coord, CellModel>, c: Coord) -> Set<Coord> {
    if m.contains_key(c) {
        m[c].deps
    } else {
        Set::empty()
    }
}

/// The sheet after storing a value for `c` (created if absent): the cell
/// holds the value and tree and is no longer evaluated; edges are untouched.
pub open spec fn stored(
    m: Map<Coord, CellModel>,
    c: Coord,
    vm: ValueModel,
    expr: Option<Expr>,
) -> Map<Coord, CellModel> {
    let base = if m.contains_key(c) {
        m[c]
    } else {
        CellModel::empty()
    };
    m.insert(c, CellModel { value: vm, expr, evaluated: false, ..base })
}

/// The sheet after rewiring the dependency edges of `c` to `nd`: `c`'s
/// dependencies become `nd`, `c` is added to the dependents of every
/// coordinate of `nd` (created as an `Empty` placeholder if absent) and
/// removed from the dependents of every dropped dependency.
pub open spec fn rewired(m: Map<Coord, CellModel>, c: Coord, nd: Set<Coord>) -> Map<
    Coord,
    CellModel,
> {
    Map::new(
        |d: Coord| m.contains_key(d) || nd.contains(d),
        |d: Coord|
            {
                let base0 = if m.contains_key(d) {
                    m[d]
                } else {
                    CellModel::empty()
                };
                let base = if d == c {
                    CellModel { deps: nd, ..base0 }
                } else {
                    base0
                };
                let dpt = if nd.contains(d) {
                    base.dependents.insert(c)
                } else if old_deps(m, c).contains(d) {
                    base.dependents.remove(c)
                } else {
                    base.dependents
                };
                CellModel { dependents: dpt, ..base }
            },
    )
}

/// The sheet after committing a value for `c`: stored, then rewired.
pub open spec fn committed(
    m: Map<Coord, CellModel>,
    c: Coord,
    vm: ValueModel,
    expr: Option<Expr>,
    nd: Set<Coord>,
) -> Map<Coord, CellModel> {
    rewired(stored(m, c, vm, expr), c, nd)
}

/// The sheet after clearing the evaluated mark of `c` and of every cell that
/// transitively depends on it.
pub open spec fn invalidated(m: Map<Coord, CellModel>, c: Coord) -> Map<Coord, CellModel> {
    Map::new(
        |d: Coord| m.contains_key(d),
        |d: Coord|
            if reaches(m, false, c, d) {
                CellModel { evaluated: false, ..m[d] }
            } else {
                m[d]
            },
    )
}

/// One recomputation step: evaluating a stored cell applies the cache writes
/// that evaluation makes; a missing cell changes nothing.
pub open spec fn recompute_step(m: Map<Coord, CellModel>, x: Coord) -> Map<Coord, CellModel> {
    if m.contains_key(x) {
        apply_writes(m, eval_ref_model(m, Map::empty(), x, Seq::empty()).1)
    } else {
        m
    }
}

/// Applying writes never changes which cells are stored.
pub proof fn lemma_apply_writes_dom(m: Map<Coord, CellModel>, w: Map<Coord, i64>)
    ensures
        apply_writes(m, w).dom() =~= m.dom(),
{
}

/// Recomputing the cells of `order` in turn, each against the sheet as the
/// ones before it left it.
pub open spec fn recompute_fold(m: Map<Coord, CellModel>, order: Seq<Coord>) -> Map<
    Coord,
    CellModel,
>
    decreases order.len(),
        when m.dom().finite()
        via recompute_fold_decreases
{
    if order.len() == 0 {
        m
    } else {
        recompute_fold(recompute_step(m, order[0]), order.subrange(1, order.len() as int))
    }
}

#[via_fn]
proof fn recompute_fold_decreases(m: Map<Coord, CellModel>, order: Seq<Coord>) {
    if order.len() > 0 {
        let x = order[0];
        if m.contains_key(x) {
            lemma_apply_writes_dom(m, eval_ref_model(m, Map::empty(), x, Seq::empty()).1);
        }
    }
}

/// Recomputation touches only the evaluated marks and caches: which cells
/// are stored, their values, trees and edges all stay.
pub proof fn lemma_fold_preserves(m: Map<Coord, CellModel>, order: Seq<Coord>)
    requires
        m.dom().finite(),
    ensures
        ({
            let m2 = recompute_fold(m, order);
            &&& m2.dom() =~= m.dom()
            &&& m2.dom().finite()
            &&& forall|x: Coord|
                #[trigger] m.contains_key(x) ==> m2[x].value == m[x].value && m2[x].expr == m[x].expr
                    && m2[x].deps == m[x].deps && m2[x].dependents == m[x].dependents
        }),
    decreases order.len(),
{
    if order.len() > 0 {
        let x = order[0];
        let m1 = recompute_step(m, x);
        if m.contains_key(x) {
            let w = eval_ref_model(m, Map::empty(), x, Seq::empty()).1;
            lemma_apply_writes_dom(m, w);
        }
        lemma_fold_preserves(m1, order.subrange(1, order.len() as int));
    }
}

/// Whether committing `e` as the formula of `c` would make `c` its own
/// ancestor: some referenced coordinate already reaches `c` along the
/// dependency edges. A formula that references `c` itself always cycles.
pub open spec fn formula_cycles(m: Map<Coord, CellModel>, c: Coord, e: Expr) -> bool {
    exists|s: Coord| #[trigger] e.refs().contains(s) && reaches(m, true, s, c)
}

/// Rewires the dependency edges of `c` to the coordinates of `refs`,
/// exactly as `rewired` describes.
fn rewire_deps(t: &mut Table, c: Coord, refs: Vec<Coord>)
    requires
        old(t).wf(),
        old(t)@.contains_key(c),
        !refs@.contains(c),
    ensures
        final(t).wf(),
        final(t)@ == rewired(old(t)@, c, Set::new(|x: Coord| refs@.contains(x))),
{
    let ghost m0 = t@;
    let ghost nd = Set::new(|x: Coord| refs@.contains(x));
    let old_list: Vec<Coord> = match t.get(c) {
        Some(cell) => crate::cell::copy_coords(&cell.dependencies),
        None => {
            proof {
                assert(false);
            }
            Vec::new()
        },
    };
    proof {
        assert(forall|x: Coord| old_list@.contains(x) <==> m0[c].deps.contains(x));
    }
    let mut i: usize = 0;
    while i < old_list.len()
        invariant
            t.wf(),
            i <= old_list@.len(),
            forall|x: Coord| old_list@.contains(x) <==> m0[c].deps.contains(x),
            forall|x: Coord| #[trigger] t@.contains_key(x) <==> m0.contains_key(x),
            forall|x: Coord|
                m0.contains_key(x) && (exists|q: int| 0 <= q < i && old_list@[q] == x)
                    ==> #[trigger] t@[x] == (CellModel {
                    dependents: m0[x].dependents.remove(c),
                    ..m0[x]
                }),
            forall|x: Coord|
                m0.contains_key(x) && !(exists|q: int| 0 <= q < i && old_list@[q] == x)
                    ==> #[trigger] t@[x] == m0[x],
        decreases old_list@.len() - i,
    {
        let d = old_list[i];
        let ghost t_pre = t@;
        if t.contains(d) {
            t.remove_dependent_edge(d, c);
            proof {
                if exists|q: int| 0 <= q < i && old_list@[q] == d {
                    assert(t_pre[d] == (CellModel {
                        dependents: m0[d].dependents.remove(c),
                        ..m0[d]
                    }));
                    assert(t_pre[d].dependents.remove(c) =~= m0[d].dependents.remove(c));
                } else {
                    assert(t_pre[d] == m0[d]);
                }
            }
        }
        proof {
            assert forall|x: Coord|
                m0.contains_key(x) && (exists|q: int| 0 <= q < i + 1 && old_list@[q] == x) implies
                #[trigger] t@[x] == (CellModel {
                dependents: m0[x].dependents.remove(c),
                ..m0[x]
            }) by {
                if x != d {
                    let q = choose|q: int| 0 <= q < i + 1 && old_list@[q] == x;
                    assert(0 <= q < i && old_list@[q] == x);
                }
            }
            assert forall|x: Coord|
                m0.contains_key(x) && !(exists|q: int| 0 <= q < i + 1 && old_list@[q] == x)
                    implies #[trigger] t@[x] == m0[x] by {
                assert(x != d);
            }
        }
        i = i + 1;
    }
    let ghost m1 = t@;
    let mut j: usize = 0;
    while j < refs.len()
        invariant
            t.wf(),
            j <= refs@.len(),
            !refs@.contains(c),
            forall|x: Coord|
                #[trigger] t@.contains_key(x) <==> m1.contains_key(x) || (exists|q: int|
                    0 <= q < j && refs@[q] == x),
            forall|x: Coord|
                (exists|q: int| 0 <= q < j && refs@[q] == x) ==> #[trigger] t@[x] == (CellModel {
                    dependents: (if m1.contains_key(x) {
                        m1[x]
                    } else {
                        CellModel::empty()
                    }).dependents.insert(c),
                    ..(if m1.contains_key(x) {
                        m1[x]
                    } else {
                        CellModel::empty()
                    })
                }),
            forall|x: Coord|
                m1.contains_key(x) && !(exists|q: int| 0 <= q < j && refs@[q] == x)
                    ==> #[trigger] t@[x] == m1[x],
        decreases refs@.len() - j,
    {
        let d = refs[j];
        let ghost t_pre = t@;
        t.insert_empty(d);
        t.add_dependent_edge(d, c);
        proof {
            let ghost base = if m1.contains_key(d) {
                m1[d]
            } else {
                CellModel::empty()
            };
            if exists|q: int| 0 <= q < j && refs@[q] == d {
                assert(t_pre[d] == (CellModel {
                    dependents: base.dependents.insert(c),
                    ..base
                }));
                assert(t_pre[d].dependents.insert(c) =~= base.dependents.insert(c));
            }
            assert forall|x: Coord|
                (exists|q: int| 0 <= q < j + 1 && refs@[q] == x) implies #[trigger] t@[x]
                == (CellModel {
                dependents: (if m1.contains_key(x) {
                    m1[x]
                } else {
                    CellModel::empty()
                }).dependents.insert(c),
                ..(if m1.contains_key(x) {
                    m1[x]
                } else {
                    CellModel::empty()
                })
            }) by {
                if x != d {
                    let q = choose|q: int| 0 <= q < j + 1 && refs@[q] == x;
                    assert(0 <= q < j && refs@[q] == x);
                }
            }
            assert forall|x: Coord|
                m1.contains_key(x) && !(exists|q: int| 0 <= q < j + 1 && refs@[q] == x) implies
                #[trigger] t@[x] == m1[x] by {
                assert(x != d);
            }
            assert forall|x: Coord|
                #[trigger] t@.contains_key(x) <==> m1.contains_key(x) || (exists|q: int|
                    0 <= q < j + 1 && refs@[q] == x) by {
                if t@.contains_key(x) && !m1.contains_key(x) && x == d {
                    assert(refs@[j as int] == x);
                }
            }
        }
        j = j + 1;
    }
    let ghost m2 = t@;
    t.set_deps(c, refs);
    proof {
        assert forall|x: Coord|
            #[trigger] t@.contains_key(x) <==> rewired(m0, c, nd).contains_key(x) by {
            if nd.contains(x) {
                let q = choose|q: int| 0 <= q < refs@.len() && refs@[q] == x;
                assert(0 <= q < refs@.len() && refs@[q] == x);
            }
            if t@.contains_key(x) && !m1.contains_key(x) {
                assert(exists|q: int| 0 <= q < refs@.len() && refs@[q] == x);
            }
        }
        assert forall|x: Coord| #[trigger] t@.contains_key(x) implies t@[x] == rewired(
            m0,
            c,
            nd,
        )[x] by {
            if nd.contains(x) {
                assert(refs@.contains(x));
                assert(exists|q: int| 0 <= q < refs@.len() && refs@[q] == x);
            } else {
                assert(!refs@.contains(x));
                assert(!(exists|q: int| 0 <= q < refs@.len() && refs@[q] == x));
            }
            if x == c {
                assert(!nd.contains(c));
                if m0[c].deps.contains(c) {
                    assert(old_list@.contains(c));
                    assert(m1[c] == (CellModel {
                        dependents: m0[c].dependents.remove(c),
                        ..m0[c]
                    }));
                } else {
                    assert(!old_list@.contains(c));
                    assert(m1[c] == m0[c]);
                }
                assert(m2[c] == m1[c]);
            } else {
                if nd.contains(x) {
                    if m0.contains_key(x) {
                        if m0[c].deps.contains(x) {
                            assert(old_list@.contains(x));
                            assert(m1[x] == (CellModel {
                                dependents: m0[x].dependents.remove(c),
                                ..m0[x]
                            }));
                            assert(m0[x].dependents.remove(c).insert(c) =~= m0[x].dependents.insert(
                                c,
                            ));
                        } else {
                            assert(!old_list@.contains(x));
                            assert(m1[x] == m0[x]);
                        }
                    } else {
                        assert(!m1.contains_key(x));
                    }
                } else {
                    if m0[c].deps.contains(x) {
                        assert(old_list@.contains(x));
                    } else {
                        assert(!old_list@.contains(x));
                    }
                }
            }
        }
        assert(t@ =~= rewired(m0, c, nd));
    }
}

/// Two sheets with the same cells, values, trees and edges satisfy the
/// invariant together; only evaluated marks and caches may differ.
pub proof fn lemma_inv_transfer(m: Map<Coord, CellModel>, m2: Map<Coord, CellModel>)
    requires
        sheet_inv(m),
        forall|x: Coord| #[trigger] m2.contains_key(x) <==> m.contains_key(x),
        forall|x: Coord|
            #[trigger] m.contains_key(x) ==> m2[x].value == m[x].value && m2[x].expr == m[x].expr
                && m2[x].deps == m[x].deps && m2[x].dependents == m[x].dependents,
    ensures
        sheet_inv(m2),
{
}

/// Committing a coherent value keeps the sheet invariant: the new edges are
/// exactly the formula's references, and both edge directions are updated
/// together.
pub proof fn lemma_committed_inv(
    m: Map<Coord, CellModel>,
    c: Coord,
    vm: ValueModel,
    expr: Option<Expr>,
    nd: Set<Coord>,
)
    requires
        sheet_inv(m),
        !nd.contains(c),
        match expr {
            Some(e) => (vm is Formula) && nd == e.refs(),
            None => !(vm is Formula) && nd == Set::<Coord>::empty(),
        },
    ensures
        sheet_inv(committed(m, c, vm, expr, nd)),
{
    let m2 = committed(m, c, vm, expr, nd);
    assert forall|a: Coord, b: Coord| m2.contains_key(a) && m2.contains_key(b) implies (
    #[trigger] m2[b].dependents.contains(a) <==> #[trigger] m2[a].deps.contains(b)) by {
        if a == c {
            assert(m2[c].deps == nd);
        } else {
            if m.contains_key(a) {
                assert(m2[a].deps == m[a].deps);
            } else {
                assert(m2[a].deps == Set::<Coord>::empty());
            }
        }
    }
    assert forall|a: Coord, b: Coord|
        m2.contains_key(a) && #[trigger] m2[a].deps.contains(b) implies m2.contains_key(b) by {
        if a != c && m.contains_key(a) {
            assert(m[a].deps.contains(b));
        }
    }
    assert forall|a: Coord, b: Coord|
        m2.contains_key(a) && #[trigger] m2[a].dependents.contains(b) implies m2.contains_key(
        b,
    ) by {
        if m.contains_key(a) {
            if b != c && m[a].dependents.contains(b) {
                assert(m.contains_key(b));
            }
        }
    }
}

/// Clears the evaluated mark of `c` and of every transitive dependent,
/// exactly as `invalidated` describes.
fn invalidate_reachable(t: &mut Table, c: Coord)
    requires
        old(t).wf(),
    ensures
        final(t).wf(),
        final(t)@ == invalidated(old(t)@, c),
{
    let ghost m0 = t@;
    let mut startv: Vec<Coord> = Vec::new();
    startv.push(c);
    proof {
        assert(startv@ =~= seq![c]);
        assert(startv@[0] == c);
        assert(startv@.contains(c));
        assert(forall|x: Coord| #[trigger] startv@.contains(x) ==> x == c);
    }
    let list = reachable_from(t, &startv, false);
    proof {
        assert forall|x: Coord| #[trigger] list@.contains(x) <==> reaches(m0, false, c, x) by {
            if reaches_from(m0, false, startv@, x) {
                let s = choose|s: Coord| #[trigger] startv@.contains(s) && reaches(m0, false, s, x);
            }
            if reaches(m0, false, c, x) {
                assert(reaches_from(m0, false, startv@, x));
            }
        }
    }
    let mut k: usize = 0;
    while k < list.len()
        invariant
            t.wf(),
            k <= list@.len(),
            forall|x: Coord| #[trigger] list@.contains(x) <==> reaches(m0, false, c, x),
            forall|x: Coord| #[trigger] t@.contains_key(x) <==> m0.contains_key(x),
            forall|x: Coord|
                m0.contains_key(x) && (exists|q: int| 0 <= q < k && list@[q] == x)
                    ==> #[trigger] t@[x] == (CellModel { evaluated: false, ..m0[x] }),
            forall|x: Coord|
                m0.contains_key(x) && !(exists|q: int| 0 <= q < k && list@[q] == x)
                    ==> #[trigger] t@[x] == m0[x],
        decreases list@.len() - k,
    {
        let x = list[k];
        let ghost t_pre = t@;
        if t.contains(x) {
            t.clear_evaluated(x);
            proof {
                if exists|q: int| 0 <= q < k && list@[q] == x {
                    assert(t_pre[x] == (CellModel { evaluated: false, ..m0[x] }));
                } else {
                    assert(t_pre[x] == m0[x]);
                }
            }
        }
        proof {
            assert forall|y: Coord|
                m0.contains_key(y) && (exists|q: int| 0 <= q < k + 1 && list@[q] == y) implies
                #[trigger] t@[y] == (CellModel { evaluated: false, ..m0[y] }) by {
                if y != x {
                    let q = choose|q: int| 0 <= q < k + 1 && list@[q] == y;
                    assert(0 <= q < k && list@[q] == y);
                }
            }
            assert forall|y: Coord|
                m0.contains_key(y) && !(exists|q: int| 0 <= q < k + 1 && list@[q] == y) implies
                #[trigger] t@[y] == m0[y] by {
                assert(y != x);
            }
        }
        k = k + 1;
    }
    proof {
        assert forall|x: Coord| #[trigger] t@.contains_key(x) implies t@[x] == invalidated(
            m0,
            c,
        )[x] by {
            if reaches(m0, false, c, x) {
                assert(list@.contains(x));
                assert(exists|q: int| 0 <= q < list@.len() && list@[q] == x);
            } else {
                assert(!list@.contains(x));
                assert(!(exists|q: int| 0 <= q < list@.len() && list@[q] == x));
            }
        }
        assert(t@ =~= invalidated(m0, c));
    }
}

/// Evaluates each listed cell in turn, exactly as `recompute_fold`
/// describes; a cell whose recomputation fails is simply left unevaluated
/// and the walk goes on.
fn recompute_list(t: &mut Table, list: &Vec<Coord>)
    requires
        old(t).wf(),
    ensures
        final(t).wf(),
        final(t)@ == recompute_fold(old(t)@, list@),
{
    let ghost m0 = t@;
    proof {
        t.lemma_dom_finite();
    }
    let n = list.len();
    proof {
        assert(list@.subrange(0, n as int) =~= list@);
    }
    let mut k: usize = 0;
    while k < n
        invariant
            t.wf(),
            k <= n,
            n == list@.len(),
            t@.dom().finite(),
            recompute_fold(m0, list@) == recompute_fold(t@, list@.subrange(k as int, n as int)),
        decreases n - k,
    {
        let x = list[k];
        let ghost mk = t@;
        if t.contains(x) {
            let mut stack: Vec<Coord> = Vec::new();
            proof {
                assert(t@ =~= apply_writes(mk, Map::<Coord, i64>::empty()));
                assert(stack_ok(mk, stack@));
                assert(writes_ok(mk, Map::<Coord, i64>::empty()));
            }
            let _ = eval_ref_exec(t, x, &mut stack, Ghost(mk), Ghost(Map::empty()));
            proof {
                let w2 = eval_ref_model(mk, Map::empty(), x, Seq::empty()).1;
                assert(t@ == recompute_step(mk, x));
                lemma_apply_writes_dom(mk, w2);
                assert(t@.dom() =~= mk.dom());
            }
        } else {
            proof {
                assert(t@ == recompute_step(mk, x));
            }
        }
        proof {
            let rest = list@.subrange(k as int, n as int);
            assert(rest[0] == x);
            assert(rest.subrange(1, rest.len() as int) =~= list@.subrange(k + 1 as int, n as int));
            assert(recompute_fold(mk, rest) == recompute_fold(t@, list@.subrange(k + 1 as int, n as int)));
        }
        k = k + 1;
    }
    proof {
        assert(list@.subrange(n as int, n as int) =~= Seq::<Coord>::empty());
        assert(recompute_fold(t@, Seq::<Coord>::empty()) == t@);
    }
}

/// A spreadsheet: the sole owner of the mapping from coordinates to cells.
pub struct Spreadsheet {
    cells: Table,
}

impl Spreadsheet {
    /// The mathematical content of the sheet.
    pub closed spec fn view(self) -> Map<Coord, CellModel> {
        self.cells.view()
    }

    /// Representation well-formedness, established by `new` and preserved by
    /// every operation.
    pub closed spec fn wf(self) -> bool {
        self.cells.wf()
    }

    /// The sheet's domain is always finite.
    pub proof fn lemma_dom_finite(self)
        ensures
            self.view().dom().finite(),
    {
        self.cells.lemma_dom_finite();
    }

    /// An empty sheet.
    pub fn new() -> (r: Spreadsheet)
        ensures
            r.wf(),
            r.view() =~= Map::<Coord, CellModel>::empty(),
            sheet_inv(r.view()),
    {
        let r = Spreadsheet { cells: Table::new() };
        proof {
            assert(r.view() =~= Map::<Coord, CellModel>::empty());
        }
        r
    }

    /// Reads the stored value of a cell without triggering any
    /// recomputation; `None` exactly when no cell is stored there.
    pub fn get_cell_value(&self, row: usize, col: usize) -> (r: Option<&CellValue>)
        requires
            self.wf(),
        ensures
            ({
                let c = Coord { row, col };
                match r {
                    Some(v) => self.view().contains_key(c) && v@ == self.view()[c].value,
                    None => !self.view().contains_key(c),
                }
            }),
    {
        match self.cells.get(Coord { row, col }) {
            Some(cell) => Some(&cell.value),
            None => None,
        }
    }

    /// Evaluates the cell at (`row`, `col`): a number is itself, an already
    /// evaluated formula answers from its cache, an unevaluated formula is
    /// computed recursively — caching every formula cell computed along the
    /// way — and text, empty and missing referenced cells fail. Only
    /// evaluated marks and caches change; every stored value, tree and edge
    /// stays, so a failed evaluation corrupts nothing.
    pub fn evaluate_cell(&mut self, row: usize, col: usize) -> (r: Result<i64, SpreadsheetError>)
        requires
            old(self).wf(),
        ensures
            final(self).wf(),
            ({
                let c = Coord { row, col };
                let m = old(self).view();
                if m.contains_key(c) {
                    let (rr, w2) = eval_ref_model(m, Map::empty(), c, Seq::empty());
                    r == rr && final(self).view() == apply_writes(m, w2)
                } else {
                    r == Err::<i64, SpreadsheetError>(SpreadsheetError::CellNotFound) && final(self).view() == m
                }
            }),
            forall|x: Coord|
                #[trigger] final(self).view().contains_key(x)
                    <==> old(self).view().contains_key(x),
            ({
                let m0 = old(self).view();
                let m1 = final(self).view();
                forall|x: Coord|
                    #[trigger] m0.contains_key(x) ==> m1[x].value == m0[x].value && m1[x].expr
                        == m0[x].expr && m1[x].deps == m0[x].deps && m1[x].dependents
                        == m0[x].dependents
            }),
            sheet_inv(old(self).view()) ==> sheet_inv(final(self).view()),
    {
        let c = Coord { row, col };
        let ghost m = self.view();
        proof {
            self.cells.lemma_dom_finite();
        }
        if !self.cells.contains(c) {
            return Err(SpreadsheetError::CellNotFound);
        }
        let mut stack: Vec<Coord> = Vec::new();
        proof {
            assert(self.cells.view() =~= apply_writes(m, Map::empty()));
            assert(stack_ok(m, stack@));
            assert(writes_ok(m, Map::<Coord, i64>::empty()));
        }
        let r = eval_ref_exec(&mut self.cells, c, &mut stack, Ghost(m), Ghost(Map::empty()));
        proof {
            let w2 = eval_ref_model(m, Map::empty(), c, Seq::empty()).1;
            let m1 = self.view();
            assert(m1 == apply_writes(m, w2));
            assert forall|x: Coord| #[trigger] m.contains_key(x) implies m1[x].value == m[x].value
                && m1[x].expr == m[x].expr && m1[x].deps == m[x].deps && m1[x].dependents
                == m[x].dependents by {}
            if sheet_inv(m) {
                assert(sheet_inv(m1));
            }
        }
        r
    }

    /// Stores a value at (`row`, `col`), creating the cell if needed.
    ///
    /// A formula is parsed once, here; a parse failure rejects the write with
    /// `InvalidFormula` and leaves the sheet exactly as it was. If committing
    /// the formula's references would make the cell its own ancestor, the
    /// write is rejected with `CircularDependency`, again leaving the sheet
    /// untouched. Otherwise the value is committed, the dependency edges are
    /// rewired symmetrically, the cell and every transitive dependent lose
    /// their cached results, and the dependents are recomputed in turn, a
    /// failure touching only its own cell.
    pub fn set_cell(&mut self, row: usize, col: usize, value: CellValue) -> (r: Result<
        (),
        SpreadsheetError,
    >)
        requires
            old(self).wf(),
        ensures
            final(self).wf(),
            ({
                let c = Coord { row, col };
                let m = old(self).view();
                let mf = final(self).view();
                match value {
                    CellValue::Formula(src) => match parse_formula_spec(src@) {
                        None => (r matches Err(SpreadsheetError::InvalidFormula(d)) && d@
                            == crate::parser::formula_err_detail(src@)) && mf == m,
                        Some(e) => if formula_cycles(m, c, e) {
                            r == Err::<(), SpreadsheetError>(SpreadsheetError::CircularDependency)
                                && mf == m
                        } else {
                            ({
                                let m3 = invalidated(
                                    committed(m, c, ValueModel::Formula(src@), Some(e), e.refs()),
                                    c,
                                );
                                r == Ok::<(), SpreadsheetError>(()) && mf.contains_key(c)
                                    && mf[c].value == ValueModel::Formula(src@) && mf[c].expr
                                    == Some(e) && mf[c].deps == e.refs() && (exists|
                                    order: Seq<Coord>,
                                |
                                    {
                                        &&& order.no_duplicates()
                                        &&& (forall|x: Coord|
                                            order.contains(x) <==> (reaches(m3, false, c, x) && x
                                                != c))
                                        &&& mf == #[trigger] recompute_fold(m3, order)
                                    })
                            })
                        },
                    },
                    _ => ({
                        let m3 = invalidated(committed(m, c, value@, None, Set::empty()), c);
                        r == Ok::<(), SpreadsheetError>(()) && mf.contains_key(c) && mf[c].value
                            == value@ && mf[c].expr is None && mf[c].deps == Set::<Coord>::empty()
                            && (exists|order: Seq<Coord>|
                            {
                                &&& order.no_duplicates()
                                &&& (forall|x: Coord|
                                    order.contains(x) <==> (reaches(m3, false, c, x) && x != c))
                                &&& mf == #[trigger] recompute_fold(m3, order)
                            })
                    }),
                }
            }),
            sheet_inv(old(self).view()) ==> sheet_inv(final(self).view()),
    {
        let c = Coord { row, col };
        let ghost m = self.view();
        proof {
            self.cells.lemma_dom_finite();
        }
        match value {
            CellValue::Formula(src) => {
                let parsed = parse(src.as_str());
                match parsed {
                    Err(er) => Err(er),
                    Ok((e, refs)) => {
                        let ghost srcv = src@;
                        let ghost ev = e;
                        let ghost refsv = refs@;
                        let reach = reachable_from(&self.cells, &refs, true);
                        if crate::cell::coords_contain(&reach, c) {
                            proof {
                                let s0 = choose|s0: Coord|
                                    #[trigger] refsv.contains(s0) && reaches(m, true, s0, c);
                                assert(ev.refs().contains(s0));
                                assert(formula_cycles(m, c, ev));
                            }
                            return Err(SpreadsheetError::CircularDependency);
                        }
                        proof {
                            if formula_cycles(m, c, ev) {
                                let s0 = choose|s0: Coord|
                                    #[trigger] ev.refs().contains(s0) && reaches(m, true, s0, c);
                                assert(refsv.contains(s0));
                                assert(reaches_from(m, true, refsv, c));
                                assert(false);
                            }
                            if refsv.contains(c) {
                                crate::graph::lemma_reaches_self(m, true, c);
                                assert(reaches_from(m, true, refsv, c));
                                assert(false);
                            }
                        }
                        self.cells.insert_empty(c);
                        self.cells.set_formula(c, src, e);
                        proof {
                            assert(self.cells.view() =~= stored(
                                m,
                                c,
                                ValueModel::Formula(srcv),
                                Some(ev),
                            ));
                        }
                        rewire_deps(&mut self.cells, c, refs);
                        let ghost nd = Set::new(|x: Coord| refsv.contains(x));
                        proof {
                            assert(nd =~= ev.refs());
                            assert(self.cells.view() == committed(
                                m,
                                c,
                                ValueModel::Formula(srcv),
                                Some(ev),
                                ev.refs(),
                            ));
                        }
                        self.finish_write(
                            c,
                            Ghost(committed(m, c, ValueModel::Formula(srcv), Some(ev), ev.refs())),
                        );
                        proof {
                            if sheet_inv(m) {
                                lemma_committed_inv(
                                    m,
                                    c,
                                    ValueModel::Formula(srcv),
                                    Some(ev),
                                    ev.refs(),
                                );
                            }
                        }
                        Ok(())
                    },
                }
            },
            other => {
                let ghost vm = other@;
                self.cells.insert_empty(c);
                self.cells.set_plain(c, other);
                proof {
                    assert(self.cells.view() =~= stored(m, c, vm, None));
                }
                rewire_deps(&mut self.cells, c, Vec::new());
                proof {
                    assert(Set::new(|x: Coord| Seq::<Coord>::empty().contains(x)) =~= Set::<
                        Coord,
                    >::empty());
                    assert(self.cells.view() == committed(m, c, vm, None, Set::empty()));
                }
                self.finish_write(c, Ghost(committed(m, c, vm, None, Set::empty())));
                proof {
                    if sheet_inv(m) {
                        lemma_committed_inv(m, c, vm, None, Set::empty());
                    }
                }
                Ok(())
            },
        }
    }

    /// The shared tail of every write: invalidates the transitive dependents
    /// of `c` and recomputes them, leaving the sheet at `recompute_fold` of
    /// the invalidated state for some duplicate-free ordering of exactly
    /// those dependents.
    fn finish_write(&mut self, c: Coord, Ghost(m2): Ghost<Map<Coord, CellModel>>)
        requires
            old(self).wf(),
            old(self).view() == m2,
        ensures
            final(self).wf(),
            ({
                let m3 = invalidated(m2, c);
                let mf = final(self).view();
                exists|order: Seq<Coord>|
                    {
                        &&& order.no_duplicates()
                        &&& (forall|x: Coord|
                            order.contains(x) <==> (reaches(m3, false, c, x) && x != c))
                        &&& mf == #[trigger] recompute_fold(m3, order)
                    }
            }),
            forall|x: Coord| #[trigger] final(self).view().contains_key(x) <==> m2.contains_key(x),
            ({
                let mf = final(self).view();
                forall|x: Coord|
                    #[trigger] m2.contains_key(x) ==> mf[x].value == m2[x].value && mf[x].expr
                        == m2[x].expr && mf[x].deps == m2[x].deps && mf[x].dependents
                        == m2[x].dependents
            }),
            sheet_inv(m2) ==> sheet_inv(final(self).view()),
    {
        let ghost m3 = invalidated(m2, c);
        invalidate_reachable(&mut self.cells, c);
        let mut startv: Vec<Coord> = Vec::new();
        startv.push(c);
        proof {
            assert(startv@ =~= seq![c]);
            assert(startv@[0] == c);
            assert(startv@.contains(c));
            assert(forall|x: Coord| #[trigger] startv@.contains(x) ==> x == c);
        }
        let order_full = reachable_from(&self.cells, &startv, false);
        proof {
            assert forall|x: Coord| #[trigger] order_full@.contains(x) <==> reaches(
                m3,
                false,
                c,
                x,
            ) by {
                if reaches_from(m3, false, startv@, x) {
                    let s = choose|s: Coord|
                        #[trigger] startv@.contains(s) && reaches(m3, false, s, x);
                }
                if reaches(m3, false, c, x) {
                    assert(reaches_from(m3, false, startv@, x));
                }
            }
        }
        let order = crate::cell::remove_coord(&order_full, c);
        proof {
            self.cells.lemma_dom_finite();
        }
        recompute_list(&mut self.cells, &order);
        proof {
            assert(order@.no_duplicates());
            assert(forall|x: Coord|
                order@.contains(x) <==> (reaches(m3, false, c, x) && x != c));
            assert(final(self).view() == recompute_fold(m3, order@));
            self.cells.lemma_dom_finite();
            assert(m3.dom() =~= m2.dom());
            lemma_fold_preserves(m3, order@);
            if sheet_inv(m2) {
                lemma_inv_transfer(m2, m3);
                lemma_inv_transfer(m3, recompute_fold(m3, order@));
            }
        }
    }
}

} // verus!
