//! The evaluation scheduler and expression evaluator.
//!
//! Evaluation of one cell is modelled by a pair of mutually recursive spec
//! functions that thread the set of cache writes made along the way: a write
//! records that a formula cell was computed during this pass and which number
//! it produced. The executable evaluator mirrors the model exactly, so the
//! result and the final sheet state of `evaluate_cell` are pinned for every
//! input.

use vstd::prelude::*;

use crate::cell::{CellModel, Coord, ValueModel};
use crate::error::SpreadsheetError;
use crate::parser::{clone_expr, BinOp, Expr};
use crate::table::Table;

verus! {

/// The ceiling on the depth of formula-to-formula recursion during one
/// evaluation: a dependency chain deeper than this fails with
/// `RecursionLimitExceeded` rather than exhausting the call stack.
pub const MAX_EVAL_DEPTH: usize = 256;

/// What one arithmetic operator returns: division by zero and results outside
/// the `i64` range fail, everything else is exact integer arithmetic.
pub open spec fn apply_op(op: BinOp, a: i64, b: i64) -> Result<i64, SpreadsheetError> {
    match op {
        BinOp::Add => match a.checked_add(b) {
            Some(v) => Ok(v),
            None => Err(SpreadsheetError::NumericOverflow),
        },
        BinOp::Sub => match a.checked_sub(b) {
            Some(v) => Ok(v),
            None => Err(SpreadsheetError::NumericOverflow),
        },
        BinOp::Mul => match a.checked_mul(b) {
            Some(v) => Ok(v),
            None => Err(SpreadsheetError::NumericOverflow),
        },
        BinOp::Div => if b == 0 {
            Err(SpreadsheetError::DivisionByZero)
        } else {
            match a.checked_div(b) {
                Some(v) => Ok(v),
                None => Err(SpreadsheetError::NumericOverflow),
            }
        },
    }
}

/// Executable arithmetic, exactly `apply_op`.
pub fn apply_op_exec(op: BinOp, a: i64, b: i64) -> (r: Result<i64, SpreadsheetError>)
    ensures
        r == apply_op(op, a, b),
{
    match op {
        BinOp::Add => match a.checked_add(b) {
            Some(v) => Ok(v),
            None => Err(SpreadsheetError::NumericOverflow),
        },
        BinOp::Sub => match a.checked_sub(b) {
            Some(v) => Ok(v),
            None => Err(SpreadsheetError::NumericOverflow),
        },
        BinOp::Mul => match a.checked_mul(b) {
            Some(v) => Ok(v),
            None => Err(SpreadsheetError::NumericOverflow),
        },
        BinOp::Div => if b == 0 {
            Err(SpreadsheetError::DivisionByZero)
        } else {
            match a.checked_div(b) {
                Some(v) => Ok(v),
                None => Err(SpreadsheetError::NumericOverflow),
            }
        },
    }
}

/// A cell model after a cache write of `v`.
pub open spec fn cache_write(cm: CellModel, v: i64) -> CellModel {
    CellModel { evaluated: true, cached: v, ..cm }
}

/// The sheet `m` with the cache writes `w` applied.
pub open spec fn apply_writes(m: Map<Coord, CellModel>, w: Map<Coord, i64>) -> Map<
    Coord,
    CellModel,
> {
    Map::new(
        |c: Coord| m.contains_key(c),
        |c: Coord|
            if w.contains_key(c) {
                cache_write(m[c], w[c])
            } else {
                m[c]
            },
    )
}

/// Cache writes only ever target stored, unevaluated formula cells.
pub open spec fn writes_ok(m: Map<Coord, CellModel>, w: Map<Coord, i64>) -> bool {
    forall|c: Coord|
        #[trigger] w.contains_key(c) ==> m.contains_key(c) && m[c].value is Formula
            && !m[c].evaluated
}

/// The visitation stack is duplicate-free and stays within the sheet.
pub open spec fn stack_ok(m: Map<Coord, CellModel>, stack: Seq<Coord>) -> bool {
    &&& m.dom().finite()
    &&& stack.no_duplicates()
    &&& forall|x: Coord| #[trigger] stack.contains(x) ==> m.contains_key(x)
}

/// How many stored cells are not yet on the visitation stack; the termination
/// measure of evaluation.
pub open spec fn unvisited(m: Map<Coord, CellModel>, stack: Seq<Coord>) -> nat {
    m.dom().difference(stack.to_set()).len()
}

/// Pushing a stored, unvisited coordinate strictly shrinks the measure.
pub proof fn lemma_unvisited_push(m: Map<Coord, CellModel>, stack: Seq<Coord>, c: Coord)
    requires
        m.dom().finite(),
        m.contains_key(c),
        !stack.contains(c),
    ensures
        unvisited(m, stack.push(c)) < unvisited(m, stack),
{
    let s1 = m.dom().difference(stack.to_set());
    let s2 = m.dom().difference(stack.push(c).to_set());
    crate::cell::lemma_push_contains(stack, c);
    assert(s2 =~= s1.remove(c));
    vstd::set_lib::lemma_len_subset(s1, m.dom());
    assert(s1.contains(c));
    vstd::set::axiom_set_remove_len(s1, c);
}

/// Pushing a stored, unvisited coordinate keeps the stack well-formed.
pub proof fn lemma_stack_push_ok(m: Map<Coord, CellModel>, stack: Seq<Coord>, c: Coord)
    requires
        stack_ok(m, stack),
        m.contains_key(c),
        !stack.contains(c),
    ensures
        stack_ok(m, stack.push(c)),
        unvisited(m, stack.push(c)) < unvisited(m, stack),
{
    crate::cell::lemma_push_contains(stack, c);
    assert forall|i: int, j: int|
        0 <= i < stack.push(c).len() && 0 <= j < stack.push(c).len() && i != j implies stack.push(
        c,
    )[i] != stack.push(c)[j] by {
        if i < stack.len() && j < stack.len() {
        } else if j == stack.len() {
            assert(stack.push(c)[i] == stack[i]);
            if stack[i] == c {
                assert(stack.contains(c));
            }
        } else {
            assert(stack.push(c)[j] == stack[j]);
            if stack[j] == c {
                assert(stack.contains(c));
            }
        }
    }
    assert(stack.push(c).no_duplicates());
    assert forall|x: Coord| #[trigger] stack.push(c).contains(x) implies m.contains_key(x) by {
        if x != c {
            assert(stack.contains(x));
        }
    }
    lemma_unvisited_push(m, stack, c);
}

/// Evaluating a reference to coordinate `c` in sheet `m` after the cache
/// writes `w`, with `stack` the chain of formula cells currently being
/// computed. Yields the result and the extended cache writes.
///
/// A missing or non-numeric cell fails with `NonNumericOperand`; a cell on
/// the stack is a runtime cycle; a formula already computed (cached earlier
/// or written this pass) yields its cache; otherwise the formula's tree is
/// evaluated and the result recorded.
pub open spec fn eval_ref_model(
    m: Map<Coord, CellModel>,
    w: Map<Coord, i64>,
    c: Coord,
    stack: Seq<Coord>,
) -> (Result<i64, SpreadsheetError>, Map<Coord, i64>)
    decreases unvisited(m, stack), 0nat, 0nat,
        when stack_ok(m, stack)
        via eval_ref_model_decreases
{
    if !m.contains_key(c) {
        (Err(SpreadsheetError::NonNumericOperand(c)), w)
    } else if w.contains_key(c) {
        (Ok(w[c]), w)
    } else {
        let cm = m[c];
        match cm.value {
            ValueModel::Number(n) => (Ok(n), w),
            ValueModel::Text(_) => (Err(SpreadsheetError::NonNumericOperand(c)), w),
            ValueModel::Empty => (Err(SpreadsheetError::NonNumericOperand(c)), w),
            ValueModel::Formula(_) => {
                if cm.evaluated {
                    (Ok(cm.cached), w)
                } else if stack.contains(c) {
                    (Err(SpreadsheetError::CircularDependency), w)
                } else if stack.len() >= MAX_EVAL_DEPTH {
                    (Err(SpreadsheetError::RecursionLimitExceeded), w)
                } else {
                    match cm.expr {
                        Some(e) => {
                            let (r, w1) = eval_expr_model(m, w, e, stack.push(c));
                            match r {
                                Ok(v) => (Ok(v), w1.insert(c, v)),
                                Err(er) => (Err(er), w1),
                            }
                        },
                        None => (Err(SpreadsheetError::NonNumericOperand(c)), w),
                    }
                }
            },
        }
    }
}

#[via_fn]
proof fn eval_ref_model_decreases(
    m: Map<Coord, CellModel>,
    w: Map<Coord, i64>,
    c: Coord,
    stack: Seq<Coord>,
) {
    if m.contains_key(c) && !stack.contains(c) {
        lemma_unvisited_push(m, stack, c);
        crate::cell::lemma_push_contains(stack, c);
    }
}

/// Evaluating an expression tree against sheet `m` after the cache writes
/// `w`: literals are themselves, references go through `eval_ref_model`
/// (threading the writes left to right), and operators combine the sides with
/// `apply_op`.
pub open spec fn eval_expr_model(
    m: Map<Coord, CellModel>,
    w: Map<Coord, i64>,
    e: Expr,
    stack: Seq<Coord>,
) -> (Result<i64, SpreadsheetError>, Map<Coord, i64>)
    decreases unvisited(m, stack), 1nat, e.height(),
        when stack_ok(m, stack)
{
    match e {
        Expr::Num(n) => (Ok(n), w),
        Expr::Ref(d) => eval_ref_model(m, w, d, stack),
        Expr::Bin(op, l, r) => {
            let (rl, w1) = eval_expr_model(m, w, *l, stack);
            match rl {
                Err(er) => (Err(er), w1),
                Ok(a) => {
                    let (rr, w2) = eval_expr_model(m, w1, *r, stack);
                    match rr {
                        Err(er) => (Err(er), w2),
                        Ok(b) => (apply_op(op, a, b), w2),
                    }
                },
            }
        },
    }
}

/// Evaluation only adds cache writes, and keeps them valid.
pub proof fn lemma_eval_ref_writes(
    m: Map<Coord, CellModel>,
    w: Map<Coord, i64>,
    c: Coord,
    stack: Seq<Coord>,
)
    requires
        stack_ok(m, stack),
        writes_ok(m, w),
    ensures
        ({
            let (r, w2) = eval_ref_model(m, w, c, stack);
            writes_ok(m, w2) && (forall|x: Coord|
                #[trigger] w.contains_key(x) ==> w2.contains_key(x) && w2[x] == w[x]) && (forall|
                x: Coord,
            |
                #[trigger] w2.contains_key(x) ==> w.contains_key(x) || !stack.contains(x))
        }),
    decreases unvisited(m, stack), 0nat,
{
    if m.contains_key(c) && !w.contains_key(c) {
        let cm = m[c];
        if cm.value is Formula && !cm.evaluated && !stack.contains(c) && stack.len()
            < MAX_EVAL_DEPTH {
            match cm.expr {
                Some(e) => {
                    lemma_stack_push_ok(m, stack, c);
                    lemma_eval_expr_writes(m, w, e, stack.push(c));
                    crate::cell::lemma_push_contains(stack, c);
                },
                None => {},
            }
        }
    }
}

/// Companion to `lemma_eval_ref_writes` for expression trees.
pub proof fn lemma_eval_expr_writes(
    m: Map<Coord, CellModel>,
    w: Map<Coord, i64>,
    e: Expr,
    stack: Seq<Coord>,
)
    requires
        stack_ok(m, stack),
        writes_ok(m, w),
    ensures
        ({
            let (r, w2) = eval_expr_model(m, w, e, stack);
            writes_ok(m, w2) && (forall|x: Coord|
                #[trigger] w.contains_key(x) ==> w2.contains_key(x) && w2[x] == w[x]) && (forall|
                x: Coord,
            |
                #[trigger] w2.contains_key(x) ==> w.contains_key(x) || !stack.contains(x))
        }),
    decreases unvisited(m, stack), 1nat, e.height(),
{
    match e {
        Expr::Num(_) => {},
        Expr::Ref(d) => {
            lemma_eval_ref_writes(m, w, d, stack);
        },
        Expr::Bin(op, l, r) => {
            lemma_eval_expr_writes(m, w, *l, stack);
            let (rl, w1) = eval_expr_model(m, w, *l, stack);
            if rl is Ok {
                lemma_eval_expr_writes(m, w1, *r, stack);
            }
        },
    }
}

/// Which step the read phase of `eval_ref_exec` decided on.
enum Step {
    Done(Result<i64, SpreadsheetError>),
    Recurse(Expr),
}

/// Evaluates the cell at `c`, mirroring `eval_ref_model`; `m` is the sheet as
/// it stood when the top-level evaluation began and `w` the cache writes made
/// since.
pub fn eval_ref_exec(
    t: &mut Table,
    c: Coord,
    stack: &mut Vec<Coord>,
    Ghost(m): Ghost<Map<Coord, CellModel>>,
    Ghost(w): Ghost<Map<Coord, i64>>,
) -> (r: Result<i64, SpreadsheetError>)
    requires
        old(t).wf(),
        old(t)@ == apply_writes(m, w),
        writes_ok(m, w),
        stack_ok(m, old(stack)@),
    ensures
        final(t).wf(),
        final(stack)@ == old(stack)@,
        ({
            let (rr, w2) = eval_ref_model(m, w, c, old(stack)@);
            r == rr && final(t)@ == apply_writes(m, w2) && writes_ok(m, w2)
        }),
    decreases unvisited(m, old(stack)@), 0nat,
{
    proof {
        lemma_eval_ref_writes(m, w, c, stack@);
    }
    let step = match t.get(c) {
        None => Step::Done(Err(SpreadsheetError::NonNumericOperand(c))),
        Some(cell) => match &cell.value {
            crate::cell::CellValue::Number(n) => Step::Done(Ok(*n)),
            crate::cell::CellValue::Text(_) => Step::Done(
                Err(SpreadsheetError::NonNumericOperand(c)),
            ),
            crate::cell::CellValue::Empty => Step::Done(
                Err(SpreadsheetError::NonNumericOperand(c)),
            ),
            crate::cell::CellValue::Formula(_) => {
                if cell.evaluated {
                    Step::Done(Ok(cell.cached))
                } else if crate::cell::coords_contain(stack, c) {
                    Step::Done(Err(SpreadsheetError::CircularDependency))
                } else if stack.len() >= MAX_EVAL_DEPTH {
                    Step::Done(Err(SpreadsheetError::RecursionLimitExceeded))
                } else {
                    match &cell.expr {
                        Some(e) => Step::Recurse(clone_expr(e)),
                        None => Step::Done(Err(SpreadsheetError::NonNumericOperand(c))),
                    }
                }
            },
        },
    };
    match step {
        Step::Done(r) => r,
        Step::Recurse(e) => {
            proof {
                lemma_stack_push_ok(m, stack@, c);
            }
            stack.push(c);
            let r = eval_expr_exec(t, &e, stack, Ghost(m), Ghost(w));
            let popped = stack.pop();
            proof {
                assert(stack@ =~= old(stack)@);
            }
            match r {
                Ok(v) => {
                    let ghost w1 = eval_expr_model(m, w, e, old(stack)@.push(c)).1;
                    proof {
                        lemma_eval_expr_writes(m, w, e, old(stack)@.push(c));
                        assert(old(stack)@.push(c).contains(c));
                        assert(!w1.contains_key(c));
                    }
                    t.set_cache(c, v);
                    proof {
                        assert(t@ =~= apply_writes(m, w1.insert(c, v)));
                    }
                    Ok(v)
                },
                Err(er) => Err(er),
            }
        },
    }
}

/// Evaluates an expression tree, mirroring `eval_expr_model`.
pub fn eval_expr_exec(
    t: &mut Table,
    e: &Expr,
    stack: &mut Vec<Coord>,
    Ghost(m): Ghost<Map<Coord, CellModel>>,
    Ghost(w): Ghost<Map<Coord, i64>>,
) -> (r: Result<i64, SpreadsheetError>)
    requires
        old(t).wf(),
        old(t)@ == apply_writes(m, w),
        writes_ok(m, w),
        stack_ok(m, old(stack)@),
    ensures
        final(t).wf(),
        final(stack)@ == old(stack)@,
        ({
            let (rr, w2) = eval_expr_model(m, w, *e, old(stack)@);
            r == rr && final(t)@ == apply_writes(m, w2) && writes_ok(m, w2)
        }),
    decreases unvisited(m, old(stack)@), 1nat, e.height(),
{
    proof {
        lemma_eval_expr_writes(m, w, *e, stack@);
    }
    match e {
        Expr::Num(n) => Ok(*n),
        Expr::Ref(d) => eval_ref_exec(t, *d, stack, Ghost(m), Ghost(w)),
        Expr::Bin(op, l, r) => {
            let rl = eval_expr_exec(t, l, stack, Ghost(m), Ghost(w));
            let ghost w1 = eval_expr_model(m, w, **l, old(stack)@).1;
            proof {
                lemma_eval_expr_writes(m, w, **l, stack@);
            }
            match rl {
                Err(er) => Err(er),
                Ok(a) => {
                    let rr = eval_expr_exec(t, r, stack, Ghost(m), Ghost(w1));
                    match rr {
                        Err(er) => Err(er),
                        Ok(b) => apply_op_exec(*op, a, b),
                    }
                },
            }
        },
    }
}

} // verus!
