//! Reachability in the dependency graph.
//!
//! The sheet's cells carry two edge relations: `deps` (what a formula reads
//! from) and `dependents` (who reads from a cell). Reachability along either
//! is defined by paths, and one breadth-first search computes the exact set
//! of coordinates reachable from a list of start points. The cycle check of
//! `set_cell` and the invalidation walk both rest on its contract.

use vstd::prelude::*;

use crate::cell::{coords_contain, CellModel, Coord};
use crate::table::Table;

verus! {

/// One step: along `deps` when `fwd`, along `dependents` otherwise.
pub open spec fn edge(m: Map<Coord, CellModel>, fwd: bool, a: Coord, b: Coord) -> bool {
    &&& m.contains_key(a)
    &&& if fwd {
        m[a].deps.contains(b)
    } else {
        m[a].dependents.contains(b)
    }
}

/// A non-empty sequence of coordinates whose consecutive pairs are edges.
pub open spec fn is_path(m: Map<Coord, CellModel>, fwd: bool, p: Seq<Coord>) -> bool {
    &&& p.len() >= 1
    &&& forall|i: int| 0 <= i < p.len() - 1 ==> #[trigger] edge(m, fwd, p[i], p[i + 1])
}

/// Whether some path leads from `a` to `b`; every coordinate reaches itself.
pub open spec fn reaches(m: Map<Coord, CellModel>, fwd: bool, a: Coord, b: Coord) -> bool {
    exists|p: Seq<Coord>| is_path(m, fwd, p) && p.first() == a && p.last() == b
}

/// Whether `b` is reachable from some coordinate in `starts`.
pub open spec fn reaches_from(
    m: Map<Coord, CellModel>,
    fwd: bool,
    starts: Seq<Coord>,
    b: Coord,
) -> bool {
    exists|s: Coord| #[trigger] starts.contains(s) && reaches(m, fwd, s, b)
}

/// One step of a path is an edge.
pub proof fn lemma_path_edge(m: Map<Coord, CellModel>, fwd: bool, p: Seq<Coord>, i: int)
    requires
        is_path(m, fwd, p),
        0 <= i < p.len() - 1,
    ensures
        edge(m, fwd, p[i], p[i + 1]),
{
}

pub proof fn lemma_reaches_self(m: Map<Coord, CellModel>, fwd: bool, a: Coord)
    ensures
        reaches(m, fwd, a, a),
{
    let p = seq![a];
    assert(is_path(m, fwd, p) && p.first() == a && p.last() == a);
}

pub proof fn lemma_reaches_extend(m: Map<Coord, CellModel>, fwd: bool, a: Coord, b: Coord, c: Coord)
    requires
        reaches(m, fwd, a, b),
        edge(m, fwd, b, c),
    ensures
        reaches(m, fwd, a, c),
{
    let p = choose|p: Seq<Coord>| is_path(m, fwd, p) && p.first() == a && p.last() == b;
    let q = p.push(c);
    assert forall|i: int| 0 <= i < q.len() - 1 implies #[trigger] edge(m, fwd, q[i], q[i + 1]) by {
        if i < p.len() - 1 {
            lemma_path_edge(m, fwd, p, i);
            assert(q[i] == p[i] && q[i + 1] == p[i + 1]);
        } else {
            assert(q[i] == b && q[i + 1] == c);
        }
    }
    assert(is_path(m, fwd, q) && q.first() == a && q.last() == c);
}

/// A set that contains the head of a path and is closed under edges contains
/// its end.
pub proof fn lemma_path_stays(m: Map<Coord, CellModel>, fwd: bool, v: Set<Coord>, p: Seq<Coord>)
    requires
        forall|a: Coord, b: Coord| v.contains(a) && #[trigger] edge(m, fwd, a, b) ==> v.contains(b),
        is_path(m, fwd, p),
        v.contains(p.first()),
    ensures
        v.contains(p.last()),
    decreases p.len(),
{
    if p.len() > 1 {
        let q = p.subrange(1, p.len() as int);
        lemma_path_edge(m, fwd, p, 0);
        assert(edge(m, fwd, p[0], p[1]));
        assert(v.contains(p[1]));
        assert forall|i: int| 0 <= i < q.len() - 1 implies #[trigger] edge(m, fwd, q[i], q[i + 1]) by {
            lemma_path_edge(m, fwd, p, i + 1);
            assert(q[i] == p[i + 1] && q[i + 1] == p[i + 2]);
        }
        assert(q.first() == p[1]);
        lemma_path_stays(m, fwd, v, q);
        assert(q.last() == p.last());
    }
}

/// Dropping the last element of a list loses at most that element.
proof fn lemma_drop_last_contains(s: Seq<Coord>)
    requires
        s.len() >= 1,
    ensures
        forall|y: Coord|
            #[trigger] s.contains(y) ==> s.drop_last().contains(y) || y == s.last(),
        forall|y: Coord| #[trigger] s.drop_last().contains(y) ==> s.contains(y),
{
    assert forall|y: Coord| #[trigger] s.contains(y) implies s.drop_last().contains(y) || y
        == s.last() by {
        let i = choose|i: int| 0 <= i < s.len() && s[i] == y;
        if i < s.len() - 1 {
            assert(s.drop_last()[i] == y);
        }
    }
    assert forall|y: Coord| #[trigger] s.drop_last().contains(y) implies s.contains(y) by {
        let i = choose|i: int| 0 <= i < s.drop_last().len() && s.drop_last()[i] == y;
        assert(s[i] == y);
    }
}

/// The set of coordinates reachable from `starts` along the chosen edges,
/// without duplicates; computed by a breadth-first walk with an explicit
/// visited list.
pub fn reachable_from(t: &Table, starts: &Vec<Coord>, fwd: bool) -> (r: Vec<Coord>)
    requires
        t.wf(),
    ensures
        r@.no_duplicates(),
        forall|x: Coord| #[trigger] r@.contains(x) <==> reaches_from(t@, fwd, starts@, x),
{
    let ghost m = t@;
    proof {
        t.lemma_dom_finite();
    }
    let mut visited: Vec<Coord> = Vec::new();
    let mut queue: Vec<Coord> = Vec::new();
    let mut i: usize = 0;
    while i < starts.len()
        invariant
            i <= starts@.len(),
            forall|j: int| 0 <= j < i ==> queue@.contains(starts@[j]),
            forall|x: Coord| #[trigger] queue@.contains(x) ==> starts@.contains(x),
        decreases starts@.len() - i,
    {
        let ghost q_pre = queue@;
        queue.push(starts[i]);
        proof {
            crate::cell::lemma_push_contains(q_pre, starts@[i as int]);
            assert(queue@ == q_pre.push(starts@[i as int]));
            assert(queue@.contains(starts@[i as int]));
            assert forall|j: int| 0 <= j < i + 1 implies queue@.contains(starts@[j]) by {
                if j < i {
                    assert(q_pre.contains(starts@[j]));
                }
            }
            assert forall|x: Coord| #[trigger] queue@.contains(x) implies starts@.contains(x) by {
                if q_pre.contains(x) {
                } else {
                    assert(x == starts@[i as int]);
                }
            }
        }
        i = i + 1;
    }
    proof {
        assert forall|x: Coord| #[trigger] queue@.contains(x) implies reaches_from(
            m,
            fwd,
            starts@,
            x,
        ) by {
            lemma_reaches_self(m, fwd, x);
            assert(starts@.contains(x));
        }
    }
    while queue.len() > 0
        invariant
            t.wf(),
            m == t@,
            m.dom().finite(),
            visited@.no_duplicates(),
            forall|x: Coord|
                #[trigger] visited@.contains(x) ==> reaches_from(m, fwd, starts@, x),
            forall|x: Coord| #[trigger] queue@.contains(x) ==> reaches_from(m, fwd, starts@, x),
            forall|s: Coord|
                #[trigger] starts@.contains(s) ==> visited@.contains(s) || queue@.contains(s),
            forall|a: Coord, b: Coord|
                visited@.contains(a) && #[trigger] edge(m, fwd, a, b) ==> visited@.contains(b)
                    || queue@.contains(b),
        decreases m.dom().difference(visited@.to_set()).len(), queue@.len(),
    {
        let ghost q_pre = queue@;
        let x = queue.pop().unwrap();
        proof {
            assert(q_pre.last() == x);
            assert(q_pre.contains(x));
            lemma_drop_last_contains(q_pre);
            assert forall|y: Coord| #[trigger] queue@.contains(y) implies reaches_from(
                m,
                fwd,
                starts@,
                y,
            ) by {
                assert(q_pre.contains(y));
            }
        }
        if !coords_contain(&visited, x) {
            let ghost v_pre = visited@;
            visited.push(x);
            proof {
                crate::cell::lemma_push_contains(v_pre, x);
                assert forall|ii: int, jj: int|
                    0 <= ii < visited@.len() && 0 <= jj < visited@.len() && ii != jj implies visited@[ii]
                    != visited@[jj] by {
                    if ii == v_pre.len() {
                        if v_pre[jj] == x {
                            assert(v_pre.contains(x));
                        }
                    } else if jj == v_pre.len() {
                        if v_pre[ii] == x {
                            assert(v_pre.contains(x));
                        }
                    }
                }
                if m.dom().contains(x) {
                    assert(m.dom().difference(visited@.to_set()) =~= m.dom().difference(
                        v_pre.to_set(),
                    ).remove(x));
                    vstd::set_lib::lemma_len_subset(
                        m.dom().difference(v_pre.to_set()),
                        m.dom(),
                    );
                    vstd::set::axiom_set_remove_len(m.dom().difference(v_pre.to_set()), x);
                } else {
                    assert(m.dom().difference(visited@.to_set()) =~= m.dom().difference(
                        v_pre.to_set(),
                    ));
                }
            }
            match t.get(x) {
                Some(cell) => {
                    let edges = if fwd {
                        &cell.dependencies
                    } else {
                        &cell.dependents
                    };
                    let mut j: usize = 0;
                    while j < edges.len()
                        invariant
                            t.wf(),
                            m == t@,
                            m.contains_key(x),
                            cell@ == m[x],
                            edges@ == if fwd {
                                cell.dependencies@
                            } else {
                                cell.dependents@
                            },
                            cell@.deps == Set::new(|d: Coord| cell.dependencies@.contains(d)),
                            cell@.dependents == Set::new(
                                |d: Coord| cell.dependents@.contains(d),
                            ),
                            j <= edges@.len(),
                            reaches_from(m, fwd, starts@, x),
                            forall|q: int| 0 <= q < j ==> queue@.contains(edges@[q]),
                            forall|y: Coord|
                                #[trigger] queue@.contains(y) ==> reaches_from(
                                    m,
                                    fwd,
                                    starts@,
                                    y,
                                ),
                            forall|s: Coord|
                                #[trigger] starts@.contains(s) ==> visited@.contains(s)
                                    || queue@.contains(s),
                            forall|a: Coord, b: Coord|
                                visited@.contains(a) && #[trigger] edge(m, fwd, a, b) && (a != x)
                                    ==> visited@.contains(b) || queue@.contains(b),
                        decreases edges@.len() - j,
                    {
                        let d = edges[j];
                        let ghost q_mid = queue@;
                        queue.push(d);
                        proof {
                            crate::cell::lemma_push_contains(q_mid, d);
                            assert(edge(m, fwd, x, d));
                            let s0 = choose|s: Coord|
                                #[trigger] starts@.contains(s) && reaches(m, fwd, s, x);
                            lemma_reaches_extend(m, fwd, s0, x, d);
                        }
                        j = j + 1;
                    }
                    proof {
                        assert forall|a: Coord, b: Coord|
                            visited@.contains(a) && #[trigger] edge(m, fwd, a, b) implies visited@.contains(
                            b,
                        ) || queue@.contains(b) by {
                            if a == x {
                                if fwd {
                                    let q = choose|q: int|
                                        0 <= q < cell.dependencies@.len()
                                            && cell.dependencies@[q] == b;
                                    assert(queue@.contains(edges@[q]));
                                } else {
                                    let q = choose|q: int|
                                        0 <= q < cell.dependents@.len() && cell.dependents@[q]
                                            == b;
                                    assert(queue@.contains(edges@[q]));
                                }
                            }
                        }
                    }
                },
                None => {
                    proof {
                        assert forall|a: Coord, b: Coord|
                            visited@.contains(a) && #[trigger] edge(m, fwd, a, b) implies visited@.contains(
                            b,
                        ) || queue@.contains(b) by {
                            if a == x {
                                assert(m.contains_key(x));
                            }
                        }
                    }
                },
            }
        }
    }
    proof {
        assert forall|x: Coord| reaches_from(m, fwd, starts@, x) implies visited@.contains(x) by {
            let s = choose|s: Coord| #[trigger] starts@.contains(s) && reaches(m, fwd, s, x);
            let p = choose|p: Seq<Coord>| is_path(m, fwd, p) && p.first() == s && p.last() == x;
            let v = visited@.to_set();
            assert(v.contains(s));
            assert forall|a: Coord, b: Coord|
                v.contains(a) && #[trigger] edge(m, fwd, a, b) implies v.contains(b) by {}
            lemma_path_stays(m, fwd, v, p);
        }
    }
    visited
}

} // verus!
