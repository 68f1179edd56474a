//! The sheet's cell storage: an association list from coordinates to cells,
//! viewed as a finite map. The list never holds two entries with the same
//! coordinate.

use vstd::prelude::*;

use crate::cell::{Cell, CellModel, CellValue, Coord};
use crate::parser::Expr;

verus! {

pub struct Entry {
    pub key: Coord,
    pub cell: Cell,
}

pub open spec fn keys_distinct(s: Seq<Entry>) -> bool {
    forall|i: int, j: int| 0 <= i < j < s.len() ==> s[i].key != s[j].key
}

/// The map a list of entries stands for; a later entry for the same key wins,
/// though the invariant rules repeated keys out.
pub open spec fn entries_view(s: Seq<Entry>) -> Map<Coord, CellModel>
    decreases s.len(),
{
    if s.len() == 0 {
        Map::empty()
    } else {
        entries_view(s.drop_last()).insert(s.last().key, s.last().cell@)
    }
}

/// A key is in the view exactly when some entry carries it, and the view's
/// domain is finite.
pub proof fn lemma_view_contains(s: Seq<Entry>)
    ensures
        forall|k: Coord|
            entries_view(s).contains_key(k) <==> exists|i: int| 0 <= i < s.len() && s[i].key == k,
        entries_view(s).dom().finite(),
    decreases s.len(),
{
    if s.len() == 0 {
    } else {
        let pre = s.drop_last();
        lemma_view_contains(pre);
        assert forall|k: Coord| entries_view(s).contains_key(k) implies exists|i: int|
            0 <= i < s.len() && s[i].key == k by {
            if k == s.last().key {
                assert(s[s.len() - 1].key == k);
            } else {
                let i = choose|i: int| 0 <= i < pre.len() && pre[i].key == k;
                assert(s[i].key == k);
            }
        }
        assert forall|k: Coord| (exists|i: int| 0 <= i < s.len() && s[i].key == k) implies
            entries_view(s).contains_key(k) by {
            let i = choose|i: int| 0 <= i < s.len() && s[i].key == k;
            if i < s.len() - 1 {
                assert(pre[i].key == k);
            }
        }
    }
}

/// With distinct keys, the view maps each entry's key to that entry's cell.
pub proof fn lemma_view_index(s: Seq<Entry>)
    requires
        keys_distinct(s),
    ensures
        forall|i: int|
            0 <= i < s.len() ==> entries_view(s).contains_key(s[i].key) && entries_view(s)[s[i].key]
                == s[i].cell@,
    decreases s.len(),
{
    lemma_view_contains(s);
    if s.len() > 0 {
        let pre = s.drop_last();
        lemma_view_index(pre);
        assert forall|i: int| 0 <= i < s.len() implies entries_view(s).contains_key(s[i].key)
            && entries_view(s)[s[i].key] == s[i].cell@ by {
            if i < s.len() - 1 {
                assert(pre[i] == s[i]);
                assert(s[i].key != s.last().key);
            }
        }
    }
}

/// Replacing the cell of entry `i` (keeping its key) updates the view at that
/// key alone.
pub proof fn lemma_view_update(s: Seq<Entry>, i: int, e: Entry)
    requires
        keys_distinct(s),
        0 <= i < s.len(),
        e.key == s[i].key,
    ensures
        entries_view(s.update(i, e)) =~= entries_view(s).insert(e.key, e.cell@),
    decreases s.len(),
{
    let pre = s.drop_last();
    if i == s.len() - 1 {
        assert(s.update(i, e).drop_last() =~= pre);
        assert(s.update(i, e).last() == e);
    } else {
        assert(s.update(i, e).drop_last() =~= pre.update(i, e));
        assert(s.update(i, e).last() == s.last());
        lemma_view_update(pre, i, e);
        assert(s[i].key != s.last().key);
    }
}

/// Appending an entry inserts its key into the view.
pub proof fn lemma_view_push(s: Seq<Entry>, e: Entry)
    ensures
        entries_view(s.push(e)) =~= entries_view(s).insert(e.key, e.cell@),
{
    assert(s.push(e).drop_last() =~= s);
    assert(s.push(e).last() == e);
}

/// The cell storage. Its view is the finite map from coordinates to cell
/// models that is the sole source of truth for the whole engine.
pub struct Table {
    entries: Vec<Entry>,
}

impl Table {
    /// Well-formedness: no coordinate is stored twice. Established by `new`
    /// and preserved by every operation.
    pub closed spec fn wf(self) -> bool {
        keys_distinct(self.entries@)
    }

    pub closed spec fn view(self) -> Map<Coord, CellModel> {
        entries_view(self.entries@)
    }

    /// The view's domain is always finite.
    pub proof fn lemma_dom_finite(self)
        ensures
            self.view().dom().finite(),
    {
        lemma_view_contains(self.entries@);
    }

    pub fn new() -> (r: Table)
        ensures
            r.wf(),
            r.view() =~= Map::<Coord, CellModel>::empty(),
    {
        Table { entries: Vec::new() }
    }

    /// The position of the entry for `c`, which must be present.
    fn find_idx(&self, c: Coord) -> (r: usize)
        requires
            self.wf(),
            self.view().contains_key(c),
        ensures
            r < self.entries@.len(),
            self.entries@[r as int].key == c,
            self.entries@[r as int].cell@ == self.view()[c],
    {
        proof {
            lemma_view_contains(self.entries@);
            lemma_view_index(self.entries@);
        }
        let mut i: usize = 0;
        while i < self.entries.len()
            invariant
                i <= self.entries@.len(),
                forall|j: int| 0 <= j < i ==> self.entries@[j].key != c,
                exists|j: int| 0 <= j < self.entries@.len() && self.entries@[j].key == c,
                keys_distinct(self.entries@),
                self.view() == entries_view(self.entries@),
            decreases self.entries@.len() - i,
        {
            if self.entries[i].key == c {
                proof {
                    lemma_view_index(self.entries@);
                }
                return i;
            }
            i = i + 1;
        }
        proof {
            assert(false);
        }
        0
    }

    pub fn contains(&self, c: Coord) -> (r: bool)
        ensures
            r == self.view().contains_key(c),
    {
        proof {
            lemma_view_contains(self.entries@);
        }
        let mut i: usize = 0;
        while i < self.entries.len()
            invariant
                i <= self.entries@.len(),
                forall|j: int| 0 <= j < i ==> self.entries@[j].key != c,
            decreases self.entries@.len() - i,
        {
            if self.entries[i].key == c {
                proof {
                    lemma_view_contains(self.entries@);
                }
                return true;
            }
            i = i + 1;
        }
        proof {
            lemma_view_contains(self.entries@);
        }
        false
    }

    pub fn get(&self, c: Coord) -> (r: Option<&Cell>)
        requires
            self.wf(),
        ensures
            match r {
                Some(cell) => self.view().contains_key(c) && cell@ == self.view()[c],
                None => !self.view().contains_key(c),
            },
    {
        if self.contains(c) {
            let i = self.find_idx(c);
            Some(&self.entries[i].cell)
        } else {
            None
        }
    }

    /// Creates an `Empty` placeholder cell for `c` if none is stored.
    pub fn insert_empty(&mut self, c: Coord)
        requires
            old(self).wf(),
        ensures
            final(self).wf(),
            final(self).view() == if old(self).view().contains_key(c) {
                old(self).view()
            } else {
                old(self).view().insert(c, CellModel::empty())
            },
    {
        proof {
            lemma_view_contains(self.entries@);
        }
        if !self.contains(c) {
            let ghost pre = self.entries@;
            self.entries.push(Entry { key: c, cell: Cell::new(CellValue::Empty) });
            proof {
                lemma_view_push(pre, self.entries@.last());
                assert(self.entries@.drop_last() =~= pre);
                assert(final(self).view() =~= old(self).view().insert(c, CellModel::empty()));
            }
        }
    }

    /// Stores a plain (non-formula) value in the cell for `c`.
    pub fn set_plain(&mut self, c: Coord, value: CellValue)
        requires
            old(self).wf(),
            old(self).view().contains_key(c),
        ensures
            final(self).wf(),
            final(self).view() == old(self).view().insert(
                c,
                CellModel { value: value@, expr: None, evaluated: false, ..old(self).view()[c] },
            ),
    {
        let ghost pre = self.entries@;
        let i = self.find_idx(c);
        self.entries[i].cell.set_value(value);
        proof {
            lemma_view_update(pre, i as int, self.entries@[i as int]);
        }
    }

    /// Stores a formula (source text and parsed tree) in the cell for `c`.
    pub fn set_formula(&mut self, c: Coord, src: String, e: Expr)
        requires
            old(self).wf(),
            old(self).view().contains_key(c),
        ensures
            final(self).wf(),
            final(self).view() == old(self).view().insert(
                c,
                CellModel {
                    value: crate::cell::ValueModel::Formula(src@),
                    expr: Some(e),
                    evaluated: false,
                    ..old(self).view()[c]
                },
            ),
    {
        let ghost pre = self.entries@;
        let i = self.find_idx(c);
        self.entries[i].cell.set_value(CellValue::Formula(src));
        self.entries[i].cell.expr = Some(e);
        proof {
            assert(self.entries@ =~= pre.update(i as int, self.entries@[i as int]));
            lemma_view_update(pre, i as int, self.entries@[i as int]);
        }
    }

    /// Marks the cell for `c` as evaluated, caching `v`.
    pub fn set_cache(&mut self, c: Coord, v: i64)
        requires
            old(self).wf(),
            old(self).view().contains_key(c),
        ensures
            final(self).wf(),
            final(self).view() == old(self).view().insert(
                c,
                CellModel { evaluated: true, cached: v, ..old(self).view()[c] },
            ),
    {
        let ghost pre = self.entries@;
        let i = self.find_idx(c);
        self.entries[i].cell.evaluated = true;
        self.entries[i].cell.cached = v;
        proof {
            assert(self.entries@ =~= pre.update(i as int, self.entries@[i as int]));
            lemma_view_update(pre, i as int, self.entries@[i as int]);
        }
    }

    /// Clears the evaluated mark of the cell for `c`.
    pub fn clear_evaluated(&mut self, c: Coord)
        requires
            old(self).wf(),
            old(self).view().contains_key(c),
        ensures
            final(self).wf(),
            final(self).view() == old(self).view().insert(
                c,
                CellModel { evaluated: false, ..old(self).view()[c] },
            ),
    {
        let ghost pre = self.entries@;
        let i = self.find_idx(c);
        self.entries[i].cell.evaluated = false;
        proof {
            lemma_view_update(pre, i as int, self.entries@[i as int]);
        }
    }

    /// Replaces the dependency list of the cell for `c`; the caller hands a
    /// duplicate-free list.
    pub fn set_deps(&mut self, c: Coord, deps: Vec<Coord>)
        requires
            old(self).wf(),
            old(self).view().contains_key(c),
        ensures
            final(self).wf(),
            final(self).view() == old(self).view().insert(
                c,
                CellModel {
                    deps: Set::new(|x: Coord| deps@.contains(x)),
                    ..old(self).view()[c]
                },
            ),
    {
        let ghost pre = self.entries@;
        let i = self.find_idx(c);
        self.entries[i].cell.dependencies = deps;
        proof {
            lemma_view_update(pre, i as int, self.entries@[i as int]);
        }
    }

    /// Records that `c` reads from `d`: adds `c` to the dependents of `d`.
    pub fn add_dependent_edge(&mut self, d: Coord, c: Coord)
        requires
            old(self).wf(),
            old(self).view().contains_key(d),
        ensures
            final(self).wf(),
            final(self).view() == old(self).view().insert(
                d,
                CellModel {
                    dependents: old(self).view()[d].dependents.insert(c),
                    ..old(self).view()[d]
                },
            ),
    {
        let ghost pre = self.entries@;
        let i = self.find_idx(d);
        let entry = &mut self.entries[i];
        entry.cell.add_dependent(c);
        proof {
            lemma_view_update(pre, i as int, self.entries@[i as int]);
        }
    }

    /// Forgets that `c` reads from `d`: removes `c` from the dependents of
    /// `d`.
    pub fn remove_dependent_edge(&mut self, d: Coord, c: Coord)
        requires
            old(self).wf(),
            old(self).view().contains_key(d),
        ensures
            final(self).wf(),
            final(self).view() == old(self).view().insert(
                d,
                CellModel {
                    dependents: old(self).view()[d].dependents.remove(c),
                    ..old(self).view()[d]
                },
            ),
    {
        let ghost pre = self.entries@;
        let i = self.find_idx(d);
        let kept = crate::cell::remove_coord(&self.entries[i].cell.dependents, c);
        self.entries[i].cell.dependents = kept;
        proof {
            assert(self.entries@[i as int].cell@.dependents =~= pre[i as int].cell@.dependents
                .remove(c));
            assert(self.entries@[i as int].cell@ == (CellModel {
                dependents: pre[i as int].cell@.dependents.remove(c),
                ..pre[i as int].cell@
            }));
            lemma_view_update(pre, i as int, self.entries@[i as int]);
        }
    }
}

} // verus!
