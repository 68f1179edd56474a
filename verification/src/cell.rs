//! Cells and their coordinates.

use vstd::prelude::*;

use crate::parser::Expr;

verus! {

/// The zero-based (row, column) address of one cell; the unique identity of
/// the cell, with structural equality.
#[derive(Debug, Clone, Copy, PartialEq, Eq, Structural, Hash)]
pub struct Coord {
    pub row: usize,
    pub col: usize,
}

/// What a cell holds: a number, text, the source text of a formula, or
/// nothing. Only numbers (and the cached result of a formula) participate in
/// arithmetic.
#[derive(Debug, Clone)]
pub enum CellValue {
    Number(i64),
    Text(String),
    Formula(String),
    Empty,
}

/// The mathematical image of a `CellValue`: strings become character
/// sequences.
pub ghost enum ValueModel {
    Number(i64),
    Text(Seq<char>),
    Formula(Seq<char>),
    Empty,
}

impl View for CellValue {
    type V = ValueModel;

    open spec fn view(&self) -> ValueModel {
        match self {
            CellValue::Number(n) => ValueModel::Number(*n),
            CellValue::Text(s) => ValueModel::Text(s@),
            CellValue::Formula(s) => ValueModel::Formula(s@),
            CellValue::Empty => ValueModel::Empty,
        }
    }
}

/// The mathematical image of a `Cell`: the dependency edge lists become sets.
pub ghost struct CellModel {
    pub value: ValueModel,
    pub expr: Option<Expr>,
    pub deps: Set<Coord>,
    pub dependents: Set<Coord>,
    pub evaluated: bool,
    pub cached: i64,
}

impl CellModel {
    /// A freshly created placeholder cell.
    pub open spec fn empty() -> CellModel {
        CellModel {
            value: ValueModel::Empty,
            expr: None,
            deps: Set::empty(),
            dependents: Set::empty(),
            evaluated: false,
            cached: 0,
        }
    }
}

/// One cell of the sheet: its value, the parsed tree of its formula (present
/// exactly while the value is a formula), the coordinates its formula reads
/// from, the coordinates whose formulas read from it, and the cached result
/// of its last evaluation, valid while `evaluated` holds.
#[derive(Debug)]
pub struct Cell {
    pub value: CellValue,
    pub expr: Option<Expr>,
    pub dependencies: Vec<Coord>,
    pub dependents: Vec<Coord>,
    pub evaluated: bool,
    pub cached: i64,
}

impl View for Cell {
    type V = CellModel;

    open spec fn view(&self) -> CellModel {
        CellModel {
            value: self.value@,
            expr: self.expr,
            deps: Set::new(|c: Coord| self.dependencies@.contains(c)),
            dependents: Set::new(|c: Coord| self.dependents@.contains(c)),
            evaluated: self.evaluated,
            cached: self.cached,
        }
    }
}

/// Appending one coordinate to a list extends exactly its membership.
pub proof fn lemma_push_contains(s: Seq<Coord>, d: Coord)
    ensures
        forall|x: Coord|
            #![trigger s.push(d).contains(x)]
            #![trigger s.contains(x)]
            s.push(d).contains(x) <==> s.contains(x) || x == d,
{
    assert forall|x: Coord| s.push(d).contains(x) implies s.contains(x) || x == d by {
        let i = choose|i: int| 0 <= i < s.push(d).len() && s.push(d)[i] == x;
        if i < s.len() {
            assert(s[i] == x);
        }
    }
    assert forall|x: Coord| s.contains(x) implies s.push(d).contains(x) by {
        let i = choose|i: int| 0 <= i < s.len() && s[i] == x;
        assert(s.push(d)[i] == x);
    }
    assert(s.push(d)[s.len() as int] == d);
}

/// Appending a fresh coordinate keeps a list duplicate-free.
pub proof fn lemma_push_no_dup(s: Seq<Coord>, d: Coord)
    requires
        s.no_duplicates(),
        !s.contains(d),
    ensures
        s.push(d).no_duplicates(),
{
    assert forall|i: int, j: int|
        0 <= i < s.push(d).len() && 0 <= j < s.push(d).len() && i != j implies s.push(d)[i]
        != s.push(d)[j] by {
        if i < s.len() && j < s.len() {
        } else if j == s.len() {
            if s[i] == d {
                assert(s.contains(d));
            }
        } else {
            if s[j] == d {
                assert(s.contains(d));
            }
        }
    }
}

/// Whether a coordinate vector mentions `c`.
pub fn coords_contain(v: &Vec<Coord>, c: Coord) -> (r: bool)
    ensures
        r == v@.contains(c),
{
    let mut i: usize = 0;
    while i < v.len()
        invariant
            i <= v@.len(),
            forall|j: int| 0 <= j < i ==> v@[j] != c,
        decreases v@.len() - i,
    {
        if v[i] == c {
            return true;
        }
        i = i + 1;
    }
    false
}

/// An exact copy of a coordinate vector.
pub fn copy_coords(v: &Vec<Coord>) -> (r: Vec<Coord>)
    ensures
        r@ == v@,
{
    let mut r: Vec<Coord> = Vec::new();
    let mut i: usize = 0;
    while i < v.len()
        invariant
            i <= v@.len(),
            r@ == v@.subrange(0, i as int),
        decreases v@.len() - i,
    {
        r.push(v[i]);
        proof {
            assert(r@ =~= v@.subrange(0, i + 1 as int));
        }
        i = i + 1;
    }
    proof {
        assert(v@.subrange(0, v@.len() as int) =~= v@);
    }
    r
}

/// The coordinate vector `v` with every occurrence of `c` left out.
pub fn remove_coord(v: &Vec<Coord>, c: Coord) -> (r: Vec<Coord>)
    ensures
        forall|x: Coord| r@.contains(x) <==> (v@.contains(x) && x != c),
        v@.no_duplicates() ==> r@.no_duplicates(),
{
    let mut r: Vec<Coord> = Vec::new();
    let mut j: usize = 0;
    while j < v.len()
        invariant
            j <= v@.len(),
            forall|x: Coord|
                r@.contains(x) <==> (exists|q: int| 0 <= q < j && v@[q] == x && x != c),
            v@.no_duplicates() ==> r@.no_duplicates(),
        decreases v@.len() - j,
    {
        let x = v[j];
        let ghost r_pre = r@;
        if x != c {
            proof {
                if v@.no_duplicates() {
                    if r_pre.contains(x) {
                        let q = choose|q: int| 0 <= q < j && v@[q] == x && x != c;
                        assert(v@[q] == v@[j as int] && q != j);
                    }
                    lemma_push_no_dup(r_pre, x);
                }
            }
            r.push(x);
        }
        proof {
            lemma_push_contains(r_pre, x);
            assert forall|y: Coord| r@.contains(y) implies (exists|q: int|
                0 <= q < j + 1 && v@[q] == y && y != c) by {
                if r_pre.contains(y) {
                    let q = choose|q: int| 0 <= q < j && v@[q] == y && y != c;
                    assert(0 <= q < j + 1 && v@[q] == y && y != c);
                } else {
                    assert(y == x && x != c);
                    assert(v@[j as int] == y);
                }
            }
            assert forall|y: Coord| (exists|q: int| 0 <= q < j + 1 && v@[q] == y && y != c)
                implies r@.contains(y) by {
                let q = choose|q: int| 0 <= q < j + 1 && v@[q] == y && y != c;
                if q < j {
                    assert(r_pre.contains(y));
                    if x != c {
                        assert(r@ == r_pre.push(x));
                    }
                } else {
                    assert(y == x);
                }
            }
        }
        j = j + 1;
    }
    proof {
        assert forall|x: Coord| v@.contains(x) && x != c implies r@.contains(x) by {
            let q = choose|q: int| 0 <= q < v@.len() && v@[q] == x;
            assert(0 <= q < j && v@[q] == x && x != c);
        }
    }
    r
}

impl Cell {
    /// A new cell holding `value`, with no edges and nothing cached.
    pub fn new(value: CellValue) -> (r: Cell)
        ensures
            r@ == (CellModel {
                value: value@,
                expr: None,
                deps: Set::<Coord>::empty(),
                dependents: Set::<Coord>::empty(),
                evaluated: false,
                cached: 0,
            }),
    {
        let r = Cell {
            value,
            expr: None,
            dependencies: Vec::new(),
            dependents: Vec::new(),
            evaluated: false,
            cached: 0,
        };
        proof {
            assert(r@.deps =~= Set::<Coord>::empty());
            assert(r@.dependents =~= Set::<Coord>::empty());
        }
        r
    }

    /// Replaces the value (dropping any parsed formula tree) and marks the
    /// cell as needing evaluation; the edges and the stale cache remain.
    pub fn set_value(&mut self, value: CellValue)
        ensures
            final(self)@ == (CellModel {
                value: value@,
                expr: None,
                evaluated: false,
                ..old(self)@
            }),
    {
        self.value = value;
        self.expr = None;
        self.evaluated = false;
    }

    /// Adds `dep` to the dependency list unless already present.
    pub fn add_dependency(&mut self, dep: Coord)
        ensures
            final(self)@ == (CellModel { deps: old(self)@.deps.insert(dep), ..old(self)@ }),
    {
        if !coords_contain(&self.dependencies, dep) {
            self.dependencies.push(dep);
        }
        proof {
            lemma_push_contains(old(self).dependencies@, dep);
            assert(final(self)@.deps =~= old(self)@.deps.insert(dep));
        }
    }

    /// Adds `dep` to the dependent list unless already present.
    pub fn add_dependent(&mut self, dep: Coord)
        ensures
            final(self)@ == (CellModel { dependents: old(self)@.dependents.insert(dep), ..old(self)@ }),
    {
        if !coords_contain(&self.dependents, dep) {
            self.dependents.push(dep);
        }
        proof {
            lemma_push_contains(old(self).dependents@, dep);
            assert(final(self)@.dependents =~= old(self)@.dependents.insert(dep));
        }
    }

    /// Forgets every dependency edge (the forward half only).
    pub fn clear_dependencies(&mut self)
        ensures
            final(self)@ == (CellModel { deps: Set::<Coord>::empty(), ..old(self)@ }),
    {
        self.dependencies.clear();
        proof {
            assert(final(self)@.deps =~= Set::<Coord>::empty());
        }
    }

    /// Forgets every dependent edge (the backward half only).
    pub fn clear_dependents(&mut self)
        ensures
            final(self)@ == (CellModel { dependents: Set::<Coord>::empty(), ..old(self)@ }),
    {
        self.dependents.clear();
        proof {
            assert(final(self)@.dependents =~= Set::<Coord>::empty());
        }
    }
}

} // verus!
