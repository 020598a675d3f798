//! Small verified collections keyed by grid cells: a set of cells and a
//! map from cells to their BFS level. Both are hash maps keyed by the
//! cell's two coordinates packed into a `u64`, viewed as a `Set` / `Map`.
use vstd::prelude::*;
use std::collections::HashMap;

verus! {

/// A grid cell `(x, y)`.
pub type CellId = (i32, i32);

/// Equality of two cells.
pub fn same_cell(a: CellId, b: CellId) -> (r: bool)
    ensures
        r == (a == b),
{
    a.0 == b.0 && a.1 == b.1
}

/// A fresh vector with the same cells as `v`.
pub fn copy_cells(v: &Vec<CellId>) -> (r: Vec<CellId>)
    ensures
        r@ == v@,
{
    let mut r: Vec<CellId> = Vec::new();
    let mut i: usize = 0;
    while i < v.len()
        invariant
            0 <= i <= v@.len(),
            r@ == v@.subrange(0, i as int),
        decreases v@.len() - i,
    {
        r.push(v[i]);
        assert(r@ =~= v@.subrange(0, i + 1));
        i += 1;
    }
    assert(r@ =~= v@);
    r
}

/// The key of a cell: its two coordinates, each shifted to be
/// non-negative, side by side in a `u64`.
pub open spec fn cell_key(c: CellId) -> u64 {
    ((c.0 + 0x8000_0000int) * 0x1_0000_0000int + (c.1 + 0x8000_0000int)) as u64
}

/// Different cells have different keys.
pub proof fn lemma_cell_key_injective(a: CellId, b: CellId)
    ensures
        cell_key(a) == cell_key(b) ==> a == b,
{
    let xa = a.0 + 0x8000_0000int;
    let ya = a.1 + 0x8000_0000int;
    let xb = b.0 + 0x8000_0000int;
    let yb = b.1 + 0x8000_0000int;
    assert(0 <= xa * 0x1_0000_0000int + ya < 0x1_0000_0000_0000_0000int) by (nonlinear_arith)
        requires
            0 <= xa < 0x1_0000_0000int,
            0 <= ya < 0x1_0000_0000int,
    ;
    assert(0 <= xb * 0x1_0000_0000int + yb < 0x1_0000_0000_0000_0000int) by (nonlinear_arith)
        requires
            0 <= xb < 0x1_0000_0000int,
            0 <= yb < 0x1_0000_0000int,
    ;
    if cell_key(a) == cell_key(b) {
        assert(xa * 0x1_0000_0000int + ya == xb * 0x1_0000_0000int + yb);
        assert(xa == xb && ya == yb) by (nonlinear_arith)
            requires
                xa * 0x1_0000_0000int + ya == xb * 0x1_0000_0000int + yb,
                0 <= ya < 0x1_0000_0000int,
                0 <= yb < 0x1_0000_0000int,
        ;
    }
}

/// The key of a cell; see `cell_key`.
pub fn key_of(c: CellId) -> (k: u64)
    ensures
        k == cell_key(c),
{
    let x: u64 = (c.0 as i64 + 0x8000_0000i64) as u64;
    let y: u64 = (c.1 as i64 + 0x8000_0000i64) as u64;
    assert(x * 0x1_0000_0000u64 + y <= 0xFFFF_FFFF_FFFF_FFFFu64) by (nonlinear_arith)
        requires
            x < 0x1_0000_0000u64,
            y < 0x1_0000_0000u64,
    ;
    x * 0x1_0000_0000u64 + y
}

/// A finite set of cells, kept in a hash map from each cell's key to the
/// cell.
#[derive(Debug)]
pub struct CellSet {
    cells: HashMap<u64, CellId>,
}

impl View for CellSet {
    type V = Set<CellId>;

    closed spec fn view(&self) -> Set<CellId> {
        Set::new(|c: CellId| self.cells@.contains_key(cell_key(c)) && self.cells@[cell_key(c)] == c)
    }
}

impl CellSet {
    /// Each stored cell sits under its own key.
    #[verifier::type_invariant]
    closed spec fn keyed_by_cell(&self) -> bool {
        forall|k: u64| #[trigger] self.cells@.contains_key(k) ==> cell_key(self.cells@[k]) == k
    }

    /// The set is finite.
    pub proof fn lemma_finite(&self)
        ensures
            self@.finite(),
    {
        broadcast use vstd::std_specs::hash::group_hash_axioms;
        let m = self.cells@;
        let img = m.dom().map(|k: u64| m[k]);
        m.dom().lemma_map_finite(|k: u64| m[k]);
        assert(self@.subset_of(img)) by {
            assert forall|c: CellId| self@.contains(c) implies img.contains(c) by {
                assert(m.dom().contains(cell_key(c)) && m[cell_key(c)] == c);
            }
        }
        vstd::set_lib::lemma_set_subset_finite(img, self@);
    }

    pub fn new() -> (s: CellSet)
        ensures
            s@ == Set::<CellId>::empty(),
    {
        broadcast use vstd::std_specs::hash::group_hash_axioms;
        let s = CellSet { cells: HashMap::new() };
        assert(s@ =~= Set::<CellId>::empty());
        s
    }

    pub fn contains(&self, cell: CellId) -> (b: bool)
        ensures
            b == self@.contains(cell),
    {
        broadcast use vstd::std_specs::hash::group_hash_axioms;
        proof {
            use_type_invariant(self);
        }
        let k = key_of(cell);
        self.cells.contains_key(&k)
    }

    /// Adds `cell`; returns whether it was absent before (as `HashSet::insert`).
    pub fn insert(&mut self, cell: CellId) -> (added: bool)
        ensures
            final(self)@ == old(self)@.insert(cell),
            added == !old(self)@.contains(cell),
    {
        broadcast use vstd::std_specs::hash::group_hash_axioms;
        proof {
            use_type_invariant(&*self);
        }
        let k = key_of(cell);
        let added = !self.cells.contains_key(&k);
        let ghost before = self@;
        let mut cells = HashMap::new();
        std::mem::swap(&mut cells, &mut self.cells);
        cells.insert(k, cell);
        proof {
            assert forall|c: CellId| (cells@.contains_key(cell_key(c)) && cells@[cell_key(c)] == c) <==> before.insert(cell).contains(c) by {
                lemma_cell_key_injective(c, cell);
            }
        }
        self.cells = cells;
        assert(self@ =~= before.insert(cell));
        added
    }

    /// Removes `cell` if present.
    pub fn remove(&mut self, cell: CellId)
        ensures
            final(self)@ == old(self)@.remove(cell),
    {
        broadcast use vstd::std_specs::hash::group_hash_axioms;
        proof {
            use_type_invariant(&*self);
        }
        let k = key_of(cell);
        let ghost before = self@;
        let mut cells = HashMap::new();
        std::mem::swap(&mut cells, &mut self.cells);
        cells.remove(&k);
        proof {
            assert forall|c: CellId| (cells@.contains_key(cell_key(c)) && cells@[cell_key(c)] == c) <==> before.remove(cell).contains(c) by {
                lemma_cell_key_injective(c, cell);
            }
        }
        self.cells = cells;
        assert(self@ =~= before.remove(cell));
    }
}

impl Clone for CellSet {
    fn clone(&self) -> (s: CellSet)
        ensures
            s@ == self@,
    {
        proof {
            use_type_invariant(self);
        }
        let cells = self.cells.clone();
        let s = CellSet { cells };
        assert(s@ =~= self@);
        s
    }
}

/// A finite map from cells to `u64` levels, kept in a hash map from each
/// cell's key to the cell and its level.
#[derive(Debug)]
pub struct CellLevels {
    entries: HashMap<u64, (CellId, u64)>,
}

impl View for CellLevels {
    type V = Map<CellId, u64>;

    closed spec fn view(&self) -> Map<CellId, u64> {
        Map::new(
            |c: CellId| self.entries@.contains_key(cell_key(c)) && self.entries@[cell_key(c)].0 == c,
            |c: CellId| self.entries@[cell_key(c)].1,
        )
    }
}

impl CellLevels {
    /// Each entry sits under the key of its cell.
    #[verifier::type_invariant]
    closed spec fn keyed_by_cell(&self) -> bool {
        forall|k: u64| #[trigger] self.entries@.contains_key(k) ==> cell_key(self.entries@[k].0) == k
    }

    /// The domain of the map is finite.
    pub proof fn lemma_finite(&self)
        ensures
            self@.dom().finite(),
    {
        broadcast use vstd::std_specs::hash::group_hash_axioms;
        let m = self.entries@;
        let img = m.dom().map(|k: u64| m[k].0);
        m.dom().lemma_map_finite(|k: u64| m[k].0);
        assert(self@.dom().subset_of(img)) by {
            assert forall|c: CellId| self@.dom().contains(c) implies img.contains(c) by {
                assert(m.dom().contains(cell_key(c)) && m[cell_key(c)].0 == c);
            }
        }
        vstd::set_lib::lemma_set_subset_finite(img, self@.dom());
    }

    pub fn new() -> (m: CellLevels)
        ensures
            m@ == Map::<CellId, u64>::empty(),
    {
        broadcast use vstd::std_specs::hash::group_hash_axioms;
        let m = CellLevels { entries: HashMap::new() };
        assert(m@ =~= Map::<CellId, u64>::empty());
        m
    }

    pub fn get(&self, cell: CellId) -> (r: Option<u64>)
        ensures
            r == (if self@.contains_key(cell) { Some(self@[cell]) } else { None::<u64> }),
    {
        broadcast use vstd::std_specs::hash::group_hash_axioms;
        proof {
            use_type_invariant(self);
        }
        let k = key_of(cell);
        match self.entries.get(&k) {
            Some(e) => Some(e.1),
            None => None,
        }
    }

    /// Adds `cell` with `level`; the cell must be absent.
    pub fn insert_new(&mut self, cell: CellId, level: u64)
        requires
            !old(self)@.contains_key(cell),
        ensures
            final(self)@ == old(self)@.insert(cell, level),
    {
        broadcast use vstd::std_specs::hash::group_hash_axioms;
        proof {
            use_type_invariant(&*self);
        }
        let k = key_of(cell);
        let ghost before = self@;
        let mut entries = HashMap::new();
        std::mem::swap(&mut entries, &mut self.entries);
        entries.insert(k, (cell, level));
        proof {
            assert forall|c: CellId| (entries@.contains_key(cell_key(c)) && entries@[cell_key(c)].0 == c) <==> before.insert(cell, level).contains_key(c) by {
                lemma_cell_key_injective(c, cell);
            }
        }
        self.entries = entries;
        assert(self@ =~= before.insert(cell, level));
    }
}

} // verus!
