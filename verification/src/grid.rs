//! The factory floor: a rectangular grid of cells, some of them walls.
use vstd::prelude::*;
pub use crate::cells::CellId;
use crate::cells::CellSet;

verus! {

/// A `width` x `height` grid of cells with a set of wall cells.
#[derive(Debug)]
pub struct Grid {
    pub width: i32,
    pub height: i32,
    pub walls: CellSet,
}

/// The cell one step from `c` in direction `i` (0: +x, 1: -x, 2: +y, 3: -y),
/// when its coordinates fit in `i32`.
pub open spec fn shift(c: CellId, i: int) -> Option<CellId> {
    let (dx, dy) = if i == 0 {
        (1int, 0int)
    } else if i == 1 {
        (-1int, 0int)
    } else if i == 2 {
        (0int, 1int)
    } else {
        (0int, -1int)
    };
    let x = c.0 + dx;
    let y = c.1 + dy;
    if i32::MIN <= x <= i32::MAX && i32::MIN <= y <= i32::MAX {
        Some((x as i32, y as i32))
    } else {
        None
    }
}

/// Manhattan distance between two cells.
pub open spec fn manhattan(a: CellId, b: CellId) -> int {
    let dx = a.0 - b.0;
    let dy = a.1 - b.1;
    (if dx < 0 { -dx } else { dx }) + (if dy < 0 { -dy } else { dy })
}

/// `b` is exactly one orthogonal step away from `a`.
pub open spec fn adjacent(a: CellId, b: CellId) -> bool {
    manhattan(a, b) == 1
}

/// The four shifts of a cell are exactly its adjacent cells.
pub proof fn lemma_shift_adjacent(c: CellId, d: CellId)
    ensures
        adjacent(c, d) <==> (exists|i: int| 0 <= i < 4 && #[trigger] shift(c, i) == Some(d)),
        forall|i: int| 0 <= i < 4 && shift(c, i) == Some(d) ==> adjacent(c, d),
{
    if adjacent(c, d) {
        if d.0 == c.0 + 1 {
            assert(shift(c, 0) == Some(d));
        } else if d.0 == c.0 - 1 {
            assert(shift(c, 1) == Some(d));
        } else if d.1 == c.1 + 1 {
            assert(shift(c, 2) == Some(d));
        } else {
            assert(shift(c, 3) == Some(d));
        }
    }
}

/// The mathematical content of a grid: its extent and its wall cells.
pub struct GridModel {
    pub width: i32,
    pub height: i32,
    pub walls: Set<CellId>,
}

impl View for Grid {
    type V = GridModel;

    open spec fn view(&self) -> GridModel {
        GridModel { width: self.width, height: self.height, walls: self.walls@ }
    }
}

impl GridModel {
    pub open spec fn walls_spec(&self) -> Set<CellId> {
        self.walls
    }

    pub open spec fn in_bounds_spec(&self, c: CellId) -> bool {
        0 <= c.0 < self.width && 0 <= c.1 < self.height
    }

    pub open spec fn walkable_spec(&self, c: CellId) -> bool {
        self.in_bounds_spec(c) && !self.walls_spec().contains(c)
    }

    /// Walkability of an optional cell (`None` is never walkable).
    pub open spec fn walkable_opt(&self, c: Option<CellId>) -> bool {
        match c {
            Some(d) => self.walkable_spec(d),
            None => false,
        }
    }

    /// The walkable cells among the four shifts of `c`, in shift order.
    pub open spec fn neighbors_spec(&self, c: CellId) -> Seq<CellId> {
        let s0 = if self.walkable_opt(shift(c, 0)) { seq![shift(c, 0).unwrap()] } else { Seq::empty() };
        let s1 = if self.walkable_opt(shift(c, 1)) { seq![shift(c, 1).unwrap()] } else { Seq::empty() };
        let s2 = if self.walkable_opt(shift(c, 2)) { seq![shift(c, 2).unwrap()] } else { Seq::empty() };
        let s3 = if self.walkable_opt(shift(c, 3)) { seq![shift(c, 3).unwrap()] } else { Seq::empty() };
        s0 + s1 + s2 + s3
    }

    /// The first `k` shifts' contribution to `neighbors_spec`.
    pub open spec fn neighbors_prefix(&self, c: CellId, k: int) -> Seq<CellId>
        decreases k,
    {
        if k <= 0 {
            Seq::empty()
        } else {
            self.neighbors_prefix(c, k - 1) + (if self.walkable_opt(shift(c, k - 1)) {
                seq![shift(c, k - 1).unwrap()]
            } else {
                Seq::empty()
            })
        }
    }

    /// `neighbors_spec` is the sequence built one shift at a time.
    pub proof fn lemma_neighbors_prefix(&self, c: CellId)
        ensures
            self.neighbors_prefix(c, 4) == self.neighbors_spec(c),
    {
        reveal_with_fuel(GridModel::neighbors_prefix, 5);
        assert(self.neighbors_prefix(c, 4) =~= self.neighbors_spec(c));
    }

    /// A cell is among the neighbours exactly when it is a walkable
    /// adjacent cell.
    pub proof fn lemma_neighbors_contains(&self, c: CellId, d: CellId)
        ensures
            self.neighbors_spec(c).contains(d) <==> (adjacent(c, d) && self.walkable_spec(d)),
    {
        lemma_shift_adjacent(c, d);
        let ns = self.neighbors_spec(c);
        if ns.contains(d) {
            let k = choose|k: int| 0 <= k < ns.len() && ns[k] == d;
            assert(exists|i: int| 0 <= i < 4 && shift(c, i) == Some(d) && self.walkable_spec(d));
        }
        if adjacent(c, d) && self.walkable_spec(d) {
            let i = choose|i: int| 0 <= i < 4 && #[trigger] shift(c, i) == Some(d);
            let w0: int = if self.walkable_opt(shift(c, 0)) { 1 } else { 0 };
            let w1: int = if self.walkable_opt(shift(c, 1)) { 1 } else { 0 };
            let w2: int = if self.walkable_opt(shift(c, 2)) { 1 } else { 0 };
            if i == 0 {
                assert(ns[0] == d);
            } else if i == 1 {
                assert(ns[w0] == d);
            } else if i == 2 {
                assert(ns[w0 + w1] == d);
            } else {
                assert(ns[w0 + w1 + w2] == d);
            }
        }
    }
}

impl Grid {
    pub fn new(width: i32, height: i32) -> (g: Grid)
        ensures
            g.width == width,
            g.height == height,
            g@.walls_spec() == Set::<CellId>::empty(),
    {
        Grid { width, height, walls: CellSet::new() }
    }

    pub fn add_wall(&mut self, cell: CellId)
        ensures
            final(self).width == old(self).width,
            final(self).height == old(self).height,
            final(self)@.walls_spec() == old(self)@.walls_spec().insert(cell),
    {
        self.walls.insert(cell);
    }

    pub fn in_bounds(&self, cell: CellId) -> (b: bool)
        ensures
            b == self@.in_bounds_spec(cell),
    {
        cell.0 >= 0 && cell.0 < self.width && cell.1 >= 0 && cell.1 < self.height
    }

    pub fn is_wall(&self, cell: CellId) -> (b: bool)
        ensures
            b == self@.walls_spec().contains(cell),
    {
        self.walls.contains(cell)
    }

    pub fn is_walkable(&self, cell: CellId) -> (b: bool)
        ensures
            b == self@.walkable_spec(cell),
    {
        self.in_bounds(cell) && !self.is_wall(cell)
    }

    /// Walkability of the shift of `cell` in direction `i`.
    pub(crate) fn shifted(&self, cell: CellId, i: usize) -> (r: Option<CellId>)
        requires
            i < 4,
        ensures
            r == (if self@.walkable_opt(shift(cell, i as int)) { shift(cell, i as int) } else { None }),
    {
        let (x, y) = cell;
        let moved = if i == 0 {
            if x < i32::MAX { Some((x + 1, y)) } else { None }
        } else if i == 1 {
            if x > i32::MIN { Some((x - 1, y)) } else { None }
        } else if i == 2 {
            if y < i32::MAX { Some((x, y + 1)) } else { None }
        } else {
            if y > i32::MIN { Some((x, y - 1)) } else { None }
        };
        match moved {
            Some(c) => if self.is_walkable(c) { Some(c) } else { None },
            None => None,
        }
    }

    /// The walkable orthogonal neighbours of `cell`, in the order
    /// +x, -x, +y, -y.
    pub fn neighbors(&self, cell: CellId) -> (ns: Vec<CellId>)
        ensures
            ns@ == self@.neighbors_spec(cell),
    {
        let mut ns: Vec<CellId> = Vec::new();
        let mut i: usize = 0;
        while i < 4
            invariant
                i <= 4,
                ns@ == self@.neighbors_prefix(cell, i as int),
            decreases 4 - i,
        {
            match self.shifted(cell, i) {
                Some(c) => ns.push(c),
                None => {},
            }
            i += 1;
        }
        proof {
            self@.lemma_neighbors_prefix(cell);
        }
        ns
    }

    /// An independent copy of the grid.
    pub fn copy(&self) -> (g: Grid)
        ensures
            g.width == self.width,
            g.height == self.height,
            g@.walls_spec() == self@.walls_spec(),
            g@ == self@,
    {
        Grid { width: self.width, height: self.height, walls: self.walls.clone() }
    }
}

impl Clone for Grid {
    fn clone(&self) -> (g: Grid)
        ensures
            g@ == self@,
    {
        self.copy()
    }
}

} // verus!
