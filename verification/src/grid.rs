//! Grid cells and the per-level set of solid cells.

use vstd::prelude::*;

verus! {

/// Integer cell address within one level's tile grid.
#[derive(Clone, Copy, PartialEq, Eq, Structural, Debug)]
pub struct GridCoords {
    pub x: i32,
    pub y: i32,
}

/// The set of solid-tile coordinates for one level.
///
/// Built once per level-load batch, queried (never mutated) by the compactor.
pub struct WallCellSet {
    pub cells: Vec<GridCoords>,
}

impl WallCellSet {
    /// Whether cell `(x, y)` is solid.
    pub open spec fn solid(self, x: int, y: int) -> bool {
        exists|i: int|
            0 <= i < self.cells@.len() && self.cells@[i].x == x && self.cells@[i].y == y
    }

    /// No coordinate is stored twice.
    pub open spec fn wf(self) -> bool {
        forall|i: int, j: int|
            0 <= i < j < self.cells@.len() ==> self.cells@[i] != self.cells@[j]
    }

    /// How many distinct solid cells the set holds (exact when `wf`).
    pub open spec fn count(self) -> nat {
        self.cells@.len()
    }

    pub fn new() -> (s: Self)
        ensures
            s.wf(),
            s.count() == 0,
            forall|x: int, y: int| !s.solid(x, y),
    {
        WallCellSet { cells: Vec::new() }
    }

    /// Membership query: is cell `(x, y)` solid?
    pub fn contains(&self, x: i32, y: i32) -> (r: bool)
        ensures
            r == self.solid(x as int, y as int),
    {
        let mut i: usize = 0;
        while i < self.cells.len()
            invariant
                i <= self.cells@.len(),
                forall|k: int|
                    0 <= k < i ==> !(self.cells@[k].x == x as int && self.cells@[k].y == y as int),
            decreases self.cells@.len() - i,
        {
            let c = self.cells[i];
            if c.x == x && c.y == y {
                return true;
            }
            i = i + 1;
        }
        false
    }

    /// Adds a cell, keeping the set free of duplicates.
    pub fn insert(&mut self, c: GridCoords)
        requires
            old(self).wf(),
        ensures
            final(self).wf(),
            forall|x: int, y: int|
                final(self).solid(x, y) <==> (old(self).solid(x, y) || (x == c.x && y == c.y)),
            old(self).count() <= final(self).count() <= old(self).count() + 1,
    {
        if !self.contains(c.x, c.y) {
            self.cells.push(c);
            proof {
                let n = old(self).cells@.len() as int;
                assert forall|x: int, y: int|
                    self.solid(x, y) <==> (old(self).solid(x, y) || (x == c.x && y == c.y)) by {
                    if old(self).solid(x, y) {
                        let i = choose|i: int|
                            0 <= i < n && old(self).cells@[i].x == x && old(self).cells@[i].y == y;
                        assert(self.cells@[i].x == x && self.cells@[i].y == y);
                    }
                    if x == c.x && y == c.y {
                        assert(self.cells@[n].x == x && self.cells@[n].y == y);
                    }
                    if self.solid(x, y) {
                        let i = choose|i: int|
                            0 <= i < n + 1 && self.cells@[i].x == x && self.cells@[i].y == y;
                        if i < n {
                            assert(old(self).cells@[i].x == x && old(self).cells@[i].y == y);
                        }
                    }
                }
                assert forall|i: int, j: int|
                    0 <= i < j < self.cells@.len() implies self.cells@[i] != self.cells@[j] by {
                    if j < n {
                        assert(old(self).cells@[i] != old(self).cells@[j]);
                    } else {
                        assert(self.cells@[j] == c);
                        assert(!(old(self).cells@[i].x == c.x && old(self).cells@[i].y == c.y));
                    }
                }
            }
        }
    }

    pub fn len(&self) -> (n: usize)
        ensures
            n == self.count(),
    {
        self.cells.len()
    }

    pub fn is_empty(&self) -> (r: bool)
        ensures
            r == (self.count() == 0),
    {
        self.cells.len() == 0
    }
}

} // verus!
