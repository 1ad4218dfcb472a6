//! Two-dimensional cell coordinates on the 9x9 grid.

use crate::index::Index;
use vstd::prelude::*;

verus! {

/// A classical Sudoku coordinate, ranging 0..=8 on each axis for 9x9 cells.
#[derive(Debug, Copy, Clone, Ord, PartialOrd, Eq, PartialEq, Structural)]
pub struct Coordinate {
    pub x: u8,
    pub y: u8,
}

impl Coordinate {
    /// Both axes stay on the 9x9 grid.
    pub open spec fn wf(self) -> bool {
        self.x < 9 && self.y < 9
    }

    pub fn new(x: u8, y: u8) -> (r: Self)
        requires
            x < 9,
            y < 9,
        ensures
            r.wf(),
            r.x == x,
            r.y == y,
    {
        Self { x, y }
    }

    /// The cell index of this coordinate: `y * 9 + x`.
    pub fn into_index(self) -> (r: Index)
        requires
            self.wf(),
        ensures
            r.wf(),
            r@ == self.y * 9 + self.x,
    {
        Index::new(self.y * 9 + self.x)
    }
}

impl Default for Coordinate {
    fn default() -> (r: Self)
        ensures
            r.wf(),
            r.x == 0,
            r.y == 0,
    {
        Self { x: 0, y: 0 }
    }
}

} // verus!
