//! The value types that a presentation layer attaches to what it draws.

use vstd::prelude::*;

verus! {

/// The address of a cell: column `x`, row `y`, both counted from zero.
///
/// The derived order compares `x` first and `y` second.
#[derive(Clone, Copy, PartialEq, Eq, Structural, PartialOrd, Ord, Hash, Debug)]
pub struct Coordinates {
    pub x: u16,
    pub y: u16,
}

impl Coordinates {
    /// Both cells differ and lie at most one column and one row apart.
    pub open spec fn adjacent(self, other: Coordinates) -> bool {
        &&& self != other
        &&& -1 <= self.x - other.x <= 1
        &&& -1 <= self.y - other.y <= 1
    }

    /// `self` comes before `other` when the grid is walked row by row,
    /// each row from its lowest column up.
    pub open spec fn row_major_before(self, other: Coordinates) -> bool {
        self.y < other.y || (self.y == other.y && self.x < other.x)
    }

    pub fn new(x: u16, y: u16) -> (c: Coordinates)
        ensures
            c.x == x,
            c.y == y,
    {
        Coordinates { x, y }
    }
}

/// Marks a cell that holds a bomb.
#[derive(Clone, Copy, PartialEq, Eq, Structural, PartialOrd, Ord, Hash, Debug)]
pub struct Bomb;

/// Marks a cell that touches `count` bombs.
#[derive(Clone, Copy, PartialEq, Eq, Structural, PartialOrd, Ord, Hash, Debug)]
pub struct BombNeighbor {
    pub count: u8,
}

} // verus!
