//! What a single cell of the grid holds.

use vstd::prelude::*;
use crate::components::{Bomb, BombNeighbor};

verus! {

/// The content of one cell.
#[derive(Clone, Copy, PartialEq, Eq, Structural, Debug)]
pub enum Tile {
    /// A bomb.
    Bomb,
    /// No bomb, and this many bombs among the surrounding cells (1 to 8).
    BombNeighbor(u8),
    /// No bomb, and none around.
    Empty,
}

impl Tile {
    pub fn is_bomb(&self) -> (b: bool)
        ensures
            b == (*self == Tile::Bomb),
    {
        matches!(self, Tile::Bomb)
    }

    /// The character that stands for the tile in a textual dump of the grid:
    /// `*` for a bomb, the digit for a number, a blank for an empty cell.
    pub open spec fn glyph_of(self) -> char {
        match self {
            Tile::Bomb => '*',
            Tile::BombNeighbor(n) => if n < 10 {
                (48 + n) as char
            } else {
                '?'
            },
            Tile::Empty => ' ',
        }
    }

    /// The character that stands for the tile in a textual dump of the grid.
    pub fn glyph(&self) -> (sign: char)
        ensures
            sign == self.glyph_of(),
    {
        match self {
            Tile::Bomb => '*',
            Tile::BombNeighbor(n) => if *n < 10 {
                (48u8 + *n) as char
            } else {
                '?'
            },
            Tile::Empty => ' ',
        }
    }

    /// The marker for a bomb cell, if this is one.
    pub fn bomb(&self) -> (marker: Option<Bomb>)
        ensures
            marker == (if *self == Tile::Bomb { Some(Bomb) } else { None }),
    {
        match self {
            Tile::Bomb => Some(Bomb),
            _ => None,
        }
    }

    /// The marker for a cell that touches bombs, with their number.
    pub fn bomb_neighbor(&self) -> (marker: Option<BombNeighbor>)
        ensures
            marker == (match *self {
                Tile::BombNeighbor(count) => Some(BombNeighbor { count }),
                _ => None,
            }),
    {
        match self {
            Tile::BombNeighbor(count) => Some(BombNeighbor { count: *count }),
            _ => None,
        }
    }
}

} // verus!
