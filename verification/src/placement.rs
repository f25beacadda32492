//! The choosing of the cells that get a bomb, one drawn number at a time.

use vstd::prelude::*;
use crate::components::Coordinates;
use crate::grid::Grid;
use crate::tile_map::TileMap;

verus! {

/// The cells chosen for bombs so far, in a grid of a given size.
pub struct BombDraw {
    taken: Grid<bool>,
    picked: Vec<Coordinates>,
}

impl BombDraw {
    pub closed spec fn spec_width(&self) -> u16 {
        self.taken.width()
    }

    pub closed spec fn spec_height(&self) -> u16 {
        self.taken.height()
    }

    /// The chosen cells, in the order in which they were chosen.
    pub closed spec fn picked(&self) -> Seq<Coordinates> {
        self.picked@
    }

    /// The record of the taken cells agrees with the chosen cells.
    pub closed spec fn recorded(&self) -> bool {
        &&& self.taken.wf()
        &&& forall|i: int| 0 <= i < self.picked@.len() ==> self.taken.at(#[trigger] self.picked@[i])
        &&& forall|c: Coordinates| self.taken.contains(c) && #[trigger] self.taken.at(c) ==> self.picked@.contains(c)
    }

    /// No cell was chosen twice, and every chosen cell lies in the grid.
    pub open spec fn wf(&self) -> bool {
        &&& self.recorded()
        &&& self.picked().no_duplicates()
        &&& forall|i: int|
            0 <= i < self.picked().len() ==> (#[trigger] self.picked()[i]).x < self.width()
                && self.picked()[i].y < self.height()
    }

    #[verifier::when_used_as_spec(spec_width)]
    pub fn width(&self) -> (w: u16)
        ensures
            w == self.width(),
    {
        self.taken.width()
    }

    #[verifier::when_used_as_spec(spec_height)]
    pub fn height(&self) -> (h: u16)
        ensures
            h == self.height(),
    {
        self.taken.height()
    }

    /// Nothing chosen yet.
    pub fn new(width: u16, height: u16) -> (drawing: BombDraw)
        ensures
            drawing.wf(),
            drawing.width() == width,
            drawing.height() == height,
            drawing.picked() == Seq::<Coordinates>::empty(),
    {
        BombDraw { taken: Grid::filled(width, height, false), picked: Vec::new() }
    }

    /// Chooses the cell that the drawn number designates, unless it was
    /// chosen before. The answer says whether the cell was chosen now.
    pub fn offer(&mut self, draw: u64) -> (accepted: bool)
        requires
            old(self).wf(),
        ensures
            final(self).wf(),
            final(self).width() == old(self).width(),
            final(self).height() == old(self).height(),
            accepted == (old(self).width() > 0 && old(self).height() > 0 && !old(self).picked().contains(
                TileMap::drawn_cell(old(self).width(), old(self).height(), draw),
            )),
            final(self).picked() == (if accepted {
                old(self).picked().push(TileMap::drawn_cell(old(self).width(), old(self).height(), draw))
            } else {
                old(self).picked()
            }),
    {
        match TileMap::cell_for_draw(self.taken.width(), self.taken.height(), draw) {
            Some(cell) => {
                match self.taken.get(cell) {
                    Some(false) => {
                        self.take(cell);
                        true
                    },
                    _ => {
                        proof {
                            assert(self.taken.at(cell));
                        }
                        false
                    },
                }
            },
            None => false,
        }
    }

    /// Records a free cell of the grid as chosen.
    fn take(&mut self, cell: Coordinates)
        requires
            old(self).wf(),
            cell.x < old(self).width(),
            cell.y < old(self).height(),
            !old(self).taken.at(cell),
        ensures
            final(self).wf(),
            final(self).width() == old(self).width(),
            final(self).height() == old(self).height(),
            !old(self).picked().contains(cell),
            final(self).picked() == old(self).picked().push(cell),
    {
        let ghost before = self.picked@;
        let ghost marks = self.taken;
        assert(!before.contains(cell)) by {
            if before.contains(cell) {
                let i = choose|i: int| 0 <= i < before.len() && before[i] == cell;
                assert(marks.at(before[i]));
            }
        }
        self.taken.set(cell, true);
        self.picked.push(cell);
        proof {
            assert forall|i: int| 0 <= i < self.picked@.len() implies self.taken.at(
                #[trigger] self.picked@[i],
            ) by {
                if i < before.len() {
                    assert(self.picked@[i] == before[i]);
                    assert(marks.at(before[i]));
                    assert(before.contains(before[i]));
                }
            }
            assert forall|c: Coordinates| self.taken.contains(c) && #[trigger] self.taken.at(
                c,
            ) implies self.picked@.contains(c) by {
                if c == cell {
                    assert(self.picked@[before.len() as int] == cell);
                } else {
                    assert(marks.at(c));
                    let i = choose|i: int| 0 <= i < before.len() && before[i] == c;
                    assert(self.picked@[i] == c);
                }
            }
            assert forall|a: int, b: int|
                0 <= a < self.picked@.len() && 0 <= b < self.picked@.len() && a != b implies self.picked@[a]
                != self.picked@[b] by {
                if a < before.len() {
                    assert(before.contains(self.picked@[a]));
                }
                if b < before.len() {
                    assert(before.contains(self.picked@[b]));
                }
            }
        }
    }

    /// Chooses the first cell, row by row, that was not chosen before, and
    /// hands it back; nothing if every cell of the grid was chosen.
    pub fn take_first_free(&mut self) -> (cell: Option<Coordinates>)
        requires
            old(self).wf(),
        ensures
            final(self).wf(),
            final(self).width() == old(self).width(),
            final(self).height() == old(self).height(),
            match cell {
                Some(c) => {
                    &&& c.x < old(self).width()
                    &&& c.y < old(self).height()
                    &&& !old(self).picked().contains(c)
                    &&& forall|b: Coordinates|
                        b.x < old(self).width() && b.y < old(self).height() && b.row_major_before(c)
                            ==> old(self).picked().contains(b)
                    &&& final(self).picked() == old(self).picked().push(c)
                },
                None => {
                    &&& final(self).picked() == old(self).picked()
                    &&& forall|b: Coordinates|
                        b.x < old(self).width() && b.y < old(self).height() ==> old(self).picked().contains(b)
                },
            },
    {
        let width = self.taken.width();
        let height = self.taken.height();
        let mut y: u16 = 0;
        while y < height
            invariant
                self.wf(),
                *self == *old(self),
                self.taken.width() == width,
                self.taken.height() == height,
                y <= height,
                forall|c: Coordinates| self.taken.contains(c) && c.y < y ==> #[trigger] self.taken.at(c),
            decreases height - y,
        {
            let mut x: u16 = 0;
            while x < width
                invariant
                    self.wf(),
                    *self == *old(self),
                    self.taken.width() == width,
                    self.taken.height() == height,
                    y < height,
                    x <= width,
                    forall|c: Coordinates|
                        self.taken.contains(c) && (c.y < y || (c.y == y && c.x < x)) ==> #[trigger] self.taken.at(
                            c,
                        ),
                decreases width - x,
            {
                let here = Coordinates { x, y };
                match self.taken.get(here) {
                    Some(false) => {
                        proof {
                            assert forall|b: Coordinates|
                                b.x < width && b.y < height && b.row_major_before(here) implies self.picked@.contains(
                                b,
                            ) by {
                                assert(self.taken.at(b));
                            }
                        }
                        self.take(here);
                        return Some(here);
                    },
                    _ => {},
                }
                x = x + 1;
            }
            y = y + 1;
        }
        proof {
            assert forall|b: Coordinates| b.x < width && b.y < height implies self.picked@.contains(b) by {
                assert(self.taken.at(b));
            }
        }
        None
    }

    /// The chosen cells, in the order in which they were chosen.
    pub fn into_cells(self) -> (cells: Vec<Coordinates>)
        ensures
            cells@ == self.picked(),
    {
        self.picked
    }
}

} // verus!
