//! A rectangular grid of cells, stored row by row.

use vstd::prelude::*;
use crate::components::Coordinates;

verus! {

/// The cell of column `x` and row `y` has a place among the `w * h` cells.
pub proof fn lemma_index_in_range(x: int, y: int, w: int, h: int)
    requires
        0 <= x < w,
        0 <= y < h,
    ensures
        0 <= y * w + x < w * h,
{
    assert(y * w + x < w * h && 0 <= y * w) by (nonlinear_arith)
        requires
            0 <= x < w,
            0 <= y < h,
    {
        assert((y + 1) * w <= h * w);
    }
}

/// Two cells of a grid that is `w` wide share a place only if they are the same cell.
pub proof fn lemma_index_injective(x1: int, y1: int, x2: int, y2: int, w: int)
    requires
        0 <= x1 < w,
        0 <= x2 < w,
        0 <= y1,
        0 <= y2,
        y1 * w + x1 == y2 * w + x2,
    ensures
        x1 == x2,
        y1 == y2,
{
    if y1 < y2 {
        assert((y1 + 1) * w <= y2 * w) by (nonlinear_arith)
            requires
                y1 + 1 <= y2,
                0 < w,
        ;
        assert((y1 + 1) * w == y1 * w + w) by (nonlinear_arith);
    } else if y2 < y1 {
        assert((y2 + 1) * w <= y1 * w) by (nonlinear_arith)
            requires
                y2 + 1 <= y1,
                0 < w,
        ;
        assert((y2 + 1) * w == y2 * w + w) by (nonlinear_arith);
    }
}

/// The cells of row `y` that lie in the first `w` columns.
pub open spec fn row_cells(w: int, y: int) -> Set<Coordinates> {
    Set::new(|c: Coordinates| c.y == y && c.x < w)
}

/// The cells of a grid with `w` columns and `h` rows.
pub open spec fn grid_cells(w: int, h: int) -> Set<Coordinates> {
    Set::new(|c: Coordinates| c.x < w && c.y < h)
}

/// A row holds as many cells as it has columns.
pub proof fn lemma_row_size(w: int, y: int)
    requires
        0 <= w <= 65536,
        0 <= y <= 65535,
    ensures
        row_cells(w, y).finite(),
        row_cells(w, y).len() == w,
    decreases w,
{
    if w == 0 {
        assert(row_cells(w, y) =~= Set::empty());
    } else {
        lemma_row_size(w - 1, y);
        let last = Coordinates { x: (w - 1) as u16, y: y as u16 };
        assert(row_cells(w, y) =~= row_cells(w - 1, y).insert(last));
    }
}

/// A grid holds as many cells as its width times its height.
pub proof fn lemma_grid_size(w: int, h: int)
    requires
        0 <= w <= 65536,
        0 <= h <= 65536,
    ensures
        grid_cells(w, h).finite(),
        grid_cells(w, h).len() == w * h,
    decreases h,
{
    if h == 0 {
        assert(grid_cells(w, h) =~= Set::empty());
    } else {
        lemma_grid_size(w, h - 1);
        lemma_row_size(w, h - 1);
        let below = grid_cells(w, h - 1);
        let row = row_cells(w, h - 1);
        assert(grid_cells(w, h) =~= below.union(row));
        assert(below.disjoint(row));
        vstd::set_lib::lemma_set_disjoint_lens(below, row);
        assert(w * (h - 1) + w == w * h) by (nonlinear_arith);
    }
}

/// A grid of `width` columns and `height` rows with one value of `T` in each cell.
pub struct Grid<T> {
    width: u16,
    height: u16,
    cells: Vec<T>,
}

impl<T: Copy> Grid<T> {
    /// The grid holds exactly one value for each of its cells.
    pub closed spec fn wf(&self) -> bool {
        self.cells@.len() == self.width as int * self.height as int
    }

    pub closed spec fn spec_width(&self) -> u16 {
        self.width
    }

    pub closed spec fn spec_height(&self) -> u16 {
        self.height
    }

    /// The cell lies inside the grid.
    pub open spec fn contains(&self, c: Coordinates) -> bool {
        c.x < self.width() && c.y < self.height()
    }

    /// The value in the cell `c`. It means something only for a cell inside the grid.
    pub closed spec fn at(&self, c: Coordinates) -> T {
        self.cells@[c.y as int * self.width as int + c.x as int]
    }

    #[verifier::when_used_as_spec(spec_width)]
    pub fn width(&self) -> (w: u16)
        ensures
            w == self.width(),
    {
        self.width
    }

    #[verifier::when_used_as_spec(spec_height)]
    pub fn height(&self) -> (h: u16)
        ensures
            h == self.height(),
    {
        self.height
    }

    /// A grid that holds `value` in every cell.
    pub fn filled(width: u16, height: u16, value: T) -> (grid: Grid<T>)
        ensures
            grid.wf(),
            grid.width() == width,
            grid.height() == height,
            forall|c: Coordinates| grid.contains(c) ==> #[trigger] grid.at(c) == value,
    {
        assert(width as int * height as int <= 65535 * 65535) by (nonlinear_arith)
            requires
                0 <= width <= 65535,
                0 <= height <= 65535,
        ;
        let total: u64 = (width as u64) * (height as u64);
        let mut cells: Vec<T> = Vec::new();
        let mut filled: u64 = 0;
        while filled < total
            invariant
                filled <= total,
                cells@.len() == filled,
                forall|i: int| 0 <= i < filled ==> cells@[i] == value,
            decreases total - filled,
        {
            cells.push(value);
            filled = filled + 1;
        }
        let grid = Grid { width, height, cells };
        assert forall|c: Coordinates| grid.contains(c) implies #[trigger] grid.at(c) == value by {
            lemma_index_in_range(c.x as int, c.y as int, width as int, height as int);
        }
        grid
    }

    /// The value in the cell `c`, or nothing where `c` lies outside the grid.
    pub fn get(&self, c: Coordinates) -> (value: Option<T>)
        requires
            self.wf(),
        ensures
            value == (if self.contains(c) {
                Some(self.at(c))
            } else {
                None
            }),
    {
        if c.x < self.width && c.y < self.height {
            proof {
                lemma_index_in_range(c.x as int, c.y as int, self.width as int, self.height as int);
                assert(self.width as int * self.height as int <= 65535 * 65535) by (nonlinear_arith)
                    requires
                        0 <= self.width <= 65535,
                        0 <= self.height <= 65535,
                ;
            }
            let place: u64 = (c.y as u64) * (self.width as u64) + (c.x as u64);
            Some(self.cells[place as usize])
        } else {
            None
        }
    }

    /// Puts `value` into the cell `c` and leaves every other cell as it was.
    /// Outside the grid nothing changes, and the answer is `false`.
    pub fn set(&mut self, c: Coordinates, value: T) -> (inside: bool)
        requires
            old(self).wf(),
        ensures
            final(self).wf(),
            final(self).width() == old(self).width(),
            final(self).height() == old(self).height(),
            inside == old(self).contains(c),
            inside ==> final(self).at(c) == value,
            forall|other: Coordinates|
                old(self).contains(other) && (other != c || !inside) ==> #[trigger] final(self).at(
                    other,
                ) == old(self).at(other),
    {
        if c.x < self.width && c.y < self.height {
            proof {
                lemma_index_in_range(c.x as int, c.y as int, self.width as int, self.height as int);
                assert(self.width as int * self.height as int <= 65535 * 65535) by (nonlinear_arith)
                    requires
                        0 <= self.width <= 65535,
                        0 <= self.height <= 65535,
                ;
            }
            let place: u64 = (c.y as u64) * (self.width as u64) + (c.x as u64);
            let ghost before = *self;
            self.cells[place as usize] = value;
            assert forall|other: Coordinates| before.contains(other) && other != c implies #[trigger] self.at(
                other,
            ) == before.at(other) by {
                lemma_index_in_range(
                    other.x as int,
                    other.y as int,
                    self.width as int,
                    self.height as int,
                );
                if other.y as int * self.width as int + other.x as int == place as int {
                    lemma_index_injective(
                        other.x as int,
                        other.y as int,
                        c.x as int,
                        c.y as int,
                        self.width as int,
                    );
                }
            }
            true
        } else {
            false
        }
    }
}

} // verus!
