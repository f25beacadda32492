//! The board in play: which cells are still covered, which carry a mark, and
//! what a move changes.

use vstd::prelude::*;
use crate::components::Coordinates;
use crate::covers::{cover_entries, CoverMap};
use crate::grid::Grid;
use crate::tile::Tile;
use crate::tile_map::TileMap;

verus! {

/// What uncovering a cell led to.
#[derive(Clone, Debug, PartialEq, Eq)]
pub enum UncoverOutcome {
    /// These cells lost their covers. None did if the cell was not covered.
    Revealed(Vec<Coordinates>),
    /// The cell held a bomb. Its cover is gone, and nothing else changed.
    BombHit,
}

/// The covers that a move took off.
#[derive(Clone, Debug, PartialEq, Eq)]
pub struct Opened {
    /// The cells that lost their covers.
    pub cells: Vec<Coordinates>,
    /// The handles of those covers, in the order of `cells`.
    pub covers: Vec<u64>,
    /// Whether the cell that was asked for held a bomb.
    pub bomb_hit: bool,
}

/// What toggling the mark of a cell led to.
#[derive(Clone, Copy, PartialEq, Eq, Structural, Debug)]
pub enum MarkOutcome {
    /// The cell is not covered, so it cannot carry a mark.
    NoOp,
    /// The cell carries a mark now.
    Marked,
    /// The cell has lost its mark.
    Unmarked,
}

/// A board in play.
pub struct Board {
    tile_map: TileMap,
    covered_tiles: CoverMap,
    marked_tiles: Vec<Coordinates>,
    origin_x: i32,
    origin_y: i32,
    tile_size: u16,
}

impl Board {
    /// The grid under the covers.
    pub closed spec fn tiles(&self) -> TileMap {
        self.tile_map
    }

    /// The cells that are still covered, each with the handle of its cover.
    pub closed spec fn covered(&self) -> Map<Coordinates, u64> {
        cover_entries(self.covered_tiles)
    }

    /// The cells that carry a mark, in the order in which they got it.
    pub closed spec fn marked(&self) -> Seq<Coordinates> {
        self.marked_tiles@
    }

    /// Where the lower left corner of the board lies, and how long the side of a tile is.
    pub closed spec fn geometry(&self) -> (int, int, int) {
        (self.origin_x as int, self.origin_y as int, self.tile_size as int)
    }

    /// Only cells of the grid are covered, only covered cells are marked, and
    /// none is marked twice.
    pub open spec fn wf(&self) -> bool {
        &&& self.tiles().wf()
        &&& self.covered().dom().finite()
        &&& forall|c: Coordinates| #[trigger] self.covered().contains_key(c) ==> self.tiles().contains(c)
        &&& self.marked().no_duplicates()
        &&& forall|i: int|
            0 <= i < self.marked().len() ==> self.covered().contains_key(#[trigger] self.marked()[i])
    }

    /// The handle that a newly assembled board gives the cover of the cell
    /// `c`: the cell's number when the cells are counted row by row.
    pub open spec fn fresh_handle(&self, c: Coordinates) -> int {
        c.y * self.tiles().width() + c.x
    }

    /// The marks `marks` without the cell `c`.
    pub open spec fn without_mark(marks: Seq<Coordinates>, c: Coordinates) -> Seq<Coordinates> {
        if marks.contains(c) {
            marks.remove(marks.index_of(c))
        } else {
            marks
        }
    }

    /// Uncovering `from` uncovers `to` as well: `from` touches no bomb, and
    /// `to` lies next to it, covered and without a mark.
    pub open spec fn spreads(&self, from: Coordinates, to: Coordinates) -> bool {
        &&& self.tiles().tile(from) == Tile::Empty
        &&& from.adjacent(to)
        &&& self.covered().contains_key(to)
        &&& !self.marked().contains(to)
    }

    /// A way that uncovering takes: it starts at a covered cell and spreads
    /// from each cell to the next.
    pub open spec fn flood_path(&self, path: Seq<Coordinates>) -> bool {
        &&& path.len() > 0
        &&& self.covered().contains_key(path[0])
        &&& forall|i: int| 0 <= i < path.len() - 1 ==> #[trigger] self.spreads(path[i], path[i + 1])
    }

    /// Uncovering `origin` uncovers `c`.
    pub open spec fn floods(&self, origin: Coordinates, c: Coordinates) -> bool {
        exists|path: Seq<Coordinates>| #[trigger]
            self.flood_path(path) && path[0] == origin && path.last() == c
    }

    /// All the cells that uncovering `origin` uncovers.
    pub open spec fn flood_region(&self, origin: Coordinates) -> Set<Coordinates> {
        Set::new(|c: Coordinates| self.floods(origin, c))
    }

    /// Every cell that is still covered holds a bomb.
    pub open spec fn complete(&self) -> bool {
        forall|c: Coordinates| #[trigger] self.covered().contains_key(c) ==> self.tiles().tile(c) == Tile::Bomb
    }

    /// The first cell, row by row, that touches no bomb; nothing if every
    /// cell holds or touches one.
    pub open spec fn is_first_empty(map: TileMap, cell: Option<Coordinates>) -> bool {
        match cell {
            Some(c) => {
                &&& map.contains(c)
                &&& map.tile(c) == Tile::Empty
                &&& forall|b: Coordinates|
                    map.contains(b) && b.row_major_before(c) ==> #[trigger] map.tile(b) != Tile::Empty
            },
            None => forall|b: Coordinates| map.contains(b) ==> #[trigger] map.tile(b) != Tile::Empty,
        }
    }

    /// The cell under the point `(px, py)`: nothing if the point lies outside the
    /// board, which spans `width` by `height` tiles from its corner.
    pub open spec fn point_cell(&self, px: int, py: int) -> Option<Coordinates> {
        let (ox, oy, side) = self.geometry();
        let dx = px - ox;
        let dy = py - oy;
        if 0 <= dx < self.tiles().width() * side && 0 <= dy < self.tiles().height() * side {
            Some(Coordinates { x: (dx / side) as u16, y: (dy / side) as u16 })
        } else {
            None
        }
    }

    /// Covers every cell of `tile_map` and gives each cover a handle of its own.
    ///
    /// With `safe_start` the first cell, row by row, that touches no bomb is
    /// handed back beside the board: uncovering it first cannot hit a bomb.
    /// The tiles have sides of length 1, and the corner lies at `(0, 0)`.
    pub fn assemble(tile_map: TileMap, safe_start: bool) -> (made: (Board, Option<Coordinates>))
        requires
            tile_map.wf(),
        ensures
            made.0.wf(),
            made.0.tiles() == tile_map,
            made.0.marked() == Seq::<Coordinates>::empty(),
            made.0.geometry() == (0int, 0int, 1int),
            forall|c: Coordinates| made.0.covered().contains_key(c) <==> tile_map.contains(c),
            forall|c: Coordinates|
                tile_map.contains(c) ==> #[trigger] made.0.covered()[c] == made.0.fresh_handle(c),
            safe_start ==> Self::is_first_empty(tile_map, made.1),
            !safe_start ==> made.1 is None,
    {
        let width = tile_map.width();
        let height = tile_map.height();
        let mut covered_tiles = CoverMap::new();
        let mut first_empty: Option<Coordinates> = None;
        let mut y: u16 = 0;
        while y < height
            invariant
                tile_map.wf(),
                tile_map.width() == width,
                tile_map.height() == height,
                y <= height,
                cover_entries(covered_tiles).dom().finite(),
                forall|c: Coordinates|
                    cover_entries(covered_tiles).contains_key(c) <==> tile_map.contains(c) && c.y < y,
                forall|c: Coordinates|
                    tile_map.contains(c) && c.y < y ==> #[trigger] cover_entries(covered_tiles)[c] == c.y
                        * width + c.x,
                match first_empty {
                    Some(e) => {
                        &&& tile_map.contains(e)
                        &&& tile_map.tile(e) == Tile::Empty
                        &&& e.y < y
                        &&& forall|b: Coordinates|
                            tile_map.contains(b) && b.row_major_before(e) ==> #[trigger] tile_map.tile(b)
                                != Tile::Empty
                    },
                    None => forall|b: Coordinates|
                        tile_map.contains(b) && b.y < y ==> #[trigger] tile_map.tile(b) != Tile::Empty,
                },
            decreases height - y,
        {
            let mut x: u16 = 0;
            while x < width
                invariant
                    tile_map.wf(),
                    tile_map.width() == width,
                    tile_map.height() == height,
                    y < height,
                    x <= width,
                    cover_entries(covered_tiles).dom().finite(),
                    forall|c: Coordinates|
                        cover_entries(covered_tiles).contains_key(c) <==> tile_map.contains(c) && (c.y < y
                            || (c.y == y && c.x < x)),
                    forall|c: Coordinates|
                        tile_map.contains(c) && (c.y < y || (c.y == y && c.x < x)) ==> #[trigger] cover_entries(
                            covered_tiles,
                        )[c] == c.y * width + c.x,
                    match first_empty {
                        Some(e) => {
                            &&& tile_map.contains(e)
                            &&& tile_map.tile(e) == Tile::Empty
                            &&& (e.y < y || (e.y == y && e.x < x))
                            &&& forall|b: Coordinates|
                                tile_map.contains(b) && b.row_major_before(e) ==> #[trigger] tile_map.tile(b)
                                    != Tile::Empty
                        },
                        None => forall|b: Coordinates|
                            tile_map.contains(b) && (b.y < y || (b.y == y && b.x < x)) ==> #[trigger] tile_map.tile(
                                b,
                            ) != Tile::Empty,
                    },
                decreases width - x,
            {
                let here = Coordinates { x, y };
                proof {
                    crate::grid::lemma_index_in_range(
                        x as int,
                        y as int,
                        width as int,
                        height as int,
                    );
                    assert(width as int * height as int <= 65535 * 65535) by (nonlinear_arith)
                        requires
                            0 <= width <= 65535,
                            0 <= height <= 65535,
                    ;
                }
                let handle: u64 = (y as u64) * (width as u64) + (x as u64);
                let ghost earlier = cover_entries(covered_tiles);
                covered_tiles.insert(here, handle);
                assert forall|c: Coordinates|
                    cover_entries(covered_tiles).contains_key(c) <==> tile_map.contains(c) && (c.y < y || (
                    c.y == y && c.x < x + 1)) by {
                    if c != here {
                        assert(cover_entries(covered_tiles).contains_key(c) == earlier.contains_key(c));
                    }
                }
                assert forall|c: Coordinates|
                    tile_map.contains(c) && (c.y < y || (c.y == y && c.x < x + 1)) implies #[trigger] cover_entries(
                    covered_tiles,
                )[c] == c.y * width + c.x by {
                    if c != here {
                        assert(earlier.contains_key(c));
                        assert(cover_entries(covered_tiles)[c] == earlier[c]);
                    }
                }
                if first_empty.is_none() {
                    match tile_map.tile_at(here) {
                        Some(Tile::Empty) => {
                            first_empty = Some(here);
                        },
                        _ => {},
                    }
                }
                x = x + 1;
            }
            y = y + 1;
        }
        let board = Board {
            tile_map,
            covered_tiles,
            marked_tiles: Vec::new(),
            origin_x: 0,
            origin_y: 0,
            tile_size: 1,
        };
        let start = if safe_start {
            first_empty
        } else {
            None
        };
        (board, start)
    }

    /// The grid under the covers.
    pub fn tile_map(&self) -> (map: &TileMap)
        ensures
            *map == self.tiles(),
    {
        &self.tile_map
    }

    /// The marked cells, in the order in which they were marked.
    pub fn marked_tiles(&self) -> (marks: &Vec<Coordinates>)
        ensures
            marks@ == self.marked(),
    {
        &self.marked_tiles
    }

    /// Whether the cell `c` is still covered.
    pub fn is_covered(&self, c: Coordinates) -> (covered: bool)
        ensures
            covered == self.covered().contains_key(c),
    {
        self.covered_tiles.contains_key(c)
    }

    /// The handle of the cover on the cell `c`, if the cell is still covered.
    pub fn cover_handle(&self, c: Coordinates) -> (handle: Option<u64>)
        ensures
            handle == (if self.covered().contains_key(c) {
                Some(self.covered()[c])
            } else {
                None
            }),
    {
        self.covered_tiles.get(c)
    }

    /// Gives the cover on the cell `c` the handle by which the presentation
    /// layer knows it. Without a cover on `c` nothing changes, and the answer
    /// is `false`.
    pub fn set_cover_handle(&mut self, c: Coordinates, handle: u64) -> (covered: bool)
        requires
            old(self).wf(),
        ensures
            final(self).wf(),
            final(self).tiles() == old(self).tiles(),
            final(self).marked() == old(self).marked(),
            final(self).geometry() == old(self).geometry(),
            covered == old(self).covered().contains_key(c),
            final(self).covered() == (if covered {
                old(self).covered().insert(c, handle)
            } else {
                old(self).covered()
            }),
    {
        if self.covered_tiles.contains_key(c) {
            self.covered_tiles.insert(c, handle);
            assert(self.covered().dom() =~= old(self).covered().dom());
            true
        } else {
            false
        }
    }

    /// Where in the marks the cell `c` stands, if it is marked.
    fn mark_position(&self, c: Coordinates) -> (position: Option<usize>)
        ensures
            match position {
                Some(i) => i < self.marked().len() && self.marked()[i as int] == c,
                None => !self.marked().contains(c),
            },
    {
        let mut i: usize = 0;
        while i < self.marked_tiles.len()
            invariant
                i <= self.marked_tiles@.len(),
                forall|j: int| 0 <= j < i ==> self.marked_tiles@[j] != c,
            decreases self.marked_tiles.len() - i,
        {
            if self.marked_tiles[i] == c {
                return Some(i);
            }
            i = i + 1;
        }
        None
    }

    /// Whether the cell `c` carries a mark.
    pub fn is_marked(&self, c: Coordinates) -> (marked: bool)
        ensures
            marked == self.marked().contains(c),
    {
        self.mark_position(c).is_some()
    }

    /// Takes the mark off the cell `c`, if it carries one.
    fn unmark(&mut self, c: Coordinates) -> (had_mark: bool)
        requires
            old(self).marked().no_duplicates(),
        ensures
            final(self).tiles() == old(self).tiles(),
            final(self).covered() == old(self).covered(),
            final(self).geometry() == old(self).geometry(),
            final(self).marked() == Self::without_mark(old(self).marked(), c),
            had_mark == old(self).marked().contains(c),
            final(self).marked().no_duplicates(),
            !final(self).marked().contains(c),
            forall|m: Coordinates|
                m != c ==> (final(self).marked().contains(m) <==> old(self).marked().contains(m)),
    {
        match self.mark_position(c) {
            Some(i) => {
                let ghost before = self.marked_tiles@;
                self.marked_tiles.remove(i);
                proof {
                    Self::lemma_remove_mark(before, i as int);
                }
                true
            },
            None => false,
        }
    }

    /// Taking the mark at place `i` out of marks without repetition takes
    /// out just the cell that stood there.
    proof fn lemma_remove_mark(marks: Seq<Coordinates>, i: int)
        requires
            marks.no_duplicates(),
            0 <= i < marks.len(),
        ensures
            marks.remove(i) == Self::without_mark(marks, marks[i]),
            marks.remove(i).no_duplicates(),
            !marks.remove(i).contains(marks[i]),
            forall|m: Coordinates| m != marks[i] ==> (marks.remove(i).contains(m) <==> marks.contains(m)),
    {
        let rest = marks.remove(i);
        marks.remove_ensures(i);
        assert(marks.contains(marks[i]));
        assert(marks.index_of(marks[i]) == i);
        assert forall|a: int, b: int| 0 <= a < rest.len() && 0 <= b < rest.len() && a != b implies rest[a]
            != rest[b] by {
            let from_a = if a < i { a } else { a + 1 };
            let from_b = if b < i { b } else { b + 1 };
            assert(rest[a] == marks[from_a]);
            assert(rest[b] == marks[from_b]);
        }
        assert(!rest.contains(marks[i])) by {
            if rest.contains(marks[i]) {
                let a = choose|a: int| 0 <= a < rest.len() && rest[a] == marks[i];
                let from_a = if a < i { a } else { a + 1 };
                assert(rest[a] == marks[from_a]);
            }
        }
        assert forall|m: Coordinates| m != marks[i] implies (rest.contains(m) <==> marks.contains(m)) by {
            if rest.contains(m) {
                let a = choose|a: int| 0 <= a < rest.len() && rest[a] == m;
                let from_a = if a < i { a } else { a + 1 };
                assert(rest[a] == marks[from_a]);
            }
            if marks.contains(m) {
                let b = choose|b: int| 0 <= b < marks.len() && marks[b] == m;
                let to_b = if b < i { b } else { b - 1 };
                assert(rest[to_b] == marks[b]);
            }
        }
    }

    /// Marks the cell `c` if it is covered and unmarked, and takes its mark
    /// off if it is marked. The covers stay as they are.
    pub fn toggle_mark(&mut self, c: Coordinates) -> (outcome: MarkOutcome)
        requires
            old(self).wf(),
        ensures
            final(self).wf(),
            final(self).tiles() == old(self).tiles(),
            final(self).covered() == old(self).covered(),
            final(self).geometry() == old(self).geometry(),
            outcome == (if !old(self).covered().contains_key(c) {
                MarkOutcome::NoOp
            } else if old(self).marked().contains(c) {
                MarkOutcome::Unmarked
            } else {
                MarkOutcome::Marked
            }),
            final(self).marked() == (match outcome {
                MarkOutcome::NoOp => old(self).marked(),
                MarkOutcome::Unmarked => Self::without_mark(old(self).marked(), c),
                MarkOutcome::Marked => old(self).marked().push(c),
            }),
    {
        if !self.covered_tiles.contains_key(c) {
            return MarkOutcome::NoOp;
        }
        if self.unmark(c) {
            assert forall|i: int| 0 <= i < self.marked().len() implies self.covered().contains_key(
                #[trigger] self.marked()[i],
            ) by {
                assert(self.marked().contains(self.marked()[i]));
                assert(old(self).marked().contains(self.marked()[i]));
            }
            MarkOutcome::Unmarked
        } else {
            self.marked_tiles.push(c);
            assert(self.marked().no_duplicates()) by {
                assert forall|a: int, b: int|
                    0 <= a < self.marked().len() && 0 <= b < self.marked().len() && a != b implies self.marked()[a]
                    != self.marked()[b] by {
                    if a < old(self).marked().len() {
                        assert(old(self).marked().contains(self.marked()[a]));
                    }
                    if b < old(self).marked().len() {
                        assert(old(self).marked().contains(self.marked()[b]));
                    }
                }
            }
            MarkOutcome::Marked
        }
    }

    /// Whether every cell without a bomb has been uncovered.
    pub fn is_complete(&self) -> (done: bool)
        requires
            self.wf(),
        ensures
            done == self.complete(),
    {
        let width = self.tile_map.width();
        let height = self.tile_map.height();
        let mut y: u16 = 0;
        while y < height
            invariant
                self.wf(),
                self.tiles().width() == width,
                self.tiles().height() == height,
                y <= height,
                forall|c: Coordinates|
                    #[trigger] self.covered().contains_key(c) && c.y < y ==> self.tiles().tile(c)
                        == Tile::Bomb,
            decreases height - y,
        {
            let mut x: u16 = 0;
            while x < width
                invariant
                    self.wf(),
                    self.tiles().width() == width,
                    self.tiles().height() == height,
                    y < height,
                    x <= width,
                    forall|c: Coordinates|
                        #[trigger] self.covered().contains_key(c) && (c.y < y || (c.y == y && c.x < x))
                            ==> self.tiles().tile(c) == Tile::Bomb,
                decreases width - x,
            {
                let here = Coordinates { x, y };
                if self.covered_tiles.contains_key(here) && !self.tile_map.is_bomb_at(here) {
                    return false;
                }
                x = x + 1;
            }
            y = y + 1;
        }
        true
    }

    /// Places the board: its corner at `(x, y)`, each tile with sides of length `tile_size`.
    pub fn set_geometry(&mut self, x: i32, y: i32, tile_size: u16)
        ensures
            final(self).tiles() == old(self).tiles(),
            final(self).covered() == old(self).covered(),
            final(self).marked() == old(self).marked(),
            final(self).geometry() == (x as int, y as int, tile_size as int),
    {
        self.origin_x = x;
        self.origin_y = y;
        self.tile_size = tile_size;
    }

    /// The cell under the point `(px, py)`, or nothing where the point lies
    /// outside the board. The board reaches from its corner up to, but not
    /// including, the far edges of its last column and row.
    pub fn pixel_point_to_coordinate(&self, px: i32, py: i32) -> (cell: Option<Coordinates>)
        ensures
            cell == self.point_cell(px as int, py as int),
            cell is Some ==> self.tiles().contains(cell->Some_0),
    {
        let side: i64 = self.tile_size as i64;
        let columns: i64 = self.tile_map.width() as i64;
        let rows: i64 = self.tile_map.height() as i64;
        assert(0 <= columns * side <= 65535 * 65535 && 0 <= rows * side <= 65535 * 65535)
            by (nonlinear_arith)
            requires
                0 <= columns <= 65535,
                0 <= rows <= 65535,
                0 <= side <= 65535,
        ;
        let dx: i64 = px as i64 - self.origin_x as i64;
        let dy: i64 = py as i64 - self.origin_y as i64;
        if 0 <= dx && dx < columns * side && 0 <= dy && dy < rows * side {
            proof {
                assert(side > 0) by (nonlinear_arith)
                    requires
                        0 <= dx < columns * side,
                        0 <= side,
                        0 <= columns,
                ;
                assert(columns * side == side * columns && rows * side == side * rows)
                    by (nonlinear_arith);
                vstd::arithmetic::div_mod::lemma_multiply_divide_lt(dx as int, side as int, columns as int);
                vstd::arithmetic::div_mod::lemma_multiply_divide_lt(dy as int, side as int, rows as int);
                vstd::arithmetic::div_mod::lemma_div_pos_is_pos(dx as int, side as int);
                vstd::arithmetic::div_mod::lemma_div_pos_is_pos(dy as int, side as int);
            }
            Some(Coordinates { x: (dx / side) as u16, y: (dy / side) as u16 })
        } else {
            None
        }
    }
}

impl Board {
    /// Uncovering a covered cell uncovers that cell.
    pub proof fn lemma_flood_origin(&self, origin: Coordinates)
        requires
            self.covered().contains_key(origin),
        ensures
            self.floods(origin, origin),
    {
        let path = seq![origin];
        assert(self.flood_path(path) && path[0] == origin && path.last() == origin);
    }

    /// What uncovering reaches, it passes on to where it spreads from there.
    pub proof fn lemma_flood_extends(&self, origin: Coordinates, here: Coordinates, next: Coordinates)
        requires
            self.floods(origin, here),
            self.spreads(here, next),
        ensures
            self.floods(origin, next),
    {
        let path = choose|path: Seq<Coordinates>| #[trigger]
            self.flood_path(path) && path[0] == origin && path.last() == here;
        let longer = path.push(next);
        assert forall|i: int| 0 <= i < longer.len() - 1 implies #[trigger] self.spreads(
            longer[i],
            longer[i + 1],
        ) by {
            if i < path.len() - 1 {
                assert(self.spreads(path[i], path[i + 1]));
            }
        }
        assert(self.flood_path(longer) && longer[0] == origin && longer.last() == next);
    }

    /// Uncovering reaches covered cells only; beyond the cell it starts from,
    /// it reaches no marked cell and no bomb.
    pub proof fn lemma_flooded_cell(&self, origin: Coordinates, c: Coordinates)
        requires
            self.wf(),
            self.floods(origin, c),
        ensures
            self.covered().contains_key(c),
            c != origin ==> !self.marked().contains(c) && self.tiles().tile(c) != Tile::Bomb,
    {
        let path = choose|path: Seq<Coordinates>| #[trigger]
            self.flood_path(path) && path[0] == origin && path.last() == c;
        if path.len() > 1 {
            let last = path.len() - 2;
            assert(self.spreads(path[last], path[last + 1]));
            if last == 0 {
                assert(self.covered().contains_key(path[last]));
            } else {
                assert(self.spreads(path[last - 1], path[last - 1 + 1]));
            }
            self.tiles().lemma_no_bomb_beside_empty(path[last], c);
        }
    }

    /// From a cell that touches a bomb, or holds one, uncovering does not spread.
    pub proof fn lemma_boundary_region(&self, origin: Coordinates)
        requires
            self.covered().contains_key(origin),
            self.tiles().tile(origin) != Tile::Empty,
        ensures
            self.flood_region(origin) == set![origin],
    {
        self.lemma_flood_origin(origin);
        assert forall|c: Coordinates| self.floods(origin, c) implies c == origin by {
            let path = choose|path: Seq<Coordinates>| #[trigger]
                self.flood_path(path) && path[0] == origin && path.last() == c;
            if path.len() > 1 {
                assert(self.spreads(path[0int], path[0int + 1]));
            }
        }
        assert(self.flood_region(origin) =~= set![origin]);
    }

    /// A set of cells that holds the start of a way, and with each cell those
    /// to which uncovering spreads from it, holds every cell on the way.
    proof fn lemma_closed_holds_path(&self, path: Seq<Coordinates>, closed: Set<Coordinates>, upto: int)
        requires
            self.flood_path(path),
            closed.contains(path[0]),
            forall|a: Coordinates, b: Coordinates|
                closed.contains(a) && #[trigger] self.spreads(a, b) ==> closed.contains(b),
            0 <= upto < path.len(),
        ensures
            closed.contains(path[upto]),
        decreases upto,
    {
        if upto > 0 {
            self.lemma_closed_holds_path(path, closed, upto - 1);
            assert(self.spreads(path[upto - 1], path[upto - 1 + 1]));
        }
    }

    /// What holds of the search for the cells to uncover, each time it takes
    /// up the next cell: `start` is the board before the move, `queue` the
    /// cells found so far, of which the first `head` have been taken up, and
    /// `revealed` those that lost their cover.
    spec fn searching(
        &self,
        start: Board,
        origin: Coordinates,
        queue: Seq<Coordinates>,
        head: int,
        revealed: Seq<Coordinates>,
        visited: Grid<bool>,
    ) -> bool {
        &&& start.wf()
        &&& start.covered().contains_key(origin)
        &&& self.tiles() == start.tiles()
        &&& self.geometry() == start.geometry()
        &&& self.covered() == start.covered().remove_keys(revealed.to_set())
        &&& self.covered().dom().finite()
        &&& self.marked().no_duplicates()
        &&& forall|i: int|
            0 <= i < self.marked().len() ==> self.covered().contains_key(#[trigger] self.marked()[i])
        &&& forall|m: Coordinates| #[trigger] self.marked().contains(m) ==> start.marked().contains(m)
        &&& self.marked() == (if revealed.len() > 0 {
            Self::without_mark(start.marked(), origin)
        } else {
            start.marked()
        })
        &&& queue.len() > 0
        &&& queue[0] == origin
        &&& 0 <= head <= queue.len()
        &&& revealed.len() <= head
        &&& revealed.no_duplicates()
        &&& forall|i: int| 0 <= i < queue.len() ==> start.floods(origin, #[trigger] queue[i])
        &&& forall|i: int|
            1 <= i < queue.len() ==> start.tiles().tile(#[trigger] queue[i]) != Tile::Bomb
                && !start.marked().contains(queue[i])
        &&& forall|i: int|
            0 <= i < revealed.len() ==> queue.contains(#[trigger] revealed[i]) && start.tiles().tile(
                revealed[i],
            ) != Tile::Bomb
        &&& forall|j: int| 0 <= j < head ==> revealed.contains(#[trigger] queue[j])
        &&& visited.wf()
        &&& visited.width() == start.tiles().width()
        &&& visited.height() == start.tiles().height()
        &&& forall|c: Coordinates| visited.contains(c) && #[trigger] visited.at(c) ==> queue.contains(c)
    }

    /// Wherever uncovering spreads from one of the first `upto` revealed
    /// cells, the cell it spreads to has been found.
    spec fn followed(start: Board, queue: Seq<Coordinates>, revealed: Seq<Coordinates>, upto: int) -> bool {
        forall|i: int, n: Coordinates|
            0 <= i < upto && #[trigger] start.spreads(revealed[i], n) ==> queue.contains(n)
    }

    /// Takes the cover off the cell `origin`. If the cell touches no bomb,
    /// the covers around it go too, and so on from every such cell that is
    /// reached: a whole region without bombs opens, up to and including the
    /// numbered cells on its rim. Marked cells keep their covers, but for
    /// `origin` itself, which loses its mark with its cover.
    ///
    /// On a cell that is not covered nothing happens. On a bomb only that
    /// cell is uncovered.
    ///
    /// The cells are searched from a work list, not by recursion, so that a
    /// large board costs no stack.
    pub fn open(&mut self, origin: Coordinates) -> (opened: Opened)
        requires
            old(self).wf(),
        ensures
            final(self).wf(),
            final(self).tiles() == old(self).tiles(),
            final(self).geometry() == old(self).geometry(),
            final(self).covered() == old(self).covered().remove_keys(old(self).flood_region(origin)),
            final(self).marked() == (if old(self).covered().contains_key(origin) {
                Self::without_mark(old(self).marked(), origin)
            } else {
                old(self).marked()
            }),
            !old(self).covered().contains_key(origin) ==> final(self).covered() == old(self).covered()
                && opened.cells@.len() == 0,
            opened.bomb_hit == (old(self).covered().contains_key(origin) && old(self).tiles().tile(origin)
                == Tile::Bomb),
            opened.bomb_hit ==> opened.cells@ == seq![origin] && final(self).covered() == old(self).covered().remove(origin),
            opened.cells@.no_duplicates(),
            opened.cells@.to_set() == old(self).flood_region(origin),
            opened.covers@.len() == opened.cells@.len(),
            forall|i: int|
                0 <= i < opened.cells@.len() ==> {
                    &&& old(self).covered().contains_key(#[trigger] opened.cells@[i])
                    &&& opened.covers@[i] == old(self).covered()[opened.cells@[i]]
                    &&& !final(self).covered().contains_key(opened.cells@[i])
                    &&& !final(self).marked().contains(opened.cells@[i])
                    &&& (!opened.bomb_hit ==> old(self).tiles().tile(opened.cells@[i]) != Tile::Bomb)
                },
    {
        broadcast use vstd::seq_lib::lemma_seq_contains_after_push;

        let ghost start = *self;
        if !self.covered_tiles.contains_key(origin) {
            let none: Vec<Coordinates> = Vec::new();
            proof {
                assert forall|c: Coordinates| !start.floods(origin, c) by {
                    if start.floods(origin, c) {
                        start.lemma_flooded_cell(origin, origin);
                        let path = choose|path: Seq<Coordinates>| #[trigger]
                            start.flood_path(path) && path[0] == origin && path.last() == c;
                    }
                }
                assert(start.flood_region(origin) =~= Set::empty());
                assert(none@.to_set() =~= Set::empty());
                assert(start.covered().remove_keys(start.flood_region(origin)) =~= start.covered());
            }
            return Opened { cells: none, covers: Vec::new(), bomb_hit: false };
        }
        let width = self.tile_map.width();
        let height = self.tile_map.height();
        let mut visited: Grid<bool> = Grid::filled(width, height, false);
        let mut queue: Vec<Coordinates> = Vec::new();
        let mut revealed: Vec<Coordinates> = Vec::new();
        let mut covers: Vec<u64> = Vec::new();
        queue.push(origin);
        visited.set(origin, true);
        let mut head: usize = 0;
        proof {
            start.lemma_flood_origin(origin);
            assert(revealed@.to_set() =~= Set::empty());
            assert(start.covered().remove_keys(revealed@.to_set()) =~= start.covered());
            assert(queue@[0] == origin);
        }
        while head < queue.len()
            invariant
                self.searching(start, origin, queue@, head as int, revealed@, visited),
                Self::followed(start, queue@, revealed@, revealed@.len() as int),
                start == *old(self),
                covers@.len() == revealed@.len(),
                forall|i: int|
                    0 <= i < covers@.len() ==> covers@[i] == start.covered()[#[trigger] revealed@[i]],
            decreases self.covered().dom().len(), queue.len() - head,
        {
            broadcast use vstd::seq_lib::lemma_seq_contains_after_push;

            let here = queue[head];
            let ghost before = *self;
            let ghost found = revealed@;
            head = head + 1;
            proof {
                start.lemma_flooded_cell(origin, here);
            }
            let ghost handles = covers@;
            if let Some(handle) = self.covered_tiles.remove(here) {
                self.unmark(here);
                revealed.push(here);
                covers.push(handle);
                proof {
                    assert(handle == start.covered()[here]);
                    assert forall|i: int| 0 <= i < covers@.len() implies covers@[i] == start.covered()[#[trigger] revealed@[i]] by {
                        if i < found.len() {
                            assert(covers@[i] == handles[i]);
                            assert(revealed@[i] == found[i]);
                        }
                    }
                    found.lemma_push_to_set_commute(here);
                    assert(self.covered() =~= start.covered().remove_keys(revealed@.to_set()));
                    assert(!found.contains(here));
                    assert(revealed@.no_duplicates()) by {
                        assert forall|a: int, b: int|
                            0 <= a < revealed@.len() && 0 <= b < revealed@.len() && a != b implies revealed@[a]
                            != revealed@[b] by {
                            if a < found.len() {
                                assert(found[a] == revealed@[a]);
                            }
                            if b < found.len() {
                                assert(found[b] == revealed@[b]);
                            }
                        }
                    }
                    if found.len() > 0 {
                        assert(found.contains(queue@[0]));
                        assert(here != origin);
                        assert(head - 1 >= 1);
                        assert(!before.marked().contains(here));
                        assert(self.marked() == before.marked());
                    } else {
                        assert(head - 1 == 0);
                        assert(here == origin);
                    }
                    assert forall|i: int| 0 <= i < self.marked().len() implies self.covered().contains_key(
                        #[trigger] self.marked()[i],
                    ) by {
                        let m = self.marked()[i];
                        assert(self.marked().contains(m));
                        assert(before.marked().contains(m));
                        let k = choose|k: int| 0 <= k < before.marked().len() && before.marked()[k] == m;
                        assert(before.covered().contains_key(before.marked()[k]));
                    }
                    assert(Self::followed(start, queue@, revealed@, found.len() as int)) by {
                        assert forall|i: int, n: Coordinates|
                            0 <= i < found.len() && #[trigger] start.spreads(revealed@[i], n) implies queue@.contains(
                            n,
                        ) by {
                            assert(revealed@[i] == found[i]);
                            assert(start.spreads(found[i], n));
                        }
                    }
                }
                let tile = self.tile_map.tile_at(here);
                match tile {
                    Some(Tile::Bomb) => {
                        proof {
                            assert(head - 1 == 0);
                            assert(found.len() == 0);
                            assert(revealed@ =~= seq![origin]);
                            start.lemma_boundary_region(origin);
                            assert(revealed@.to_set() =~= set![origin]);
                            assert(self.covered() =~= start.covered().remove(origin));
                        }
                        return Opened { cells: revealed, covers, bomb_hit: true };
                    },
                    Some(Tile::Empty) => {
                        let around = self.tile_map.neighbors_of(here);
                        let mut k: usize = 0;
                        while k < around.len()
                            invariant
                                self.searching(start, origin, queue@, head as int, revealed@, visited),
                                Self::followed(start, queue@, revealed@, revealed@.len() - 1),
                                start == *old(self),
                                covers@.len() == revealed@.len(),
                                forall|i: int|
                                    0 <= i < covers@.len() ==> covers@[i] == start.covered()[#[trigger] revealed@[i]],
                                head <= queue.len(),
                                revealed@.len() > 0,
                                revealed@.last() == here,
                                start.tiles().tile(here) == Tile::Empty,
                                start.tiles().contains(here),
                                start.floods(origin, here),
                                forall|n: Coordinates|
                                    around@.contains(n) <==> start.tiles().contains(n) && here.adjacent(n),
                                k <= around.len(),
                                forall|j: int|
                                    0 <= j < k && start.spreads(here, #[trigger] around@[j]) ==> queue@.contains(
                                        around@[j],
                                    ),
                            decreases around.len() - k,
                        {
                            broadcast use vstd::seq_lib::lemma_seq_contains_after_push;

                            let next = around[k];
                            let ghost queued = queue@;
                            let ghost seen = visited;
                            assert(around@.contains(next));
                            let fresh = match visited.get(next) {
                                Some(false) => true,
                                _ => false,
                            };
                            if fresh && self.covered_tiles.contains_key(next) && !self.is_marked(next) {
                                visited.set(next, true);
                                queue.push(next);
                                proof {
                                    assert(queue@.len() == queued.len() + 1);
                                    assert(revealed@.contains(queued[0]));
                                    assert(next != origin);
                                    assert(start.covered().contains_key(next));
                                    assert(!start.marked().contains(next)) by {
                                        if start.marked().contains(next) {
                                            let at = choose|at: int|
                                                0 <= at < start.marked().len() && start.marked()[at] == next;
                                            let first = choose|first: int|
                                                0 <= first < start.marked().len() && start.marked()[first]
                                                    == origin;
                                            if start.marked().contains(origin) {
                                                Self::lemma_remove_mark(start.marked(), first);
                                                assert(start.marked().index_of(origin) == first);
                                            }
                                            assert(self.marked().contains(next));
                                        }
                                    }
                                    assert(start.spreads(here, next));
                                    start.lemma_flood_extends(origin, here, next);
                                    start.tiles().lemma_no_bomb_beside_empty(here, next);
                                    assert forall|i: int| 0 <= i < queue@.len() implies start.floods(
                                        origin,
                                        #[trigger] queue@[i],
                                    ) by {
                                        if i < queued.len() {
                                            assert(queue@[i] == queued[i]);
                                        }
                                    }
                                    assert forall|i: int| 1 <= i < queue@.len() implies start.tiles().tile(
                                        #[trigger] queue@[i],
                                    ) != Tile::Bomb && !start.marked().contains(queue@[i]) by {
                                        if i < queued.len() {
                                            assert(queue@[i] == queued[i]);
                                        }
                                    }
                                    assert forall|j: int| 0 <= j < head implies revealed@.contains(
                                        #[trigger] queue@[j],
                                    ) by {
                                        assert(queue@[j] == queued[j]);
                                    }
                                    assert forall|c: Coordinates|
                                        visited.contains(c) && #[trigger] visited.at(c) implies queue@.contains(
                                        c,
                                    ) by {
                                        if c != next {
                                            assert(seen.at(c));
                                        }
                                    }
                                }
                            } else {
                                proof {
                                    if start.spreads(here, next) {
                                        if !self.covered().contains_key(next) {
                                            assert(revealed@.to_set().contains(next));
                                            assert(revealed@.contains(next));
                                            let i = choose|i: int| 0 <= i < revealed@.len() && revealed@[i] == next;
                                            assert(queue@.contains(revealed@[i]));
                                        } else if self.marked().contains(next) {
                                            assert(start.marked().contains(next));
                                        } else {
                                            assert(visited.at(next));
                                        }
                                    }
                                }
                            }
                            k = k + 1;
                        }
                        proof {
                            assert(Self::followed(start, queue@, revealed@, revealed@.len() as int)) by {
                                assert forall|i: int, n: Coordinates|
                                    0 <= i < revealed@.len() && #[trigger] start.spreads(
                                        revealed@[i],
                                        n,
                                    ) implies queue@.contains(n) by {
                                    if i == revealed@.len() - 1 {
                                        assert(start.tiles().contains(n));
                                        assert(around@.contains(n));
                                        let j = choose|j: int| 0 <= j < around@.len() && around@[j] == n;
                                        assert(start.spreads(here, around@[j]));
                                    }
                                }
                            }
                        }
                    },
                    _ => {
                        proof {
                            assert(Self::followed(start, queue@, revealed@, revealed@.len() as int)) by {
                                assert forall|i: int, n: Coordinates|
                                    0 <= i < revealed@.len() && #[trigger] start.spreads(
                                        revealed@[i],
                                        n,
                                    ) implies queue@.contains(n) by {
                                    if i == revealed@.len() - 1 {
                                        assert(revealed@[i] == here);
                                    }
                                }
                            }
                        }
                    },
                }
            } else {
                proof {
                    assert(self.covered() =~= before.covered());
                    assert(found.to_set().contains(here));
                }
            }
        }
        proof {
            let closed = revealed@.to_set();
            assert(revealed@.contains(queue@[0]));
            assert forall|a: Coordinates, b: Coordinates|
                closed.contains(a) && #[trigger] start.spreads(a, b) implies closed.contains(b) by {
                let i = choose|i: int| 0 <= i < revealed@.len() && revealed@[i] == a;
                assert(start.spreads(revealed@[i], b));
                assert(queue@.contains(b));
                let j = choose|j: int| 0 <= j < queue@.len() && queue@[j] == b;
                assert(revealed@.contains(queue@[j]));
            }
            assert forall|c: Coordinates| start.floods(origin, c) implies closed.contains(c) by {
                let path = choose|path: Seq<Coordinates>| #[trigger]
                    start.flood_path(path) && path[0] == origin && path.last() == c;
                start.lemma_closed_holds_path(path, closed, path.len() - 1);
            }
            assert forall|c: Coordinates| closed.contains(c) implies start.floods(origin, c) by {
                let i = choose|i: int| 0 <= i < revealed@.len() && revealed@[i] == c;
                assert(queue@.contains(revealed@[i]));
                let j = choose|j: int| 0 <= j < queue@.len() && queue@[j] == c;
            }
            assert(closed =~= start.flood_region(origin));
            assert forall|i: int| 0 <= i < revealed@.len() implies start.covered().contains_key(
                #[trigger] revealed@[i],
            ) && !self.covered().contains_key(revealed@[i]) by {
                let c = revealed@[i];
                assert(revealed@.contains(c));
                assert(closed.contains(c));
                start.lemma_flooded_cell(origin, c);
            }
            assert forall|i: int| 0 <= i < revealed@.len() implies !self.marked().contains(
                #[trigger] revealed@[i],
            ) by {
                let c = revealed@[i];
                assert(queue@.contains(c));
                let j = choose|j: int| 0 <= j < queue@.len() && queue@[j] == c;
                if self.marked().contains(c) {
                    assert(start.marked().contains(c));
                    if j == 0 {
                        if start.marked().contains(origin) {
                            let first = choose|first: int|
                                0 <= first < start.marked().len() && start.marked()[first] == origin;
                            Self::lemma_remove_mark(start.marked(), first);
                            assert(start.marked().index_of(origin) == first);
                        }
                    }
                }
            }
        }
        Opened { cells: revealed, covers, bomb_hit: false }
    }

    /// Takes the cover off the cell `origin`, and with it the covers that
    /// `open` takes off, and says which cells were revealed or that a bomb was hit.
    pub fn uncover(&mut self, origin: Coordinates) -> (outcome: UncoverOutcome)
        requires
            old(self).wf(),
        ensures
            final(self).wf(),
            final(self).tiles() == old(self).tiles(),
            final(self).geometry() == old(self).geometry(),
            final(self).covered() == old(self).covered().remove_keys(old(self).flood_region(origin)),
            final(self).marked() == (if old(self).covered().contains_key(origin) {
                Self::without_mark(old(self).marked(), origin)
            } else {
                old(self).marked()
            }),
            !old(self).covered().contains_key(origin) ==> final(self).covered() == old(self).covered(),
            match outcome {
                UncoverOutcome::BombHit => {
                    &&& old(self).covered().contains_key(origin)
                    &&& old(self).tiles().tile(origin) == Tile::Bomb
                    &&& final(self).covered() == old(self).covered().remove(origin)
                },
                UncoverOutcome::Revealed(cells) => {
                    &&& !(old(self).covered().contains_key(origin) && old(self).tiles().tile(origin)
                        == Tile::Bomb)
                    &&& cells@.no_duplicates()
                    &&& cells@.to_set() == old(self).flood_region(origin)
                    &&& !old(self).covered().contains_key(origin) ==> cells@.len() == 0
                    &&& forall|i: int|
                        0 <= i < cells@.len() ==> {
                            &&& !final(self).covered().contains_key(#[trigger] cells@[i])
                            &&& !final(self).marked().contains(cells@[i])
                            &&& old(self).tiles().tile(cells@[i]) != Tile::Bomb
                        }
                },
            },
    {
        let opened = self.open(origin);
        if opened.bomb_hit {
            UncoverOutcome::BombHit
        } else {
            UncoverOutcome::Revealed(opened.cells)
        }
    }
}

impl Board {
    /// While every bomb is still under its cover, the board is complete
    /// exactly when the covered cells are the cells with a bomb.
    pub proof fn lemma_complete_iff_bombs_covered(&self)
        requires
            self.wf(),
            forall|c: Coordinates| self.tiles().bombs().contains(c) ==> self.covered().contains_key(c),
        ensures
            self.complete() <==> self.covered().dom() == self.tiles().bombs(),
    {
        if self.complete() {
            assert forall|c: Coordinates| self.covered().dom().contains(c) implies self.tiles().bombs().contains(
                c,
            ) by {
                assert(self.covered().contains_key(c));
            }
            assert(self.covered().dom() =~= self.tiles().bombs());
        }
        if self.covered().dom() == self.tiles().bombs() {
            assert forall|c: Coordinates| #[trigger] self.covered().contains_key(c) implies self.tiles().tile(c)
                == Tile::Bomb by {
                assert(self.tiles().bombs().contains(c));
            }
        }
    }

    /// How many steps from one cell to a cell next to it lead from `a` to `b`.
    pub open spec fn steps_between(a: Coordinates, b: Coordinates) -> int {
        let across = if a.x <= b.x { b.x - a.x } else { a.x - b.x };
        let along = if a.y <= b.y { b.y - a.y } else { a.y - b.y };
        if across >= along { across } else { along }
    }

    /// On a board without bombs, fully covered and without marks, uncovering
    /// any cell reaches every cell.
    pub proof fn lemma_open_field_floods(&self, origin: Coordinates, c: Coordinates)
        requires
            self.wf(),
            self.marked().len() == 0,
            forall|b: Coordinates| self.tiles().contains(b) ==> #[trigger] self.tiles().tile(b) == Tile::Empty,
            forall|b: Coordinates| self.tiles().contains(b) ==> #[trigger] self.covered().contains_key(b),
            self.tiles().contains(origin),
            self.tiles().contains(c),
        ensures
            self.floods(origin, c),
        decreases Self::steps_between(origin, c),
    {
        if c == origin {
            self.lemma_flood_origin(origin);
        } else {
            let x: int = if c.x < origin.x { c.x + 1 } else if c.x > origin.x { c.x - 1 } else { c.x as int };
            let y: int = if c.y < origin.y { c.y + 1 } else if c.y > origin.y { c.y - 1 } else { c.y as int };
            let nearer = Coordinates { x: x as u16, y: y as u16 };
            assert(self.tiles().contains(nearer));
            assert(Self::steps_between(origin, nearer) < Self::steps_between(origin, c));
            self.lemma_open_field_floods(origin, nearer);
            assert(self.tiles().tile(nearer) == Tile::Empty);
            assert(self.covered().contains_key(c));
            assert(self.spreads(nearer, c));
            self.lemma_flood_extends(origin, nearer, c);
        }
    }

    /// On a board without bombs, fully covered and without marks, uncovering
    /// any cell takes every cover off, and the board is complete.
    pub proof fn lemma_open_field_region(&self, origin: Coordinates)
        requires
            self.wf(),
            self.marked().len() == 0,
            forall|b: Coordinates| self.tiles().contains(b) ==> #[trigger] self.tiles().tile(b) == Tile::Empty,
            forall|b: Coordinates| self.tiles().contains(b) ==> #[trigger] self.covered().contains_key(b),
            self.tiles().contains(origin),
        ensures
            self.flood_region(origin) == self.covered().dom(),
            self.covered().remove_keys(self.flood_region(origin)) == Map::<Coordinates, u64>::empty(),
    {
        assert forall|c: Coordinates| self.covered().dom().contains(c) implies self.flood_region(
            origin,
        ).contains(c) by {
            assert(self.covered().contains_key(c));
            self.lemma_open_field_floods(origin, c);
        }
        assert forall|c: Coordinates| self.flood_region(origin).contains(c) implies self.covered().dom().contains(
            c,
        ) by {
            self.lemma_flooded_cell(origin, c);
        }
        assert(self.flood_region(origin) =~= self.covered().dom());
        assert(self.covered().remove_keys(self.flood_region(origin)) =~= Map::<Coordinates, u64>::empty());
    }
}

} // verus!
