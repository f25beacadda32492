//! The grid of tiles: where the bombs lie, and how many each other cell touches.

use vstd::prelude::*;
use crate::components::Coordinates;
use crate::grid::{grid_cells, lemma_grid_size, Grid};
use crate::placement::BombDraw;
use crate::random::RandomSource;
use crate::tile::Tile;

verus! {

/// Why no grid was made.
#[derive(Clone, Copy, PartialEq, Eq, Structural, Debug)]
pub enum BoardError {
    /// A dimension is zero, the bombs leave no cell free, or a bomb is
    /// misplaced.
    InvalidParameters,
}

/// How often in a row a drawn cell may turn out to hold a bomb already before
/// the next bomb goes to the first free cell instead.
pub const RETRY_LIMIT: u32 = 64;

/// A generated grid. Once made it does not change.
pub struct TileMap {
    bomb_count: u32,
    grid: Grid<Tile>,
}

impl TileMap {
    pub closed spec fn spec_width(&self) -> u16 {
        self.grid.width()
    }

    pub closed spec fn spec_height(&self) -> u16 {
        self.grid.height()
    }

    pub closed spec fn spec_bomb_count(&self) -> u32 {
        self.bomb_count
    }

    /// The cell lies inside the grid.
    pub open spec fn contains(&self, c: Coordinates) -> bool {
        c.x < self.width() && c.y < self.height()
    }

    /// The tile in the cell `c`. It means something only for a cell inside the grid.
    pub closed spec fn tile(&self, c: Coordinates) -> Tile {
        self.grid.at(c)
    }

    /// Column `x`, row `y` is a cell of the grid and holds a bomb.
    pub open spec fn has_bomb(&self, x: int, y: int) -> bool {
        &&& 0 <= x < self.width()
        &&& 0 <= y < self.height()
        &&& self.tile(Coordinates { x: x as u16, y: y as u16 }) == Tile::Bomb
    }

    /// One for a bomb at column `x`, row `y`; zero otherwise, also outside the grid.
    pub open spec fn bomb_weight(&self, x: int, y: int) -> nat {
        if self.has_bomb(x, y) {
            1
        } else {
            0
        }
    }

    /// The number of bombs in the up to eight cells around `c`.
    #[verifier::opaque]
    pub open spec fn neighbor_bombs(&self, c: Coordinates) -> nat {
        self.bomb_weight(c.x - 1, c.y - 1) + self.bomb_weight(c.x as int, c.y - 1)
            + self.bomb_weight(c.x + 1, c.y - 1) + self.bomb_weight(c.x - 1, c.y as int)
            + self.bomb_weight(c.x + 1, c.y as int) + self.bomb_weight(c.x - 1, c.y + 1)
            + self.bomb_weight(c.x as int, c.y + 1) + self.bomb_weight(c.x + 1, c.y + 1)
    }

    /// The tile that belongs in the cell `c`, given where the bombs lie.
    pub open spec fn expected_tile(&self, c: Coordinates) -> Tile {
        if self.has_bomb(c.x as int, c.y as int) {
            Tile::Bomb
        } else if self.neighbor_bombs(c) == 0 {
            Tile::Empty
        } else {
            Tile::BombNeighbor(self.neighbor_bombs(c) as u8)
        }
    }

    /// The cells that hold a bomb.
    pub open spec fn bombs(&self) -> Set<Coordinates> {
        Set::new(|c: Coordinates| self.contains(c) && self.tile(c) == Tile::Bomb)
    }

    /// There is a tile for every cell.
    pub closed spec fn shaped(&self) -> bool {
        self.grid.wf()
    }

    /// Every cell that holds no bomb shows how many bombs it touches, and
    /// the recorded number of bombs is the number of bomb cells.
    pub open spec fn wf(&self) -> bool {
        &&& self.shaped()
        &&& forall|c: Coordinates| self.contains(c) ==> #[trigger] self.tile(c) == self.expected_tile(c)
        &&& self.bombs().finite()
        &&& self.bombs().len() == self.bomb_count()
    }

    /// The bombs and no other cells are given in `bombs`, each once, and at
    /// least one cell of the grid stays free.
    pub open spec fn valid_layout(width: u16, height: u16, bombs: Seq<Coordinates>) -> bool {
        &&& width > 0
        &&& height > 0
        &&& bombs.len() < width * height
        &&& bombs.no_duplicates()
        &&& forall|i: int| 0 <= i < bombs.len() ==> (#[trigger] bombs[i]).x < width && bombs[i].y < height
    }

    /// The cell that a drawn number designates: the cells are counted row by
    /// row, and the number is taken modulo their count.
    pub open spec fn drawn_cell(width: u16, height: u16, draw: u64) -> Coordinates {
        let place = draw as int % (width as int * height as int);
        Coordinates { x: (place % width as int) as u16, y: (place / width as int) as u16 }
    }

    #[verifier::when_used_as_spec(spec_width)]
    pub fn width(&self) -> (w: u16)
        ensures
            w == self.width(),
    {
        self.grid.width()
    }

    #[verifier::when_used_as_spec(spec_height)]
    pub fn height(&self) -> (h: u16)
        ensures
            h == self.height(),
    {
        self.grid.height()
    }

    #[verifier::when_used_as_spec(spec_bomb_count)]
    pub fn bomb_count(&self) -> (n: u32)
        ensures
            n == self.bomb_count(),
    {
        self.bomb_count
    }

    /// The tile in the cell `c`, or nothing where `c` lies outside the grid.
    pub fn tile_at(&self, c: Coordinates) -> (tile: Option<Tile>)
        requires
            self.wf(),
        ensures
            tile == (if self.contains(c) {
                Some(self.tile(c))
            } else {
                None
            }),
    {
        self.grid.get(c)
    }

    /// Whether `c` is a cell of the grid that holds a bomb.
    pub fn is_bomb_at(&self, c: Coordinates) -> (bomb: bool)
        requires
            self.wf(),
        ensures
            bomb == self.has_bomb(c.x as int, c.y as int),
    {
        match self.grid.get(c) {
            Some(Tile::Bomb) => true,
            _ => false,
        }
    }

    /// The number of bombs around `c`; zero where `c` itself holds a bomb.
    pub fn bomb_count_at(&self, c: Coordinates) -> (n: u8)
        requires
            self.wf(),
        ensures
            n == (if self.has_bomb(c.x as int, c.y as int) {
                0
            } else {
                self.neighbor_bombs(c)
            }),
    {
        if self.is_bomb_at(c) {
            0
        } else {
            self.count_around(c)
        }
    }

    fn weight_at(&self, x: i32, y: i32) -> (w: u8)
        requires
            self.shaped(),
        ensures
            w == self.bomb_weight(x as int, y as int),
    {
        if 0 <= x && x < self.grid.width() as i32 && 0 <= y && y < self.grid.height() as i32 {
            match self.grid.get(Coordinates { x: x as u16, y: y as u16 }) {
                Some(Tile::Bomb) => 1,
                _ => 0,
            }
        } else {
            0
        }
    }

    fn count_around(&self, c: Coordinates) -> (n: u8)
        requires
            self.shaped(),
        ensures
            n == self.neighbor_bombs(c),
    {
        proof {
            reveal(TileMap::neighbor_bombs);
        }
        let x: i32 = c.x as i32;
        let y: i32 = c.y as i32;
        let above: u8 = self.weight_at(x - 1, y - 1) + self.weight_at(x, y - 1) + self.weight_at(
            x + 1,
            y - 1,
        );
        let beside: u8 = self.weight_at(x - 1, y) + self.weight_at(x + 1, y);
        let below: u8 = self.weight_at(x - 1, y + 1) + self.weight_at(x, y + 1) + self.weight_at(
            x + 1,
            y + 1,
        );
        above + beside + below
    }

    /// Grids with their bombs in the same cells ask for the same tile in every cell.
    proof fn lemma_same_bombs_same_tiles(&self, other: &TileMap, c: Coordinates)
        requires
            forall|x: int, y: int| #[trigger] self.has_bomb(x, y) == other.has_bomb(x, y),
        ensures
            self.neighbor_bombs(c) == other.neighbor_bombs(c),
            self.expected_tile(c) == other.expected_tile(c),
    {
        reveal(TileMap::neighbor_bombs);
    }

    /// Writes into the cell `here`, if it holds no bomb, how many bombs it touches.
    fn settle_cell(&mut self, here: Coordinates)
        requires
            old(self).shaped(),
            old(self).contains(here),
            old(self).tile(here) == Tile::Bomb || old(self).tile(here) == Tile::Empty,
        ensures
            final(self).shaped(),
            final(self).width() == old(self).width(),
            final(self).height() == old(self).height(),
            final(self).bomb_count() == old(self).bomb_count(),
            final(self).tile(here) == final(self).expected_tile(here),
            forall|c: Coordinates|
                old(self).contains(c) && c != here ==> #[trigger] final(self).tile(c) == old(self).tile(c),
            forall|x: int, y: int| #[trigger] final(self).has_bomb(x, y) == old(self).has_bomb(x, y),
    {
        let ghost before = *self;
        if !self.is_bomb_here(here) {
            let n = self.count_around(here);
            if n > 0 {
                self.grid.set(here, Tile::BombNeighbor(n));
            }
            assert(self.tile(here) == before.expected_tile(here));
        }
        assert forall|x: int, y: int| #[trigger] self.has_bomb(x, y) == before.has_bomb(x, y) by {
            if 0 <= x < before.width() && 0 <= y < before.height() {
                let cell = Coordinates { x: x as u16, y: y as u16 };
                assert(before.contains(cell));
                if cell != here {
                    assert(self.tile(cell) == before.tile(cell));
                }
            }
        }
        proof {
            self.lemma_same_bombs_same_tiles(&before, here);
        }
    }

    /// Writes into every cell without a bomb how many bombs it touches.
    fn settle(&mut self)
        requires
            old(self).shaped(),
            forall|c: Coordinates|
                old(self).contains(c) ==> #[trigger] old(self).tile(c) == Tile::Bomb || old(self).tile(c)
                    == Tile::Empty,
        ensures
            final(self).shaped(),
            final(self).width() == old(self).width(),
            final(self).height() == old(self).height(),
            final(self).bomb_count() == old(self).bomb_count(),
            forall|x: int, y: int| #[trigger] final(self).has_bomb(x, y) == old(self).has_bomb(x, y),
            forall|c: Coordinates|
                final(self).contains(c) ==> #[trigger] final(self).tile(c) == final(self).expected_tile(c),
    {
        let width = self.grid.width();
        let height = self.grid.height();
        let mut y: u16 = 0;
        while y < height
            invariant
                self.shaped(),
                self.width() == width,
                self.height() == height,
                old(self).width() == width,
                old(self).height() == height,
                self.bomb_count() == old(self).bomb_count(),
                y <= height,
                forall|c: Coordinates|
                    old(self).contains(c) ==> #[trigger] old(self).tile(c) == Tile::Bomb || old(self).tile(c)
                        == Tile::Empty,
                forall|px: int, py: int| #[trigger] self.has_bomb(px, py) == old(self).has_bomb(px, py),
                forall|c: Coordinates|
                    self.contains(c) && c.y < y ==> #[trigger] self.tile(c) == self.expected_tile(c),
                forall|c: Coordinates|
                    self.contains(c) && c.y >= y ==> #[trigger] self.tile(c) == old(self).tile(c),
            decreases height - y,
        {
            let mut x: u16 = 0;
            while x < width
                invariant
                    self.shaped(),
                    self.width() == width,
                    self.height() == height,
                    old(self).width() == width,
                    old(self).height() == height,
                    self.bomb_count() == old(self).bomb_count(),
                    y < height,
                    x <= width,
                    forall|c: Coordinates|
                        old(self).contains(c) ==> #[trigger] old(self).tile(c) == Tile::Bomb || old(self).tile(
                            c,
                        ) == Tile::Empty,
                    forall|px: int, py: int| #[trigger]
                        self.has_bomb(px, py) == old(self).has_bomb(px, py),
                    forall|c: Coordinates|
                        self.contains(c) && (c.y < y || (c.y == y && c.x < x)) ==> #[trigger] self.tile(
                            c,
                        ) == self.expected_tile(c),
                    forall|c: Coordinates|
                        self.contains(c) && !(c.y < y || (c.y == y && c.x < x)) ==> #[trigger] self.tile(
                            c,
                        ) == old(self).tile(c),
                decreases width - x,
            {
                let here = Coordinates { x, y };
                let ghost before = *self;
                assert(old(self).contains(here));
                assert(self.tile(here) == old(self).tile(here));
                self.settle_cell(here);
                assert forall|c: Coordinates|
                    self.contains(c) && (c.y < y || (c.y == y && c.x < x + 1)) implies #[trigger] self.tile(
                    c,
                ) == self.expected_tile(c) by {
                    self.lemma_same_bombs_same_tiles(&before, c);
                }
                x = x + 1;
            }
            y = y + 1;
        }
    }

    fn is_bomb_here(&self, c: Coordinates) -> (bomb: bool)
        requires
            self.shaped(),
        ensures
            bomb == self.has_bomb(c.x as int, c.y as int),
    {
        match self.grid.get(c) {
            Some(Tile::Bomb) => true,
            _ => false,
        }
    }
}

impl TileMap {
    /// Where no bomb is counted around `c`, no cell next to `c` holds one.
    proof fn lemma_zero_count(&self, c: Coordinates, beside: Coordinates)
        requires
            self.neighbor_bombs(c) == 0,
            c.adjacent(beside),
        ensures
            !self.has_bomb(beside.x as int, beside.y as int),
    {
        reveal(TileMap::neighbor_bombs);
    }

    /// A cell without bombs around it has no bomb in any cell next to it.
    pub proof fn lemma_no_bomb_beside_empty(&self, c: Coordinates, beside: Coordinates)
        requires
            self.wf(),
            self.contains(c),
            self.tile(c) == Tile::Empty,
            self.contains(beside),
            c.adjacent(beside),
        ensures
            self.tile(beside) != Tile::Bomb,
    {
        assert(self.tile(c) == self.expected_tile(c));
        assert(self.neighbor_bombs(c) == 0);
        self.lemma_zero_count(c, beside);
    }

    /// The cell that the drawn number `draw` designates in a grid of the given
    /// size: the cells are counted row by row, and `draw` is taken modulo
    /// their count. A grid without cells has none.
    pub fn cell_for_draw(width: u16, height: u16, draw: u64) -> (cell: Option<Coordinates>)
        ensures
            cell == (if width > 0 && height > 0 {
                Some(Self::drawn_cell(width, height, draw))
            } else {
                None
            }),
            cell is Some ==> cell->Some_0.x < width && cell->Some_0.y < height,
    {
        if width == 0 || height == 0 {
            return None;
        }
        assert(0 < width as int * height as int <= 65535 * 65535) by (nonlinear_arith)
            requires
                0 < width <= 65535,
                0 < height <= 65535,
        ;
        let cells: u64 = (width as u64) * (height as u64);
        let place: u64 = draw % cells;
        proof {
            vstd::arithmetic::div_mod::lemma_multiply_divide_lt(
                place as int,
                width as int,
                height as int,
            );
        }
        let x: u64 = place % (width as u64);
        let y: u64 = place / (width as u64);
        Some(Coordinates { x: x as u16, y: y as u16 })
    }

    /// Chooses `count` different cells of the grid by drawing from `rng`.
    ///
    /// A drawn cell that was chosen before is drawn again. After
    /// `RETRY_LIMIT` such draws in a row the first free cell is taken, so
    /// that the choice ends whatever the source gives.
    fn pick_cells<R: RandomSource>(width: u16, height: u16, count: u32, rng: &mut R) -> (picked: Vec<
        Coordinates,
    >)
        requires
            width > 0,
            height > 0,
            count < width * height,
        ensures
            picked@.len() == count,
            Self::valid_layout(width, height, picked@),
    {
        let mut drawing = BombDraw::new(width, height);
        let mut chosen: u32 = 0;
        while chosen < count
            invariant
                width > 0,
                height > 0,
                count < width * height,
                drawing.wf(),
                drawing.width() == width,
                drawing.height() == height,
                chosen <= count,
                drawing.picked().len() == chosen,
            decreases count - chosen,
        {
            let mut tries: u32 = 0;
            let mut placed = false;
            while !placed && tries < RETRY_LIMIT
                invariant
                    drawing.wf(),
                    drawing.width() == width,
                    drawing.height() == height,
                    tries <= RETRY_LIMIT,
                    drawing.picked().len() == chosen + (if placed {
                        1int
                    } else {
                        0int
                    }),
                decreases RETRY_LIMIT - tries,
            {
                let draw = rng.next_u64();
                placed = drawing.offer(draw);
                tries = tries + 1;
            }
            if !placed {
                let ghost before = drawing.picked();
                let cell = drawing.take_first_free();
                proof {
                    if cell is None {
                        let all = grid_cells(width as int, height as int);
                        lemma_grid_size(width as int, height as int);
                        assert(all.subset_of(before.to_set()));
                        vstd::seq_lib::seq_to_set_is_finite(before);
                        vstd::set_lib::lemma_len_subset(all, before.to_set());
                        before.unique_seq_to_set();
                    }
                }
            }
            chosen = chosen + 1;
        }
        drawing.into_cells()
    }

    /// The grid of the given size with a bomb in each of the given cells and in
    /// no other.
    ///
    /// Every cell starts out empty, each listed cell gets its bomb, and then
    /// every cell without a bomb is given the number of bombs it touches. The
    /// layout is refused if a dimension is zero, a cell is listed twice or lies
    /// outside the grid, or no cell would stay free.
    pub fn from_bombs(width: u16, height: u16, bombs: &Vec<Coordinates>) -> (made: Result<
        TileMap,
        BoardError,
    >)
        ensures
            match made {
                Ok(map) => {
                    &&& Self::valid_layout(width, height, bombs@)
                    &&& map.wf()
                    &&& map.width() == width
                    &&& map.height() == height
                    &&& map.bombs() == bombs@.to_set()
                    &&& map.bomb_count() == bombs@.len()
                },
                Err(e) => e == BoardError::InvalidParameters && !Self::valid_layout(
                    width,
                    height,
                    bombs@,
                ),
            },
    {
        if width == 0 || height == 0 {
            return Err(BoardError::InvalidParameters);
        }
        assert(0 < width as int * height as int <= 65535 * 65535) by (nonlinear_arith)
            requires
                0 < width <= 65535,
                0 < height <= 65535,
        ;
        let cells: u64 = (width as u64) * (height as u64);
        if bombs.len() as u64 >= cells {
            return Err(BoardError::InvalidParameters);
        }
        let mut map = TileMap {
            bomb_count: bombs.len() as u32,
            grid: Grid::filled(width, height, Tile::Empty),
        };
        assert(map.bombs() =~= bombs@.take(0).to_set());
        let mut i: usize = 0;
        while i < bombs.len()
            invariant
                i <= bombs.len(),
                bombs@.len() < width * height,
                width > 0,
                height > 0,
                map.shaped(),
                map.width() == width,
                map.height() == height,
                map.bomb_count() == bombs@.len(),
                bombs@.take(i as int).no_duplicates(),
                forall|j: int| 0 <= j < i ==> map.contains(#[trigger] bombs@[j]),
                forall|c: Coordinates|
                    map.contains(c) ==> #[trigger] map.tile(c) == Tile::Bomb || map.tile(c) == Tile::Empty,
                map.bombs() == bombs@.take(i as int).to_set(),
            decreases bombs.len() - i,
        {
            let cell = bombs[i];
            let ghost before = map;
            let ghost done = bombs@.take(i as int);
            match map.grid.get(cell) {
                Some(Tile::Empty) => {
                    map.grid.set(cell, Tile::Bomb);
                },
                Some(_) => {
                    proof {
                        assert(map.bombs().contains(cell));
                        assert(done.contains(cell));
                        let j = choose|j: int| 0 <= j < done.len() && done[j] == cell;
                        assert(bombs@[j] == bombs@[i as int] && j != i);
                    }
                    return Err(BoardError::InvalidParameters);
                },
                None => {
                    proof {
                        assert(!(bombs@[i as int].x < width && bombs@[i as int].y < height));
                    }
                    return Err(BoardError::InvalidParameters);
                },
            }
            proof {
                assert(!done.contains(cell)) by {
                    if done.contains(cell) {
                        assert(before.bombs().contains(cell));
                    }
                }
                let next = bombs@.take(i + 1);
                assert(next =~= done.push(cell));
                done.lemma_push_to_set_commute(cell);
                assert(map.bombs() =~= before.bombs().insert(cell)) by {
                    assert forall|c: Coordinates| map.bombs().contains(c) <==> before.bombs().insert(
                        cell,
                    ).contains(c) by {
                        if map.contains(c) && c != cell {
                            assert(map.tile(c) == before.tile(c));
                        }
                    }
                }
                assert(next.no_duplicates()) by {
                    assert forall|a: int, b: int|
                        0 <= a < next.len() && 0 <= b < next.len() && a != b implies next[a] != next[b] by {
                        if a < done.len() {
                            assert(done[a] == next[a]);
                            assert(done.contains(next[a]));
                        }
                        if b < done.len() {
                            assert(done[b] == next[b]);
                            assert(done.contains(next[b]));
                        }
                    }
                }
                assert forall|c: Coordinates| map.contains(c) implies #[trigger] map.tile(c) == Tile::Bomb
                    || map.tile(c) == Tile::Empty by {
                    if c != cell {
                        assert(map.tile(c) == before.tile(c));
                    }
                }
            }
            i = i + 1;
        }
        proof {
            assert(bombs@.take(i as int) =~= bombs@);
            bombs@.unique_seq_to_set();
            vstd::seq_lib::seq_to_set_is_finite(bombs@);
        }
        let ghost placed = map;
        map.settle();
        proof {
            assert(map.bombs() =~= placed.bombs()) by {
                assert forall|c: Coordinates| map.bombs().contains(c) <==> placed.bombs().contains(c) by {
                    if map.contains(c) {
                        assert(map.has_bomb(c.x as int, c.y as int) == placed.has_bomb(
                            c.x as int,
                            c.y as int,
                        ));
                    }
                }
            }
        }
        Ok(map)
    }

    /// A grid of the given size with `bomb_count` bombs in cells drawn from `rng`.
    ///
    /// A drawn number designates the cell that `cell_for_draw` gives for it. A
    /// cell that has its bomb already is drawn again; after `RETRY_LIMIT` such
    /// draws in a row the bomb goes to the first free cell, row by row, so that
    /// generation ends with any source. With nearly as many bombs as cells most
    /// draws are wasted and the last bombs fall into the first free cells.
    ///
    /// Generation is refused if a dimension is zero or the bombs would leave
    /// no cell free.
    pub fn generate<R: RandomSource>(width: u16, height: u16, bomb_count: u32, rng: &mut R) -> (made:
        Result<TileMap, BoardError>)
        ensures
            match made {
                Ok(map) => {
                    &&& width > 0
                    &&& height > 0
                    &&& bomb_count < width * height
                    &&& map.wf()
                    &&& map.width() == width
                    &&& map.height() == height
                    &&& map.bomb_count() == bomb_count
                    &&& map.bombs().len() == bomb_count
                    &&& forall|c: Coordinates|
                        map.contains(c) ==> #[trigger] map.tile(c) == map.expected_tile(c)
                },
                Err(e) => e == BoardError::InvalidParameters && (width == 0 || height == 0 || bomb_count
                    >= width * height),
            },
    {
        if width == 0 || height == 0 {
            return Err(BoardError::InvalidParameters);
        }
        assert(0 < width as int * height as int <= 65535 * 65535) by (nonlinear_arith)
            requires
                0 < width <= 65535,
                0 < height <= 65535,
        ;
        let cells: u64 = (width as u64) * (height as u64);
        if bomb_count as u64 >= cells {
            return Err(BoardError::InvalidParameters);
        }
        let picked = Self::pick_cells(width, height, bomb_count, rng);
        Self::from_bombs(width, height, &picked)
    }
}

impl TileMap {
    /// Appends the cell of column `x` and row `y` if the grid has such a cell.
    fn push_inside(&self, cells: &mut Vec<Coordinates>, x: i32, y: i32)
        ensures
            final(cells)@ == (if 0 <= x < self.width() && 0 <= y < self.height() {
                old(cells)@.push(Coordinates { x: x as u16, y: y as u16 })
            } else {
                old(cells)@
            }),
    {
        if 0 <= x && x < self.grid.width() as i32 && 0 <= y && y < self.grid.height() as i32 {
            cells.push(Coordinates { x: x as u16, y: y as u16 });
        }
    }

    /// The cells of the grid that lie next to `c`: up to eight, fewer at an
    /// edge or in a corner.
    pub fn neighbors_of(&self, c: Coordinates) -> (around: Vec<Coordinates>)
        ensures
            forall|n: Coordinates| around@.contains(n) <==> self.contains(n) && c.adjacent(n),
    {
        broadcast use vstd::seq_lib::lemma_seq_contains_after_push;

        let x: i32 = c.x as i32;
        let y: i32 = c.y as i32;
        let mut around: Vec<Coordinates> = Vec::new();
        assert(forall|n: Coordinates| !around@.contains(n));
        self.push_inside(&mut around, x - 1, y - 1);
        self.push_inside(&mut around, x, y - 1);
        self.push_inside(&mut around, x + 1, y - 1);
        self.push_inside(&mut around, x - 1, y);
        self.push_inside(&mut around, x + 1, y);
        self.push_inside(&mut around, x - 1, y + 1);
        self.push_inside(&mut around, x, y + 1);
        self.push_inside(&mut around, x + 1, y + 1);
        around
    }
}

impl TileMap {
    /// The grid as text, for diagnosis: one row of characters for each row of
    /// the grid, one character for each tile.
    pub fn console_rows(&self) -> (rows: Vec<Vec<char>>)
        requires
            self.wf(),
        ensures
            rows@.len() == self.height(),
            forall|y: int| 0 <= y < rows@.len() ==> (#[trigger] rows@[y])@.len() == self.width(),
            forall|c: Coordinates|
                self.contains(c) ==> rows@[c.y as int]@[c.x as int] == (#[trigger] self.tile(c)).glyph_of(),
    {
        let width = self.grid.width();
        let height = self.grid.height();
        let mut rows: Vec<Vec<char>> = Vec::new();
        let mut y: u16 = 0;
        while y < height
            invariant
                self.wf(),
                self.width() == width,
                self.height() == height,
                y <= height,
                rows@.len() == y,
                forall|r: int| 0 <= r < rows@.len() ==> (#[trigger] rows@[r])@.len() == width,
                forall|c: Coordinates|
                    self.contains(c) && c.y < y ==> rows@[c.y as int]@[c.x as int] == (#[trigger] self.tile(
                        c,
                    )).glyph_of(),
            decreases height - y,
        {
            let mut row: Vec<char> = Vec::new();
            let mut x: u16 = 0;
            while x < width
                invariant
                    self.wf(),
                    self.width() == width,
                    self.height() == height,
                    y < height,
                    x <= width,
                    row@.len() == x,
                    forall|i: int|
                        0 <= i < x ==> row@[i] == (#[trigger] self.tile(Coordinates { x: i as u16, y })).glyph_of(),
                decreases width - x,
            {
                let sign = match self.grid.get(Coordinates { x, y }) {
                    Some(tile) => tile.glyph(),
                    None => ' ',
                };
                row.push(sign);
                x = x + 1;
            }
            rows.push(row);
            assert forall|c: Coordinates| self.contains(c) && c.y < y + 1 implies rows@[c.y as int]@[c.x as int]
                == (#[trigger] self.tile(c)).glyph_of() by {
                if c.y == y {
                    assert(Coordinates { x: c.x as int as u16, y } == c);
                }
            }
            y = y + 1;
        }
        rows
    }
}

} // verus!
