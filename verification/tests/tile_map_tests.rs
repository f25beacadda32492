use board_plugin::components::{Bomb, BombNeighbor, Coordinates};
use board_plugin::random::{RandomSource, SeededRandom};
use board_plugin::tile::Tile;
use board_plugin::tile_map::{BoardError, TileMap, RETRY_LIMIT};

/// Gives out the listed numbers in turn, then the last one for ever.
struct Scripted {
    draws: Vec<u64>,
    calls: usize,
}

impl Scripted {
    fn new(draws: Vec<u64>) -> Self {
        Scripted { draws, calls: 0 }
    }
}

impl RandomSource for Scripted {
    fn next_u64(&mut self) -> u64 {
        let at = self.calls.min(self.draws.len() - 1);
        self.calls += 1;
        self.draws[at]
    }
}

fn at(x: u16, y: u16) -> Coordinates {
    Coordinates { x, y }
}

fn count_bombs(map: &TileMap) -> u32 {
    let mut n = 0;
    for y in 0..map.height() {
        for x in 0..map.width() {
            if map.tile_at(at(x, y)) == Some(Tile::Bomb) {
                n += 1;
            }
        }
    }
    n
}

fn literal_neighbor_count(map: &TileMap, c: Coordinates) -> u8 {
    let mut n = 0;
    for dy in -1i32..=1 {
        for dx in -1i32..=1 {
            if dx == 0 && dy == 0 {
                continue;
            }
            let x = c.x as i32 + dx;
            let y = c.y as i32 + dy;
            if x < 0 || y < 0 || x >= map.width() as i32 || y >= map.height() as i32 {
                continue;
            }
            if map.tile_at(at(x as u16, y as u16)) == Some(Tile::Bomb) {
                n += 1;
            }
        }
    }
    n
}

fn assert_counts_are_literal(map: &TileMap) {
    for y in 0..map.height() {
        for x in 0..map.width() {
            let c = at(x, y);
            let tile = map.tile_at(c).unwrap();
            let around = literal_neighbor_count(map, c);
            match tile {
                Tile::Bomb => {}
                Tile::Empty => assert_eq!(around, 0, "empty tile at {:?}", c),
                Tile::BombNeighbor(n) => {
                    assert!(n >= 1 && n <= 8);
                    assert_eq!(n, around, "numbered tile at {:?}", c);
                }
            }
        }
    }
}

#[test]
fn generate_refuses_zero_width() {
    let mut rng = SeededRandom::new(1);
    assert_eq!(TileMap::generate(0, 5, 0, &mut rng).err(), Some(BoardError::InvalidParameters));
}

#[test]
fn generate_refuses_zero_height() {
    let mut rng = SeededRandom::new(1);
    assert_eq!(TileMap::generate(5, 0, 0, &mut rng).err(), Some(BoardError::InvalidParameters));
}

#[test]
fn generate_refuses_bombs_in_every_cell() {
    let mut rng = SeededRandom::new(1);
    assert_eq!(TileMap::generate(3, 3, 9, &mut rng).err(), Some(BoardError::InvalidParameters));
    assert_eq!(TileMap::generate(3, 3, 10, &mut rng).err(), Some(BoardError::InvalidParameters));
    assert_eq!(
        TileMap::generate(3, 3, u32::MAX, &mut rng).err(),
        Some(BoardError::InvalidParameters)
    );
}

#[test]
fn generate_accepts_one_free_cell() {
    let mut rng = SeededRandom::new(7);
    let map = TileMap::generate(3, 3, 8, &mut rng).ok().unwrap();
    assert_eq!(map.bomb_count(), 8);
    assert_eq!(count_bombs(&map), 8);
    assert_counts_are_literal(&map);
}

#[test]
fn generate_places_exactly_the_requested_bombs() {
    for seed in 0..40u64 {
        let mut rng = SeededRandom::new(seed);
        let bombs = (seed % 30) as u32;
        let map = TileMap::generate(11, 7, bombs, &mut rng).ok().unwrap();
        assert_eq!(map.width(), 11);
        assert_eq!(map.height(), 7);
        assert_eq!(map.bomb_count(), bombs);
        assert_eq!(count_bombs(&map), bombs);
    }
}

#[test]
fn generate_records_literal_neighbor_counts() {
    for seed in 0..40u64 {
        let mut rng = SeededRandom::new(seed);
        let map = TileMap::generate(9, 6, 12, &mut rng).ok().unwrap();
        assert_counts_are_literal(&map);
    }
}

#[test]
fn generate_without_bombs_is_all_empty() {
    let mut rng = SeededRandom::new(3);
    let map = TileMap::generate(4, 3, 0, &mut rng).ok().unwrap();
    for y in 0..3 {
        for x in 0..4 {
            assert_eq!(map.tile_at(at(x, y)), Some(Tile::Empty));
        }
    }
}

#[test]
fn generate_is_reproducible_from_a_seed() {
    let mut first = SeededRandom::new(2024);
    let mut second = SeededRandom::new(2024);
    let a = TileMap::generate(15, 15, 30, &mut first).ok().unwrap();
    let b = TileMap::generate(15, 15, 30, &mut second).ok().unwrap();
    assert_eq!(a.console_rows(), b.console_rows());
}

#[test]
fn generate_puts_the_bombs_where_the_draws_say() {
    // SplitMix64 from seed 42 gives numbers that are 13, 16 and 8 modulo 25.
    let mut rng = SeededRandom::new(42);
    let map = TileMap::generate(5, 5, 3, &mut rng).ok().unwrap();
    assert_eq!(map.tile_at(at(3, 2)), Some(Tile::Bomb));
    assert_eq!(map.tile_at(at(1, 3)), Some(Tile::Bomb));
    assert_eq!(map.tile_at(at(3, 1)), Some(Tile::Bomb));
    assert_eq!(count_bombs(&map), 3);
}

#[test]
fn generate_single_bomb_in_the_far_corner() {
    let mut rng = Scripted::new(vec![24]);
    let map = TileMap::generate(5, 5, 1, &mut rng).ok().unwrap();
    assert_eq!(rng.calls, 1);
    assert_eq!(count_bombs(&map), 1);
    assert_eq!(map.tile_at(at(4, 4)), Some(Tile::Bomb));
    assert_eq!(map.tile_at(at(3, 3)), Some(Tile::BombNeighbor(1)));
    assert_eq!(map.tile_at(at(4, 3)), Some(Tile::BombNeighbor(1)));
    assert_eq!(map.tile_at(at(3, 4)), Some(Tile::BombNeighbor(1)));
    assert_eq!(map.tile_at(at(0, 0)), Some(Tile::Empty));
    assert_eq!(map.tile_at(at(2, 4)), Some(Tile::Empty));
}

#[test]
fn generate_draws_again_on_a_taken_cell() {
    let mut rng = Scripted::new(vec![0, 0, 0, 3]);
    let map = TileMap::generate(2, 2, 2, &mut rng).ok().unwrap();
    assert_eq!(rng.calls, 4);
    assert_eq!(map.tile_at(at(0, 0)), Some(Tile::Bomb));
    assert_eq!(map.tile_at(at(1, 1)), Some(Tile::Bomb));
    assert_eq!(map.tile_at(at(1, 0)), Some(Tile::BombNeighbor(2)));
    assert_eq!(map.tile_at(at(0, 1)), Some(Tile::BombNeighbor(2)));
}

#[test]
fn generate_ends_with_a_source_that_never_changes() {
    let mut rng = Scripted::new(vec![0]);
    let map = TileMap::generate(2, 2, 3, &mut rng).ok().unwrap();
    assert_eq!(rng.calls, 1 + 2 * RETRY_LIMIT as usize);
    assert_eq!(map.tile_at(at(0, 0)), Some(Tile::Bomb));
    assert_eq!(map.tile_at(at(1, 0)), Some(Tile::Bomb));
    assert_eq!(map.tile_at(at(0, 1)), Some(Tile::Bomb));
    assert_eq!(map.tile_at(at(1, 1)), Some(Tile::BombNeighbor(3)));
    assert_eq!(map.bomb_count(), 3);
}

#[test]
fn cell_for_draw_counts_row_by_row() {
    assert_eq!(TileMap::cell_for_draw(5, 5, 24), Some(at(4, 4)));
    assert_eq!(TileMap::cell_for_draw(5, 5, 25), Some(at(0, 0)));
    assert_eq!(TileMap::cell_for_draw(5, 5, 7), Some(at(2, 1)));
    assert_eq!(TileMap::cell_for_draw(3, 2, 4), Some(at(1, 1)));
    assert_eq!(TileMap::cell_for_draw(3, 2, u64::MAX), Some(at(0, 1)));
    assert_eq!(TileMap::cell_for_draw(65535, 65535, u64::MAX), Some(at(0, 4)));
}

#[test]
fn cell_for_draw_has_no_cell_in_an_empty_grid() {
    assert_eq!(TileMap::cell_for_draw(0, 5, 3), None);
    assert_eq!(TileMap::cell_for_draw(5, 0, 3), None);
}

#[test]
fn from_bombs_counts_around_each_cell() {
    let map = TileMap::from_bombs(3, 3, &vec![at(0, 0), at(2, 2)]).ok().unwrap();
    assert_eq!(map.bomb_count(), 2);
    assert_eq!(map.tile_at(at(0, 0)), Some(Tile::Bomb));
    assert_eq!(map.tile_at(at(1, 0)), Some(Tile::BombNeighbor(1)));
    assert_eq!(map.tile_at(at(2, 0)), Some(Tile::Empty));
    assert_eq!(map.tile_at(at(0, 1)), Some(Tile::BombNeighbor(1)));
    assert_eq!(map.tile_at(at(1, 1)), Some(Tile::BombNeighbor(2)));
    assert_eq!(map.tile_at(at(2, 1)), Some(Tile::BombNeighbor(1)));
    assert_eq!(map.tile_at(at(0, 2)), Some(Tile::Empty));
    assert_eq!(map.tile_at(at(1, 2)), Some(Tile::BombNeighbor(1)));
    assert_eq!(map.tile_at(at(2, 2)), Some(Tile::Bomb));
}

#[test]
fn from_bombs_counts_up_to_eight() {
    let ring = vec![
        at(0, 0),
        at(1, 0),
        at(2, 0),
        at(0, 1),
        at(2, 1),
        at(0, 2),
        at(1, 2),
        at(2, 2),
    ];
    let map = TileMap::from_bombs(3, 3, &ring).ok().unwrap();
    assert_eq!(map.tile_at(at(1, 1)), Some(Tile::BombNeighbor(8)));
    assert_eq!(map.bomb_count_at(at(1, 1)), 8);
    assert_eq!(map.bomb_count_at(at(0, 0)), 0);
}

#[test]
fn from_bombs_counts_fewer_neighbors_at_the_edge() {
    let map = TileMap::from_bombs(4, 1, &vec![at(1, 0)]).ok().unwrap();
    assert_eq!(map.tile_at(at(0, 0)), Some(Tile::BombNeighbor(1)));
    assert_eq!(map.tile_at(at(2, 0)), Some(Tile::BombNeighbor(1)));
    assert_eq!(map.tile_at(at(3, 0)), Some(Tile::Empty));
    assert_eq!(map.bomb_count_at(at(4, 0)), 0);
}

#[test]
fn from_bombs_refuses_a_repeated_cell() {
    let made = TileMap::from_bombs(3, 3, &vec![at(1, 1), at(0, 0), at(1, 1)]);
    assert_eq!(made.err(), Some(BoardError::InvalidParameters));
}

#[test]
fn from_bombs_refuses_a_cell_outside() {
    assert_eq!(
        TileMap::from_bombs(3, 3, &vec![at(3, 0)]).err(),
        Some(BoardError::InvalidParameters)
    );
    assert_eq!(
        TileMap::from_bombs(3, 3, &vec![at(0, 3)]).err(),
        Some(BoardError::InvalidParameters)
    );
}

#[test]
fn from_bombs_refuses_an_empty_grid_and_a_full_one() {
    assert_eq!(TileMap::from_bombs(0, 3, &vec![]).err(), Some(BoardError::InvalidParameters));
    assert_eq!(TileMap::from_bombs(3, 0, &vec![]).err(), Some(BoardError::InvalidParameters));
    assert_eq!(
        TileMap::from_bombs(1, 1, &vec![at(0, 0)]).err(),
        Some(BoardError::InvalidParameters)
    );
    assert!(TileMap::from_bombs(1, 1, &vec![]).is_ok());
}

#[test]
fn tile_at_is_nothing_outside_the_grid() {
    let map = TileMap::from_bombs(2, 3, &vec![at(1, 2)]).ok().unwrap();
    assert_eq!(map.tile_at(at(2, 0)), None);
    assert_eq!(map.tile_at(at(0, 3)), None);
    assert!(map.is_bomb_at(at(1, 2)));
    assert!(!map.is_bomb_at(at(0, 2)));
    assert!(!map.is_bomb_at(at(5, 5)));
}

#[test]
fn neighbors_of_is_clipped_at_the_edges() {
    let map = TileMap::from_bombs(3, 3, &vec![]).ok().unwrap();
    let mut corner = map.neighbors_of(at(0, 0));
    corner.sort();
    assert_eq!(corner, vec![at(0, 1), at(1, 0), at(1, 1)]);
    let mut edge = map.neighbors_of(at(1, 0));
    edge.sort();
    assert_eq!(edge, vec![at(0, 0), at(0, 1), at(1, 1), at(2, 0), at(2, 1)]);
    let middle = map.neighbors_of(at(1, 1));
    assert_eq!(
        middle,
        vec![at(0, 0), at(1, 0), at(2, 0), at(0, 1), at(2, 1), at(0, 2), at(1, 2), at(2, 2)]
    );
    let outside = map.neighbors_of(at(3, 3));
    assert_eq!(outside, vec![at(2, 2)]);
    assert!(map.neighbors_of(at(9, 9)).is_empty());
}

#[test]
fn console_rows_show_bombs_numbers_and_blanks() {
    let map = TileMap::from_bombs(3, 2, &vec![at(0, 0)]).ok().unwrap();
    assert_eq!(map.console_rows(), vec![vec!['*', '1', ' '], vec!['1', '1', ' ']]);
}

#[test]
fn tile_glyphs() {
    assert_eq!(Tile::Bomb.glyph(), '*');
    assert_eq!(Tile::Empty.glyph(), ' ');
    assert_eq!(Tile::BombNeighbor(1).glyph(), '1');
    assert_eq!(Tile::BombNeighbor(8).glyph(), '8');
    assert_eq!(Tile::BombNeighbor(10).glyph(), '?');
}

#[test]
fn tile_markers() {
    assert_eq!(Tile::Bomb.bomb(), Some(Bomb));
    assert_eq!(Tile::Empty.bomb(), None);
    assert_eq!(Tile::BombNeighbor(2).bomb(), None);
    assert_eq!(Tile::BombNeighbor(2).bomb_neighbor(), Some(BombNeighbor { count: 2 }));
    assert_eq!(Tile::Bomb.bomb_neighbor(), None);
    assert_eq!(Tile::Empty.bomb_neighbor(), None);
    assert!(Tile::Bomb.is_bomb());
    assert!(!Tile::BombNeighbor(3).is_bomb());
    assert!(!Tile::Empty.is_bomb());
}

#[test]
fn seeded_random_gives_the_splitmix_numbers() {
    let mut rng = SeededRandom::new(0);
    assert_eq!(rng.next_u64(), 0xE220_A839_7B1D_CDAF);
    assert_eq!(rng.next_u64(), 0x6E78_9E6A_A1B9_65F4);
    assert_eq!(rng.next_u64(), 0x06C4_5D18_8009_454F);
    let mut other = SeededRandom::new(42);
    assert_eq!(other.next_u64(), 0xBDD7_3226_2FEB_6E95);
}

#[test]
fn coordinates_are_ordered_by_column_then_row() {
    assert!(at(1, 5) < at(2, 0));
    assert!(at(1, 0) < at(1, 1));
    assert_eq!(at(3, 4), Coordinates::new(3, 4));
    let mut cells = vec![at(1, 1), at(0, 2), at(1, 0), at(0, 0)];
    cells.sort();
    assert_eq!(cells, vec![at(0, 0), at(0, 2), at(1, 0), at(1, 1)]);
}
