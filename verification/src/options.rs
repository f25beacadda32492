//! What a new board is made from.

use vstd::prelude::*;
use crate::board::Board;
use crate::components::Coordinates;
use crate::random::RandomSource;
use crate::tile_map::{BoardError, TileMap};

verus! {

/// The parameters of a new board.
#[derive(Clone, Copy, PartialEq, Eq, Debug)]
pub struct BoardOptions {
    /// Columns and rows of the grid.
    pub map_size: (u16, u16),
    /// How many bombs the grid gets.
    pub bomb_count: u16,
    /// Where the corner of the board lies.
    pub position: (i32, i32),
    /// How long the side of a tile is.
    pub tile_size: u16,
    /// Whether a first cell that cannot hold a bomb is picked for the player.
    pub safe_start: bool,
}

/// Makes the board that `options` describe, with bombs in cells drawn from `rng`.
///
/// Beside the board comes the cell to uncover first, if `options` ask for a
/// safe start and some cell touches no bomb. Whoever gets it triggers it
/// before anything else.
///
/// No board is made if a dimension is zero or the bombs would leave no cell free.
pub fn create_board<R: RandomSource>(options: &BoardOptions, rng: &mut R) -> (made: Result<
    (Board, Option<Coordinates>),
    BoardError,
>)
    ensures
        match made {
            Ok((board, start)) => {
                &&& options.map_size.0 > 0
                &&& options.map_size.1 > 0
                &&& options.bomb_count < options.map_size.0 * options.map_size.1
                &&& board.wf()
                &&& board.tiles().width() == options.map_size.0
                &&& board.tiles().height() == options.map_size.1
                &&& board.tiles().bomb_count() == options.bomb_count
                &&& board.marked() == Seq::<Coordinates>::empty()
                &&& board.geometry() == (
                    options.position.0 as int,
                    options.position.1 as int,
                    options.tile_size as int,
                )
                &&& forall|c: Coordinates| board.covered().contains_key(c) <==> board.tiles().contains(c)
                &&& forall|c: Coordinates|
                    board.tiles().contains(c) ==> #[trigger] board.covered()[c] == board.fresh_handle(c)
                &&& options.safe_start ==> Board::is_first_empty(board.tiles(), start)
                &&& !options.safe_start ==> start is None
            },
            Err(e) => {
                &&& e == BoardError::InvalidParameters
                &&& (options.map_size.0 == 0 || options.map_size.1 == 0 || options.bomb_count
                    >= options.map_size.0 * options.map_size.1)
            },
        },
{
    match TileMap::generate(options.map_size.0, options.map_size.1, options.bomb_count as u32, rng) {
        Ok(tile_map) => {
            let (mut board, start) = Board::assemble(tile_map, options.safe_start);
            board.set_geometry(options.position.0, options.position.1, options.tile_size);
            Ok((board, start))
        },
        Err(e) => Err(e),
    }
}

} // verus!
