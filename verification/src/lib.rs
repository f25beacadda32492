//! Logical state of a Minesweeper board: tile layout, bomb placement,
//! neighbour counts, reveal propagation, flagging and win detection.
//!
//! The board knows nothing of windows, sprites or input devices. It takes
//! plain parameters and the two gameplay events, and answers with the state
//! changes that a presentation layer has to show.

pub mod board;
pub mod components;
pub mod covers;
pub mod events;
pub mod grid;
pub mod options;
pub mod placement;
pub mod random;
pub mod state;
pub mod tile;
pub mod tile_map;
