//! The two gameplay events, and what the board answers to them.

use vstd::prelude::*;
use crate::board::{Board, MarkOutcome};
use crate::components::Coordinates;
use crate::tile::Tile;

verus! {

/// Asks for the cover to be taken off a cell.
#[derive(Clone, Copy, PartialEq, Eq, Structural, Debug)]
pub struct TileTriggerEvent(pub Coordinates);

/// Asks for the mark of a cell to be set, or taken off if it is set.
#[derive(Clone, Copy, PartialEq, Eq, Structural, Debug)]
pub struct TileMarkEvent(pub Coordinates);

/// Says that every cell without a bomb has been uncovered.
#[derive(Clone, Copy, PartialEq, Eq, Structural, Debug)]
pub struct BoardCompletedEvent;

/// Says that a bomb has been uncovered.
#[derive(Clone, Copy, PartialEq, Eq, Structural, Debug)]
pub struct BombExplosionEvent;

/// What a trigger changed, for the presentation layer to show.
#[derive(Clone, Debug, PartialEq, Eq)]
pub struct TriggerReport {
    /// The cells that lost their covers, the bomb cell among them if one was hit.
    pub revealed: Vec<Coordinates>,
    /// The handles of the covers that are to be taken away, in the order of `revealed`.
    pub covers: Vec<u64>,
    /// Set if the triggered cell held a bomb.
    pub explosion: Option<BombExplosionEvent>,
    /// Set if the trigger uncovered the last cell without a bomb.
    pub completed: Option<BoardCompletedEvent>,
}

/// Uncovers the cell that `event` names and says what follows from it.
///
/// A trigger on a cell without a cover changes nothing and reports nothing.
/// A bomb is reported as an explosion, and then never as a completion.
pub fn handle_trigger(board: &mut Board, event: TileTriggerEvent) -> (report: TriggerReport)
    requires
        old(board).wf(),
    ensures
        final(board).wf(),
        final(board).tiles() == old(board).tiles(),
        final(board).geometry() == old(board).geometry(),
        final(board).covered() == old(board).covered().remove_keys(old(board).flood_region(event.0)),
        final(board).marked() == (if old(board).covered().contains_key(event.0) {
            Board::without_mark(old(board).marked(), event.0)
        } else {
            old(board).marked()
        }),
        report.revealed@.no_duplicates(),
        report.revealed@.to_set() == old(board).flood_region(event.0),
        !old(board).covered().contains_key(event.0) ==> report.revealed@.len() == 0,
        report.covers@.len() == report.revealed@.len(),
        forall|i: int|
            0 <= i < report.revealed@.len() ==> {
                &&& old(board).covered().contains_key(#[trigger] report.revealed@[i])
                &&& report.covers@[i] == old(board).covered()[report.revealed@[i]]
                &&& !final(board).covered().contains_key(report.revealed@[i])
                &&& !final(board).marked().contains(report.revealed@[i])
            },
        report.explosion == (if old(board).covered().contains_key(event.0) && old(board).tiles().tile(
            event.0,
        ) == Tile::Bomb {
            Some(BombExplosionEvent)
        } else {
            None
        }),
        report.completed == (if report.revealed@.len() > 0 && report.explosion is None && final(board).complete() {
            Some(BoardCompletedEvent)
        } else {
            None
        }),
{
    let opened = board.open(event.0);
    let explosion = if opened.bomb_hit {
        Some(BombExplosionEvent)
    } else {
        None
    };
    let completed = if !opened.bomb_hit && opened.cells.len() > 0 && board.is_complete() {
        Some(BoardCompletedEvent)
    } else {
        None
    };
    TriggerReport { revealed: opened.cells, covers: opened.covers, explosion, completed }
}

/// Toggles the mark of the cell that `event` names.
pub fn handle_mark(board: &mut Board, event: TileMarkEvent) -> (outcome: MarkOutcome)
    requires
        old(board).wf(),
    ensures
        final(board).wf(),
        final(board).tiles() == old(board).tiles(),
        final(board).covered() == old(board).covered(),
        final(board).geometry() == old(board).geometry(),
        outcome == (if !old(board).covered().contains_key(event.0) {
            MarkOutcome::NoOp
        } else if old(board).marked().contains(event.0) {
            MarkOutcome::Unmarked
        } else {
            MarkOutcome::Marked
        }),
        final(board).marked() == (match outcome {
            MarkOutcome::NoOp => old(board).marked(),
            MarkOutcome::Unmarked => Board::without_mark(old(board).marked(), event.0),
            MarkOutcome::Marked => old(board).marked().push(event.0),
        }),
{
    board.toggle_mark(event.0)
}

} // verus!
