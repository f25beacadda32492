use board_plugin::grid::Grid;
use board_plugin::components::Coordinates;
use board_plugin::state::{AppState, KeyPresses};

fn keys(clear: bool, generate: bool, pause: bool) -> KeyPresses {
    KeyPresses { clear, generate, pause }
}

#[test]
fn the_game_starts_loading() {
    assert_eq!(AppState::default(), AppState::Load);
}

#[test]
fn loading_ends_when_the_board_is_there() {
    let none = keys(false, false, false);
    assert_eq!(AppState::Load.next_state(false, none), None);
    assert_eq!(AppState::Load.next_state(true, none), Some(AppState::InGame));
    assert_eq!(AppState::Reload.next_state(false, none), None);
    assert_eq!(AppState::Reload.next_state(true, none), Some(AppState::InGame));
    assert_eq!(AppState::Load.next_state(true, keys(true, true, true)), Some(AppState::InGame));
    assert_eq!(AppState::Reload.next_state(false, keys(true, true, true)), None);
}

#[test]
fn keys_in_play() {
    assert_eq!(AppState::InGame.next_state(true, keys(false, false, false)), None);
    assert_eq!(AppState::InGame.next_state(true, keys(true, false, false)), Some(AppState::Out));
    assert_eq!(AppState::InGame.next_state(true, keys(false, true, false)), Some(AppState::Reload));
    assert_eq!(AppState::InGame.next_state(true, keys(false, false, true)), Some(AppState::Pause));
}

#[test]
fn keys_pressed_together_in_play() {
    assert_eq!(AppState::InGame.next_state(true, keys(true, true, false)), Some(AppState::Reload));
    assert_eq!(AppState::InGame.next_state(true, keys(true, false, true)), Some(AppState::Pause));
    assert_eq!(AppState::InGame.next_state(true, keys(true, true, true)), Some(AppState::Pause));
}

#[test]
fn keys_while_halted_or_without_a_board() {
    assert_eq!(AppState::Pause.next_state(true, keys(false, false, true)), Some(AppState::InGame));
    assert_eq!(AppState::Pause.next_state(true, keys(true, true, false)), None);
    assert_eq!(AppState::Out.next_state(false, keys(false, true, false)), Some(AppState::Load));
    assert_eq!(AppState::Out.next_state(false, keys(true, false, true)), None);
    assert_eq!(AppState::Out.next_state(true, keys(false, false, false)), None);
}

#[test]
fn grid_cells_are_told_apart() {
    let mut grid: Grid<u32> = Grid::filled(3, 2, 7);
    assert_eq!(grid.width(), 3);
    assert_eq!(grid.height(), 2);
    assert_eq!(grid.get(Coordinates { x: 2, y: 1 }), Some(7));
    assert_eq!(grid.get(Coordinates { x: 3, y: 0 }), None);
    assert_eq!(grid.get(Coordinates { x: 0, y: 2 }), None);
    assert!(grid.set(Coordinates { x: 0, y: 1 }, 9));
    assert!(!grid.set(Coordinates { x: 3, y: 1 }, 1));
    let mut seen = Vec::new();
    for y in 0..2 {
        for x in 0..3 {
            seen.push(grid.get(Coordinates { x, y }).unwrap());
        }
    }
    assert_eq!(seen, vec![7, 7, 7, 9, 7, 7]);
}
