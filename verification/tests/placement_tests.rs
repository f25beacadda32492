use board_plugin::components::Coordinates;
use board_plugin::placement::BombDraw;

fn place(x: u16, y: u16) -> Coordinates {
    Coordinates { x, y }
}

#[test]
fn offer_takes_the_drawn_cell_once() {
    let mut drawing = BombDraw::new(3, 2);
    assert_eq!(drawing.width(), 3);
    assert_eq!(drawing.height(), 2);
    assert!(drawing.offer(4));
    assert!(!drawing.offer(4));
    assert!(!drawing.offer(10));
    assert!(drawing.offer(5));
    assert!(drawing.offer(6));
    assert_eq!(drawing.into_cells(), vec![place(1, 1), place(2, 1), place(0, 0)]);
}

#[test]
fn offer_takes_nothing_in_a_grid_without_cells() {
    let mut drawing = BombDraw::new(0, 4);
    assert!(!drawing.offer(0));
    assert!(!drawing.offer(3));
    assert_eq!(drawing.take_first_free(), None);
    assert!(drawing.into_cells().is_empty());
}

#[test]
fn take_first_free_goes_row_by_row() {
    let mut drawing = BombDraw::new(2, 2);
    assert!(drawing.offer(0));
    assert!(drawing.offer(2));
    assert_eq!(drawing.take_first_free(), Some(place(1, 0)));
    assert_eq!(drawing.take_first_free(), Some(place(1, 1)));
    assert_eq!(drawing.take_first_free(), None);
    assert!(!drawing.offer(1));
    assert_eq!(
        drawing.into_cells(),
        vec![place(0, 0), place(0, 1), place(1, 0), place(1, 1)]
    );
}
