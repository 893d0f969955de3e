use battleships::board::Board;
use battleships::error::Error;
use battleships::layout::{Axis, Layout};
use battleships::ship::Ship;

fn make_test_board() -> Result<Board, Error> {
    let text = vec!["  1101", "1|~~* ", "2|  *~"];

    Board::new(&text)
}

#[test]
fn layout_it_returns_all_coordinates() {
    let board = make_test_board().unwrap();
    let coords = board.layout.all_coordinates();

    assert_eq!(coords.len(), 8);
    let expected_coords: Vec<_> = [
        /* x, y */
        (0, 0),
        (0, 1),
        (0, 2),
        (0usize, 3usize),
        (1, 0),
        (1, 1),
        (1, 2),
        (1, 3),
    ]
    .iter()
    .map(|(x, y)| board.layout.coord(*y, *x))
    .collect();

    println!("coords: {:?}", coords);

    for expected in expected_coords {
        assert!(coords.contains(&expected), "Should have contained {:?}", expected);
    }
}

#[test]
fn it_finds_offsets() {
    let layout = Layout { num_rows: 3, num_cols: 4 };
    let coord = layout.coord(2, 1);

    // Row - In bounds
    let new_coord = coord.offset(1, Axis::Row, &layout).unwrap();
    assert_eq!(new_coord.row_num, 2);
    assert_eq!(new_coord.col_num, 2);

    // Col - in bounds
    let new_coord = coord.offset(1, Axis::Col, &layout).unwrap();
    assert_eq!(new_coord.row_num, 1);
    assert_eq!(new_coord.col_num, 3);

    // Row - Out of bounds
    let new_coord = coord.offset(2, Axis::Row, &layout);
    assert_eq!(new_coord, None);

    // Col - Out of bounds
    let new_coord = coord.offset(2, Axis::Col, &layout);
    assert_eq!(new_coord, None);
}

#[test]
fn test_ship_in_bounds() {
    let layout = Layout { num_rows: 3, num_cols: 4 };
    let origin = layout.coord(1, 0);

    // In bounds
    let ship = Ship::new(origin, Axis::Row, 3);
    assert_eq!(ship.is_in_bounds(&layout), true);

    // Out of bounds
    let ship = Ship::new(origin, Axis::Col, 5);
    assert_eq!(ship.is_in_bounds(&layout), false);
}
