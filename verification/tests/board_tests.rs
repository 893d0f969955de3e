use battleships::board::Board;
use battleships::error::Error;
use battleships::layout::Axis;
use battleships::ship::{ExpectedShip, Ship, ShipHead};
use battleships::square::{ShipSquare, Square};

fn make_test_board() -> Result<Board, Error> {
    let text = vec!["  1101", "1|~~* ", "2|  *~"];

    Board::new(&text)
}

#[test]
fn it_sets_changed() {
    let mut board = Board::new(&vec!["  001", "0|   ", "1|~  "]).unwrap();
    let layout = board.layout;

    // Set a square to its current value => dirty is false
    let coord = layout.coord(0, 1);
    board.set(coord, Square::Water).unwrap();
    assert_eq!(board.dirty(), false);

    // Set a square to a new value => dirty is true
    let coord = layout.coord(0, 0);
    board.set(coord, Square::Water).unwrap();
    assert_eq!(board.dirty(), true);
}

#[test]
fn board_it_returns_num_rows() {
    let board = make_test_board().unwrap();
    assert_eq!(board.layout.num_rows, 2);
}

#[test]
fn board_it_returns_num_cols() {
    let board = make_test_board().unwrap();
    assert_eq!(board.layout.num_cols, 4);
}

#[test]
fn board_it_accesses_with_index() {
    let mut board = make_test_board().unwrap();
    let layout = board.layout;

    let coord1 = layout.coord(0, 1);

    assert_eq!(board.square_at(coord1), Square::Unknown);

    board.set(coord1, Square::Water).unwrap();

    assert_eq!(board.square_at(coord1), Square::Water);
    assert_eq!(board.dirty(), true);

    let coord2 = layout.coord(3, 1);
    assert_eq!(board.square_at(coord2), Square::Water);
}

#[test]
fn board_it_accesses_col() {
    let board = make_test_board().unwrap();
    let col1 = board.layout.col(1);
    let coords = col1.coords(&board.layout);

    let expected_coord = board.layout.coord(1, 0);
    assert_eq!(coords[0], expected_coord);

    let expected_coord = board.layout.coord(1, 1);
    assert_eq!(coords[1], expected_coord);

    assert_eq!(coords.len(), 2);
}

#[test]
fn it_counts_ship_squares_remaining() {
    let board = Board::new(&vec!["  0123", "9|    ", "8|    ", "7|    "]).unwrap();

    let row0 = board.layout.row(0);
    let row1 = board.layout.row(1);
    let col0 = board.layout.col(0);
    let col2 = board.layout.col(2);

    assert_eq!(board.ship_squares_remaining(row0), 9);
    assert_eq!(board.ship_squares_remaining(row1), 8);
    assert_eq!(board.ship_squares_remaining(col0), 0);
    assert_eq!(board.ship_squares_remaining(col2), 2);
}

#[test]
fn it_adjusts_ship_squares_remaining_after_set() {
    let mut board = make_test_board().unwrap();
    let layout = board.layout;
    let coord = layout.coord(0, 1);

    assert_eq!(board.ship_squares_remaining(layout.row(coord.row_num)), 2);

    assert_eq!(board.ship_squares_remaining(layout.col(coord.col_num)), 1);

    board.set(coord, Square::ShipSquare(ShipSquare::Any)).unwrap();

    // ships remaining has decreased
    assert_eq!(board.ship_squares_remaining(layout.row(coord.row_num)), 2 - 1);
    assert_eq!(board.ship_squares_remaining(layout.col(coord.col_num)), 1 - 1);

    assert_eq!(board.dirty(), true);
}

#[test]
fn it_accesses_col_contents() {
    let board = Board::new(&vec!["  000", "0| ^ ", "0| | ", "0| v ", "0| ~ "]).unwrap();
    let layout = board.layout;

    let col = layout.col(1);
    let col_coords = col.coords(&layout);

    let mut expected_coord;

    expected_coord = layout.coord(1, 0);
    assert_eq!(col_coords[0], expected_coord);
    assert_eq!(board.square_at(expected_coord), Square::ShipSquare(ShipSquare::TopEnd));

    expected_coord = layout.coord(1, 1);
    assert_eq!(col_coords[1], expected_coord);
    assert_eq!(board.square_at(expected_coord), Square::ShipSquare(ShipSquare::VerticalMiddle));

    expected_coord = layout.coord(1, 2);
    assert_eq!(col_coords[2], expected_coord);
    assert_eq!(board.square_at(expected_coord), Square::ShipSquare(ShipSquare::BottomEnd));

    expected_coord = layout.coord(1, 3);
    assert_eq!(col_coords[3], expected_coord);
    assert_eq!(board.square_at(expected_coord), Square::Water);

    assert_eq!(col_coords.len(), 4);
}

#[test]
fn it_finds_ship() {
    let board = Board::new(&vec![
        "  000", "0|  ^", "0| ~|", "0|• |", "0|  v", "0|   ", "0|<> ",
    ])
    .unwrap();

    // Find vertical ship
    let origin = board.layout.coord(2, 0);
    let found_ship = board.ship_is_found(Ship {
        size: 4,
        head: ShipHead { origin, incrementing_axis: Axis::Row },
    });
    assert_eq!(found_ship, true);

    // Find horizontal ship
    let origin = board.layout.coord(0, 5);
    let found_ship = board.ship_is_found(Ship {
        size: 2,
        head: ShipHead { origin, incrementing_axis: Axis::Col },
    });
    assert_eq!(found_ship, true);

    // Finds dot
    let origin = board.layout.coord(0, 2);
    let found_ship = board.ship_is_found(Ship {
        size: 1,
        head: ShipHead { origin, incrementing_axis: Axis::Row },
    });
    assert_eq!(found_ship, true);

    // Does not match when size < ship size
    let origin = board.layout.coord(2, 0);
    let found_ship = board.ship_is_found(Ship {
        size: 3,
        head: ShipHead { origin, incrementing_axis: Axis::Row },
    });
    assert_eq!(found_ship, false);

    // Does not match when size > ship size.
    // We ask for a ship of size 5, but the ship has size 4.
    let origin = board.layout.coord(2, 0);
    let found_ship = board.ship_is_found(Ship {
        size: 5,
        head: ShipHead { origin, incrementing_axis: Axis::Row },
    });
    assert_eq!(found_ship, false);
}

#[test]
fn it_counts_ships() {
    let board = Board::new(&vec![
        "  00000", "0|  ^ ^", "0| ~| |", "0|• | |", "0|  v v", "0|     ",
    ])
    .unwrap();

    let count = board.count_found_ships(ExpectedShip { size: 1 });
    assert_eq!(count, 1);

    let count = board.count_found_ships(ExpectedShip { size: 3 });
    assert_eq!(count, 0);

    let count = board.count_found_ships(ExpectedShip { size: 4 });
    assert_eq!(count, 2);

    let count = board.count_found_ships(ExpectedShip { size: 5 });
    assert_eq!(count, 0);
}
