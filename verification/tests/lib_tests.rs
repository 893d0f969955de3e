use battleships::board::Board;
use battleships::error::Error;
use battleships::layout::RowOrCol;
use battleships::solve::fill_unknown::{fill_with_ships, fill_with_water};
use battleships::solve::place_at_ends::place_ships_next_to_ends;
use battleships::solve::surround_with_water::surround_ships_with_water;
use battleships::square::{ShipSquare, Square};

fn make_test_board() -> Result<Board, Error> {
    let text = vec!["  1101", "1|~~* ", "2|  *~"];

    Board::new(&text)
}

#[test]
fn lib_it_fills_with_water() {
    let mut board = Board::new(&vec!["  0011", "0|~*  ", "2|~*  "]).unwrap();

    fill_with_water(&mut board).unwrap();

    let result = board.to_strings();
    let expected = vec!["  0011".to_string(), "0|~*~~".to_string(), "2|~*  ".to_string()];

    assert_eq!(result, expected);
}

#[test]
fn lib_it_fills_with_ships() {
    let mut board = Board::new(&vec!["  0011", "0|~*~~", "2|~*  "]).unwrap();

    fill_with_ships(&mut board).unwrap();

    let expected = vec!["  0000".to_string(), "0|~*~~".to_string(), "0|~***".to_string()];
    assert_eq!(board.to_strings(), expected);
}

#[test]
fn lib_it_surrounds_dots() {
    let mut board = Board::new(&vec!["  00000", "0|     ", "0|  \u{2022}  ", "0|     "]).unwrap();

    surround_ships_with_water(&mut board).unwrap();
    let expected = vec!["  00000", "0| ~~~ ", "0| ~\u{2022}~ ", "0| ~~~ "]
        .iter()
        .map(|x| x.to_string())
        .collect::<Vec<_>>();
    assert_eq!(board.to_strings(), expected);
}

#[test]
fn lib_it_fills_diagonals() {
    let mut board =
        Board::new(&vec!["  00000", "0|     ", "0|     ", "0|  *  ", "0|     ", "0|     "])
            .unwrap();

    surround_ships_with_water(&mut board).unwrap();
    let expected = vec!["  00000", "0|     ", "0| ~ ~ ", "0|  *  ", "0| ~ ~ ", "0|     "]
        .iter()
        .map(|x| x.to_string())
        .collect::<Vec<_>>();
    assert_eq!(board.to_strings(), expected);
}

#[test]
fn lib_it_places_ships_next_to_ends() {
    let mut board = Board::new(&vec!["  00100", "0|  ^  ", "1|     "]).unwrap();

    place_ships_next_to_ends(&mut board).unwrap();
    let expected = vec!["  00000", "0|  ^  ", "0|  *  "]
        .iter()
        .map(|x| x.to_string())
        .collect::<Vec<_>>();
    assert_eq!(board.to_strings(), expected);
}

#[test]
fn lib_it_returns_num_rows() {
    let board = make_test_board().unwrap();
    assert_eq!(board.layout.num_rows, 2);
}

#[test]
fn lib_it_returns_num_cols() {
    let board = make_test_board().unwrap();
    assert_eq!(board.layout.num_cols, 4);
}

#[test]
fn lib_it_accesses_with_index() {
    let mut board = make_test_board().unwrap();
    let coord1 = board.layout.coord(0, 1);

    assert_eq!(board.square_at(coord1), Square::Unknown);
    board.set(coord1, Square::Water).unwrap();
    assert_eq!(board.square_at(coord1), Square::Water);

    let coord2 = board.layout.coord(3, 1);

    assert_eq!(board.square_at(coord2), Square::Water);
}

#[test]
fn lib_it_accesses_col() {
    let board = make_test_board().unwrap();
    let coords = RowOrCol { axis: battleships::layout::Axis::Col, index: 1 }.coords(&board.layout);

    assert_eq!(coords[0], board.layout.coord(1, 0));
    assert_eq!(coords[1], board.layout.coord(1, 1));
    assert_eq!(coords.len(), 2);
}

#[test]
fn it_counts_ships_remaining() {
    let board = make_test_board().unwrap();

    assert_eq!(board.ship_squares_remaining(board.layout.row(0)), 1);
    assert_eq!(board.ship_squares_remaining(board.layout.row(1)), 2);
    assert_eq!(board.ship_squares_remaining(board.layout.col(0)), 1);
    assert_eq!(board.ship_squares_remaining(board.layout.col(2)), 0);
}

#[test]
fn it_adjusts_ships_remaining_after_set() {
    let mut board = make_test_board().unwrap();
    let coord = board.layout.coord(0, 1);

    assert_eq!(board.ship_squares_remaining(board.layout.row(coord.row_num)), 2);
    assert_eq!(board.ship_squares_remaining(board.layout.col(coord.col_num)), 1);

    board.set(coord, Square::ShipSquare(ShipSquare::Any)).unwrap();

    // ships remaining has decreased
    assert_eq!(board.ship_squares_remaining(board.layout.row(coord.row_num)), 2 - 1);
    assert_eq!(board.ship_squares_remaining(board.layout.col(coord.col_num)), 1 - 1);
}

#[test]
fn lib_it_returns_all_coordinates() {
    let board = make_test_board().unwrap();
    let coords = board.layout.all_coordinates();

    assert_eq!(coords.len(), 8);
    let expected_coords: Vec<_> = [
        /* x, y */
        (0, 0),
        (0, 1),
        (0, 2),
        (0usize, 3usize),
        (1, 0),
        (1, 1),
        (1, 2),
        (1, 3),
    ]
    .iter()
    .map(|(x, y)| board.layout.coord(*y, *x))
    .collect();

    for expected in expected_coords {
        assert!(coords.contains(&expected), "Should have contained {:?}", expected);
    }
}
