use battleships::chars::chars_of;
use battleships::parse::{
    header, parse_board, row, ship_to_find, ships_remaining, ships_to_find, square, squares,
};
use battleships::ship::ExpectedShip;
use battleships::square::{ShipSquare, Square};

#[test]
fn it_parses_individual_ship() {
    let text = chars_of("4sq x 2");

    let (end, ship) = ship_to_find(&text, 0).unwrap();
    assert_eq!(end, text.len());

    assert_eq!(ship.size, 4);
    assert_eq!(ship.count, 2);
}

#[test]
fn it_parses_1_ship() {
    let text = chars_of("ships: 5sq x 1.\n");

    let (end, ships) = ships_to_find(&text, 0).unwrap();
    assert_eq!(end, text.len());

    assert_eq!(ships.len(), 1);

    assert_eq!(ships[0].size, 5);
    assert_eq!(ships[0].count, 1);
}

#[test]
fn it_parses_2_ships() {
    let text = chars_of("ships: 5sq x 1, 4sq x 2.\n");

    let (end, ships) = ships_to_find(&text, 0).unwrap();
    assert_eq!(end, text.len());

    assert_eq!(ships.len(), 2);

    assert_eq!(ships[0].size, 5);
    assert_eq!(ships[0].count, 1);

    assert_eq!(ships[1].size, 4);
    assert_eq!(ships[1].count, 2);
}

#[test]
fn it_parses_5_ships() {
    let text = chars_of("ships: 5sq x 1, 4sq x 1, 3sq x 2, 2sq x 3, 1sq x 4.\n");

    let (end, ships) = ships_to_find(&text, 0).unwrap();
    assert_eq!(end, text.len());

    assert_eq!(ships.len(), 5);

    assert_eq!(ships[0].size, 5);
    assert_eq!(ships[0].count, 1);

    assert_eq!(ships[1].size, 4);
    assert_eq!(ships[1].count, 1);

    assert_eq!(ships[2].size, 3);
    assert_eq!(ships[2].count, 2);

    assert_eq!(ships[3].size, 2);
    assert_eq!(ships[3].count, 3);

    assert_eq!(ships[4].size, 1);
    assert_eq!(ships[4].count, 4);
}

#[test]
fn it_parses_ships_on_multiple_lines() {
    let text = chars_of("ships: 5sq x 1,\n\t4sq x 2.\n");

    let (end, ships) = ships_to_find(&text, 0).unwrap();
    assert_eq!(end, text.len());

    assert_eq!(ships.len(), 2);

    assert_eq!(ships[0].size, 5);
    assert_eq!(ships[0].count, 1);

    assert_eq!(ships[1].size, 4);
    assert_eq!(ships[1].count, 2);
}

#[test]
fn it_parses_header() {
    let text = chars_of("  12345\n");

    let (end, counts) = header(&text, 0).unwrap();
    assert_eq!(end, text.len());

    assert_eq!(counts[0], 1);
    assert_eq!(counts[1], 2);
    assert_eq!(counts[2], 3);
    assert_eq!(counts[3], 4);
    assert_eq!(counts[4], 5);
    assert_eq!(5, counts.len());
}

#[test]
fn it_parses_ships_remaining() {
    let text = chars_of("5");
    let result = ships_remaining(&text, 0);

    assert_eq!(result, Ok((1, 5)));
}

#[test]
fn it_parses_one_square() {
    let text = chars_of("~");
    let result = square(&text, 0);

    assert_eq!(result, Ok((1, Square::Water)));
}

#[test]
fn it_parses_squares() {
    // need a token that squares() doesn't recognize, so it knows when to stop
    let text = chars_of("~~ \n");
    let (end, sqs) = squares(&text, 0).unwrap();
    assert_eq!(end, 3);
    assert_eq!(Square::Water, sqs[0]);
    assert_eq!(Square::Water, sqs[1]);
    assert_eq!(Square::Unknown, sqs[2]);
    assert_eq!(3, sqs.len());
}

#[test]
fn it_parses_row() {
    let text = chars_of("1|~ ~\n");
    let (end, rw) = row(&text, 0).unwrap();
    assert_eq!(end, text.len());

    assert_eq!(rw.ships_remaining, 1);

    assert_eq!(rw.squares.len(), 3);
    assert_eq!(rw.squares[0], Square::Water);
    assert_eq!(rw.squares[1], Square::Unknown);
    assert_eq!(rw.squares[2], Square::Water);
}

#[test]
fn it_parses_board_no_ships_to_find() {
    let text = ["  123", "1|~  ", "2|  *", "."].join("\n");

    let board = parse_board(&text).unwrap();

    assert_eq!(board.layout.num_cols, 3);
    assert_eq!(board.layout.num_rows, 2);

    let coord = board.layout.coord(2, 1);
    assert_eq!(board.square_at(coord), Square::ShipSquare(ShipSquare::Any));
}

#[test]
fn it_parses_board_with_ships_to_find() {
    let text = ["ships: 2sq x 1, 1sq x 3.", "  123", "1|~  ", "2|  *", "."].join("\n");

    let board = parse_board(&text).unwrap();

    assert_eq!(board.layout.num_cols, 3);
    assert_eq!(board.layout.num_rows, 2);

    let coord = board.layout.coord(2, 1);
    assert_eq!(board.square_at(coord), Square::ShipSquare(ShipSquare::Any));

    assert_eq!(board.num_remaining_ships_to_find(ExpectedShip { size: 3 }), 0);
    assert_eq!(board.num_remaining_ships_to_find(ExpectedShip { size: 2 }), 1);
    assert_eq!(board.num_remaining_ships_to_find(ExpectedShip { size: 1 }), 3);
}
