use battleships::board::Board;
use battleships::solve::place_at_ends::place_ships_next_to_ends;

fn do_test(before: Vec<&str>, after: Vec<&str>) {
    let mut board = Board::new(&before).unwrap();
    let expected = after.iter().map(|x| x.to_string()).collect::<Vec<_>>();

    place_ships_next_to_ends(&mut board).unwrap();
    assert_eq!(board.to_strings(), expected);
}

#[test]
fn place_at_ends_it_places_ships_next_to_ends() {
    do_test(
        vec!["  00100", "0|  ^  ", "1|     "],
        vec!["  00000", "0|  ^  ", "0|  *  "],
    )
}

#[test]
fn it_errors_if_no_place_for_a_ship() {
    let before = vec!["  00100", "1|  v  "];

    let mut board = Board::new(&before).unwrap();
    let result = place_ships_next_to_ends(&mut board);

    assert_eq!(result.is_err(), true);
}

#[test]
fn it_doesnt_overwrite_existing_ship() {
    // If it tried to overwrite v because it's adjacent to ^, board.set would
    // refuse. Make sure that doesn't happen.
    do_test(
        vec!["  00100", "0|  ^  ", "1|  v  "],
        vec!["  00100", "0|  ^  ", "1|  v  "],
    )
}

#[test]
fn it_places_a_ship_east_of_a_left_end() {
    // A left end in column 2 of an otherwise blank row with one remaining
    // square forces a ship square immediately to its east.
    let mut board = Board::new(&vec!["  00010", "1|  <  "]).unwrap();

    place_ships_next_to_ends(&mut board).unwrap();

    let expected = vec!["  00000".to_string(), "0|  <* ".to_string()];
    assert_eq!(board.to_strings(), expected);
}

#[test]
fn it_errors_when_a_left_end_sits_in_the_last_column() {
    // No room east of the left end: the puzzle is contradictory.
    let mut board = Board::new(&vec!["  00001", "1|    <"]).unwrap();

    let result = place_ships_next_to_ends(&mut board);
    assert_eq!(result.is_err(), true);
}
