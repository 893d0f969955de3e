use battleships::board::Board;
use battleships::solve::surround_with_water::surround_ships_with_water;

fn do_test(before: Vec<&str>, after: Vec<&str>) {
    let mut board = Board::new(&before).unwrap();
    let expected = after.iter().map(|x| x.to_string()).collect::<Vec<_>>();

    surround_ships_with_water(&mut board).unwrap();
    assert_eq!(board.to_strings(), expected);
}

#[test]
fn surround_with_water_it_fills_diagonals() {
    do_test(
        vec!["  00000", "0|     ", "0|     ", "0|  *  ", "0|     ", "0|     "],
        vec!["  00000", "0|     ", "0| ~ ~ ", "0|  *  ", "0| ~ ~ ", "0|     "],
    )
}

#[test]
fn surround_with_water_it_surrounds_dots() {
    do_test(
        vec!["  00000", "0|     ", "0|  \u{2022}  ", "0|     "],
        vec!["  00000", "0| ~~~ ", "0| ~\u{2022}~ ", "0| ~~~ "],
    )
}

#[test]
fn surround_with_water_it_surrounds_middles() {
    do_test(
        vec!["  00000", "0|     ", "0|  -  ", "0|     "],
        vec!["  00000", "0| ~~~ ", "0|  -  ", "0| ~~~ "],
    )
}

#[test]
fn surround_with_water_it_surrounds_ends() {
    do_test(
        vec!["  00000", "0|     ", "0|  ^  ", "0|     "],
        vec!["  00000", "0| ~~~ ", "0| ~^~ ", "0| ~ ~ "],
    )
}

#[test]
fn surround_it_fills_diagonals() {
    do_test(
        vec!["  00000", "0|     ", "0|     ", "0|  *  ", "0|     ", "0|     "],
        vec!["  00000", "0|     ", "0| ~ ~ ", "0|  *  ", "0| ~ ~ ", "0|     "],
    )
}

#[test]
fn surround_it_surrounds_dots() {
    do_test(
        vec!["  00000", "0|     ", "0|  \u{2022}  ", "0|     "],
        vec!["  00000", "0| ~~~ ", "0| ~\u{2022}~ ", "0| ~~~ "],
    )
}

#[test]
fn surround_it_surrounds_middles() {
    do_test(
        vec!["  00000", "0|     ", "0|  -  ", "0|     "],
        vec!["  00000", "0| ~~~ ", "0|  -  ", "0| ~~~ "],
    )
}

#[test]
fn surround_it_surrounds_ends() {
    do_test(
        vec!["  00000", "0|     ", "0|  ^  ", "0|     "],
        vec!["  00000", "0| ~~~ ", "0| ~^~ ", "0| ~ ~ "],
    )
}
