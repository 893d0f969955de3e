use battleships::board::Board;
use battleships::solve::specify_ships::refine_any_ship_to_specific_ship;

fn do_test(before: Vec<&str>, after: Vec<&str>) {
    let mut board = Board::new(&before).unwrap();
    let expected = after.iter().map(|x| x.to_string()).collect::<Vec<_>>();

    refine_any_ship_to_specific_ship(&mut board).unwrap();
    assert_eq!(board.to_strings(), expected);
}

#[test]
fn it_creates_dot_surrounded_by_water() {
    do_test(
        vec!["  00000", "0| ~~~ ", "0| ~*~ ", "0| ~~~ "],
        vec!["  00000", "0| ~~~ ", "0| ~\u{2022}~ ", "0| ~~~ "],
    )
}

#[test]
fn it_creates_dot_in_corner() {
    do_test(vec!["  000", "0| ~~", "0| ~*"], vec!["  000", "0| ~~", "0| ~\u{2022}"])
}

#[test]
fn it_doesnt_create_dot_without_water_north() {
    do_test(
        vec!["  000", "0| ~ ", "0| ~*"],
        // no change to dot, because north neighbor is unknown
        vec!["  000", "0| ~ ", "0| ~*"],
    )
}

#[test]
fn it_doesnt_create_dot_without_water_west() {
    do_test(
        vec!["  000", "0| ~~", "0|  *"],
        // no change to dot, because west neighbor is unknown
        vec!["  000", "0| ~~", "0|  *"],
    )
}

#[test]
fn it_creates_left_end_away_from_border() {
    do_test(
        vec!["  00000", "0|~~~~ ", "0|~*-> ", "0|~~~~ "],
        vec!["  00000", "0|~~~~ ", "0|~<-> ", "0|~~~~ "],
    )
}

#[test]
fn it_creates_left_end_at_border() {
    do_test(
        vec!["  000", "0|~~~", "0|*> ", "0|~~~"],
        vec!["  000", "0|~~~", "0|<> ", "0|~~~"],
    )
}

#[test]
fn it_creates_left_end_in_corner() {
    do_test(vec!["  000", "0|*> ", "0|~~~"], vec!["  000", "0|<> ", "0|~~~"])
}

#[test]
fn it_creates_horizontal_middle_between_ends() {
    do_test(
        vec!["  000", "0|~~~", "0|<*>", "0|~~~"],
        vec!["  000", "0|~~~", "0|<->", "0|~~~"],
    )
}

#[test]
fn it_creates_horizontal_middle_between_ends_on_border() {
    do_test(vec!["  000", "0|<*>", "0|~~~"], vec!["  000", "0|<->", "0|~~~"])
}

#[test]
fn it_doesnt_create_horizontal_middle_on_border_without_ends() {
    do_test(
        // Don't convert this ship. We can't tell if it will be an end,
        // a middle, or a dot
        vec!["  000", "0| * ", "0|~~~"],
        vec!["  000", "0| * ", "0|~~~"],
    )
}
