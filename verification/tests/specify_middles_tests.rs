use battleships::board::Board;
use battleships::solve::specify_middles::specify_middle;
use battleships::solve::surround_middles::surround_middle_with_ships;

fn do_test(before: Vec<&str>, after: Vec<&str>) {
    let mut board = Board::new(&before).unwrap();
    let expected = after.iter().map(|x| x.to_string()).collect::<Vec<_>>();

    specify_middle(&mut board).unwrap();
    assert_eq!(board.to_strings(), expected);
}

#[test]
fn specify_middles_it_specifies_vertical_middle_surrounded_by_water() {
    do_test(
        vec!["  00200", "1|     ", "0| ~\u{2610}~ ", "1|     "],
        vec!["  00200", "1|     ", "0| ~|~ ", "1|     "],
    )
}

#[test]
fn it_specifies_vertical_middle_with_water_on_one_side() {
    do_test(
        vec!["  00200", "1|     ", "0| ~\u{2610}  ", "1|     "],
        vec!["  00200", "1|     ", "0| ~|  ", "1|     "],
    )
}

#[test]
fn it_specifies_vertical_middle_at_edge_of_board() {
    do_test(
        vec!["  200", "1|   ", "0|\u{2610}~ ", "1|   "],
        vec!["  200", "1|   ", "0||~ ", "1|   "],
    )
}

#[test]
fn it_specifies_horizontal_middle_surrounded_by_water() {
    do_test(
        vec!["  01010", "0|  ~  ", "2|  \u{2610}  ", "0|  ~  "],
        vec!["  01010", "0|  ~  ", "2|  -  ", "0|  ~  "],
    )
}

#[test]
fn it_specifies_horizontal_middle_at_edge_of_board() {
    do_test(
        vec!["  01010", "0|  ~  ", "2|  \u{2610}  "],
        vec!["  01010", "0|  ~  ", "2|  -  "],
    )
}

#[test]
fn surround_middles_it_specifies_vertical_middle_surrounded_by_water() {
    let mut board = Board::new(&vec!["  00200", "1|     ", "0| ~|~ ", "1|     "]).unwrap();
    let expected = vec!["  00000", "0|  *  ", "0| ~|~ ", "0|  *  "]
        .iter()
        .map(|x| x.to_string())
        .collect::<Vec<_>>();

    surround_middle_with_ships(&mut board).unwrap();
    assert_eq!(board.to_strings(), expected);
}
