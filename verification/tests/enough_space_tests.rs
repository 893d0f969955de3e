use battleships::board::Board;
use battleships::solve::enough_space_for_middle::enough_space_for_middle;

fn do_test(before: Vec<&str>, after: Vec<&str>) {
    let mut board = Board::new(&before).unwrap();
    let expected = after.iter().map(|x| x.to_string()).collect::<Vec<_>>();

    enough_space_for_middle(&mut board).unwrap();
    assert_eq!(board.to_strings(), expected);
}

#[test]
fn it_specifies_vertical_middle() {
    do_test(
        // Only vertical axis has enough room
        vec!["  00200", "0|     ", "1|  \u{2610}  ", "0|     "],
        vec!["  00200", "0|     ", "1|  |  ", "0|     "],
    )
}

#[test]
fn it_specifies_horizontal_middle() {
    do_test(
        // Only horizontal axis has enough room
        vec!["  00100", "0|     ", "2|  \u{2610}  ", "0|     "],
        vec!["  00100", "0|     ", "2|  -  ", "0|     "],
    )
}

#[test]
fn it_doesnt_specify_next_to_ship() {
    do_test(
        vec!["  00100", "0|     ", "2| *\u{2610}  ", "0|     "],
        vec!["  00100", "0|     ", "2| *\u{2610}  ", "0|     "],
    )
}

#[test]
fn it_doesnt_specify_next_to_wall() {
    do_test(
        vec!["  00100", "2|  \u{2610}  ", "0|     "],
        vec!["  00100", "2|  \u{2610}  ", "0|     "],
    )
}
