use battleships::board::Board;
use battleships::solve::fill_unknown::{fill_with_ships, fill_with_water};

#[test]
fn fill_unknown_it_fills_with_ships() {
    let mut board = Board::new(&vec![
        "  0110",
        "2|    ", // don't change, unknown != ships remaining
        "2|~  ~", // do change, unknown == ships remaining
        "0|~~~~", // don't barf
    ])
    .unwrap();

    fill_with_ships(&mut board).unwrap();

    let expected = vec![
        "  0000".to_string(),
        "2|    ".to_string(),
        "0|~**~".to_string(),
        "0|~~~~".to_string(),
    ];
    assert_eq!(board.to_strings(), expected);
}

#[test]
fn fill_unknown_it_fills_with_water() {
    let mut board = Board::new(&vec!["  0011", "0|~*  ", "2|~*  "]).unwrap();

    fill_with_water(&mut board).unwrap();

    let result = board.to_strings();
    let expected = vec!["  0011".to_string(), "0|~*~~".to_string(), "2|~*  ".to_string()];

    assert_eq!(result, expected);
}

#[test]
fn fill_decides_every_line_whose_count_matches_at_entry() {
    // Row 0 and both columns all have exactly as many unknown cells as ship
    // squares remaining when the rule starts; filling the row consumes the
    // columns' counts too, and every such line still comes out fully decided.
    let mut board = Board::new(&vec!["  11", "2|  ", "0|~~"]).unwrap();

    fill_with_ships(&mut board).unwrap();

    let expected = vec!["  00".to_string(), "0|**".to_string(), "0|~~".to_string()];
    assert_eq!(board.to_strings(), expected);
}
