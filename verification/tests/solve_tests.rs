use battleships::board::Board;
use battleships::error::Error;
use battleships::parse::parse_board;
use battleships::solve::enough_space_for_middle::enough_space_for_middle;
use battleships::solve::fill_unknown::{fill_with_ships, fill_with_water};
use battleships::solve::only_place_it_can_go::find_only_place_for_ships;
use battleships::solve::place_at_ends::place_ships_next_to_ends;
use battleships::solve::solve;
use battleships::solve::specify_middles::specify_middle;
use battleships::solve::specify_ships::refine_any_ship_to_specific_ship;
use battleships::solve::surround_middles::surround_middle_with_ships;
use battleships::solve::surround_with_water::surround_ships_with_water;
use battleships::square::Square;

/// Run one full pass of the pipeline and report whether anything changed.
fn one_pass(board: &mut Board) -> bool {
    let mut changed = false;
    board.clear_dirty();
    fill_with_water(board).unwrap();
    changed = changed || board.dirty();
    board.clear_dirty();
    fill_with_ships(board).unwrap();
    changed = changed || board.dirty();
    board.clear_dirty();
    surround_ships_with_water(board).unwrap();
    changed = changed || board.dirty();
    board.clear_dirty();
    place_ships_next_to_ends(board).unwrap();
    changed = changed || board.dirty();
    board.clear_dirty();
    refine_any_ship_to_specific_ship(board).unwrap();
    changed = changed || board.dirty();
    board.clear_dirty();
    find_only_place_for_ships(board).unwrap();
    changed = changed || board.dirty();
    board.clear_dirty();
    specify_middle(board).unwrap();
    changed = changed || board.dirty();
    board.clear_dirty();
    surround_middle_with_ships(board).unwrap();
    changed = changed || board.dirty();
    board.clear_dirty();
    enough_space_for_middle(board).unwrap();
    changed = changed || board.dirty();
    changed
}

#[test]
fn it_solves_a_small_puzzle() {
    let mut board = Board::new(&vec!["ships: 4sq x 1.", "  01111", "4|~    "]).unwrap();

    let solved = solve(&mut board).unwrap();

    assert!(solved);
    let expected = vec!["ships: 4sq x 0.", "  00000", "0|~<-->"]
        .iter()
        .map(|x| x.to_string())
        .collect::<Vec<_>>();
    assert_eq!(board.to_strings(), expected);
}

#[test]
fn it_leaves_an_underdetermined_puzzle_unsolved() {
    // Nothing is forced here: two ship squares could sit in either diagonal.
    let mut board = Board::new(&vec!["  11", "1|  ", "1|  "]).unwrap();

    let solved = solve(&mut board).unwrap();

    assert!(!solved);
    let expected = vec!["  11", "1|  ", "1|  "]
        .iter()
        .map(|x| x.to_string())
        .collect::<Vec<_>>();
    assert_eq!(board.to_strings(), expected);
}

#[test]
fn a_converged_board_stays_fixed_under_another_pass() {
    let mut board = Board::new(&vec!["ships: 4sq x 1.", "  01111", "4|~    "]).unwrap();
    solve(&mut board).unwrap();

    let before = board.to_strings();
    let changed = one_pass(&mut board);

    assert!(!changed);
    assert_eq!(board.to_strings(), before);
}

#[test]
fn it_round_trips_a_board_without_a_manifest() {
    let lines = vec!["  1101", "1|~~* ", "2|  *~"];
    let board = Board::new(&lines).unwrap();

    let rendered = board.to_strings();
    let expected = lines.iter().map(|x| x.to_string()).collect::<Vec<_>>();
    assert_eq!(rendered, expected);
}

#[test]
fn it_round_trips_a_board_with_a_manifest() {
    let lines = vec!["ships: 5sq x 1, 4sq x 2, 1sq x 4.", "  01111", "4|~    "];
    let board = Board::new(&lines).unwrap();

    let rendered = board.to_strings();
    let expected = lines.iter().map(|x| x.to_string()).collect::<Vec<_>>();
    assert_eq!(rendered, expected);
}

#[test]
fn it_renders_a_manifest_in_canonical_order() {
    // The manifest round trip is modulo canonical ordering: sizes descending.
    let board = Board::new(&vec!["ships: 1sq x 3, 2sq x 1.", "  123", "1|~  ", "2|  *"]).unwrap();

    let rendered = board.to_strings();
    assert_eq!(rendered[0], "ships: 2sq x 1, 1sq x 3.".to_string());
}

#[test]
fn a_resolved_vertical_middle_needs_no_counting_rule() {
    // A resolved middle with two remaining on its row and none on its column
    // is left alone by both middle rules.
    let lines = vec!["  11011", "0|     ", "2|  |  ", "0|     "];
    let mut board = Board::new(&lines).unwrap();

    specify_middle(&mut board).unwrap();
    enough_space_for_middle(&mut board).unwrap();

    let expected = lines.iter().map(|x| x.to_string()).collect::<Vec<_>>();
    assert_eq!(board.to_strings(), expected);
}

#[test]
fn an_unresolved_middle_resolves_by_the_counters() {
    // No room on the column, two squares remaining on the row: the middle
    // must be horizontal.
    let mut board = Board::new(&vec!["  11011", "0|     ", "2|  \u{2610}  ", "0|     "]).unwrap();

    enough_space_for_middle(&mut board).unwrap();

    let expected = vec!["  11011", "0|     ", "2|  -  ", "0|     "]
        .iter()
        .map(|x| x.to_string())
        .collect::<Vec<_>>();
    assert_eq!(board.to_strings(), expected);
}

#[test]
fn it_survives_a_full_sized_puzzle() {
    // A real puzzle with a manifest, pre-placed caps and dots: the pipeline
    // must converge without an error, and the answer it reports must agree
    // with the board it leaves behind.
    let mut board = Board::new(&vec![
        "ships: 4sq x 1, 3sq x 2, ",
        "       2sq x 3, 1sq x 3.",
        "  40405020",
        "1|      ^ ",
        "4|        ",
        "2|        ",
        "3|        ",
        "1|  v     ",
        "1|    v   ",
        "0|      ^ ",
        "3|        ",
    ])
    .unwrap();

    let solved = solve(&mut board).unwrap();

    let rendered = board.to_strings();
    let any_unknown = rendered.iter().skip(2).any(|line| line[2..].contains(' '));
    assert_eq!(solved, !any_unknown);

    // Another pass after convergence changes nothing.
    let before = rendered.clone();
    let changed = one_pass(&mut board);
    assert!(!changed);
    assert_eq!(board.to_strings(), before);
}

#[test]
fn set_refuses_to_widen_a_cell() {
    let mut board = Board::new(&vec!["  11", "2|* ", "0|~~"]).unwrap();
    let coord = board.layout.coord(0, 0);

    let result = board.set(coord, Square::Water);
    assert!(matches!(result, Err(Error::BadTransition { .. })));
}

#[test]
fn set_refuses_a_ship_where_none_remain() {
    let mut board = Board::new(&vec!["  10", "0|  "]).unwrap();
    let coord = board.layout.coord(0, 0);

    let result = board.set(coord, Square::ShipSquare(battleships::square::ShipSquare::Any));
    assert_eq!(
        result,
        Err(Error::CounterExhausted {
            at: coord,
            current: Square::Unknown,
            attempted: Square::ShipSquare(battleships::square::ShipSquare::Any),
        })
    );
}

#[test]
fn a_middle_on_the_edge_has_no_room_for_its_ship() {
    let mut board = Board::new(&vec!["  100", "1||  "]).unwrap();

    let result = surround_middle_with_ships(&mut board);
    assert!(matches!(result, Err(Error::NoRoomForNeighbor { .. })));
}

#[test]
fn a_middle_blocked_on_both_axes_is_a_contradiction() {
    let mut board = Board::new(&vec!["  010", "0| ~ ", "1|~\u{2610}~"]).unwrap();

    let result = specify_middle(&mut board);
    assert!(matches!(result, Err(Error::NoSpaceForMiddle { .. })));
}

#[test]
fn a_cap_on_the_edge_names_itself_in_the_error() {
    let mut board = Board::new(&vec!["  00100", "1|  v  "]).unwrap();

    let result = place_ships_next_to_ends(&mut board);

    let at = board.layout.coord(2, 0);
    assert_eq!(
        result,
        Err(Error::NoRoomForNeighbor {
            at,
            current: Square::ShipSquare(battleships::square::ShipSquare::BottomEnd),
            direction: battleships::neighbor::Neighbor::N,
        })
    );
}

#[test]
fn forced_water_on_a_ship_square_is_a_contradiction() {
    // The left end at the bottom forces water on the cell above it, which
    // already holds a ship square.
    let mut board = Board::new(&vec!["  00", "0| *", "0| <"]).unwrap();

    let result = surround_ships_with_water(&mut board);
    assert!(matches!(result, Err(Error::BadTransition { .. })));
}

#[test]
fn it_rejects_rows_of_uneven_width() {
    let result = Board::new(&vec!["  123", "1|~ ", "2|  *"]);
    assert!(matches!(result, Err(Error::InconsistentColumns)));
}

#[test]
fn it_rejects_text_after_the_board() {
    let result = parse_board("  1\n1| \n.x");
    assert!(matches!(result, Err(Error::LeftoverInput)));
}

#[test]
fn it_rejects_text_that_is_no_board() {
    let result = parse_board("nonsense");
    assert!(matches!(result, Err(Error::MalformedBoard)));
}

#[test]
fn it_rejects_a_manifest_with_a_zero_size() {
    let result = Board::new(&vec!["ships: 0sq x 2.", "  11", "1|  ", "1|  "]);
    assert!(result.is_err());
}

#[test]
fn it_solves_a_puzzle_with_several_rules_in_play() {
    // Water fills the empty column, the vertical ship is forced, and its
    // middle and caps resolve.
    let mut board = Board::new(&vec!["ships: 3sq x 1.", "  030", "2|   ", "2|   ", "2|   "])
        .unwrap();

    let solved = solve(&mut board).unwrap();

    assert!(solved);
    let expected = vec!["ships: 3sq x 0.", "  000", "1|~^~", "1|~|~", "1|~v~"]
        .iter()
        .map(|x| x.to_string())
        .collect::<Vec<_>>();
    assert_eq!(board.to_strings(), expected);
}
