use battleships::board::Board;
use battleships::layout::{Axis, Coord};
use battleships::ship::Ship;
use battleships::solve::only_place_it_can_go::{
    can_fit_ship_at_coord, common_coordinates, enough_free_ships_on_constant_axis,
    enough_free_ships_on_incrementing_axis, find_only_place_for_ships, partition,
    place_ship_at_coord, would_ship_at_coord_be_clear_of_other_ships,
};

/// Stand-in coordinates for plain numbers, so the grouping tests can speak
/// of small integer sets.
fn coords_of(nums: Vec<usize>) -> Vec<Coord> {
    nums.into_iter().map(|n| Coord { row_num: 0, col_num: n }).collect()
}

#[test]
fn it_intersects_two_overlapping_sets() {
    let sets = vec![coords_of(vec![1, 2, 3]), coords_of(vec![2, 3, 4])];

    let expected = vec![coords_of(vec![2, 3])];

    let actual = partition(sets);
    assert_eq!(actual, expected);
}

#[test]
fn it_does_not_intersect_non_overlapping_sets() {
    let sets = vec![coords_of(vec![1, 2, 3]), coords_of(vec![7, 8, 9])];

    let expected = vec![coords_of(vec![1, 2, 3]), coords_of(vec![7, 8, 9])];

    let actual = partition(sets);
    assert_eq!(actual, expected);
}

#[test]
fn it_supports_multiple_regions_of_overlap() {
    let sets = vec![
        coords_of(vec![1, 2, 3]),
        coords_of(vec![2, 3, 4]),
        coords_of(vec![7, 8, 9]),
        coords_of(vec![6, 7, 8]),
    ];

    let expected = vec![coords_of(vec![2, 3]), coords_of(vec![7, 8])];

    let actual = partition(sets);
    assert_eq!(actual, expected);
}

#[test]
fn it_merges_groups_that_overlap_through_a_chain() {
    // The first and third sets share nothing, but both overlap the second,
    // so all three belong to one group; their common cells are none.
    let sets = vec![
        coords_of(vec![1, 2]),
        coords_of(vec![2, 3]),
        coords_of(vec![3, 4]),
    ];

    let expected = vec![coords_of(vec![])];

    let actual = partition(sets);
    assert_eq!(actual, expected);
}

#[test]
fn it_returns_intersection() {
    let sets = vec![coords_of(vec![1, 2, 3]), coords_of(vec![2, 3, 4])];

    let expected = coords_of(vec![2, 3]);

    let actual = common_coordinates(&sets);
    assert_eq!(actual, Some(expected));
}

#[test]
fn it_returns_empty_list() {
    let sets = vec![coords_of(vec![1, 2, 3]), coords_of(vec![7, 8, 9])];

    // Intersection should be an empty set
    let expected = coords_of(vec![]);

    let actual = common_coordinates(&sets);
    assert_eq!(actual, Some(expected));
}

#[test]
fn test_enough_free_ships_on_constant_axis() {
    let board = Board::new(&vec![
        "  0000", // deliberate: Don't have enough ships on incrementing axis
        "3|    ",
        "0|    ",
        "2| *  ",
    ])
    .unwrap();

    // Enough space - No existing ships
    let origin = board.layout.coord(0, 0);
    let ship = Ship::new(origin, Axis::Col, 3);
    let result = enough_free_ships_on_constant_axis(&board, ship, 0);
    assert_eq!(result, true);

    // Enough space - Includes an existing ship
    let origin = board.layout.coord(0, 2);
    let ship = Ship::new(origin, Axis::Col, 3);
    let result = enough_free_ships_on_constant_axis(&board, ship, 1);
    assert_eq!(result, true);

    // Not enough space
    let origin = board.layout.coord(0, 0);
    let ship = Ship::new(origin, Axis::Col, 4);
    let result = enough_free_ships_on_constant_axis(&board, ship, 0);
    assert_eq!(result, false);
}

#[test]
fn test_enough_free_ships_on_incrementing_axis() {
    let board = Board::new(&vec![
        "  1110", "0|    ", // deliberate: Don't have enough ships on constant axis
    ])
    .unwrap();

    // Enough space - No existing ships
    let origin = board.layout.coord(0, 0);
    let ship = Ship::new(origin, Axis::Col, 3);
    let result = enough_free_ships_on_incrementing_axis(&board, ship);
    assert_eq!(result, true);

    // Not enough space
    let origin = board.layout.coord(0, 0);
    let ship = Ship::new(origin, Axis::Col, 4);
    let result = enough_free_ships_on_incrementing_axis(&board, ship);
    assert_eq!(result, false);

    let board = Board::new(&vec![
        "  1010", "0| *  ", // deliberate: Don't have enough ships on constant axis
    ])
    .unwrap();

    // Enough space - Includes an existing ship
    let origin = board.layout.coord(0, 0);
    let ship = Ship::new(origin, Axis::Col, 3);
    let result = enough_free_ships_on_incrementing_axis(&board, ship);
    assert_eq!(result, true);
}

#[test]
fn test_would_ship_at_coord_be_clear_of_other_ships() {
    let board = Board::new(&vec!["  0000", "0|    ", "0|~ ~ ", "0|< ~*", "0|~~~v"]).unwrap();

    // Ship here would not touch another ship
    let coord = board.layout.coord(0, 0);
    let ship = Ship::new(coord, Axis::Col, 3);
    let result = would_ship_at_coord_be_clear_of_other_ships(&board, ship);
    assert_eq!(result, true);

    // Ship here would diagonally touch the '<' at (0, 2)
    let coord = board.layout.coord(1, 0);
    let ship = Ship::new(coord, Axis::Row, 2);
    let result = would_ship_at_coord_be_clear_of_other_ships(&board, ship);
    assert_eq!(result, false);

    // Ship here would touch the '*' at (3, 2)
    let coord = board.layout.coord(3, 0);
    let ship = Ship::new(coord, Axis::Row, 2);
    let result = would_ship_at_coord_be_clear_of_other_ships(&board, ship);
    assert_eq!(result, false);
}

#[test]
fn test_can_fit_ship_at_coord() {
    let board = Board::new(&vec!["  0000", "0|    ", "0|~ ~ ", "0|< ~*", "0|~~~v"]).unwrap();

    // Can place it: All squares empty (non-dot ship)
    let origin = board.layout.coord(0, 0);
    let ship = Ship::new(origin, Axis::Col, 3);
    let result = can_fit_ship_at_coord(&board, ship);
    assert_eq!(result, Some(0));

    // Can place it: All squares empty (dot ship)
    let origin = board.layout.coord(2, 0);
    let ship = Ship::new(origin, Axis::Col, 1);
    let result = can_fit_ship_at_coord(&board, ship);
    assert_eq!(result, Some(0));

    // Cannot place it: Water in the way
    let origin = board.layout.coord(1, 0);
    let ship = Ship::new(origin, Axis::Row, 4);
    let result = can_fit_ship_at_coord(&board, ship);
    assert_eq!(result, None);

    // Can place it: Existing ships have the correct type
    let origin = board.layout.coord(3, 1);
    let ship = Ship::new(origin, Axis::Row, 3);
    let result = can_fit_ship_at_coord(&board, ship);
    assert_eq!(result, Some(2));

    // Cannot place it: Existing ship has the wrong type
    let origin = board.layout.coord(0, 2);
    let ship = Ship::new(origin, Axis::Row, 1); // to fit, should be ::Col, 2
    let result = can_fit_ship_at_coord(&board, ship);
    assert_eq!(result, None);

    // Cannot place it: Existing ship has the wrong type
    let origin = board.layout.coord(0, 2);
    let ship = Ship::new(origin, Axis::Col, 1); // to fit, should be ::Col, 2
    let result = can_fit_ship_at_coord(&board, ship);
    assert_eq!(result, None);
}

#[test]
fn test_can_fit_ship_doesnt_count_completed_ships() {
    let board = Board::new(&vec!["  1111", "1|<-->"]).unwrap();

    // Cannot place it: The entire ship is present
    let coord = board.layout.coord(0, 0);
    let ship = Ship::new(coord, Axis::Col, 4);
    let result = can_fit_ship_at_coord(&board, ship);
    assert_eq!(result, None);
}

#[test]
fn test_place_ship_at_coord() {
    let mut board = Board::new(&vec!["  002", "1|   ", "1| ~ ", "0|\u{2022} *", "0|  v"]).unwrap();
    let layout = board.layout;

    let origin = layout.coord(2, 0);
    let ship = Ship::new(origin, Axis::Row, 4);
    place_ship_at_coord(&mut board, ship).unwrap();

    assert_eq!(true, board.dirty());

    let expected = vec!["  000", "0|  ^", "0| ~|", "0|\u{2022} |", "0|  v"]
        .iter()
        .map(|x| x.to_string())
        .collect::<Vec<_>>();

    assert_eq!(board.to_strings(), expected);
}

fn do_test(before: Vec<&str>, after: Vec<&str>) {
    let mut board = Board::new(&before).unwrap();
    let expected = after.iter().map(|x| x.to_string()).collect::<Vec<_>>();

    find_only_place_for_ships(&mut board).unwrap();

    let board_strings = board.to_strings();

    assert_eq!(board_strings, expected);
}

#[test]
fn it_fills_in_4sq() {
    do_test(
        vec!["ships: 4sq x 1.", "  01111", "4|~    "],
        vec!["ships: 4sq x 0.", "  00000", "0|~<-->"],
    );
}

#[test]
fn doesnt_fill_in_adjacent_to_ship() {
    // Don't fill in the 4sq ship when it would abut an existing ship.
    do_test(
        vec!["ships: 4sq x 1.", "  001110", "4|~*   *"],
        vec!["ships: 4sq x 1.", "  001110", "4|~*   *"],
    );
}

#[test]
fn it_fills_in_4sq_x2() {
    do_test(
        vec!["ships: 4sq x 2.", "  02222", "4|~    ", "0|~~~~~", "4|~    "],
        vec!["ships: 4sq x 0.", "  00000", "0|~<-->", "0|~~~~~", "0|~<-->"],
    );
}

#[test]
fn it_doesnt_fill_if_not_enough_space() {
    do_test(
        vec![
            "ships: 4sq x 1.",
            "  01111",
            "3|~    ", // Only 3 ships to place here. Not enough room for the 4sq ship.
        ],
        vec!["ships: 4sq x 1.", "  01111", "3|~    "],
    );
}

#[test]
fn it_fills_only_where_there_is_space_on_incrementing_axis() {
    do_test(
        vec!["ships: 2sq x 1.", "  00110", "2|~    "],
        vec![
            "ships: 2sq x 0.",
            "  00000",
            "0|~ <> ", // These middle squares were the only ones with space on incrementing axis
        ],
    );
}

#[test]
fn it_fills_only_where_there_is_space_on_constant_axis() {
    do_test(
        vec!["ships: 3sq x 1.", "  030", "2|   ", "2|   ", "2|   "],
        vec!["ships: 3sq x 0.", "  000", "1| ^ ", "1| | ", "1| v "],
    );
}

#[test]
fn it_fills_in_dot() {
    do_test(
        vec!["ships: 1sq x 1.", "  00010", "1|~~~ ~"],
        vec!["ships: 1sq x 0.", "  00000", "0|~~~\u{2022}~"],
    );
}

#[test]
fn it_fills_in_2_dots() {
    do_test(
        vec!["ships: 1sq x 2.", "  01010", "1|~~~ ~", "1|~ ~~~"],
        vec!["ships: 1sq x 0.", "  00000", "0|~~~\u{2022}~", "0|~\u{2022}~~~"],
    );
}

#[test]
fn it_completes_partial_ship() {
    do_test(
        vec![
            "ships: 5sq x 1.",
            "  020",
            "1|~ ~",
            "0|~*~",
            "1|~ ~",
            "0|~*~",
            "0|~*~",
            "0|~ ~",
        ],
        vec![
            "ships: 5sq x 0.",
            "  000",
            "0|~^~",
            "0|~|~",
            "0|~|~",
            "0|~|~",
            "0|~v~",
            "0|~ ~",
        ],
    );
}

#[test]
fn it_completes_generic_middle_horizontally() {
    do_test(
        vec!["ships: 3sq x 1.", "  01010", "2|  \u{2610}  "],
        vec!["ships: 3sq x 0.", "  00000", "0| <-> "],
    );
}

#[test]
fn it_completes_generic_middle_vertically() {
    do_test(
        vec!["ships: 3sq x 1.", "  020", "0|   ", "1|   ", "0| \u{2610} ", "1|   ", "0|   "],
        vec!["ships: 3sq x 0.", "  000", "0|   ", "0| ^ ", "0| | ", "0| v ", "0|   "],
    );
}

#[test]
fn it_places_partial_ship_when_one_possibility() {
    do_test(
        vec!["ships: 5sq x 1.", "  1111111", "7|       "],
        vec!["ships: 5sq x 1.", "  1100011", "4|  ***  "],
    );
}

#[test]
fn it_doesnt_place_partial_ship_when_two_possibilities() {
    do_test(
        vec!["ships: 5sq x 1.", "  1111111", "7|       ", "7|       "],
        vec!["ships: 5sq x 1.", "  1111111", "7|       ", "7|       "],
    );
}

#[test]
fn it_places_two_partial_ships_when_two_possibilities() {
    do_test(
        vec!["ships: 5sq x 2.", "  2222222", "7|       ", "7|       "],
        vec!["ships: 5sq x 2.", "  2200022", "4|  ***  ", "4|  ***  "],
    );
}
