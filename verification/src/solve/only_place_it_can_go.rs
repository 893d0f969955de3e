//! The only-place-it-can-go rule: enumerate every feasible placement of each
//! ship size still to be found. When the feasible placements are exactly as
//! many as the ships, commit them whole; otherwise group the overlapping
//! placements transitively and, when the groups are exactly as many as the
//! ships, commit each group's common cells as generic ship squares.

use vstd::prelude::*;

use crate::board::{evolves, lemma_evolves_trans, Board, BoardView};
use crate::error::Error;
use crate::layout::{spec_neighbor, Axis, Coord, RowOrCol};
use crate::neighbor::Neighbor;
use crate::ship::{spec_expected_square, spec_nth_coord, spec_ship_coords, ExpectedShip, Ship};
use crate::square::{is_water_neighbor, ShipSquare, Square};

verus! {

broadcast use vstd::seq_lib::lemma_seq_contains_after_push;

/// Cell `(r, c)` either kept its value or now holds a ship square: the shape
/// of every change this rule makes.
pub open spec fn only_ships_added(pre: BoardView, post: BoardView, r: int, c: int) -> bool {
    post.squares[r][c] == pre.squares[r][c] || post.squares[r][c].spec_is_ship()
}

/// The cell at square `i` of the candidate is compatible with the shape
/// expected there: unknown, generic, exactly the expected shape, or an
/// unresolved middle where a middle is expected.
pub open spec fn spec_compat_at(v: BoardView, ship: Ship, i: int) -> bool {
    let cell = v.cell(spec_nth_coord(ship, i));
    let expected = spec_expected_square(ship, i);
    ||| cell == Square::Unknown
    ||| cell == Square::ShipSquare(ShipSquare::Any)
    ||| cell == Square::ShipSquare(expected)
    ||| (cell == Square::ShipSquare(ShipSquare::AnyMiddle) && (expected
        == ShipSquare::VerticalMiddle || expected == ShipSquare::HorizontalMiddle))
}

/// The cell at square `i` of the candidate already holds exactly the
/// expected shape.
pub open spec fn spec_exact_at(v: BoardView, ship: Ship, i: int) -> bool {
    v.cell(spec_nth_coord(ship, i)) == Square::ShipSquare(spec_expected_square(ship, i))
}

/// How many of the candidate's cells already hold ship squares.
pub open spec fn ship_cells_count(v: BoardView, ship: Ship) -> int {
    Seq::new(ship.size as nat, |i: int| v.cell(spec_nth_coord(ship, i))).filter(
        |s: Square| s.spec_is_ship(),
    ).len() as int
}

/// The cap or middle shape whose water set guards square `i` of the
/// candidate, by its role along the incrementing axis.
pub open spec fn clear_check_dir(ship: Ship, i: int, n: Neighbor) -> bool {
    ||| (i == 0 && is_water_neighbor(
        match ship.head.incrementing_axis {
            Axis::Col => ShipSquare::LeftEnd,
            Axis::Row => ShipSquare::TopEnd,
        },
        n,
    ))
    ||| (i == ship.size - 1 && is_water_neighbor(
        match ship.head.incrementing_axis {
            Axis::Col => ShipSquare::RightEnd,
            Axis::Row => ShipSquare::BottomEnd,
        },
        n,
    ))
    ||| (0 < i < ship.size - 1 && is_water_neighbor(
        match ship.head.incrementing_axis {
            Axis::Col => ShipSquare::HorizontalMiddle,
            Axis::Row => ShipSquare::VerticalMiddle,
        },
        n,
    ))
}

/// Placing the candidate would touch no other ship: every guarded neighbor
/// of every candidate square is free of ship squares.
pub open spec fn spec_clear_of_others(v: BoardView, ship: Ship) -> bool {
    forall|i: int, n: Neighbor|
        0 <= i < ship.size && #[trigger] clear_check_dir(ship, i, n) && spec_neighbor(
            spec_nth_coord(ship, i),
            n,
            v.layout,
        ) is Some ==> !v.cell(spec_neighbor(spec_nth_coord(ship, i), n, v.layout)->Some_0).spec_is_ship()
}

/// The row or column the ship crosses: its origin's slot on the cross axis.
pub open spec fn constant_axis_slot(ship: Ship) -> RowOrCol {
    let cross = ship.head.incrementing_axis.spec_cross_axis();
    RowOrCol { axis: cross, index: ship.head.origin.spec_index_for_axis(cross) }
}

/// The row or column through square `i` of the ship along the incrementing
/// axis.
pub open spec fn incrementing_axis_slot(ship: Ship, i: int) -> RowOrCol {
    RowOrCol {
        axis: ship.head.incrementing_axis,
        index: spec_nth_coord(ship, i).spec_index_for_axis(ship.head.incrementing_axis),
    }
}

/// Whether the candidate fits cell by cell. `Some` carries the number of its
/// cells that already hold ship squares; a candidate that is already exactly
/// the complete ship is rejected, so an already-found ship is not counted
/// again.
pub fn can_fit_ship_at_coord(board: &Board, ship: Ship) -> (r: Option<usize>)
    requires
        board.wf(),
        ship.size >= 1,
        ship.spec_in_bounds(board@.layout),
    ensures
        match r {
            Some(n) => {
                &&& n as int == ship_cells_count(board@, ship)
                &&& n <= ship.size
                &&& forall|i: int| 0 <= i < ship.size ==> spec_compat_at(board@, ship, i)
                &&& !(forall|i: int| 0 <= i < ship.size ==> spec_exact_at(board@, ship, i))
            },
            None => !(forall|i: int| 0 <= i < ship.size ==> spec_compat_at(board@, ship, i)) || (
            forall|i: int| 0 <= i < ship.size ==> spec_exact_at(board@, ship, i)),
        },
{
    let layout = board.layout();
    let coords = ship.coords(&layout).unwrap();
    let ghost cells = Seq::new(ship.size as nat, |i: int| board@.cell(spec_nth_coord(ship, i)));
    let ghost is_ship_pred = |s: Square| s.spec_is_ship();
    let mut num_ship_squares: usize = 0;
    let mut all_matches_exact = true;
    let mut i: usize = 0;
    while i < coords.len()
        invariant
            board.wf(),
            ship.size >= 1,
            ship.spec_in_bounds(board@.layout),
            coords@ == spec_ship_coords(ship),
            cells == Seq::new(ship.size as nat, |i: int| board@.cell(spec_nth_coord(ship, i))),
            is_ship_pred == (|s: Square| s.spec_is_ship()),
            i <= coords@.len(),
            num_ship_squares <= i,
            num_ship_squares as int == cells.subrange(0, i as int).filter(is_ship_pred).len(),
            all_matches_exact == forall|k: int| 0 <= k < i ==> spec_exact_at(board@, ship, k),
            forall|k: int| 0 <= k < i ==> spec_compat_at(board@, ship, k),
        decreases coords@.len() - i,
    {
        proof {
            ship.lemma_coords_in_bounds(board@.layout, i as int);
            cells.subrange(0, i as int).lemma_filter_len_push(is_ship_pred, cells[i as int]);
            assert(cells.subrange(0, i + 1 as int) =~= cells.subrange(0, i as int).push(
                cells[i as int],
            ));
        }
        let cell = board.square_at(coords[i]);
        if cell.is_ship() {
            num_ship_squares += 1;
        }
        let expected = ship.expected_square_for_idx(i);
        let is_exact_match = cell == Square::ShipSquare(expected);
        let is_match = is_exact_match || cell == Square::Unknown || cell == Square::ShipSquare(
            ShipSquare::Any,
        ) || (cell == Square::ShipSquare(ShipSquare::AnyMiddle) && (expected
            == ShipSquare::VerticalMiddle || expected == ShipSquare::HorizontalMiddle));
        proof {
            assert(cell == board@.cell(spec_nth_coord(ship, i as int)));
            assert(is_match == spec_compat_at(board@, ship, i as int));
            assert(is_exact_match == spec_exact_at(board@, ship, i as int));
        }
        if !is_match {
            proof {
                assert(!spec_compat_at(board@, ship, i as int));
            }
            return None;
        }
        let new_all = all_matches_exact && is_exact_match;
        proof {
            if new_all {
                assert forall|k: int| 0 <= k < i + 1 implies spec_exact_at(board@, ship, k) by {}
            } else {
                if !all_matches_exact {
                    let k0 = choose|k0: int| 0 <= k0 < i && !spec_exact_at(board@, ship, k0);
                    assert(!spec_exact_at(board@, ship, k0));
                } else {
                    assert(!spec_exact_at(board@, ship, i as int));
                }
            }
        }
        all_matches_exact = new_all;
        i += 1;
    }
    proof {
        assert(cells.subrange(0, cells.len() as int) =~= cells);
    }
    if all_matches_exact {
        None
    } else {
        Some(num_ship_squares)
    }
}

/// Whether one shape's guarded neighbors of one candidate square are all
/// free of ship squares.
fn guarded_neighbors_clear(board: &Board, c: Coord, shape: ShipSquare) -> (r: bool)
    requires
        board.wf(),
        c.in_bounds(board@.layout),
    ensures
        r == forall|n: Neighbor|
            is_water_neighbor(shape, n) && (#[trigger] spec_neighbor(c, n, board@.layout)) is Some
                ==> !board@.cell(spec_neighbor(c, n, board@.layout)->Some_0).spec_is_ship(),
{
    let layout = board.layout();
    let wn = shape.water_neighbors();
    let mut j: usize = 0;
    while j < wn.len()
        invariant
            board.wf(),
            c.in_bounds(board@.layout),
            layout == board@.layout,
            forall|n: Neighbor| wn@.contains(n) <==> is_water_neighbor(shape, n),
            j <= wn@.len(),
            forall|k: int|
                0 <= k < j && spec_neighbor(c, #[trigger] wn@[k], board@.layout) is Some
                    ==> !board@.cell(
                    spec_neighbor(c, wn@[k], board@.layout)->Some_0,
                ).spec_is_ship(),
        decreases wn@.len() - j,
    {
        let n = wn[j];
        if let Some(nc) = c.neighbor(n, &layout) {
            if board.square_at(nc).is_ship() {
                proof {
                    assert(wn@.contains(n)) by {
                        wn@.lemma_index_contains(j as int);
                    }
                }
                return false;
            }
        }
        j += 1;
    }
    proof {
        assert forall|n: Neighbor|
            is_water_neighbor(shape, n) && (#[trigger] spec_neighbor(
                c,
                n,
                board@.layout,
            )) is Some implies !board@.cell(
            spec_neighbor(c, n, board@.layout)->Some_0,
        ).spec_is_ship() by {
            assert(wn@.contains(n));
            let k = choose|k: int| 0 <= k < wn@.len() && wn@[k] == n;
        }
    }
    true
}

/// Whether placing the candidate would keep it clear of every other ship,
/// diagonal and end-to-end contact included.
pub fn would_ship_at_coord_be_clear_of_other_ships(board: &Board, ship: Ship) -> (r: bool)
    requires
        board.wf(),
        ship.size >= 1,
        ship.spec_in_bounds(board@.layout),
    ensures
        r == spec_clear_of_others(board@, ship),
{
    let layout = board.layout();
    let coords = ship.coords(&layout).unwrap();
    let mut i: usize = 0;
    while i < coords.len()
        invariant
            board.wf(),
            ship.size >= 1,
            ship.spec_in_bounds(board@.layout),
            layout == board@.layout,
            coords@ == spec_ship_coords(ship),
            i <= coords@.len(),
            forall|k: int, n: Neighbor|
                0 <= k < i && #[trigger] clear_check_dir(ship, k, n) && spec_neighbor(
                    spec_nth_coord(ship, k),
                    n,
                    board@.layout,
                ) is Some ==> !board@.cell(
                    spec_neighbor(spec_nth_coord(ship, k), n, board@.layout)->Some_0,
                ).spec_is_ship(),
        decreases coords@.len() - i,
    {
        proof {
            ship.lemma_coords_in_bounds(board@.layout, i as int);
        }
        let c = coords[i];
        let is_first = i == 0;
        let is_last = i == ship.size - 1;
        let start_shape = match ship.head.incrementing_axis {
            Axis::Col => ShipSquare::LeftEnd,
            Axis::Row => ShipSquare::TopEnd,
        };
        let end_shape = match ship.head.incrementing_axis {
            Axis::Col => ShipSquare::RightEnd,
            Axis::Row => ShipSquare::BottomEnd,
        };
        let mid_shape = match ship.head.incrementing_axis {
            Axis::Col => ShipSquare::HorizontalMiddle,
            Axis::Row => ShipSquare::VerticalMiddle,
        };
        if is_first {
            if !guarded_neighbors_clear(board, c, start_shape) {
                proof {
                    lemma_clear_witness(board@, ship, i as int, start_shape);
                }
                return false;
            }
        }
        if is_last {
            if !guarded_neighbors_clear(board, c, end_shape) {
                proof {
                    lemma_clear_witness(board@, ship, i as int, end_shape);
                }
                return false;
            }
        }
        if !is_first && !is_last {
            if !guarded_neighbors_clear(board, c, mid_shape) {
                proof {
                    lemma_clear_witness(board@, ship, i as int, mid_shape);
                }
                return false;
            }
        }
        i += 1;
    }
    true
}

/// A failed guard gives a witness against `spec_clear_of_others`.
proof fn lemma_clear_witness(v: BoardView, ship: Ship, i: int, shape: ShipSquare)
    requires
        0 <= i < ship.size,
        !(forall|n: Neighbor|
            is_water_neighbor(shape, n) && (#[trigger] spec_neighbor(
                spec_nth_coord(ship, i),
                n,
                v.layout,
            )) is Some ==> !v.cell(
                spec_neighbor(spec_nth_coord(ship, i), n, v.layout)->Some_0,
            ).spec_is_ship()),
        clear_cap_matches(ship, i, shape) || (0 < i < ship.size - 1 && shape == clear_shape_for(
            ship,
            i,
        )),
    ensures
        !spec_clear_of_others(v, ship),
{
    let n0 = choose|n0: Neighbor|
        !(is_water_neighbor(shape, n0) && (#[trigger] spec_neighbor(
            spec_nth_coord(ship, i),
            n0,
            v.layout,
        )) is Some ==> !v.cell(
            spec_neighbor(spec_nth_coord(ship, i), n0, v.layout)->Some_0,
        ).spec_is_ship());
    assert(clear_check_dir(ship, i, n0));
}

/// The middle shape that guards an interior square.
pub open spec fn clear_shape_for(ship: Ship, i: int) -> ShipSquare {
    match ship.head.incrementing_axis {
        Axis::Col => ShipSquare::HorizontalMiddle,
        Axis::Row => ShipSquare::VerticalMiddle,
    }
}

/// Whether `shape` is the cap shape that guards square `i`.
pub open spec fn clear_cap_matches(ship: Ship, i: int, shape: ShipSquare) -> bool {
    (i == 0 && shape == (match ship.head.incrementing_axis {
        Axis::Col => ShipSquare::LeftEnd,
        Axis::Row => ShipSquare::TopEnd,
    })) || (i == ship.size - 1 && shape == (match ship.head.incrementing_axis {
        Axis::Col => ShipSquare::RightEnd,
        Axis::Row => ShipSquare::BottomEnd,
    }))
}

/// Whether the row or column the ship crosses still has enough remaining
/// ship squares for the cells the candidate does not already occupy.
pub fn enough_free_ships_on_constant_axis(board: &Board, ship: Ship, num_ship_squares: usize) -> (r:
    bool)
    requires
        board.wf(),
        ship.size >= 1,
        ship.spec_in_bounds(board@.layout),
        num_ship_squares <= ship.size,
    ensures
        r == (board@.remaining(constant_axis_slot(ship)) >= ship.size - num_ship_squares),
{
    let constant_axis = ship.head.incrementing_axis.cross_axis();
    let row_or_col = ship.head.origin.row_or_col(constant_axis);
    let ship_squares_remaining = board.ship_squares_remaining(row_or_col);
    ship_squares_remaining >= ship.size - num_ship_squares
}

/// Whether every candidate square either already holds a ship square or lies
/// on a row or column, along the incrementing axis, with at least one
/// remaining ship square.
pub fn enough_free_ships_on_incrementing_axis(board: &Board, ship: Ship) -> (r: bool)
    requires
        board.wf(),
        ship.size >= 1,
        ship.spec_in_bounds(board@.layout),
    ensures
        r == forall|i: int|
            0 <= i < ship.size ==> board@.cell(#[trigger] spec_nth_coord(ship, i)).spec_is_ship()
                || board@.remaining(incrementing_axis_slot(ship, i)) >= 1,
{
    let layout = board.layout();
    let coords = ship.coords(&layout).unwrap();
    let mut i: usize = 0;
    while i < coords.len()
        invariant
            board.wf(),
            ship.size >= 1,
            ship.spec_in_bounds(board@.layout),
            layout == board@.layout,
            coords@ == spec_ship_coords(ship),
            i <= coords@.len(),
            forall|k: int|
                0 <= k < i ==> board@.cell(#[trigger] spec_nth_coord(ship, k)).spec_is_ship()
                    || board@.remaining(incrementing_axis_slot(ship, k)) >= 1,
        decreases coords@.len() - i,
    {
        proof {
            ship.lemma_coords_in_bounds(board@.layout, i as int);
        }
        let c = coords[i];
        let row_or_col = c.row_or_col(ship.head.incrementing_axis);
        let remaining = board.ship_squares_remaining(row_or_col);
        if !(board.square_at(c).is_ship() || remaining >= 1) {
            return false;
        }
        i += 1;
    }
    true
}

/// Commit a ship: write the expected shape into each of its squares. On
/// success every square of the ship holds exactly its expected shape.
pub fn place_ship_at_coord(board: &mut Board, ship: Ship) -> (r: Result<(), Error>)
    requires
        old(board).wf(),
        ship.size >= 1,
        ship.spec_in_bounds(old(board)@.layout),
    ensures
        final(board).wf(),
        evolves(old(board)@, final(board)@),
        forall|rr: int, cc: int|
            0 <= rr < old(board)@.squares.len() && 0 <= cc < old(board)@.squares[rr].len()
                ==> only_ships_added(old(board)@, final(board)@, rr, cc),
        r is Ok ==> forall|i: int|
            0 <= i < ship.size ==> final(board)@.cell(#[trigger] spec_nth_coord(ship, i))
                == Square::ShipSquare(spec_expected_square(ship, i)),
        r is Err ==> (r->Err_0 is BadTransition || r->Err_0 is CounterExhausted),
{
    let ghost pre = board@;
    let layout = board.layout();
    let coords = ship.coords(&layout).unwrap();
    let mut i: usize = 0;
    while i < coords.len()
        invariant
            pre == old(board)@,
            board.wf(),
            pre.wf(),
            evolves(pre, board@),
            board@.layout == pre.layout,
            ship.size >= 1,
            ship.spec_in_bounds(pre.layout),
            coords@ == spec_ship_coords(ship),
            i <= coords@.len(),
            forall|rr: int, cc: int|
                0 <= rr < pre.squares.len() && 0 <= cc < pre.squares[rr].len()
                    ==> only_ships_added(pre, board@, rr, cc),
            forall|k: int|
                0 <= k < i ==> board@.cell(#[trigger] spec_nth_coord(ship, k))
                    == Square::ShipSquare(spec_expected_square(ship, k)),
        decreases coords@.len() - i,
    {
        proof {
            ship.lemma_coords_in_bounds(pre.layout, i as int);
        }
        let c = coords[i];
        let expected = ship.expected_square_for_idx(i);
        let ghost before = board@;
        let res = board.set(c, Square::ShipSquare(expected));
        proof {
            lemma_evolves_trans(pre, before, board@);
            assert forall|rr: int, cc: int|
                0 <= rr < pre.squares.len() && 0 <= cc < pre.squares[rr].len() implies
            only_ships_added(pre, board@, rr, cc) by {
                assert(only_ships_added(pre, before, rr, cc));
            }
        }
        if let Err(e) = res {
            return Err(e);
        }
        proof {
            assert forall|k: int| 0 <= k < i + 1 implies board@.cell(
                #[trigger] spec_nth_coord(ship, k),
            ) == Square::ShipSquare(spec_expected_square(ship, k)) by {
                if k < i {
                    assert(before.cell(spec_nth_coord(ship, k)) == Square::ShipSquare(
                        spec_expected_square(ship, k),
                    ));
                    assert(crate::board::square_narrows(
                        before.cell(spec_nth_coord(ship, k)),
                        board@.cell(spec_nth_coord(ship, k)),
                    ));
                } else {
                    assert(spec_nth_coord(ship, k) == c);
                }
            }
        }
        i += 1;
    }
    Ok(())
}

/// Commit a group's common cells: every unknown cell among them becomes a
/// generic ship square.
pub fn place_ship_at_intersection_of_coords(
    board: &mut Board,
    coordinates_for_all_placements: &Vec<Vec<Coord>>,
) -> (r: Result<(), Error>)
    requires
        old(board).wf(),
        forall|g: int, x: int|
            0 <= g < coordinates_for_all_placements@.len() && 0 <= x
                < coordinates_for_all_placements@[g]@.len()
                ==> (#[trigger] coordinates_for_all_placements@[g]@[x]).in_bounds(
                old(board)@.layout,
            ),
    ensures
        final(board).wf(),
        evolves(old(board)@, final(board)@),
        forall|rr: int, cc: int|
            0 <= rr < old(board)@.squares.len() && 0 <= cc < old(board)@.squares[rr].len()
                ==> only_ships_added(old(board)@, final(board)@, rr, cc),
        r is Err ==> (r->Err_0 is BadTransition || r->Err_0 is CounterExhausted),
        r is Ok ==> forall|g: int, x: int|
            0 <= g < coordinates_for_all_placements@.len() && 0 <= x
                < coordinates_for_all_placements@[g]@.len() ==> final(board)@.cell(
                #[trigger] coordinates_for_all_placements@[g]@[x],
            ) != Square::Unknown,
{
    let ghost pre = board@;
    let mut g: usize = 0;
    while g < coordinates_for_all_placements.len()
        invariant
            pre == old(board)@,
            board.wf(),
            pre.wf(),
            evolves(pre, board@),
            board@.layout == pre.layout,
            g <= coordinates_for_all_placements@.len(),
            forall|gg: int, x: int|
                0 <= gg < coordinates_for_all_placements@.len() && 0 <= x
                    < coordinates_for_all_placements@[gg]@.len()
                    ==> (#[trigger] coordinates_for_all_placements@[gg]@[x]).in_bounds(pre.layout),
            forall|rr: int, cc: int|
                0 <= rr < pre.squares.len() && 0 <= cc < pre.squares[rr].len()
                    ==> only_ships_added(pre, board@, rr, cc),
            forall|gg: int, xx: int|
                0 <= gg < g && 0 <= xx < coordinates_for_all_placements@[gg]@.len()
                    ==> board@.cell(#[trigger] coordinates_for_all_placements@[gg]@[xx])
                    != Square::Unknown,
        decreases coordinates_for_all_placements@.len() - g,
    {
        let coords = &coordinates_for_all_placements[g];
        let mut x: usize = 0;
        while x < coords.len()
            invariant
                pre == old(board)@,
                board.wf(),
                pre.wf(),
                evolves(pre, board@),
                board@.layout == pre.layout,
                g < coordinates_for_all_placements@.len(),
                coords@ == coordinates_for_all_placements@[g as int]@,
                x <= coords@.len(),
                forall|gg: int, xx: int|
                    0 <= gg < coordinates_for_all_placements@.len() && 0 <= xx
                        < coordinates_for_all_placements@[gg]@.len()
                        ==> (#[trigger] coordinates_for_all_placements@[gg]@[xx]).in_bounds(
                        pre.layout,
                    ),
                forall|rr: int, cc: int|
                    0 <= rr < pre.squares.len() && 0 <= cc < pre.squares[rr].len()
                        ==> only_ships_added(pre, board@, rr, cc),
                forall|gg: int, xx: int|
                    0 <= gg < g && 0 <= xx < coordinates_for_all_placements@[gg]@.len()
                        ==> board@.cell(#[trigger] coordinates_for_all_placements@[gg]@[xx])
                        != Square::Unknown,
                forall|xx: int|
                    0 <= xx < x ==> board@.cell(#[trigger] coords@[xx]) != Square::Unknown,
            decreases coords@.len() - x,
        {
            let c = coords[x];
            let ghost before = board@;
            if board.square_at(c) == Square::Unknown {
                let res = board.set(c, Square::ShipSquare(ShipSquare::Any));
                proof {
                    lemma_evolves_trans(pre, before, board@);
                    assert forall|rr: int, cc: int|
                        0 <= rr < pre.squares.len() && 0 <= cc < pre.squares[rr].len() implies
                    only_ships_added(pre, board@, rr, cc) by {
                        assert(only_ships_added(pre, before, rr, cc));
                    }
                }
                if let Err(e) = res {
                    return Err(e);
                }
            }
            proof {
                assert(board@.cell(c) != Square::Unknown);
                assert forall|gg: int, xx: int|
                    0 <= gg < g && 0 <= xx
                        < coordinates_for_all_placements@[gg]@.len() implies board@.cell(
                    #[trigger] coordinates_for_all_placements@[gg]@[xx],
                ) != Square::Unknown by {
                    let q = coordinates_for_all_placements@[gg]@[xx];
                    assert(before.cell(q) != Square::Unknown);
                    assert(crate::board::square_narrows(before.cell(q), board@.cell(q)));
                }
                assert forall|xx: int| 0 <= xx < x + 1 implies board@.cell(#[trigger] coords@[xx])
                    != Square::Unknown by {
                    if xx < x {
                        assert(before.cell(coords@[xx]) != Square::Unknown);
                        assert(crate::board::square_narrows(
                            before.cell(coords@[xx]),
                            board@.cell(coords@[xx]),
                        ));
                    }
                }
            }
            x += 1;
        }
        proof {
            assert(coords@.len() as int == coordinates_for_all_placements@[g as int]@.len());
        }
        g += 1;
    }
    Ok(())
}

/// The two coordinate sets share an element.
pub open spec fn sets_overlap(a: Seq<Coord>, b: Seq<Coord>) -> bool {
    exists|c: Coord| a.contains(c) && #[trigger] b.contains(c)
}

/// Overlap is symmetric.
proof fn lemma_overlap_sym(a: Seq<Coord>, b: Seq<Coord>)
    requires
        sets_overlap(a, b),
    ensures
        sets_overlap(b, a),
{
    let c = choose|c: Coord| a.contains(c) && #[trigger] b.contains(c);
    assert(b.contains(c) && a.contains(c));
}

/// A walk through the input sets in which consecutive sets overlap.
pub open spec fn overlap_chain(sets: Seq<Seq<Coord>>, path: Seq<int>) -> bool {
    &&& path.len() >= 1
    &&& forall|t: int| 0 <= t < path.len() ==> 0 <= #[trigger] path[t] < sets.len()
    &&& forall|t: int|
        0 <= t < path.len() - 1 ==> sets_overlap(sets[#[trigger] path[t]], sets[path[t + 1]])
}

/// Input sets `i` and `j` belong to the same transitive overlap group: some
/// walk of pairwise-overlapping sets joins them.
pub open spec fn sets_connected(sets: Seq<Seq<Coord>>, i: int, j: int) -> bool {
    exists|path: Seq<int>| #[trigger] overlap_chain(sets, path) && path.first() == i && path.last() == j
}

/// Every set is in its own group.
proof fn lemma_connected_refl(sets: Seq<Seq<Coord>>, i: int)
    requires
        0 <= i < sets.len(),
    ensures
        sets_connected(sets, i, i),
{
    let path: Seq<int> = seq![i];
    assert(overlap_chain(sets, path));
    assert(path.first() == i && path.last() == i);
}

/// Directly overlapping sets are in the same group.
proof fn lemma_connected_step(sets: Seq<Seq<Coord>>, i: int, j: int)
    requires
        0 <= i < sets.len(),
        0 <= j < sets.len(),
        sets_overlap(sets[i], sets[j]),
    ensures
        sets_connected(sets, i, j),
{
    let path: Seq<int> = seq![i, j];
    assert(overlap_chain(sets, path));
    assert(path.first() == i && path.last() == j);
}

/// Group membership is transitive: walks concatenate.
proof fn lemma_connected_trans(sets: Seq<Seq<Coord>>, i: int, j: int, k: int)
    requires
        sets_connected(sets, i, j),
        sets_connected(sets, j, k),
    ensures
        sets_connected(sets, i, k),
{
    let p1 = choose|p1: Seq<int>|
        #[trigger] overlap_chain(sets, p1) && p1.first() == i && p1.last() == j;
    let p2 = choose|p2: Seq<int>|
        #[trigger] overlap_chain(sets, p2) && p2.first() == j && p2.last() == k;
    let path = p1 + p2.drop_first();
    assert(overlap_chain(sets, path)) by {
        assert forall|t: int| 0 <= t < path.len() implies 0 <= #[trigger] path[t]
            < sets.len() by {
            if t >= p1.len() {
                assert(path[t] == p2[t - p1.len() + 1]);
            }
        }
        assert forall|t: int| 0 <= t < path.len() - 1 implies sets_overlap(
            sets[#[trigger] path[t]],
            sets[path[t + 1]],
        ) by {
            if t < p1.len() - 1 {
                assert(path[t] == p1[t] && path[t + 1] == p1[t + 1]);
            } else if t == p1.len() - 1 {
                assert(path[t] == p1.last());
                if p2.len() > 1 {
                    assert(path[t + 1] == p2[1]);
                    assert(sets_overlap(sets[p2[0]], sets[p2[1]]));
                }
            } else {
                assert(path[t] == p2[t - p1.len() + 1]);
                assert(path[t + 1] == p2[t - p1.len() + 2]);
                assert(sets_overlap(sets[p2[t - p1.len() + 1]], sets[p2[t - p1.len() + 2]]));
            }
        }
    }
    assert(path.first() == i);
    assert(path.last() == k) by {
        if p2.len() == 1 {
            assert(path =~= p1);
        } else {
            assert(path.last() == p2.last());
        }
    }
}

/// The index list holds `k`.
pub open spec fn idx_in(cls: Seq<int>, k: int) -> bool {
    exists|x: int| 0 <= x < cls.len() && #[trigger] cls[x] == k
}

/// Group `g` of the assignment holds input index `k`.
pub open spec fn group_has(members: Seq<Seq<int>>, g: int, k: int) -> bool {
    idx_in(members[g], k)
}

/// Index `k` belongs to one of the first `upto` classes that the new set
/// hits.
pub open spec fn from_hit_class(
    members: Seq<Seq<int>>,
    hits: Seq<bool>,
    upto: int,
    k: int,
) -> bool {
    exists|gg: int| 0 <= gg < upto && hits[gg] && #[trigger] group_has(members, gg, k)
}

/// The coordinate occurs in some set of the index list.
pub open spec fn in_some(sets: Seq<Seq<Coord>>, cls: Seq<int>, c: Coord) -> bool {
    exists|x: int| 0 <= x < cls.len() && (#[trigger] sets[cls[x]]).contains(c)
}

/// The coordinate is common to every set of the index list.
pub open spec fn common_to(sets: Seq<Seq<Coord>>, cls: Seq<int>, c: Coord) -> bool {
    forall|x: int| 0 <= x < cls.len() ==> (#[trigger] sets[cls[x]]).contains(c)
}

/// `u` holds exactly the coordinates of the listed sets' union.
pub open spec fn union_matches(sets: Seq<Seq<Coord>>, cls: Seq<int>, u: Seq<Coord>) -> bool {
    forall|c: Coord| #[trigger] u.contains(c) <==> in_some(sets, cls, c)
}

/// `v` holds exactly the coordinates of the listed sets' intersection.
pub open spec fn inter_matches(sets: Seq<Seq<Coord>>, cls: Seq<int>, v: Seq<Coord>) -> bool {
    forall|c: Coord| #[trigger] v.contains(c) <==> common_to(sets, cls, c)
}

/// Some group of the assignment holds input index `k`.
pub open spec fn assigned(members: Seq<Seq<int>>, k: int) -> bool {
    exists|g: int| 0 <= g < members.len() && #[trigger] group_has(members, g, k)
}

/// `members` assigns the input sets to their transitive overlap groups: every
/// set is in exactly one nonempty group, any two sets of one group are
/// transitively connected, and sets of different groups never overlap
/// directly — together, the groups are exactly the equivalence classes of
/// the overlap relation's transitive closure.
pub open spec fn groups_partition(sets: Seq<Seq<Coord>>, members: Seq<Seq<int>>) -> bool {
    &&& forall|g: int, x: int|
        0 <= g < members.len() && 0 <= x < members[g].len() ==> 0 <= #[trigger] members[g][x]
            < sets.len()
    &&& forall|g: int| 0 <= g < members.len() ==> (#[trigger] members[g]).len() >= 1
    &&& forall|k: int| 0 <= k < sets.len() ==> #[trigger] assigned(members, k)
    &&& forall|g1: int, g2: int, k: int|
        0 <= g1 < members.len() && 0 <= g2 < members.len() && #[trigger] group_has(members, g1, k)
            && #[trigger] group_has(members, g2, k) ==> g1 == g2
    &&& forall|g: int, x1: int, x2: int|
        0 <= g < members.len() && 0 <= x1 < members[g].len() && 0 <= x2 < members[g].len()
            ==> sets_connected(sets, #[trigger] members[g][x1], #[trigger] members[g][x2])
    &&& forall|g1: int, x1: int, g2: int, x2: int|
        0 <= g1 < members.len() && 0 <= g2 < members.len() && g1 != g2 && 0 <= x1
            < members[g1].len() && 0 <= x2 < members[g2].len() ==> !sets_overlap(
            sets[#[trigger] members[g1][x1]],
            sets[#[trigger] members[g2][x2]],
        )
}

/// The coordinate is common to every set of group `g`.
pub open spec fn group_common(
    sets: Seq<Seq<Coord>>,
    members: Seq<Seq<int>>,
    g: int,
    c: Coord,
) -> bool {
    common_to(sets, members[g], c)
}

/// The output is the transitive overlap grouping of the input: one output
/// set per group, holding exactly the coordinates common to every set of its
/// group.
pub open spec fn partition_result_ok(
    sets: Seq<Seq<Coord>>,
    out: Seq<Seq<Coord>>,
    members: Seq<Seq<int>>,
) -> bool {
    &&& groups_partition(sets, members)
    &&& out.len() == members.len()
    &&& forall|g: int, c: Coord|
        0 <= g < out.len() ==> ((#[trigger] out[g].contains(c)) <==> group_common(
            sets,
            members,
            g,
            c,
        ))
}

/// The views of a list of coordinate vectors.
pub open spec fn set_views(sets: Seq<Vec<Coord>>) -> Seq<Seq<Coord>> {
    sets.map_values(|v: Vec<Coord>| v@)
}

/// The coordinate occurs in one of the given sets.
pub open spec fn from_some_input(sets: Seq<Vec<Coord>>, c: Coord) -> bool {
    exists|s: int| 0 <= s < sets.len() && (#[trigger] sets[s])@.contains(c)
}

/// Copy a coordinate set.
fn clone_coords(v: &Vec<Coord>) -> (r: Vec<Coord>)
    ensures
        r@ == v@,
{
    let mut r: Vec<Coord> = Vec::new();
    let mut i: usize = 0;
    while i < v.len()
        invariant
            i <= v@.len(),
            r@ == v@.subrange(0, i as int),
        decreases v@.len() - i,
    {
        r.push(v[i]);
        proof {
            assert(v@.subrange(0, i + 1 as int) =~= v@.subrange(0, i as int).push(v@[i as int]));
        }
        i += 1;
    }
    proof {
        assert(v@.subrange(0, v@.len() as int) =~= v@);
    }
    r
}

/// Whether the set holds the coordinate.
fn coords_contain(v: &Vec<Coord>, c: Coord) -> (r: bool)
    ensures
        r == v@.contains(c),
{
    let mut i: usize = 0;
    while i < v.len()
        invariant
            i <= v@.len(),
            forall|k: int| 0 <= k < i ==> v@[k] != c,
        decreases v@.len() - i,
    {
        if v[i] == c {
            proof {
                v@.lemma_index_contains(i as int);
            }
            return true;
        }
        i += 1;
    }
    false
}

/// Whether the two sets share a coordinate.
fn coords_intersect(a: &Vec<Coord>, b: &Vec<Coord>) -> (r: bool)
    ensures
        r == exists|c: Coord| a@.contains(c) && #[trigger] b@.contains(c),
{
    let mut i: usize = 0;
    while i < a.len()
        invariant
            i <= a@.len(),
            forall|k: int| 0 <= k < i ==> !b@.contains(#[trigger] a@[k]),
        decreases a@.len() - i,
    {
        if coords_contain(b, a[i]) {
            proof {
                a@.lemma_index_contains(i as int);
            }
            return true;
        }
        i += 1;
    }
    proof {
        assert forall|c: Coord| a@.contains(c) implies !(#[trigger] b@.contains(c)) by {
            let k = choose|k: int| 0 <= k < a@.len() && a@[k] == c;
        }
    }
    false
}

/// The coordinates common to both sets, in the first set's order.
fn intersect_coords(a: &Vec<Coord>, b: &Vec<Coord>) -> (r: Vec<Coord>)
    ensures
        forall|c: Coord| #[trigger] r@.contains(c) <==> a@.contains(c) && b@.contains(c),
{
    let mut r: Vec<Coord> = Vec::new();
    let mut i: usize = 0;
    while i < a.len()
        invariant
            i <= a@.len(),
            forall|c: Coord| #[trigger] r@.contains(c)
                <==> (a@.subrange(0, i as int).contains(c) && b@.contains(c)),
        decreases a@.len() - i,
    {
        let c = a[i];
        if coords_contain(b, c) {
            r.push(c);
        }
        proof {
            assert(a@.subrange(0, i + 1 as int) =~= a@.subrange(0, i as int).push(c));
        }
        i += 1;
    }
    proof {
        assert(a@.subrange(0, a@.len() as int) =~= a@);
    }
    r
}

/// The coordinates common to every one of the sets, or `None` exactly when
/// there are no sets at all.
pub fn common_coordinates(all_sets_of_coordinates: &Vec<Vec<Coord>>) -> (r: Option<Vec<Coord>>)
    ensures
        match r {
            Some(v) => all_sets_of_coordinates@.len() > 0 && forall|c: Coord| #[trigger]
            v@.contains(c) <==> (forall|k: int|
                0 <= k < all_sets_of_coordinates@.len()
                    ==> (#[trigger] all_sets_of_coordinates@[k])@.contains(c)),
            None => all_sets_of_coordinates@.len() == 0,
        },
{
    if all_sets_of_coordinates.len() == 0 {
        return None;
    }
    let mut out = clone_coords(&all_sets_of_coordinates[0]);
    let mut k: usize = 1;
    while k < all_sets_of_coordinates.len()
        invariant
            1 <= k <= all_sets_of_coordinates@.len(),
            forall|c: Coord| #[trigger] out@.contains(c) <==> (forall|j: int|
                0 <= j < k ==> (#[trigger] all_sets_of_coordinates@[j])@.contains(c)),
        decreases all_sets_of_coordinates@.len() - k,
    {
        out = intersect_coords(&out, &all_sets_of_coordinates[k]);
        k += 1;
    }
    Some(out)
}

/// Group the coordinate sets transitively by overlap and return each group's
/// common coordinates: two sets belong together when their coordinates
/// intersect, directly or through a chain of other sets, and each returned
/// set holds exactly the coordinates common to every set of its group. Every
/// returned coordinate comes from one of the input sets.
#[verifier::rlimit(80)]
pub fn partition(unpartitioned: Vec<Vec<Coord>>) -> (r: Vec<Vec<Coord>>)
    ensures
        r@.len() <= unpartitioned@.len(),
        forall|g: int, x: int|
            0 <= g < r@.len() && 0 <= x < r@[g]@.len() ==> from_some_input(
                unpartitioned@,
                #[trigger] r@[g]@[x],
            ),
        exists|members: Seq<Seq<int>>| #[trigger] partition_result_ok(
            set_views(unpartitioned@),
            set_views(r@),
            members,
        ),
{
    let ghost sv = set_views(unpartitioned@);
    let mut group_unions: Vec<Vec<Coord>> = Vec::new();
    let mut group_inters: Vec<Vec<Coord>> = Vec::new();
    let ghost mut members: Seq<Seq<int>> = Seq::empty();
    let mut si: usize = 0;
    while si < unpartitioned.len()
        invariant
            sv == set_views(unpartitioned@),
            si <= unpartitioned@.len(),
            group_unions@.len() == group_inters@.len(),
            members.len() == group_inters@.len(),
            group_inters@.len() <= si,
            forall|g: int, x: int|
                0 <= g < group_inters@.len() && 0 <= x < group_inters@[g]@.len()
                    ==> from_some_input(unpartitioned@, #[trigger] group_inters@[g]@[x]),
            forall|g: int, x: int|
                0 <= g < members.len() && 0 <= x < members[g].len() ==> 0 <= #[trigger]
                members[g][x] < si,
            forall|g: int| 0 <= g < members.len() ==> (#[trigger] members[g]).len() >= 1,
            forall|k: int| 0 <= k < si ==> #[trigger] assigned(members, k),
            forall|g1: int, g2: int, k: int|
                0 <= g1 < members.len() && 0 <= g2 < members.len() && #[trigger] group_has(
                    members,
                    g1,
                    k,
                ) && #[trigger] group_has(members, g2, k) ==> g1 == g2,
            forall|g: int, x1: int, x2: int|
                0 <= g < members.len() && 0 <= x1 < members[g].len() && 0 <= x2 < members[g].len()
                    ==> sets_connected(sv, #[trigger] members[g][x1], #[trigger] members[g][x2]),
            forall|g1: int, x1: int, g2: int, x2: int|
                0 <= g1 < members.len() && 0 <= g2 < members.len() && g1 != g2 && 0 <= x1
                    < members[g1].len() && 0 <= x2 < members[g2].len() ==> !sets_overlap(
                    sv[#[trigger] members[g1][x1]],
                    sv[#[trigger] members[g2][x2]],
                ),
            forall|g: int|
                0 <= g < members.len() ==> union_matches(
                    sv,
                    #[trigger] members[g],
                    group_unions@[g]@,
                ),
            forall|g: int|
                0 <= g < members.len() ==> inter_matches(
                    sv,
                    #[trigger] members[g],
                    group_inters@[g]@,
                ),
        decreases unpartitioned@.len() - si,
    {
        let s = &unpartitioned[si];
        proof {
            assert(sv[si as int] == s@);
            assert forall|x: int| 0 <= x < s@.len() implies from_some_input(
                unpartitioned@,
                s@[x],
            ) by {
                s@.lemma_index_contains(x);
                assert((#[trigger] unpartitioned@[si as int])@.contains(s@[x]));
            }
        }
        let mut hits: Vec<bool> = Vec::new();
        let mut g: usize = 0;
        while g < group_unions.len()
            invariant
                group_unions@.len() == group_inters@.len(),
                g <= group_unions@.len(),
                hits@.len() == g,
                si < unpartitioned@.len(),
                s@ == unpartitioned@[si as int]@,
                forall|gg: int|
                    0 <= gg < g ==> #[trigger] hits@[gg] == sets_overlap(
                        group_unions@[gg]@,
                        s@,
                    ),
            decreases group_unions@.len() - g,
        {
            let hit = coords_intersect(&group_unions[g], s);
            hits.push(hit);
            g += 1;
        }
        let mut merged_union = clone_coords(s);
        let mut merged_inter = clone_coords(s);
        let ghost mut merged_members: Seq<int> = seq![si as int];
        proof {
            assert(union_matches(sv, merged_members, merged_union@)) by {
                assert forall|c: Coord| #[trigger] merged_union@.contains(c) implies in_some(
                    sv,
                    merged_members,
                    c,
                ) by {
                    assert(sv[merged_members[0]].contains(c));
                }
            }
            assert(inter_matches(sv, merged_members, merged_inter@)) by {
                assert forall|c: Coord| common_to(sv, merged_members, c) implies #[trigger]
                merged_inter@.contains(c) by {
                    assert((sv[merged_members[0]]).contains(c));
                }
                assert forall|c: Coord| #[trigger] merged_inter@.contains(c) implies common_to(
                    sv,
                    merged_members,
                    c,
                ) by {
                    assert forall|x: int| 0 <= x < merged_members.len() implies (
                    #[trigger] sv[merged_members[x]]).contains(c) by {
                        assert(merged_members[x] == si as int);
                    }
                }
            }
            lemma_connected_refl(sv, si as int);
        }
        let mut g2: usize = 0;
        while g2 < group_unions.len()
            invariant
                sv == set_views(unpartitioned@),
                si < unpartitioned@.len(),
                s@ == unpartitioned@[si as int]@,
                sv[si as int] == s@,
                group_unions@.len() == group_inters@.len(),
                members.len() == group_inters@.len(),
                hits@.len() == group_unions@.len(),
                g2 <= group_unions@.len(),
                forall|gg: int|
                    0 <= gg < hits@.len() ==> #[trigger] hits@[gg] == sets_overlap(
                        group_unions@[gg]@,
                        s@,
                    ),
                forall|g: int, x: int|
                    0 <= g < members.len() && 0 <= x < members[g].len() ==> 0 <= #[trigger]
                    members[g][x] < si,
                forall|g: int, x1: int, x2: int|
                    0 <= g < members.len() && 0 <= x1 < members[g].len() && 0 <= x2
                        < members[g].len() ==> sets_connected(
                        sv,
                        #[trigger] members[g][x1],
                        #[trigger] members[g][x2],
                    ),
                forall|g: int|
                    0 <= g < members.len() ==> union_matches(
                        sv,
                        #[trigger] members[g],
                        group_unions@[g]@,
                    ),
                forall|g: int|
                    0 <= g < members.len() ==> inter_matches(
                        sv,
                        #[trigger] members[g],
                        group_inters@[g]@,
                    ),
                forall|g: int, x: int|
                    0 <= g < group_inters@.len() && 0 <= x < group_inters@[g]@.len()
                        ==> from_some_input(unpartitioned@, #[trigger] group_inters@[g]@[x]),
                merged_members.len() >= 1,
                merged_members[0] == si as int,
                forall|pos: int|
                    0 <= pos < merged_members.len() ==> 0 <= #[trigger] merged_members[pos]
                        <= si as int,
                forall|pos: int|
                    1 <= pos < merged_members.len() ==> #[trigger] from_hit_class(
                        members,
                        hits@,
                        g2 as int,
                        merged_members[pos],
                    ),
                forall|gg: int, x: int|
                    0 <= gg < g2 && hits@[gg] && 0 <= x < members[gg].len() ==> idx_in(
                        merged_members,
                        #[trigger] members[gg][x],
                    ),
                forall|pos: int|
                    0 <= pos < merged_members.len() ==> sets_connected(
                        sv,
                        si as int,
                        #[trigger] merged_members[pos],
                    ) && sets_connected(sv, merged_members[pos], si as int),
                union_matches(sv, merged_members, merged_union@),
                inter_matches(sv, merged_members, merged_inter@),
                forall|x: int|
                    0 <= x < merged_inter@.len() ==> from_some_input(
                        unpartitioned@,
                        #[trigger] merged_inter@[x],
                    ),
            decreases group_unions@.len() - g2,
        {
            if hits[g2] {
                let mut extra = clone_coords(&group_unions[g2]);
                let ghost old_mu = merged_union@;
                merged_union.append(&mut extra);
                let narrowed = intersect_coords(&merged_inter, &group_inters[g2]);
                proof {
                    assert forall|x: int| 0 <= x < narrowed@.len() implies from_some_input(
                        unpartitioned@,
                        #[trigger] narrowed@[x],
                    ) by {
                        narrowed@.lemma_index_contains(x);
                        assert(merged_inter@.contains(narrowed@[x]));
                        let y = choose|y: int|
                            0 <= y < merged_inter@.len() && merged_inter@[y] == narrowed@[x];
                    }
                    // the hit class is joined to the new set through a witness
                    let cw = choose|cw: Coord|
                        group_unions@[g2 as int]@.contains(cw) && #[trigger] s@.contains(cw);
                    assert(in_some(sv, members[g2 as int], cw));
                    let wx = choose|wx: int|
                        0 <= wx < members[g2 as int].len() && (#[trigger] sv[members[g2 as int][wx]]).contains(
                            cw,
                        );
                    let w = members[g2 as int][wx];
                    assert(sets_overlap(sv[w], sv[si as int])) by {
                        assert(sv[w].contains(cw) && sv[si as int].contains(cw));
                    }
                    lemma_connected_step(sv, w, si as int);
                    lemma_overlap_sym(sv[w], sv[si as int]);
                    lemma_connected_step(sv, si as int, w);
                    let ghost new_mm = merged_members + members[g2 as int];
                    assert forall|pos: int|
                        0 <= pos < new_mm.len() implies sets_connected(
                        sv,
                        si as int,
                        #[trigger] new_mm[pos],
                    ) && sets_connected(sv, new_mm[pos], si as int) by {
                        if pos < merged_members.len() {
                            assert(new_mm[pos] == merged_members[pos]);
                        } else {
                            let z = new_mm[pos];
                            assert(z == members[g2 as int][pos - merged_members.len()]);
                            assert(sets_connected(sv, w, z));
                            assert(sets_connected(sv, z, w));
                            lemma_connected_trans(sv, si as int, w, z);
                            lemma_connected_trans(sv, z, w, si as int);
                        }
                    }
                    assert(merged_union@ == old_mu + group_unions@[g2 as int]@);
                    assert(union_matches(sv, new_mm, merged_union@)) by {
                        assert forall|c: Coord| #[trigger] merged_union@.contains(c) implies
                        in_some(sv, new_mm, c) by {
                            let idx = choose|idx: int|
                                0 <= idx < merged_union@.len() && merged_union@[idx] == c;
                            if idx < old_mu.len() {
                                assert(old_mu[idx] == c);
                                old_mu.lemma_index_contains(idx);
                                assert(in_some(sv, merged_members, c));
                                let x = choose|x: int|
                                    0 <= x < merged_members.len() && (
                                    #[trigger] sv[merged_members[x]]).contains(c);
                                assert(new_mm[x] == merged_members[x]);
                                assert((sv[new_mm[x]]).contains(c));
                            } else {
                                assert(group_unions@[g2 as int]@[idx - old_mu.len()] == c);
                                group_unions@[g2 as int]@.lemma_index_contains(idx - old_mu.len());
                                assert(in_some(sv, members[g2 as int], c));
                                let x = choose|x: int|
                                    0 <= x < members[g2 as int].len() && (
                                    #[trigger] sv[members[g2 as int][x]]).contains(c);
                                assert(new_mm[merged_members.len() + x] == members[g2 as int][x]);
                                assert((sv[new_mm[merged_members.len() + x]]).contains(c));
                            }
                        }
                        assert forall|c: Coord| in_some(sv, new_mm, c) implies #[trigger]
                        merged_union@.contains(c) by {
                            let x = choose|x: int|
                                0 <= x < new_mm.len() && (#[trigger] sv[new_mm[x]]).contains(c);
                            if x < merged_members.len() {
                                assert(in_some(sv, merged_members, c)) by {
                                    assert((sv[merged_members[x]]).contains(c));
                                }
                                assert(old_mu.contains(c));
                                let y = choose|y: int| 0 <= y < old_mu.len() && old_mu[y] == c;
                                assert(merged_union@[y] == c);
                                merged_union@.lemma_index_contains(y);
                            } else {
                                assert(in_some(sv, members[g2 as int], c)) by {
                                    assert((sv[members[g2 as int][x - merged_members.len()]]).contains(
                                        c,
                                    ));
                                }
                                assert(group_unions@[g2 as int]@.contains(c));
                                let y = choose|y: int|
                                    0 <= y < group_unions@[g2 as int]@.len()
                                        && group_unions@[g2 as int]@[y] == c;
                                assert(merged_union@[old_mu.len() + y] == c);
                                merged_union@.lemma_index_contains(old_mu.len() + y);
                            }
                        }
                    }
                    assert(inter_matches(sv, new_mm, narrowed@)) by {
                        assert forall|c: Coord| #[trigger] narrowed@.contains(c) implies common_to(
                            sv,
                            new_mm,
                            c,
                        ) by {
                            assert(merged_inter@.contains(c) && group_inters@[g2 as int]@.contains(
                                c,
                            ));
                            assert forall|x: int| 0 <= x < new_mm.len() implies (
                            #[trigger] sv[new_mm[x]]).contains(c) by {
                                if x < merged_members.len() {
                                    assert(new_mm[x] == merged_members[x]);
                                    assert(common_to(sv, merged_members, c));
                                } else {
                                    assert(new_mm[x] == members[g2 as int][x
                                        - merged_members.len()]);
                                    assert(common_to(sv, members[g2 as int], c));
                                }
                            }
                        }
                        assert forall|c: Coord| common_to(sv, new_mm, c) implies #[trigger]
                        narrowed@.contains(c) by {
                            assert(common_to(sv, merged_members, c)) by {
                                assert forall|x: int|
                                    0 <= x < merged_members.len() implies (
                                #[trigger] sv[merged_members[x]]).contains(c) by {
                                    assert(new_mm[x] == merged_members[x]);
                                    assert((sv[new_mm[x]]).contains(c));
                                }
                            }
                            assert(common_to(sv, members[g2 as int], c)) by {
                                assert forall|x: int|
                                    0 <= x < members[g2 as int].len() implies (
                                #[trigger] sv[members[g2 as int][x]]).contains(c) by {
                                    assert(new_mm[merged_members.len() + x] == members[g2 as int][
                                    x]);
                                    assert((sv[new_mm[merged_members.len() + x]]).contains(c));
                                }
                            }
                            assert(merged_inter@.contains(c));
                            assert(group_inters@[g2 as int]@.contains(c));
                        }
                    }
                    assert forall|pos: int| 1 <= pos < new_mm.len() implies #[trigger]
                    from_hit_class(members, hits@, g2 + 1 as int, new_mm[pos]) by {
                        if pos < merged_members.len() {
                            assert(new_mm[pos] == merged_members[pos]);
                            assert(from_hit_class(
                                members,
                                hits@,
                                g2 as int,
                                merged_members[pos],
                            ));
                            let gg = choose|gg: int|
                                0 <= gg < g2 && hits@[gg] && #[trigger] group_has(
                                    members,
                                    gg,
                                    merged_members[pos],
                                );
                            assert(0 <= gg < g2 + 1 && hits@[gg] && group_has(
                                members,
                                gg,
                                new_mm[pos],
                            ));
                        } else {
                            let x = pos - merged_members.len();
                            assert(new_mm[pos] == members[g2 as int][x]);
                            assert(group_has(members, g2 as int, new_mm[pos])) by {
                                assert(members[g2 as int][x] == new_mm[pos]);
                            }
                        }
                    }
                    assert forall|gg: int, x: int|
                        0 <= gg < g2 + 1 && hits@[gg] && 0 <= x < members[gg].len() implies idx_in(
                        new_mm,
                        #[trigger] members[gg][x],
                    ) by {
                        if gg < g2 {
                            assert(idx_in(merged_members, members[gg][x]));
                            let p = choose|p: int|
                                0 <= p < merged_members.len() && #[trigger] merged_members[p]
                                    == members[gg][x];
                            assert(new_mm[p] == members[gg][x]);
                        } else {
                            assert(new_mm[merged_members.len() + x] == members[gg][x]);
                        }
                    }
                    merged_members = new_mm;
                }
                merged_inter = narrowed;
            }
            proof {
                assert forall|pos: int| 1 <= pos < merged_members.len() implies #[trigger]
                from_hit_class(members, hits@, g2 + 1 as int, merged_members[pos]) by {
                    assert(from_hit_class(members, hits@, g2 + 1 as int, merged_members[pos])
                        || from_hit_class(members, hits@, g2 as int, merged_members[pos]));
                    if !from_hit_class(members, hits@, g2 + 1 as int, merged_members[pos]) {
                        let gg = choose|gg: int|
                            0 <= gg < g2 && hits@[gg] && #[trigger] group_has(
                                members,
                                gg,
                                merged_members[pos],
                            );
                        assert(0 <= gg < g2 + 1 && hits@[gg] && group_has(
                            members,
                            gg,
                            merged_members[pos],
                        ));
                    }
                }
            }
            g2 += 1;
        }
        let mut new_unions: Vec<Vec<Coord>> = Vec::new();
        let mut new_inters: Vec<Vec<Coord>> = Vec::new();
        let ghost mut new_members: Seq<Seq<int>> = Seq::empty();
        let ghost mut srcs: Seq<int> = Seq::empty();
        let mut placed = false;
        let mut g3: usize = 0;
        while g3 < group_unions.len()
            invariant
                sv == set_views(unpartitioned@),
                si < unpartitioned@.len(),
                s@ == unpartitioned@[si as int]@,
                sv[si as int] == s@,
                group_unions@.len() == group_inters@.len(),
                members.len() == group_inters@.len(),
                hits@.len() == group_unions@.len(),
                g3 <= group_unions@.len(),
                forall|gg: int|
                    0 <= gg < hits@.len() ==> #[trigger] hits@[gg] == sets_overlap(
                        group_unions@[gg]@,
                        s@,
                    ),
                forall|g: int|
                    0 <= g < members.len() ==> inter_matches(
                        sv,
                        #[trigger] members[g],
                        group_inters@[g]@,
                    ),
                forall|g: int, x: int|
                    0 <= g < group_inters@.len() && 0 <= x < group_inters@[g]@.len()
                        ==> from_some_input(unpartitioned@, #[trigger] group_inters@[g]@[x]),
                union_matches(sv, merged_members, merged_union@),
                inter_matches(sv, merged_members, merged_inter@),
                forall|x: int|
                    0 <= x < merged_inter@.len() ==> from_some_input(
                        unpartitioned@,
                        #[trigger] merged_inter@[x],
                    ),
                new_unions@.len() == new_inters@.len(),
                new_members.len() == new_inters@.len(),
                srcs.len() == new_members.len(),
                new_inters@.len() <= g3 + 1,
                !placed ==> new_inters@.len() <= g3,
                placed == exists|gg: int| 0 <= gg < g3 && #[trigger] hits@[gg],
                (exists|ng: int| 0 <= ng < srcs.len() && #[trigger] srcs[ng] == -1) <==> placed,
                forall|ng: int|
                    0 <= ng < new_members.len() ==> ((#[trigger] srcs[ng] == -1
                        && new_members[ng] == merged_members && new_inters@[ng]@
                        == merged_inter@ && new_unions@[ng]@ == merged_union@) || (0 <= srcs[ng]
                        < g3 && !hits@[srcs[ng]] && new_members[ng] == members[srcs[ng]]
                        && new_inters@[ng]@ == group_inters@[srcs[ng]]@ && new_unions@[ng]@
                        == group_unions@[srcs[ng]]@)),
                forall|ng1: int, ng2: int|
                    0 <= ng1 < srcs.len() && 0 <= ng2 < srcs.len() && ng1 != ng2 ==> #[trigger]
                    srcs[ng1] != #[trigger] srcs[ng2],
                forall|gg: int|
                    0 <= gg < g3 && !(#[trigger] hits@[gg]) ==> exists|ng: int|
                        0 <= ng < srcs.len() && #[trigger] srcs[ng] == gg,
            decreases group_unions@.len() - g3,
        {
            let ghost old_srcs = srcs;
            if hits[g3] {
                if !placed {
                    new_unions.push(clone_coords(&merged_union));
                    new_inters.push(clone_coords(&merged_inter));
                    proof {
                        new_members = new_members.push(merged_members);
                        srcs = srcs.push(-1);
                        assert(srcs[srcs.len() - 1] == -1);
                    }
                    placed = true;
                }
            } else {
                new_unions.push(clone_coords(&group_unions[g3]));
                new_inters.push(clone_coords(&group_inters[g3]));
                proof {
                    new_members = new_members.push(members[g3 as int]);
                    srcs = srcs.push(g3 as int);
                    assert(srcs[srcs.len() - 1] == g3 as int);
                }
            }
            proof {
                assert forall|gg: int|
                    0 <= gg < g3 + 1 && !(#[trigger] hits@[gg]) implies exists|ng: int|
                    0 <= ng < srcs.len() && #[trigger] srcs[ng] == gg by {
                    if gg < g3 {
                        let ng = choose|ng: int|
                            0 <= ng < old_srcs.len() && #[trigger] old_srcs[ng] == gg;
                        assert(srcs[ng] == gg);
                    } else {
                        assert(srcs[srcs.len() - 1] == gg);
                    }
                }
                if placed {
                    if exists|ng: int| 0 <= ng < old_srcs.len() && #[trigger] old_srcs[ng] == -1 {
                        let ng = choose|ng: int|
                            0 <= ng < old_srcs.len() && #[trigger] old_srcs[ng] == -1;
                        assert(srcs[ng] == -1);
                    }
                }
                assert forall|ng: int|
                    0 <= ng < srcs.len() && #[trigger] srcs[ng] == -1 implies placed by {
                    if ng < old_srcs.len() {
                        assert(old_srcs[ng] == -1);
                    }
                }
            }
            g3 += 1;
        }
        let ghost srcs_kept = srcs;
        if !placed {
            proof {
                assert forall|ng: int|
                    0 <= ng < srcs.len() implies #[trigger] srcs[ng] != -1 by {}
            }
            new_unions.push(merged_union);
            new_inters.push(merged_inter);
            proof {
                new_members = new_members.push(merged_members);
                srcs = srcs.push(-1);
                assert(srcs[srcs.len() - 1] == -1);
                assert forall|gg: int|
                    0 <= gg < hits@.len() && !(#[trigger] hits@[gg]) implies exists|ng: int|
                    0 <= ng < srcs.len() && #[trigger] srcs[ng] == gg by {
                    let ng = choose|ng: int|
                        0 <= ng < srcs_kept.len() && #[trigger] srcs_kept[ng] == gg;
                    assert(srcs[ng] == gg);
                }
            }
        }
        proof {
            assert forall|gg: int, x: int|
                0 <= gg < hits@.len() && !(#[trigger] hits@[gg]) && 0 <= x
                    < members[gg].len() implies !sets_overlap(
                sv[#[trigger] members[gg][x]],
                sv[si as int],
            ) by {
                if sets_overlap(sv[members[gg][x]], sv[si as int]) {
                    let c = choose|c: Coord|
                        sv[members[gg][x]].contains(c) && #[trigger] sv[si as int].contains(c);
                    assert(in_some(sv, members[gg], c)) by {
                        assert((sv[members[gg][x]]).contains(c));
                    }
                    assert(group_unions@[gg]@.contains(c));
                    assert(sets_overlap(group_unions@[gg]@, s@)) by {
                        assert(group_unions@[gg]@.contains(c) && s@.contains(c));
                    }
                }
            }
            lemma_rebuild_ok(
                sv,
                unpartitioned@,
                si as int,
                members,
                hits@,
                merged_members,
                new_members,
                srcs,
                group_inters@,
                new_inters@,
                merged_inter@,
            );
            assert forall|ng: int| 0 <= ng < new_members.len() implies union_matches(
                sv,
                #[trigger] new_members[ng],
                new_unions@[ng]@,
            ) by {
                if srcs[ng] != -1 {
                    assert(union_matches(sv, members[srcs[ng]], group_unions@[srcs[ng]]@));
                }
            }
            assert forall|ng: int, x: int|
                0 <= ng < new_inters@.len() && 0 <= x < new_inters@[ng]@.len() implies
            from_some_input(unpartitioned@, #[trigger] new_inters@[ng]@[x]) by {
                if srcs[ng] == -1 {
                    assert(new_inters@[ng]@[x] == merged_inter@[x]);
                } else {
                    assert(new_inters@[ng]@[x] == group_inters@[srcs[ng]]@[x]);
                }
            }
            members = new_members;
        }
        group_unions = new_unions;
        group_inters = new_inters;
        si += 1;
    }
    proof {
        assert(partition_result_ok(sv, set_views(group_inters@), members)) by {
            assert(sv.len() == unpartitioned@.len());
            let out = set_views(group_inters@);
            assert(out.len() == members.len());
            assert forall|g: int, c: Coord| 0 <= g < out.len() implies ((#[trigger] out[g].contains(
                c,
            )) <==> group_common(sv, members, g, c)) by {
                assert(out[g] == group_inters@[g]@);
                assert(inter_matches(sv, members[g], group_inters@[g]@));
            }
        }
    }
    group_inters
}

/// After one rebuilding pass the classes are again a transitive overlap
/// partition, now of one more input set: the untouched classes keep their
/// facts, and the merged class is connected through the new set and overlaps
/// no kept class.
#[verifier::rlimit(30)]
proof fn lemma_rebuild_ok(
    sv: Seq<Seq<Coord>>,
    inputs: Seq<Vec<Coord>>,
    si: int,
    members: Seq<Seq<int>>,
    hits: Seq<bool>,
    merged_members: Seq<int>,
    new_members: Seq<Seq<int>>,
    srcs: Seq<int>,
    old_inters: Seq<Vec<Coord>>,
    new_inters: Seq<Vec<Coord>>,
    merged_inter: Seq<Coord>,
)
    requires
        sv == set_views(inputs),
        0 <= si < inputs.len(),
        members.len() == hits.len(),
        members.len() == old_inters.len(),
        // facts of the old classes
        forall|g: int, x: int|
            0 <= g < members.len() && 0 <= x < members[g].len() ==> 0 <= #[trigger] members[g][x]
                < si,
        forall|g: int| 0 <= g < members.len() ==> (#[trigger] members[g]).len() >= 1,
        forall|k: int| 0 <= k < si ==> #[trigger] assigned(members, k),
        forall|g1: int, g2: int, k: int|
            0 <= g1 < members.len() && 0 <= g2 < members.len() && #[trigger] group_has(
                members,
                g1,
                k,
            ) && #[trigger] group_has(members, g2, k) ==> g1 == g2,
        forall|g: int, x1: int, x2: int|
            0 <= g < members.len() && 0 <= x1 < members[g].len() && 0 <= x2 < members[g].len()
                ==> sets_connected(sv, #[trigger] members[g][x1], #[trigger] members[g][x2]),
        forall|g1: int, x1: int, g2: int, x2: int|
            0 <= g1 < members.len() && 0 <= g2 < members.len() && g1 != g2 && 0 <= x1
                < members[g1].len() && 0 <= x2 < members[g2].len() ==> !sets_overlap(
                sv[#[trigger] members[g1][x1]],
                sv[#[trigger] members[g2][x2]],
            ),
        // classes the new set does not hit share no coordinate with it
        forall|gg: int, x: int|
            0 <= gg < hits.len() && !(#[trigger] hits[gg]) && 0 <= x < members[gg].len()
                ==> !sets_overlap(sv[#[trigger] members[gg][x]], sv[si]),
        // the merged class
        merged_members.len() >= 1,
        merged_members[0] == si,
        forall|pos: int|
            0 <= pos < merged_members.len() ==> 0 <= #[trigger] merged_members[pos] <= si,
        forall|pos: int|
            1 <= pos < merged_members.len() ==> #[trigger] from_hit_class(
                members,
                hits,
                hits.len() as int,
                merged_members[pos],
            ),
        forall|gg: int, x: int|
            0 <= gg < hits.len() && hits[gg] && 0 <= x < members[gg].len() ==> idx_in(
                merged_members,
                #[trigger] members[gg][x],
            ),
        forall|pos: int|
            0 <= pos < merged_members.len() ==> sets_connected(
                sv,
                si,
                #[trigger] merged_members[pos],
            ) && sets_connected(sv, merged_members[pos], si),
        // how the new classes were assembled
        srcs.len() == new_members.len(),
        new_members.len() == new_inters.len(),
        forall|ng: int|
            0 <= ng < new_members.len() ==> ((#[trigger] srcs[ng] == -1 && new_members[ng]
                == merged_members && new_inters[ng]@ == merged_inter) || (0 <= srcs[ng]
                < members.len() && !hits[srcs[ng]] && new_members[ng] == members[srcs[ng]]
                && new_inters[ng]@ == old_inters[srcs[ng]]@)),
        forall|ng1: int, ng2: int|
            0 <= ng1 < srcs.len() && 0 <= ng2 < srcs.len() && ng1 != ng2 ==> #[trigger] srcs[ng1]
                != #[trigger] srcs[ng2],
        forall|gg: int|
            0 <= gg < hits.len() && !(#[trigger] hits[gg]) ==> exists|ng: int|
                0 <= ng < srcs.len() && #[trigger] srcs[ng] == gg,
        exists|ng: int| 0 <= ng < srcs.len() && #[trigger] srcs[ng] == -1,
        // contents
        inter_matches(sv, merged_members, merged_inter),
        forall|g: int|
            0 <= g < members.len() ==> inter_matches(sv, #[trigger] members[g], old_inters[g]@),
    ensures
        forall|g: int, x: int|
            0 <= g < new_members.len() && 0 <= x < new_members[g].len() ==> 0 <= #[trigger]
            new_members[g][x] < si + 1,
        forall|g: int| 0 <= g < new_members.len() ==> (#[trigger] new_members[g]).len() >= 1,
        forall|k: int| 0 <= k < si + 1 ==> #[trigger] assigned(new_members, k),
        forall|g1: int, g2: int, k: int|
            0 <= g1 < new_members.len() && 0 <= g2 < new_members.len() && #[trigger] group_has(
                new_members,
                g1,
                k,
            ) && #[trigger] group_has(new_members, g2, k) ==> g1 == g2,
        forall|g: int, x1: int, x2: int|
            0 <= g < new_members.len() && 0 <= x1 < new_members[g].len() && 0 <= x2
                < new_members[g].len() ==> sets_connected(
                sv,
                #[trigger] new_members[g][x1],
                #[trigger] new_members[g][x2],
            ),
        forall|g1: int, x1: int, g2: int, x2: int|
            0 <= g1 < new_members.len() && 0 <= g2 < new_members.len() && g1 != g2 && 0 <= x1
                < new_members[g1].len() && 0 <= x2 < new_members[g2].len() ==> !sets_overlap(
                sv[#[trigger] new_members[g1][x1]],
                sv[#[trigger] new_members[g2][x2]],
            ),
        forall|g: int|
            0 <= g < new_members.len() ==> inter_matches(
                sv,
                #[trigger] new_members[g],
                new_inters[g]@,
            ),
{
    assert forall|g: int, x: int|
        0 <= g < new_members.len() && 0 <= x < new_members[g].len() implies 0 <= #[trigger]
    new_members[g][x] < si + 1 by {
        if srcs[g] == -1 {
            assert(new_members[g] == merged_members);
        } else {
            assert(new_members[g] == members[srcs[g]]);
        }
    }
    assert forall|g: int| 0 <= g < new_members.len() implies (#[trigger] new_members[g]).len()
        >= 1 by {
        if srcs[g] == -1 {
            assert(new_members[g] == merged_members);
        } else {
            assert(new_members[g] == members[srcs[g]]);
        }
    }
    assert forall|g: int| 0 <= g < new_members.len() implies inter_matches(
        sv,
        #[trigger] new_members[g],
        new_inters[g]@,
    ) by {
        if srcs[g] == -1 {
            assert(new_members[g] == merged_members && new_inters[g]@ == merged_inter);
        } else {
            assert(new_members[g] == members[srcs[g]] && new_inters[g]@ == old_inters[srcs[g]]@);
        }
    }
    assert forall|k: int| 0 <= k < si + 1 implies #[trigger] assigned(new_members, k) by {
        if k == si {
            let ng = choose|ng: int| 0 <= ng < srcs.len() && #[trigger] srcs[ng] == -1;
            assert(new_members[ng][0] == si);
            assert(group_has(new_members, ng, k)) by {
                assert(new_members[ng][0] == k);
            }
        } else {
            assert(assigned(members, k));
            let g = choose|g: int| 0 <= g < members.len() && #[trigger] group_has(members, g, k);
            let x = choose|x: int| 0 <= x < members[g].len() && #[trigger] members[g][x] == k;
            if hits[g] {
                assert(idx_in(merged_members, members[g][x]));
                let ng = choose|ng: int| 0 <= ng < srcs.len() && #[trigger] srcs[ng] == -1;
                assert(new_members[ng] == merged_members);
                assert(group_has(new_members, ng, k));
            } else {
                let ng = choose|ng: int| 0 <= ng < srcs.len() && #[trigger] srcs[ng] == g;
                assert(new_members[ng] == members[g]);
                assert(group_has(new_members, ng, k)) by {
                    assert(new_members[ng][x] == k);
                }
            }
        }
    }
    assert forall|g1: int, g2: int, k: int|
        0 <= g1 < new_members.len() && 0 <= g2 < new_members.len() && #[trigger] group_has(
            new_members,
            g1,
            k,
        ) && #[trigger] group_has(new_members, g2, k) implies g1 == g2 by {
        if srcs[g1] == -1 && srcs[g2] == -1 {
            assert(g1 == g2);
        } else if srcs[g1] != -1 && srcs[g2] != -1 {
            assert(group_has(members, srcs[g1], k));
            assert(group_has(members, srcs[g2], k));
            assert(srcs[g1] == srcs[g2]);
            assert(g1 == g2);
        } else {
            let (gm, go) = if srcs[g1] == -1 {
                (g1, g2)
            } else {
                (g2, g1)
            };
            // k is in the merged class and in a kept class: impossible
            assert(new_members[gm] == merged_members);
            assert(idx_in(merged_members, k));
            let pos = choose|pos: int|
                0 <= pos < merged_members.len() && #[trigger] merged_members[pos] == k;
            assert(group_has(members, srcs[go], k));
            if pos == 0 {
                assert(k == si);
                let x = choose|x: int|
                    0 <= x < members[srcs[go]].len() && #[trigger] members[srcs[go]][x] == k;
                assert(members[srcs[go]][x] < si);
                assert(false);
            } else {
                assert(from_hit_class(members, hits, hits.len() as int, merged_members[pos]));
                let gg = choose|gg: int|
                    0 <= gg < hits.len() && hits[gg] && #[trigger] group_has(
                        members,
                        gg,
                        merged_members[pos],
                    );
                assert(group_has(members, gg, k));
                assert(gg == srcs[go]);
                assert(hits[srcs[go]] && !hits[srcs[go]]);
                assert(false);
            }
        }
    }
    assert forall|g: int, x1: int, x2: int|
        0 <= g < new_members.len() && 0 <= x1 < new_members[g].len() && 0 <= x2
            < new_members[g].len() implies sets_connected(
        sv,
        #[trigger] new_members[g][x1],
        #[trigger] new_members[g][x2],
    ) by {
        if srcs[g] == -1 {
            assert(new_members[g] == merged_members);
            lemma_connected_trans(
                sv,
                merged_members[x1],
                si,
                merged_members[x2],
            );
        }
    }
    assert forall|g1: int, x1: int, g2: int, x2: int|
        0 <= g1 < new_members.len() && 0 <= g2 < new_members.len() && g1 != g2 && 0 <= x1
            < new_members[g1].len() && 0 <= x2 < new_members[g2].len() implies !sets_overlap(
        sv[#[trigger] new_members[g1][x1]],
        sv[#[trigger] new_members[g2][x2]],
    ) by {
        if srcs[g1] != -1 && srcs[g2] != -1 {
            assert(new_members[g1][x1] == members[srcs[g1]][x1]);
            assert(new_members[g2][x2] == members[srcs[g2]][x2]);
        } else {
            let (gm, xm, go, xo, flip) = if srcs[g1] == -1 {
                (g1, x1, g2, x2, false)
            } else {
                (g2, x2, g1, x1, true)
            };
            let y = new_members[gm][xm];
            let z = new_members[go][xo];
            assert(z == members[srcs[go]][xo]);
            if xm == 0 {
                assert(y == si);
                assert(!sets_overlap(sv[z], sv[si]));
                if !flip {
                    // y == si on the left: overlap would be symmetric
                    if sets_overlap(sv[y], sv[z]) {
                        lemma_overlap_sym(sv[y], sv[z]);
                        assert(false);
                    }
                } else {
                    assert(!sets_overlap(sv[z], sv[y]));
                }
            } else {
                assert(from_hit_class(members, hits, hits.len() as int, merged_members[xm]));
                let gg = choose|gg: int|
                    0 <= gg < hits.len() && hits[gg] && #[trigger] group_has(
                        members,
                        gg,
                        merged_members[xm],
                    );
                let xw = choose|xw: int|
                    0 <= xw < members[gg].len() && #[trigger] members[gg][xw] == merged_members[
                    xm];
                assert(gg != srcs[go]);
                assert(!sets_overlap(sv[members[gg][xw]], sv[members[srcs[go]][xo]]));
                if !flip {
                    assert(y == members[gg][xw]);
                } else {
                    assert(z == members[srcs[go]][xo] && y == members[gg][xw]);
                    if sets_overlap(sv[z], sv[y]) {
                        lemma_overlap_sym(sv[z], sv[y]);
                        assert(false);
                    }
                }
            }
        }
    }
}

/// The candidate placement passes all four feasibility checks on `v`: every
/// cell is compatible with its expected shape, the ship is not already fully
/// in place, it would touch no other ship, its crossing row or column can
/// still supply the cells it does not already occupy, and each of its cells
/// is a ship square already or has budget left along the incrementing axis.
pub open spec fn placement_feasible(v: BoardView, ship: Ship) -> bool {
    &&& forall|i: int| 0 <= i < ship.size ==> spec_compat_at(v, ship, i)
    &&& !(forall|i: int| 0 <= i < ship.size ==> spec_exact_at(v, ship, i))
    &&& spec_clear_of_others(v, ship)
    &&& v.remaining(constant_axis_slot(ship)) >= ship.size - ship_cells_count(v, ship)
    &&& forall|i: int|
        0 <= i < ship.size ==> v.cell(#[trigger] spec_nth_coord(ship, i)).spec_is_ship()
            || v.remaining(incrementing_axis_slot(ship, i)) >= 1
}

/// The feasible placements of a ship of the given size, in head order.
pub open spec fn feasible_heads(v: BoardView, expected_ship: ExpectedShip) -> Seq<
    crate::ship::ShipHead,
> {
    crate::layout::possible_heads_seq(v.layout, expected_ship).filter(
        |h: crate::ship::ShipHead|
            placement_feasible(v, Ship { head: h, size: expected_ship.size }),
    )
}

/// The cell sets of the feasible placements, in head order.
pub open spec fn feasible_coord_sets(v: BoardView, es: ExpectedShip) -> Seq<Seq<Coord>> {
    feasible_heads(v, es).map_values(
        |h: crate::ship::ShipHead| spec_ship_coords(Ship { head: h, size: es.size }),
    )
}

/// Apply the only-place-it-can-go reasoning for one ship size: keep the
/// feasible candidate placements; commit them whole when they are exactly as
/// many as the remaining ships, and otherwise commit the cells common to
/// each transitive overlap group when the groups are exactly as many as the
/// remaining ships. When the feasible placements are exactly as many as the
/// ships and the rule succeeds, every one of them stands complete on the
/// final board.
pub fn find_only_place_for_ship(
    board: &mut Board,
    expected_ship: ExpectedShip,
    num_ships: usize,
) -> (r: Result<(), Error>)
    requires
        old(board).wf(),
        expected_ship.size >= 1,
    ensures
        final(board).wf(),
        evolves(old(board)@, final(board)@),
        forall|rr: int, cc: int|
            0 <= rr < old(board)@.squares.len() && 0 <= cc < old(board)@.squares[rr].len()
                ==> only_ships_added(old(board)@, final(board)@, rr, cc),
        (r is Ok && feasible_heads(old(board)@, expected_ship).len() == num_ships) ==> forall|
            t: int,
        |
            0 <= t < num_ships ==> final(board)@.ship_found(
                Ship {
                    head: #[trigger] feasible_heads(old(board)@, expected_ship)[t],
                    size: expected_ship.size,
                },
            ),
        (r is Ok && final(board)@ == old(board)@) ==> !(feasible_heads(
            old(board)@,
            expected_ship,
        ).len() == num_ships && num_ships > 0),
        (feasible_heads(old(board)@, expected_ship).len() == 0 && num_ships > 0) ==> r is Ok
            && final(board)@ == old(board)@,
        (r is Ok && feasible_heads(old(board)@, expected_ship).len() != num_ships) ==> exists|
            members: Seq<Seq<int>>,
        |
            #[trigger] groups_partition(feasible_coord_sets(old(board)@, expected_ship), members)
                && ((members.len() == num_ships) ==> forall|g: int, c: Coord|
                0 <= g < members.len() && #[trigger] group_common(
                    feasible_coord_sets(old(board)@, expected_ship),
                    members,
                    g,
                    c,
                ) ==> final(board)@.cell(c).spec_is_ship()) && ((members.len() != num_ships)
                ==> final(board)@ == old(board)@),
        r is Err ==> (r->Err_0 is BadTransition || r->Err_0 is CounterExhausted),
{
    let ghost pre = board@;
    let layout = board.layout();
    let heads = layout.possible_heads_for_ship(expected_ship);
    let ghost pred = |h: crate::ship::ShipHead|
        placement_feasible(pre, Ship { head: h, size: expected_ship.size });
    let mut placements: Vec<crate::ship::ShipHead> = Vec::new();
    let mut i: usize = 0;
    while i < heads.len()
        invariant
            pre == board@,
            board.wf(),
            expected_ship.size >= 1,
            layout == pre.layout,
            i <= heads@.len(),
            heads@ == crate::layout::possible_heads_seq(pre.layout, expected_ship),
            pred == (|h: crate::ship::ShipHead|
                placement_feasible(pre, Ship { head: h, size: expected_ship.size })),
            forall|t: int|
                0 <= t < heads@.len() ==> (Ship {
                    head: #[trigger] heads@[t],
                    size: expected_ship.size,
                }).spec_in_bounds(pre.layout),
            placements@ == heads@.subrange(0, i as int).filter(pred),
            forall|t: int|
                0 <= t < placements@.len() ==> (Ship {
                    head: #[trigger] placements@[t],
                    size: expected_ship.size,
                }).spec_in_bounds(pre.layout),
        decreases heads@.len() - i,
    {
        let head = heads[i];
        let ship = head.to_ship(expected_ship);
        proof {
            heads@.subrange(0, i as int).lemma_filter_push(head, pred);
            assert(heads@.subrange(0, i + 1 as int) =~= heads@.subrange(0, i as int).push(head));
        }
        if let Some(num_ship_squares) = can_fit_ship_at_coord(board, ship) {
            if would_ship_at_coord_be_clear_of_other_ships(board, ship)
                && enough_free_ships_on_constant_axis(board, ship, num_ship_squares)
                && enough_free_ships_on_incrementing_axis(board, ship) {
                proof {
                    assert(placement_feasible(pre, ship));
                }
                placements.push(head);
            } else {
                proof {
                    assert(!placement_feasible(pre, ship));
                }
            }
        } else {
            proof {
                assert(!placement_feasible(pre, ship));
            }
        }
        i += 1;
    }
    proof {
        assert(heads@.subrange(0, heads@.len() as int) =~= heads@);
        assert(placements@ == feasible_heads(pre, expected_ship));
    }
    if placements.len() == num_ships {
        let mut p: usize = 0;
        while p < placements.len()
            invariant
                pre == old(board)@,
                board.wf(),
                pre.wf(),
                evolves(pre, board@),
                board@.layout == pre.layout,
                expected_ship.size >= 1,
                p <= placements@.len(),
                placements@ == feasible_heads(pre, expected_ship),
                forall|t: int|
                    0 <= t < placements@.len() ==> (Ship {
                        head: #[trigger] placements@[t],
                        size: expected_ship.size,
                    }).spec_in_bounds(pre.layout),
                forall|rr: int, cc: int|
                    0 <= rr < pre.squares.len() && 0 <= cc < pre.squares[rr].len()
                        ==> only_ships_added(pre, board@, rr, cc),
                forall|q: int|
                    0 <= q < p ==> board@.ship_found(
                        Ship { head: #[trigger] placements@[q], size: expected_ship.size },
                    ),
            decreases placements@.len() - p,
        {
            let head = placements[p];
            let ship = head.to_ship(expected_ship);
            let ghost before = board@;
            let res = place_ship_at_coord(board, ship);
            proof {
                lemma_evolves_trans(pre, before, board@);
                assert forall|rr: int, cc: int|
                    0 <= rr < pre.squares.len() && 0 <= cc < pre.squares[rr].len() implies
                only_ships_added(pre, board@, rr, cc) by {
                    assert(only_ships_added(pre, before, rr, cc));
                    assert(only_ships_added(before, board@, rr, cc));
                }
            }
            if let Err(e) = res {
                return Err(e);
            }
            proof {
                assert forall|q: int| 0 <= q < p + 1 implies board@.ship_found(
                    Ship { head: #[trigger] placements@[q], size: expected_ship.size },
                ) by {
                    let qship = Ship { head: placements@[q], size: expected_ship.size };
                    if q < p {
                        assert forall|k: int| 0 <= k < qship.size implies board@.cell(
                            #[trigger] spec_nth_coord(qship, k),
                        ) == Square::ShipSquare(spec_expected_square(qship, k)) by {
                            qship.lemma_coords_in_bounds(pre.layout, k);
                            assert(before.cell(spec_nth_coord(qship, k)) == Square::ShipSquare(
                                spec_expected_square(qship, k),
                            ));
                            assert(crate::board::square_narrows(
                                before.cell(spec_nth_coord(qship, k)),
                                board@.cell(spec_nth_coord(qship, k)),
                            ));
                        }
                    } else {
                        assert(placements@[q] == head);
                    }
                }
            }
            p += 1;
        }
    } else {
        let mut coordinate_sets: Vec<Vec<Coord>> = Vec::new();
        let mut p: usize = 0;
        while p < placements.len()
            invariant
                pre == board@,
                board.wf(),
                layout == pre.layout,
                expected_ship.size >= 1,
                p <= placements@.len(),
                coordinate_sets@.len() == p,
                placements@ == feasible_heads(pre, expected_ship),
                forall|t: int|
                    0 <= t < placements@.len() ==> (Ship {
                        head: #[trigger] placements@[t],
                        size: expected_ship.size,
                    }).spec_in_bounds(pre.layout),
                forall|g: int, x: int|
                    0 <= g < coordinate_sets@.len() && 0 <= x < coordinate_sets@[g]@.len()
                        ==> (#[trigger] coordinate_sets@[g]@[x]).in_bounds(pre.layout),
                forall|p2: int|
                    0 <= p2 < p ==> (#[trigger] coordinate_sets@[p2])@ == feasible_coord_sets(
                        pre,
                        expected_ship,
                    )[p2],
            decreases placements@.len() - p,
        {
            let head = placements[p];
            let ship = head.to_ship(expected_ship);
            match ship.coords(&layout) {
                Some(cs) => {
                    proof {
                        assert forall|x: int| 0 <= x < cs@.len() implies cs@[x].in_bounds(
                            pre.layout,
                        ) by {
                            ship.lemma_coords_in_bounds(pre.layout, x);
                        }
                        assert(feasible_coord_sets(pre, expected_ship)[p as int]
                            == spec_ship_coords(ship));
                    }
                    coordinate_sets.push(cs);
                },
                None => {
                    proof {
                        assert(false);
                    }
                },
            }
            p += 1;
        }
        let partitioned = partition(coordinate_sets);
        let ghost fcs = feasible_coord_sets(pre, expected_ship);
        proof {
            assert(set_views(coordinate_sets@) =~= fcs) by {
                assert forall|p2: int| 0 <= p2 < coordinate_sets@.len() implies set_views(
                    coordinate_sets@,
                )[p2] == fcs[p2] by {
                    assert((coordinate_sets@[p2])@ == fcs[p2]);
                }
            }
        }
        let ghost gmembers = choose|members: Seq<Seq<int>>|
            #[trigger] partition_result_ok(
                set_views(coordinate_sets@),
                set_views(partitioned@),
                members,
            );
        if partitioned.len() == num_ships {
            proof {
                assert forall|g: int, x: int|
                    0 <= g < partitioned@.len() && 0 <= x < partitioned@[g]@.len() implies (
                #[trigger] partitioned@[g]@[x]).in_bounds(pre.layout) by {
                    let c = partitioned@[g]@[x];
                    let s = choose|s: int|
                        0 <= s < coordinate_sets@.len() && (#[trigger] coordinate_sets@[s])@.contains(
                            c,
                        );
                    let y = choose|y: int|
                        0 <= y < coordinate_sets@[s]@.len() && coordinate_sets@[s]@[y] == c;
                }
            }
            let ghost before = board@;
            let res = place_ship_at_intersection_of_coords(board, &partitioned);
            if let Err(e) = res {
                return Err(e);
            }
            proof {
                assert(groups_partition(fcs, gmembers));
                assert forall|g: int, c: Coord|
                    0 <= g < gmembers.len() && #[trigger] group_common(fcs, gmembers, g, c) implies
                board@.cell(c).spec_is_ship() by {
                    // the common cell lies in the group's output set, so the
                    // commit left it known
                    assert(set_views(partitioned@)[g].contains(c)) by {
                        assert(group_common(set_views(coordinate_sets@), gmembers, g, c)) by {
                            assert forall|x: int| 0 <= x < gmembers[g].len() implies (
                            #[trigger] set_views(coordinate_sets@)[gmembers[g][x]]).contains(
                                c,
                            ) by {
                                assert((fcs[gmembers[g][x]]).contains(c));
                            }
                        }
                    }
                    assert(partitioned@[g]@.contains(c));
                    let x0 = choose|x0: int|
                        0 <= x0 < partitioned@[g]@.len() && partitioned@[g]@[x0] == c;
                    assert(board@.cell(partitioned@[g]@[x0]) != Square::Unknown);
                    // the cell is compatible with some feasible placement,
                    // so it was never water
                    let k = gmembers[g][0];
                    assert(0 <= k < fcs.len());
                    assert((fcs[k]).contains(c)) by {
                        assert(group_common(fcs, gmembers, g, c));
                        assert((fcs[gmembers[g][0]]).contains(c));
                    }
                    let kship = Ship { head: feasible_heads(pre, expected_ship)[k], size: expected_ship.size };
                    assert(fcs[k] == spec_ship_coords(kship));
                    let ci = choose|ci: int|
                        0 <= ci < spec_ship_coords(kship).len() && spec_ship_coords(kship)[ci]
                            == c;
                    crate::layout::possible_heads_seq(
                        pre.layout,
                        expected_ship,
                    ).lemma_filter_pred(
                        |h: crate::ship::ShipHead|
                            placement_feasible(pre, Ship { head: h, size: expected_ship.size }),
                        k,
                    );
                    assert(placement_feasible(pre, kship));
                    assert(spec_compat_at(pre, kship, ci));
                    assert(spec_nth_coord(kship, ci) == c);
                    kship.lemma_coords_in_bounds(pre.layout, ci);
                    assert(only_ships_added(pre, board@, c.row_num as int, c.col_num as int));
                }
            }
        } else {
            proof {
                assert(gmembers.len() == partitioned@.len());
            }
        }
        proof {
            if placements@.len() != num_ships {
                assert(groups_partition(fcs, gmembers));
                assert((gmembers.len() == num_ships) ==> forall|g: int, c: Coord|
                    0 <= g < gmembers.len() && #[trigger] group_common(fcs, gmembers, g, c)
                        ==> board@.cell(c).spec_is_ship());
                assert((gmembers.len() != num_ships) ==> board@ == pre);
            }
        }
    }
    proof {
        if board@ == pre && placements@.len() == num_ships && num_ships > 0 {
            heads@.lemma_filter_pred(pred, 0);
            let ship0 = Ship { head: placements@[0], size: expected_ship.size };
            assert(placement_feasible(pre, ship0));
            let i0 = choose|i0: int| 0 <= i0 < ship0.size && !spec_exact_at(pre, ship0, i0);
            assert(board@.ship_found(ship0));
            assert(board@.cell(spec_nth_coord(ship0, i0)) == Square::ShipSquare(
                spec_expected_square(ship0, i0),
            ));
            assert(false);
        }
    }
    Ok(())
}

/// A complete ship stays complete: its squares hold concrete shapes, which
/// only narrow to themselves.
pub proof fn lemma_ship_found_persists(a: BoardView, b: BoardView, ship: Ship)
    requires
        evolves(a, b),
        a.wf(),
        ship.size >= 1,
        a.ship_found(ship),
    ensures
        b.ship_found(ship),
{
    assert forall|i: int| 0 <= i < ship.size implies b.cell(#[trigger] spec_nth_coord(ship, i))
        == Square::ShipSquare(spec_expected_square(ship, i)) by {
        ship.lemma_coords_in_bounds(a.layout, i);
        assert(a.cell(spec_nth_coord(ship, i)) == Square::ShipSquare(
            spec_expected_square(ship, i),
        ));
        assert(crate::board::square_narrows(
            a.cell(spec_nth_coord(ship, i)),
            b.cell(spec_nth_coord(ship, i)),
        ));
    }
}

/// Run the only-place-it-can-go reasoning for every ship size whose
/// remaining count is positive, in manifest order. The first size is
/// reasoned about against exactly the entry board: when its feasible
/// placements are as many as its remaining ships, all of them stand
/// complete afterwards. When the whole rule reports no change, no remaining
/// size has a nonempty feasible set exactly as large as its remaining count.
pub fn find_only_place_for_ships(board: &mut Board) -> (r: Result<(), Error>)
    requires
        old(board).wf(),
    ensures
        final(board).wf(),
        evolves(old(board)@, final(board)@),
        forall|rr: int, cc: int|
            0 <= rr < old(board)@.squares.len() && 0 <= cc < old(board)@.squares[rr].len()
                ==> only_ships_added(old(board)@, final(board)@, rr, cc),
        r is Err ==> (r->Err_0 is BadTransition || r->Err_0 is CounterExhausted),
        (r is Ok && old(board)@.spec_remaining_expected().len() >= 1 && feasible_heads(
            old(board)@,
            old(board)@.spec_remaining_expected()[0],
        ).len() == old(board)@.spec_num_remaining(
            old(board)@.spec_remaining_expected()[0].size,
        )) ==> forall|t: int|
            0 <= t < feasible_heads(old(board)@, old(board)@.spec_remaining_expected()[0]).len()
                ==> final(board)@.ship_found(
                Ship {
                    head: #[trigger] feasible_heads(
                        old(board)@,
                        old(board)@.spec_remaining_expected()[0],
                    )[t],
                    size: old(board)@.spec_remaining_expected()[0].size,
                },
            ),
        (r is Ok && !old(board)@.dirty && !final(board)@.dirty) ==> forall|t: int|
            0 <= t < final(board)@.spec_remaining_expected().len() ==> !(feasible_heads(
                final(board)@,
                #[trigger] final(board)@.spec_remaining_expected()[t],
            ).len() == final(board)@.spec_num_remaining(
                final(board)@.spec_remaining_expected()[t].size,
            ) && feasible_heads(final(board)@, final(board)@.spec_remaining_expected()[t]).len()
                > 0),
        (forall|t: int|
            0 <= t < old(board)@.spec_remaining_expected().len() ==> feasible_heads(
                old(board)@,
                #[trigger] old(board)@.spec_remaining_expected()[t],
            ).len() == 0) ==> r is Ok && final(board)@ == old(board)@,
{
    let ghost pre = board@;
    let expected_ships = board.remaining_expected_ships();
    let mut i: usize = 0;
    proof {
        crate::board::lemma_evolves_refl(pre);
    }
    while i < expected_ships.len()
        invariant
            pre == old(board)@,
            board.wf(),
            pre.wf(),
            evolves(pre, board@),
            board@.layout == pre.layout,
            expected_ships@ == pre.spec_remaining_expected(),
            i <= expected_ships@.len(),
            i == 0 ==> board@ == pre,
            forall|t: int|
                0 <= t < expected_ships@.len() ==> 1 <= (#[trigger] expected_ships@[t]).size <= 9,
            forall|rr: int, cc: int|
                0 <= rr < pre.squares.len() && 0 <= cc < pre.squares[rr].len()
                    ==> only_ships_added(pre, board@, rr, cc),
            (i >= 1 && feasible_heads(pre, expected_ships@[0]).len() == pre.spec_num_remaining(
                expected_ships@[0].size,
            )) ==> forall|t: int|
                0 <= t < feasible_heads(pre, expected_ships@[0]).len() ==> board@.ship_found(
                    Ship {
                        head: #[trigger] feasible_heads(pre, expected_ships@[0])[t],
                        size: expected_ships@[0].size,
                    },
                ),
            board@ == pre ==> forall|j: int|
                0 <= j < i ==> !(feasible_heads(pre, #[trigger] expected_ships@[j]).len()
                    == pre.spec_num_remaining(expected_ships@[j].size) && feasible_heads(
                    pre,
                    expected_ships@[j],
                ).len() > 0),
            (forall|t: int|
                0 <= t < expected_ships@.len() ==> feasible_heads(
                    pre,
                    #[trigger] expected_ships@[t],
                ).len() == 0) ==> board@ == pre,
        decreases expected_ships@.len() - i,
    {
        let expected_ship = expected_ships[i];
        let num_ships = board.num_remaining_ships_to_find(expected_ship);
        proof {
            if forall|t: int|
                0 <= t < expected_ships@.len() ==> feasible_heads(
                    pre,
                    #[trigger] expected_ships@[t],
                ).len() == 0 {
                assert(board@ == pre);
                assert(feasible_heads(pre, expected_ships@[i as int]).len() == 0);
                let pred = |p: (ExpectedShip, usize)| pre.spec_num_remaining(p.0.size) > 0;
                let filtered = pre.ships_to_find.filter(pred);
                assert(expected_ships@[i as int] == filtered.map_values(
                    |p: (ExpectedShip, usize)| p.0,
                )[i as int]);
                pre.ships_to_find.lemma_filter_pred(pred, i as int);
                assert(pred(filtered[i as int]));
                assert(pre.spec_num_remaining(expected_ship.size) > 0);
            }
        }
        let ghost before = board@;
        let res = find_only_place_for_ship(board, expected_ship, num_ships);
        proof {
            lemma_evolves_trans(pre, before, board@);
            assert forall|rr: int, cc: int|
                0 <= rr < pre.squares.len() && 0 <= cc < pre.squares[rr].len() implies
            only_ships_added(pre, board@, rr, cc) by {
                assert(only_ships_added(pre, before, rr, cc));
                assert(only_ships_added(before, board@, rr, cc));
            }
        }
        if let Err(e) = res {
            return Err(e);
        }
        proof {
            if i == 0 && feasible_heads(pre, expected_ships@[0]).len()
                == pre.spec_num_remaining(expected_ships@[0].size) {
                assert(before == pre);
                assert(num_ships as int == pre.spec_num_remaining(expected_ship.size));
            }
            if i >= 1 && feasible_heads(pre, expected_ships@[0]).len()
                == pre.spec_num_remaining(expected_ships@[0].size) {
                let es0 = expected_ships@[0];
                assert forall|t: int|
                    0 <= t < feasible_heads(pre, es0).len() implies board@.ship_found(
                    Ship { head: #[trigger] feasible_heads(pre, es0)[t], size: es0.size },
                ) by {
                    let ship_t = Ship { head: feasible_heads(pre, es0)[t], size: es0.size };
                    assert(before.ship_found(ship_t));
                    lemma_ship_found_persists(before, board@, ship_t);
                }
            }
            if board@ == pre {
                crate::board::lemma_evolves_sandwich(pre, before, board@);
                assert forall|j: int| 0 <= j < i + 1 implies !(feasible_heads(
                    pre,
                    #[trigger] expected_ships@[j],
                ).len() == pre.spec_num_remaining(expected_ships@[j].size) && feasible_heads(
                    pre,
                    expected_ships@[j],
                ).len() > 0) by {
                    if j == i {
                        assert(num_ships as int == pre.spec_num_remaining(expected_ship.size));
                    }
                }
            }
        }
        i += 1;
    }
    proof {
        if !pre.dirty && !board@.dirty {
            crate::board::lemma_clean_pass_is_identity(pre, board@);
        }
    }
    Ok(())
}

} // verus!
