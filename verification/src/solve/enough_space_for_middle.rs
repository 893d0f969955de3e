//! An unresolved middle with open surroundings resolves by counting: a ship
//! through a middle needs two more squares on its axis, so an axis whose
//! remaining count cannot supply them is ruled out.

use vstd::prelude::*;

use crate::board::{evolves, lemma_evolves_trans, Board};
use crate::error::Error;
use crate::layout::{all_coords_seq, lemma_all_coords_in_bounds, spec_neighbor, Axis, Coord, RowOrCol};
use crate::neighbor::Neighbor;
use crate::solve::specify_middles::only_oriented;
use crate::square::{ShipSquare, Square};

verus! {

/// The neighbor of `c` in direction `n` lies on the grid and is still
/// unknown.
fn is_unknown_at(board: &Board, c: Coord, n: Neighbor) -> (r: bool)
    requires
        board.wf(),
        c.in_bounds(board@.layout),
    ensures
        r == (spec_neighbor(c, n, board@.layout) is Some && board@.cell(
            spec_neighbor(c, n, board@.layout)->Some_0,
        ) == Square::Unknown),
{
    let layout = board.layout();
    match c.neighbor(n, &layout) {
        Some(nc) => board.square_at(nc) == Square::Unknown,
        None => false,
    }
}

/// An unresolved middle whose four neighbors all lie on the grid and are
/// still unknown: the cells this rule examines.
pub open spec fn middle_is_open(v: crate::board::BoardView, c: Coord) -> bool {
    &&& v.cell(c) == Square::ShipSquare(ShipSquare::AnyMiddle)
    &&& spec_neighbor(c, Neighbor::N, v.layout) is Some && v.cell(
        spec_neighbor(c, Neighbor::N, v.layout)->Some_0,
    ) == Square::Unknown
    &&& spec_neighbor(c, Neighbor::E, v.layout) is Some && v.cell(
        spec_neighbor(c, Neighbor::E, v.layout)->Some_0,
    ) == Square::Unknown
    &&& spec_neighbor(c, Neighbor::S, v.layout) is Some && v.cell(
        spec_neighbor(c, Neighbor::S, v.layout)->Some_0,
    ) == Square::Unknown
    &&& spec_neighbor(c, Neighbor::W, v.layout) is Some && v.cell(
        spec_neighbor(c, Neighbor::W, v.layout)->Some_0,
    ) == Square::Unknown
}

/// The trigger of `enough_space_for_middle` fires nowhere at `c`: if the
/// middle is open, its row and column either both have room for the rest of
/// its ship or both lack it.
pub open spec fn enough_space_quiescent(v: crate::board::BoardView, c: Coord) -> bool {
    middle_is_open(v, c) ==> ((v.remaining(RowOrCol { axis: Axis::Row, index: c.row_num }) >= 2)
        <==> (v.remaining(RowOrCol { axis: Axis::Col, index: c.col_num }) >= 2))
}

/// Unknown cells stay unknown and known cells stay known under
/// middle-orienting writes.
proof fn lemma_unknown_stable(
    pre: crate::board::BoardView,
    cur: crate::board::BoardView,
    c: Coord,
    n: Neighbor,
)
    requires
        cur.layout == pre.layout,
        cur.squares.len() == pre.squares.len(),
        forall|r: int|
            0 <= r < pre.squares.len() ==> (#[trigger] cur.squares[r]).len()
                == pre.squares[r].len(),
        pre.wf(),
        forall|rr: int, cc: int|
            0 <= rr < pre.squares.len() && 0 <= cc < pre.squares[rr].len() ==> only_oriented(
                pre,
                cur,
                rr,
                cc,
            ),
    ensures
        (spec_neighbor(c, n, cur.layout) is Some && cur.cell(
            spec_neighbor(c, n, cur.layout)->Some_0,
        ) == Square::Unknown) == (spec_neighbor(c, n, pre.layout) is Some && pre.cell(
            spec_neighbor(c, n, pre.layout)->Some_0,
        ) == Square::Unknown),
{
    if spec_neighbor(c, n, pre.layout) is Some {
        let nb = spec_neighbor(c, n, pre.layout)->Some_0;
        assert(only_oriented(pre, cur, nb.row_num as int, nb.col_num as int));
    }
}

/// What this rule writes at `c`: for an open unresolved middle, the
/// orientation the remaining counts force, or the unresolved middle itself
/// when both axes have room; every other cell keeps its value.
pub open spec fn counted_orientation(v: crate::board::BoardView, c: Coord) -> Square {
    if v.cell(c) == Square::ShipSquare(ShipSquare::AnyMiddle) && middle_is_open(v, c) {
        if v.remaining(RowOrCol { axis: Axis::Row, index: c.row_num }) >= 2 && v.remaining(
            RowOrCol { axis: Axis::Col, index: c.col_num },
        ) < 2 {
            Square::ShipSquare(ShipSquare::HorizontalMiddle)
        } else if v.remaining(RowOrCol { axis: Axis::Row, index: c.row_num }) < 2 && v.remaining(
            RowOrCol { axis: Axis::Col, index: c.col_num },
        ) >= 2 {
            Square::ShipSquare(ShipSquare::VerticalMiddle)
        } else {
            v.cell(c)
        }
    } else {
        v.cell(c)
    }
}

/// An open unresolved middle with room for the rest of its ship on neither
/// axis: the contradiction this rule reports.
pub open spec fn middle_out_of_room(v: crate::board::BoardView, c: Coord) -> bool {
    &&& v.cell(c) == Square::ShipSquare(ShipSquare::AnyMiddle)
    &&& middle_is_open(v, c)
    &&& v.remaining(RowOrCol { axis: Axis::Row, index: c.row_num }) < 2
    &&& v.remaining(RowOrCol { axis: Axis::Col, index: c.col_num }) < 2
}

/// Resolve every unresolved middle whose four neighbors are open unknown
/// cells by the remaining counts: a row with fewer than two remaining
/// squares cannot carry the ship, so the middle turns vertical, and likewise
/// a column turns it horizontal; nothing else changes. The rule fails
/// exactly when some open middle has room on neither axis, naming that
/// cell.
pub fn enough_space_for_middle(board: &mut Board) -> (r: Result<(), Error>)
    requires
        old(board).wf(),
    ensures
        final(board).wf(),
        evolves(old(board)@, final(board)@),
        forall|rr: int, cc: int|
            0 <= rr < old(board)@.squares.len() && 0 <= cc < old(board)@.squares[rr].len()
                ==> only_oriented(old(board)@, final(board)@, rr, cc),
        r is Err <==> exists|c: Coord|
            c.in_bounds(old(board)@.layout) && #[trigger] middle_out_of_room(old(board)@, c),
        r matches Err(e) ==> exists|c: Coord|
            c.in_bounds(old(board)@.layout) && #[trigger] middle_out_of_room(old(board)@, c) && e
                == (Error::NoSpaceForMiddle { at: c }),
        r is Ok ==> forall|c: Coord|
            c.in_bounds(old(board)@.layout) ==> final(board)@.cell(c) == counted_orientation(
                old(board)@,
                c,
            ),
        (r is Ok && !old(board)@.dirty && !final(board)@.dirty) ==> forall|c: Coord|
            c.in_bounds(final(board)@.layout) ==> enough_space_quiescent(final(board)@, c),
{
    let ghost pre = board@;
    let layout = board.layout();
    let coords = layout.all_coordinates();
    let mut i: usize = 0;
    while i < coords.len()
        invariant
            pre == old(board)@,
            board.wf(),
            pre.wf(),
            evolves(pre, board@),
            board@.layout == pre.layout,
            layout == pre.layout,
            coords@ == all_coords_seq(pre.layout),
            i <= coords@.len(),
            board@.remaining_row == pre.remaining_row,
            board@.remaining_col == pre.remaining_col,
            forall|rr: int, cc: int|
                0 <= rr < pre.squares.len() && 0 <= cc < pre.squares[rr].len() ==> only_oriented(
                    pre,
                    board@,
                    rr,
                    cc,
                ),
            forall|k2: int|
                0 <= k2 < i ==> board@.cell(#[trigger] coords@[k2]) == counted_orientation(
                    pre,
                    coords@[k2],
                ),
            forall|k2: int|
                i <= k2 < coords@.len() ==> board@.cell(#[trigger] coords@[k2]) == pre.cell(
                    coords@[k2],
                ),
            forall|k2: int|
                0 <= k2 < i ==> !middle_out_of_room(pre, #[trigger] coords@[k2]),
        decreases coords@.len() - i,
    {
        let c = coords[i];
        proof {
            lemma_all_coords_in_bounds(pre.layout, i as int);
            assert(board@.cell(c) == pre.cell(c));
        }
        let ghost at_start = board@;
        if board.square_at(c) == Square::ShipSquare(ShipSquare::AnyMiddle) {
            let open_all = is_unknown_at(board, c, Neighbor::N) && is_unknown_at(
                board,
                c,
                Neighbor::E,
            ) && is_unknown_at(board, c, Neighbor::S) && is_unknown_at(board, c, Neighbor::W);
            proof {
                lemma_unknown_stable(pre, board@, c, Neighbor::N);
                lemma_unknown_stable(pre, board@, c, Neighbor::E);
                lemma_unknown_stable(pre, board@, c, Neighbor::S);
                lemma_unknown_stable(pre, board@, c, Neighbor::W);
                assert(open_all == middle_is_open(pre, c));
            }
            if open_all {
                let has_space_in_row = board.ship_squares_remaining(c.row()) >= 2;
                let has_space_in_col = board.ship_squares_remaining(c.col()) >= 2;
                if !has_space_in_row && !has_space_in_col {
                    proof {
                        assert(middle_out_of_room(pre, c));
                    }
                    return Err(Error::NoSpaceForMiddle { at: c });
                }
                if has_space_in_row != has_space_in_col {
                    let new_value = if has_space_in_row {
                        Square::ShipSquare(ShipSquare::HorizontalMiddle)
                    } else {
                        Square::ShipSquare(ShipSquare::VerticalMiddle)
                    };
                    let ghost before = board@;
                    let res = board.set(c, new_value);
                    proof {
                        lemma_evolves_trans(pre, before, board@);
                        assert forall|rr: int, cc: int|
                            0 <= rr < pre.squares.len() && 0 <= cc
                                < pre.squares[rr].len() implies only_oriented(
                            pre,
                            board@,
                            rr,
                            cc,
                        ) by {
                            assert(only_oriented(pre, before, rr, cc));
                        }
                        assert(res is Ok);
                        assert forall|k2: int|
                            0 <= k2 < coords@.len() && k2 != i implies board@.cell(
                            #[trigger] coords@[k2],
                        ) == before.cell(coords@[k2]) by {
                            lemma_all_coords_in_bounds(pre.layout, k2);
                            let q = coords@[k2];
                            if q == c {
                                crate::layout::lemma_all_coords_injective(
                                    pre.layout,
                                    k2,
                                    i as int,
                                );
                            }
                            if q.row_num == c.row_num {
                                assert(q.col_num != c.col_num);
                                assert(board@.squares[q.row_num as int]
                                    == before.squares[c.row_num as int].update(
                                    c.col_num as int,
                                    new_value,
                                ));
                                assert(board@.squares[q.row_num as int][q.col_num as int]
                                    == before.squares[q.row_num as int][q.col_num as int]);
                            } else {
                                assert(board@.squares[q.row_num as int]
                                    == before.squares[q.row_num as int]);
                            }
                        }
                        assert(board@.cell(c) == new_value);
                        assert(new_value == counted_orientation(pre, c));
                    }
                    if let Err(e) = res {
                        proof {
                            assert(false);
                        }
                        return Err(e);
                    }
                } else {
                    proof {
                        assert(counted_orientation(pre, c) == pre.cell(c));
                    }
                }
            } else {
                proof {
                    assert(counted_orientation(pre, c) == pre.cell(c));
                }
            }
        } else {
            proof {
                assert(counted_orientation(pre, c) == pre.cell(c));
            }
        }
        i += 1;
    }
    proof {
        assert forall|c: Coord| c.in_bounds(pre.layout) implies board@.cell(c)
            == counted_orientation(pre, c) by {
            crate::layout::lemma_all_coords_complete(pre.layout, c);
            let idx = c.row_num * pre.layout.num_cols + c.col_num as int;
            assert(coords@[idx] == c);
        }
        assert forall|c: Coord|
            c.in_bounds(pre.layout) implies !(#[trigger] middle_out_of_room(pre, c)) by {
            crate::layout::lemma_all_coords_complete(pre.layout, c);
            let idx = c.row_num * pre.layout.num_cols + c.col_num as int;
            assert(coords@[idx] == c);
        }
        if !pre.dirty && !board@.dirty {
            assert(board@ == pre);
            assert forall|c: Coord| c.in_bounds(board@.layout) implies enough_space_quiescent(
                board@,
                c,
            ) by {
                if board@.cell(c) == Square::ShipSquare(ShipSquare::AnyMiddle) && middle_is_open(
                    board@,
                    c,
                ) {
                    assert(board@.cell(c) == counted_orientation(pre, c));
                    assert(!middle_out_of_room(pre, c));
                }
            }
        }
    }
    Ok(())
}

} // verus!
