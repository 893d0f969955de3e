//! An end cap implies a ship square in its open direction; this rule places
//! a generic ship square there. A cap whose open direction leaves the grid
//! is a contradiction and surfaces as an error.

use vstd::prelude::*;

use crate::board::{evolves, lemma_evolves_trans, Board, BoardView};
use crate::error::Error;
use crate::layout::{all_coords_seq, lemma_all_coords_complete, spec_neighbor, Coord};
use crate::neighbor::Neighbor;
use crate::solve::fill_unknown::only_filled;
use crate::square::{ShipSquare, Square};

verus! {

/// The open direction of an end cap: the direction in which the rest of its
/// ship must continue.
pub open spec fn cap_open_direction(s: Square) -> Option<Neighbor> {
    match s {
        Square::ShipSquare(ShipSquare::TopEnd) => Some(Neighbor::S),
        Square::ShipSquare(ShipSquare::BottomEnd) => Some(Neighbor::N),
        Square::ShipSquare(ShipSquare::LeftEnd) => Some(Neighbor::E),
        Square::ShipSquare(ShipSquare::RightEnd) => Some(Neighbor::W),
        _ => None,
    }
}

/// The cell `t` is the open-direction neighbor of some end cap of `v`.
pub open spec fn is_cap_open_neighbor(v: BoardView, t: Coord) -> bool {
    exists|c: Coord|
        c.in_bounds(v.layout) && (#[trigger] cap_open_direction(v.cell(c))) is Some
            && spec_neighbor(c, cap_open_direction(v.cell(c))->Some_0, v.layout) == Some(t)
}

/// Some end cap of `v` has its open direction off the grid: the
/// contradiction this rule reports.
pub open spec fn some_cap_off_grid(v: BoardView) -> bool {
    exists|c: Coord|
        c.in_bounds(v.layout) && (#[trigger] cap_open_direction(v.cell(c))) is Some
            && spec_neighbor(c, cap_open_direction(v.cell(c))->Some_0, v.layout) is None
}

/// Place a generic ship square on the open side of every end cap whose open
/// neighbor is still unknown. Changes cells only from `Unknown` to the
/// generic ship square, and only at the open neighbors of end caps. A cap
/// whose open neighbor is off the grid is a contradiction: it forces an
/// error naming the cap, its coordinate and the missing direction. On
/// success every cap's open neighbor is on the grid and no longer unknown.
pub fn place_ships_next_to_ends(board: &mut Board) -> (r: Result<(), Error>)
    requires
        old(board).wf(),
    ensures
        final(board).wf(),
        evolves(old(board)@, final(board)@),
        forall|rr: int, cc: int|
            0 <= rr < old(board)@.squares.len() && 0 <= cc < old(board)@.squares[rr].len()
                ==> only_filled(
                old(board)@,
                final(board)@,
                Square::ShipSquare(ShipSquare::Any),
                rr,
                cc,
            ),
        forall|rr: int, cc: int|
            0 <= rr < old(board)@.squares.len() && 0 <= cc < old(board)@.squares[rr].len()
                && final(board)@.squares[rr][cc] != old(board)@.squares[rr][cc]
                ==> is_cap_open_neighbor(
                old(board)@,
                Coord { row_num: rr as usize, col_num: cc as usize },
            ),
        some_cap_off_grid(old(board)@) ==> r is Err,
        (!some_cap_off_grid(old(board)@) && (forall|c: Coord|
            c.in_bounds(old(board)@.layout) && (#[trigger] cap_open_direction(
                old(board)@.cell(c),
            )) is Some ==> old(board)@.cell(
                spec_neighbor(
                    c,
                    cap_open_direction(old(board)@.cell(c))->Some_0,
                    old(board)@.layout,
                )->Some_0,
            ) != Square::Unknown)) ==> r is Ok && final(board)@ == old(board)@,
        r matches Err(e) ==> (exists|c: Coord|
            c.in_bounds(old(board)@.layout) && (#[trigger] cap_open_direction(
                old(board)@.cell(c),
            )) is Some && spec_neighbor(
                c,
                cap_open_direction(old(board)@.cell(c))->Some_0,
                old(board)@.layout,
            ) is None && e == (Error::NoRoomForNeighbor {
                at: c,
                current: old(board)@.cell(c),
                direction: cap_open_direction(old(board)@.cell(c))->Some_0,
            })) || e is CounterExhausted,
        r is Ok ==> forall|c: Coord|
            c.in_bounds(final(board)@.layout) && (#[trigger] cap_open_direction(
                final(board)@.cell(c),
            )) is Some ==> spec_neighbor(
                c,
                cap_open_direction(final(board)@.cell(c))->Some_0,
                final(board)@.layout,
            ) is Some && final(board)@.cell(
                spec_neighbor(
                    c,
                    cap_open_direction(final(board)@.cell(c))->Some_0,
                    final(board)@.layout,
                )->Some_0,
            ) != Square::Unknown,
{
    let ghost pre = board@;
    let layout = board.layout();
    let coords = layout.all_coordinates();
    let mut i: usize = 0;
    while i < coords.len()
        invariant
            pre == old(board)@,
            board.wf(),
            pre.wf(),
            evolves(pre, board@),
            board@.layout == pre.layout,
            layout == pre.layout,
            coords@ == all_coords_seq(pre.layout),
            i <= coords@.len(),
            forall|rr: int, cc: int|
                0 <= rr < pre.squares.len() && 0 <= cc < pre.squares[rr].len() ==> only_filled(
                    pre,
                    board@,
                    Square::ShipSquare(ShipSquare::Any),
                    rr,
                    cc,
                ),
            forall|rr: int, cc: int|
                0 <= rr < pre.squares.len() && 0 <= cc < pre.squares[rr].len()
                    && board@.squares[rr][cc] != pre.squares[rr][cc] ==> is_cap_open_neighbor(
                    pre,
                    Coord { row_num: rr as usize, col_num: cc as usize },
                ),
            (!some_cap_off_grid(pre) && (forall|c: Coord|
                c.in_bounds(pre.layout) && (#[trigger] cap_open_direction(pre.cell(c))) is Some
                    ==> pre.cell(
                    spec_neighbor(
                        c,
                        cap_open_direction(pre.cell(c))->Some_0,
                        pre.layout,
                    )->Some_0,
                ) != Square::Unknown)) ==> board@ == pre,
            forall|k: int|
                0 <= k < i && (#[trigger] cap_open_direction(board@.cell(coords@[k]))) is Some
                    ==> spec_neighbor(
                    coords@[k],
                    cap_open_direction(board@.cell(coords@[k]))->Some_0,
                    pre.layout,
                ) is Some && board@.cell(
                    spec_neighbor(
                        coords@[k],
                        cap_open_direction(board@.cell(coords@[k]))->Some_0,
                        pre.layout,
                    )->Some_0,
                ) != Square::Unknown,
        decreases coords@.len() - i,
    {
        let c = coords[i];
        proof {
            crate::layout::lemma_all_coords_in_bounds(pre.layout, i as int);
        }
        let sq = board.square_at(c);
        let dir_opt: Option<Neighbor> = match sq {
            Square::ShipSquare(ShipSquare::TopEnd) => Some(Neighbor::S),
            Square::ShipSquare(ShipSquare::BottomEnd) => Some(Neighbor::N),
            Square::ShipSquare(ShipSquare::LeftEnd) => Some(Neighbor::E),
            Square::ShipSquare(ShipSquare::RightEnd) => Some(Neighbor::W),
            _ => None,
        };
        if let Some(dir) = dir_opt {
            match c.neighbor(dir, &layout) {
                None => {
                    proof {
                        assert(only_filled(
                            pre,
                            board@,
                            Square::ShipSquare(ShipSquare::Any),
                            c.row_num as int,
                            c.col_num as int,
                        ));
                        assert(pre.cell(c) == sq);
                        assert(cap_open_direction(pre.cell(c)) == Some(dir));
                        assert(spec_neighbor(c, dir, pre.layout) is None);
                        assert(some_cap_off_grid(pre));
                    }
                    return Err(
                        Error::NoRoomForNeighbor { at: c, current: sq, direction: dir },
                    );
                },
                Some(nc) => {
                    let ghost before = board@;
                    if board.square_at(nc) == Square::Unknown {
                        proof {
                            if !some_cap_off_grid(pre) && (forall|c2: Coord|
                                c2.in_bounds(pre.layout) && (#[trigger] cap_open_direction(
                                    pre.cell(c2),
                                )) is Some ==> pre.cell(
                                    spec_neighbor(
                                        c2,
                                        cap_open_direction(pre.cell(c2))->Some_0,
                                        pre.layout,
                                    )->Some_0,
                                ) != Square::Unknown) {
                                assert(board@ == pre);
                                assert(pre.cell(c) == sq);
                                assert(cap_open_direction(pre.cell(c)) is Some);
                                assert(pre.cell(nc) != Square::Unknown);
                                assert(false);
                            }
                        }
                        let res = board.set(nc, Square::ShipSquare(ShipSquare::Any));
                        proof {
                            lemma_evolves_trans(pre, before, board@);
                            assert forall|rr: int, cc: int|
                                0 <= rr < pre.squares.len() && 0 <= cc
                                    < pre.squares[rr].len() implies only_filled(
                                pre,
                                board@,
                                Square::ShipSquare(ShipSquare::Any),
                                rr,
                                cc,
                            ) by {
                                assert(only_filled(
                                    pre,
                                    before,
                                    Square::ShipSquare(ShipSquare::Any),
                                    rr,
                                    cc,
                                ));
                            }
                        }
                        proof {
                            assert(only_filled(
                                pre,
                                before,
                                Square::ShipSquare(ShipSquare::Any),
                                c.row_num as int,
                                c.col_num as int,
                            ));
                            assert(pre.cell(c) == sq);
                            assert(cap_open_direction(pre.cell(c)) == Some(dir));
                            assert(spec_neighbor(c, dir, pre.layout) == Some(nc));
                            assert(is_cap_open_neighbor(pre, nc));
                            assert forall|rr: int, cc: int|
                                0 <= rr < pre.squares.len() && 0 <= cc < pre.squares[rr].len()
                                    && board@.squares[rr][cc] != pre.squares[rr][cc] implies
                            is_cap_open_neighbor(
                                pre,
                                Coord { row_num: rr as usize, col_num: cc as usize },
                            ) by {
                                if board@.squares[rr][cc] != before.squares[rr][cc] {
                                    assert(rr == nc.row_num && cc == nc.col_num);
                                    assert((Coord { row_num: rr as usize, col_num: cc as usize })
                                        == nc);
                                }
                            }
                        }
                        if let Err(e) = res {
                            proof {
                                assert(e is CounterExhausted);
                            }
                            return Err(e);
                        }
                    }
                    proof {
                        assert(board@.cell(nc) != Square::Unknown);
                        assert forall|k: int|
                            0 <= k < i + 1 && (#[trigger] cap_open_direction(
                                board@.cell(coords@[k]),
                            )) is Some implies spec_neighbor(
                            coords@[k],
                            cap_open_direction(board@.cell(coords@[k]))->Some_0,
                            pre.layout,
                        ) is Some && board@.cell(
                            spec_neighbor(
                                coords@[k],
                                cap_open_direction(board@.cell(coords@[k]))->Some_0,
                                pre.layout,
                            )->Some_0,
                        ) != Square::Unknown by {
                            if k < i {
                                let ck = coords@[k];
                                crate::layout::lemma_all_coords_in_bounds(pre.layout, k);
                                if ck == nc {
                                    assert(before.cell(ck) != Square::Unknown || board@.cell(ck)
                                        == Square::ShipSquare(ShipSquare::Any));
                                } else {
                                    assert(board@.cell(ck) == before.cell(ck));
                                }
                                assert(cap_open_direction(board@.cell(ck)) is Some
                                    ==> cap_open_direction(before.cell(ck)) == cap_open_direction(
                                    board@.cell(ck),
                                ));
                            } else {
                                assert(coords@[k] == c);
                                assert(board@.cell(c) == sq);
                            }
                        }
                    }
                },
            }
        } else {
            proof {
                assert forall|k: int|
                    0 <= k < i + 1 && (#[trigger] cap_open_direction(
                        board@.cell(coords@[k]),
                    )) is Some implies spec_neighbor(
                    coords@[k],
                    cap_open_direction(board@.cell(coords@[k]))->Some_0,
                    pre.layout,
                ) is Some && board@.cell(
                    spec_neighbor(
                        coords@[k],
                        cap_open_direction(board@.cell(coords@[k]))->Some_0,
                        pre.layout,
                    )->Some_0,
                ) != Square::Unknown by {
                    if k == i {
                        assert(coords@[k] == c);
                        assert(cap_open_direction(board@.cell(c)) is None);
                    }
                }
            }
        }
        i += 1;
    }
    proof {
        assert forall|c: Coord|
            c.in_bounds(board@.layout) && (#[trigger] cap_open_direction(
                board@.cell(c),
            )) is Some implies spec_neighbor(
            c,
            cap_open_direction(board@.cell(c))->Some_0,
            board@.layout,
        ) is Some && board@.cell(
            spec_neighbor(c, cap_open_direction(board@.cell(c))->Some_0, board@.layout)->Some_0,
        ) != Square::Unknown by {
            lemma_all_coords_complete(pre.layout, c);
            let idx = c.row_num * pre.layout.num_cols + c.col_num as int;
            assert(coords@[idx] == c);
        }
        assert forall|c: Coord|
            c.in_bounds(pre.layout) && (#[trigger] cap_open_direction(
                pre.cell(c),
            )) is Some implies spec_neighbor(
            c,
            cap_open_direction(pre.cell(c))->Some_0,
            pre.layout,
        ) is Some by {
            assert(only_filled(
                pre,
                board@,
                Square::ShipSquare(ShipSquare::Any),
                c.row_num as int,
                c.col_num as int,
            ));
            assert(board@.cell(c) == pre.cell(c));
        }
    }
    Ok(())
}

} // verus!
