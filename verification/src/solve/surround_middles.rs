//! A resolved directional middle continues its ship in both of its extension
//! directions; this rule places generic ship squares there.

use vstd::prelude::*;

use crate::board::{evolves, lemma_evolves_trans, Board, BoardView};
use crate::error::Error;
use crate::layout::{all_coords_seq, lemma_all_coords_in_bounds, spec_neighbor, Coord};
use crate::neighbor::Neighbor;
use crate::solve::fill_unknown::only_filled;
use crate::square::{ShipSquare, Square};

verus! {

/// The two directions in which a resolved middle's ship must continue.
pub open spec fn middle_extension_dirs(s: Square) -> Option<(Neighbor, Neighbor)> {
    match s {
        Square::ShipSquare(ShipSquare::VerticalMiddle) => Some((Neighbor::N, Neighbor::S)),
        Square::ShipSquare(ShipSquare::HorizontalMiddle) => Some((Neighbor::E, Neighbor::W)),
        _ => None,
    }
}

/// The cell `t` is an extension neighbor of some resolved middle of `v`.
pub open spec fn is_middle_extension_neighbor(v: BoardView, t: Coord) -> bool {
    exists|c: Coord, n: Neighbor|
        c.in_bounds(v.layout) && middle_extension_dirs(v.cell(c)) is Some && (n
            == middle_extension_dirs(v.cell(c))->Some_0.0 || n == middle_extension_dirs(
            v.cell(c),
        )->Some_0.1) && #[trigger] spec_neighbor(c, n, v.layout) == Some(t)
}

/// Both extension neighbors of every resolved middle of `v` are on the grid
/// and hold ship squares: this rule's trigger fires nowhere.
pub open spec fn all_middles_extended(v: BoardView) -> bool {
    forall|c: Coord, n: Neighbor|
        c.in_bounds(v.layout) && (#[trigger] middle_extension_dirs(v.cell(c))) is Some && (n
            == middle_extension_dirs(v.cell(c))->Some_0.0 || n == middle_extension_dirs(
            v.cell(c),
        )->Some_0.1) ==> (#[trigger] spec_neighbor(c, n, v.layout)) is Some && v.cell(
            spec_neighbor(c, n, v.layout)->Some_0,
        ).spec_is_ship()
}

/// Some resolved middle of `v` has an extension direction off the grid: the
/// contradiction this rule reports.
pub open spec fn some_middle_off_grid(v: BoardView) -> bool {
    exists|c: Coord, n: Neighbor|
        c.in_bounds(v.layout) && middle_extension_dirs(v.cell(c)) is Some && (n
            == middle_extension_dirs(v.cell(c))->Some_0.0 || n == middle_extension_dirs(
            v.cell(c),
        )->Some_0.1) && #[trigger] spec_neighbor(c, n, v.layout) is None
}

/// Place a generic ship square on both extension sides of every resolved
/// middle. Changes cells only from `Unknown` to the generic ship square, and
/// only at extension neighbors of resolved middles. A middle whose extension
/// leaves the grid is a contradiction: it forces an error naming the middle,
/// its coordinate and the missing direction. On success both extension
/// neighbors of every resolved middle hold ship squares.
pub fn surround_middle_with_ships(board: &mut Board) -> (r: Result<(), Error>)
    requires
        old(board).wf(),
    ensures
        final(board).wf(),
        evolves(old(board)@, final(board)@),
        forall|rr: int, cc: int|
            0 <= rr < old(board)@.squares.len() && 0 <= cc < old(board)@.squares[rr].len()
                ==> only_filled(
                old(board)@,
                final(board)@,
                Square::ShipSquare(ShipSquare::Any),
                rr,
                cc,
            ),
        forall|rr: int, cc: int|
            0 <= rr < old(board)@.squares.len() && 0 <= cc < old(board)@.squares[rr].len()
                && final(board)@.squares[rr][cc] != old(board)@.squares[rr][cc]
                ==> is_middle_extension_neighbor(
                old(board)@,
                Coord { row_num: rr as usize, col_num: cc as usize },
            ),
        some_middle_off_grid(old(board)@) ==> r is Err,
        r matches Err(e) ==> (exists|c: Coord, n: Neighbor|
            c.in_bounds(old(board)@.layout) && middle_extension_dirs(old(board)@.cell(c)) is Some
                && (n == middle_extension_dirs(old(board)@.cell(c))->Some_0.0 || n
                == middle_extension_dirs(old(board)@.cell(c))->Some_0.1) && (#[trigger]
            spec_neighbor(c, n, old(board)@.layout)) is None && e == (Error::NoRoomForNeighbor {
                at: c,
                current: old(board)@.cell(c),
                direction: n,
            })) || e is BadTransition || e is CounterExhausted,
        r is Ok ==> all_middles_extended(final(board)@),
        all_middles_extended(old(board)@) ==> r is Ok && final(board)@ == old(board)@,
{
    let ghost pre = board@;
    let layout = board.layout();
    let coords = layout.all_coordinates();
    let mut i: usize = 0;
    while i < coords.len()
        invariant
            pre == old(board)@,
            board.wf(),
            pre.wf(),
            evolves(pre, board@),
            board@.layout == pre.layout,
            layout == pre.layout,
            coords@ == all_coords_seq(pre.layout),
            i <= coords@.len(),
            forall|rr: int, cc: int|
                0 <= rr < pre.squares.len() && 0 <= cc < pre.squares[rr].len() ==> only_filled(
                    pre,
                    board@,
                    Square::ShipSquare(ShipSquare::Any),
                    rr,
                    cc,
                ),
            forall|rr: int, cc: int|
                0 <= rr < pre.squares.len() && 0 <= cc < pre.squares[rr].len()
                    && board@.squares[rr][cc] != pre.squares[rr][cc]
                    ==> is_middle_extension_neighbor(
                    pre,
                    Coord { row_num: rr as usize, col_num: cc as usize },
                ),
            forall|k: int, n: Neighbor|
                0 <= k < i && (#[trigger] middle_extension_dirs(
                    board@.cell(coords@[k]),
                )) is Some && (n == middle_extension_dirs(board@.cell(coords@[k]))->Some_0.0 || n
                    == middle_extension_dirs(board@.cell(coords@[k]))->Some_0.1) ==> (#[trigger]
            spec_neighbor(coords@[k], n, pre.layout)) is Some && board@.cell(
                spec_neighbor(coords@[k], n, pre.layout)->Some_0,
            ).spec_is_ship(),
            all_middles_extended(pre) ==> board@ == pre,
        decreases coords@.len() - i,
    {
        let c = coords[i];
        proof {
            lemma_all_coords_in_bounds(pre.layout, i as int);
        }
        let sq = board.square_at(c);
        let dirs_opt: Option<(Neighbor, Neighbor)> = match sq {
            Square::ShipSquare(ShipSquare::VerticalMiddle) => Some((Neighbor::N, Neighbor::S)),
            Square::ShipSquare(ShipSquare::HorizontalMiddle) => Some((Neighbor::E, Neighbor::W)),
            _ => None,
        };
        if let Some(dirs) = dirs_opt {
            let mut d: usize = 0;
            while d < 2
                invariant
                    pre == old(board)@,
                    board.wf(),
                    pre.wf(),
                    evolves(pre, board@),
                    board@.layout == pre.layout,
                    layout == pre.layout,
                    coords@ == all_coords_seq(pre.layout),
                    i < coords@.len(),
                    c == coords@[i as int],
                    c.in_bounds(pre.layout),
                    d <= 2,
                    board@.cell(c) == sq,
                    middle_extension_dirs(sq) == Some((dirs.0, dirs.1)),
                    forall|rr: int, cc: int|
                        0 <= rr < pre.squares.len() && 0 <= cc < pre.squares[rr].len()
                            ==> only_filled(
                            pre,
                            board@,
                            Square::ShipSquare(ShipSquare::Any),
                            rr,
                            cc,
                        ),
                    forall|rr: int, cc: int|
                        0 <= rr < pre.squares.len() && 0 <= cc < pre.squares[rr].len()
                            && board@.squares[rr][cc] != pre.squares[rr][cc]
                            ==> is_middle_extension_neighbor(
                            pre,
                            Coord { row_num: rr as usize, col_num: cc as usize },
                        ),
                    forall|k: int, n: Neighbor|
                        0 <= k < i && (#[trigger] middle_extension_dirs(
                            board@.cell(coords@[k]),
                        )) is Some && (n == middle_extension_dirs(board@.cell(coords@[k]))->Some_0.0
                            || n == middle_extension_dirs(
                            board@.cell(coords@[k]),
                        )->Some_0.1) ==> (#[trigger] spec_neighbor(coords@[k], n, pre.layout))
                            is Some && board@.cell(
                            spec_neighbor(coords@[k], n, pre.layout)->Some_0,
                        ).spec_is_ship(),
                    all_middles_extended(pre) ==> board@ == pre,
                    d >= 1 ==> spec_neighbor(c, dirs.0, pre.layout) is Some && board@.cell(
                        spec_neighbor(c, dirs.0, pre.layout)->Some_0,
                    ).spec_is_ship(),
                    d >= 2 ==> spec_neighbor(c, dirs.1, pre.layout) is Some && board@.cell(
                        spec_neighbor(c, dirs.1, pre.layout)->Some_0,
                    ).spec_is_ship(),
                decreases 2 - d,
            {
                let dir = if d == 0 {
                    dirs.0
                } else {
                    dirs.1
                };
                match c.neighbor(dir, &layout) {
                    None => {
                        proof {
                            assert(only_filled(
                                pre,
                                board@,
                                Square::ShipSquare(ShipSquare::Any),
                                c.row_num as int,
                                c.col_num as int,
                            ));
                            assert(pre.cell(c) == sq);
                            assert(middle_extension_dirs(pre.cell(c)) == Some((dirs.0, dirs.1)));
                            assert(dir == dirs.0 || dir == dirs.1);
                            assert(spec_neighbor(c, dir, pre.layout) is None);
                            if all_middles_extended(pre) {
                                assert(spec_neighbor(c, dir, pre.layout) is Some);
                                assert(false);
                            }
                        }
                        return Err(
                            Error::NoRoomForNeighbor { at: c, current: sq, direction: dir },
                        );
                    },
                    Some(nc) => {
                        let ghost before = board@;
                        if !board.square_at(nc).is_ship() {
                            proof {
                                if all_middles_extended(pre) {
                                    assert(before == pre);
                                    assert(pre.cell(c) == sq);
                                    assert(middle_extension_dirs(pre.cell(c)) == Some(
                                        (dirs.0, dirs.1),
                                    ));
                                    assert(dir == dirs.0 || dir == dirs.1);
                                    assert(spec_neighbor(c, dir, pre.layout) == Some(nc));
                                    assert(pre.cell(nc).spec_is_ship());
                                    assert(false);
                                }
                            }
                            let res = board.set(nc, Square::ShipSquare(ShipSquare::Any));
                            proof {
                                lemma_evolves_trans(pre, before, board@);
                                assert forall|rr: int, cc: int|
                                    0 <= rr < pre.squares.len() && 0 <= cc
                                        < pre.squares[rr].len() implies only_filled(
                                    pre,
                                    board@,
                                    Square::ShipSquare(ShipSquare::Any),
                                    rr,
                                    cc,
                                ) by {
                                    assert(only_filled(
                                        pre,
                                        before,
                                        Square::ShipSquare(ShipSquare::Any),
                                        rr,
                                        cc,
                                    ));
                                }
                            }
                            proof {
                                assert(only_filled(
                                    pre,
                                    before,
                                    Square::ShipSquare(ShipSquare::Any),
                                    c.row_num as int,
                                    c.col_num as int,
                                ));
                                assert(pre.cell(c) == sq);
                                assert(middle_extension_dirs(pre.cell(c)) == Some(
                                    (dirs.0, dirs.1),
                                ));
                                assert(dir == dirs.0 || dir == dirs.1);
                                assert(spec_neighbor(c, dir, pre.layout) == Some(nc));
                                assert(is_middle_extension_neighbor(pre, nc));
                                assert forall|rr: int, cc: int|
                                    0 <= rr < pre.squares.len() && 0 <= cc
                                        < pre.squares[rr].len() && board@.squares[rr][cc]
                                        != pre.squares[rr][cc] implies
                                is_middle_extension_neighbor(
                                    pre,
                                    Coord { row_num: rr as usize, col_num: cc as usize },
                                ) by {
                                    if board@.squares[rr][cc] != before.squares[rr][cc] {
                                        assert(rr == nc.row_num && cc == nc.col_num);
                                        assert((Coord {
                                            row_num: rr as usize,
                                            col_num: cc as usize,
                                        }) == nc);
                                    }
                                }
                            }
                            if let Err(e) = res {
                                proof {
                                    assert(e is BadTransition || e is CounterExhausted);
                                }
                                return Err(e);
                            }
                        }
                        proof {
                            assert(board@.cell(nc).spec_is_ship());
                            assert forall|k: int, n: Neighbor|
                                0 <= k < i && (#[trigger] middle_extension_dirs(
                                    board@.cell(coords@[k]),
                                )) is Some && (n == middle_extension_dirs(
                                    board@.cell(coords@[k]),
                                )->Some_0.0 || n == middle_extension_dirs(
                                    board@.cell(coords@[k]),
                                )->Some_0.1) implies (#[trigger] spec_neighbor(
                                coords@[k],
                                n,
                                pre.layout,
                            )) is Some && board@.cell(
                                spec_neighbor(coords@[k], n, pre.layout)->Some_0,
                            ).spec_is_ship() by {
                                let ck = coords@[k];
                                lemma_all_coords_in_bounds(pre.layout, k);
                                if ck == nc {
                                    assert(before.cell(ck) != Square::Unknown || board@.cell(ck)
                                        == Square::ShipSquare(ShipSquare::Any));
                                } else {
                                    assert(board@.cell(ck) == before.cell(ck));
                                }
                            }
                        }
                    },
                }
                d += 1;
            }
            proof {
                assert forall|k: int, n: Neighbor|
                    0 <= k < i + 1 && (#[trigger] middle_extension_dirs(
                        board@.cell(coords@[k]),
                    )) is Some && (n == middle_extension_dirs(board@.cell(coords@[k]))->Some_0.0
                        || n == middle_extension_dirs(board@.cell(coords@[k]))->Some_0.1) implies (
                #[trigger] spec_neighbor(coords@[k], n, pre.layout)) is Some && board@.cell(
                    spec_neighbor(coords@[k], n, pre.layout)->Some_0,
                ).spec_is_ship() by {
                    if k == i {
                        assert(coords@[k] == c);
                        assert(board@.cell(c) == sq);
                    }
                }
            }
        } else {
            proof {
                assert forall|k: int, n: Neighbor|
                    0 <= k < i + 1 && (#[trigger] middle_extension_dirs(
                        board@.cell(coords@[k]),
                    )) is Some && (n == middle_extension_dirs(board@.cell(coords@[k]))->Some_0.0
                        || n == middle_extension_dirs(board@.cell(coords@[k]))->Some_0.1) implies (
                #[trigger] spec_neighbor(coords@[k], n, pre.layout)) is Some && board@.cell(
                    spec_neighbor(coords@[k], n, pre.layout)->Some_0,
                ).spec_is_ship() by {
                    if k == i {
                        assert(coords@[k] == c);
                        assert(middle_extension_dirs(board@.cell(c)) is None);
                    }
                }
            }
        }
        i += 1;
    }
    proof {
        assert forall|c: Coord, n: Neighbor|
            c.in_bounds(board@.layout) && (#[trigger] middle_extension_dirs(
                board@.cell(c),
            )) is Some && (n == middle_extension_dirs(board@.cell(c))->Some_0.0 || n
                == middle_extension_dirs(board@.cell(c))->Some_0.1) implies (#[trigger]
        spec_neighbor(c, n, board@.layout)) is Some && board@.cell(
            spec_neighbor(c, n, board@.layout)->Some_0,
        ).spec_is_ship() by {
            crate::layout::lemma_all_coords_complete(pre.layout, c);
            let idx = c.row_num * pre.layout.num_cols + c.col_num as int;
            assert(coords@[idx] == c);
        }
        assert forall|c: Coord, n: Neighbor|
            c.in_bounds(pre.layout) && middle_extension_dirs(pre.cell(c)) is Some && (n
                == middle_extension_dirs(pre.cell(c))->Some_0.0 || n == middle_extension_dirs(
                pre.cell(c),
            )->Some_0.1) implies (#[trigger] spec_neighbor(c, n, pre.layout)) is Some by {
            assert(only_filled(
                pre,
                board@,
                Square::ShipSquare(ShipSquare::Any),
                c.row_num as int,
                c.col_num as int,
            ));
            assert(board@.cell(c) == pre.cell(c));
        }
    }
    Ok(())
}

} // verus!
