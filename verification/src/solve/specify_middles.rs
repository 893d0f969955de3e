//! An unresolved middle square next to water resolves: water above or below
//! forces it horizontal, water to either side forces it vertical; water on
//! both axes is a contradiction.

use vstd::prelude::*;


use crate::board::{evolves, lemma_evolves_trans, Board, BoardView};
use crate::buffer::{
    coord_buffer_get, coord_buffer_items, coord_buffer_len, coord_buffer_new, coord_buffer_push,
};
use crate::error::Error;
use crate::layout::{all_coords_seq, lemma_all_coords_in_bounds, spec_neighbor, Coord};
use crate::neighbor::Neighbor;
use crate::square::{ShipSquare, Square};

verus! {

/// Cell `(r, c)` either kept its value or was an unresolved middle that
/// resolved to one of the two oriented middles.
pub open spec fn only_oriented(pre: BoardView, post: BoardView, r: int, c: int) -> bool {
    post.squares[r][c] == pre.squares[r][c] || (pre.squares[r][c] == Square::ShipSquare(
        ShipSquare::AnyMiddle,
    ) && (post.squares[r][c] == Square::ShipSquare(ShipSquare::VerticalMiddle)
        || post.squares[r][c] == Square::ShipSquare(ShipSquare::HorizontalMiddle)))
}

/// The neighbor of `c` in direction `n` lies on the grid and holds water.
pub open spec fn water_beside(v: BoardView, c: Coord, n: Neighbor) -> bool {
    spec_neighbor(c, n, v.layout) is Some && v.cell(spec_neighbor(c, n, v.layout)->Some_0)
        == Square::Water
}

/// The trigger of `specify_middle` fires nowhere at `c`: an unresolved
/// middle there has water on neither axis.
pub open spec fn specify_middle_quiescent(v: BoardView, c: Coord) -> bool {
    v.cell(c) == Square::ShipSquare(ShipSquare::AnyMiddle) ==> !water_beside(v, c, Neighbor::N)
        && !water_beside(v, c, Neighbor::S) && !water_beside(v, c, Neighbor::E) && !water_beside(
        v,
        c,
        Neighbor::W,
    )
}

/// The neighbor of `c` in direction `n` lies on the grid and holds water.
fn is_water_at(board: &Board, c: Coord, n: Neighbor) -> (r: bool)
    requires
        board.wf(),
        c.in_bounds(board@.layout),
    ensures
        r == (spec_neighbor(c, n, board@.layout) is Some && board@.cell(
            spec_neighbor(c, n, board@.layout)->Some_0,
        ) == Square::Water),
{
    let layout = board.layout();
    match c.neighbor(n, &layout) {
        Some(nc) => board.square_at(nc) == Square::Water,
        None => false,
    }
}

/// The coordinate a buffered pair stands for.
pub open spec fn pair_coord(p: (usize, usize)) -> Coord {
    Coord { row_num: p.0, col_num: p.1 }
}

/// What this rule writes at an unresolved middle: horizontal when water
/// blocks it above or below, vertical when water blocks it to a side, and
/// the unresolved middle itself when no water decides.
pub open spec fn oriented_by_water(v: BoardView, c: Coord) -> Square {
    if water_beside(v, c, Neighbor::N) || water_beside(v, c, Neighbor::S) {
        Square::ShipSquare(ShipSquare::HorizontalMiddle)
    } else if water_beside(v, c, Neighbor::E) || water_beside(v, c, Neighbor::W) {
        Square::ShipSquare(ShipSquare::VerticalMiddle)
    } else {
        Square::ShipSquare(ShipSquare::AnyMiddle)
    }
}

/// An unresolved middle at `c` with water on both axes: the contradiction
/// this rule reports.
pub open spec fn middle_blocked_both_ways(v: BoardView, c: Coord) -> bool {
    &&& v.cell(c) == Square::ShipSquare(ShipSquare::AnyMiddle)
    &&& (water_beside(v, c, Neighbor::N) || water_beside(v, c, Neighbor::S))
    &&& (water_beside(v, c, Neighbor::E) || water_beside(v, c, Neighbor::W))
}

/// Middle-orienting writes never create or remove water.
proof fn lemma_water_stable(pre: BoardView, cur: BoardView, c: Coord, n: Neighbor)
    requires
        cur.layout == pre.layout,
        cur.squares.len() == pre.squares.len(),
        forall|r: int|
            0 <= r < pre.squares.len() ==> (#[trigger] cur.squares[r]).len()
                == pre.squares[r].len(),
        pre.wf(),
        forall|rr: int, cc: int|
            0 <= rr < pre.squares.len() && 0 <= cc < pre.squares[rr].len() ==> only_oriented(
                pre,
                cur,
                rr,
                cc,
            ),
    ensures
        water_beside(cur, c, n) == water_beside(pre, c, n),
{
    if spec_neighbor(c, n, pre.layout) is Some {
        let nb = spec_neighbor(c, n, pre.layout)->Some_0;
        assert(only_oriented(pre, cur, nb.row_num as int, nb.col_num as int));
    }
}

/// Resolve every unresolved middle square that water already blocks on one
/// axis: water above or below makes it horizontal, water to a side makes it
/// vertical, and nothing else changes. The rule fails exactly when some
/// unresolved middle has water on both axes, naming that cell.
pub fn specify_middle(board: &mut Board) -> (r: Result<(), Error>)
    requires
        old(board).wf(),
    ensures
        final(board).wf(),
        evolves(old(board)@, final(board)@),
        forall|rr: int, cc: int|
            0 <= rr < old(board)@.squares.len() && 0 <= cc < old(board)@.squares[rr].len()
                ==> only_oriented(old(board)@, final(board)@, rr, cc),
        r is Err <==> exists|c: Coord|
            c.in_bounds(old(board)@.layout) && #[trigger] middle_blocked_both_ways(
                old(board)@,
                c,
            ),
        r matches Err(e) ==> exists|c: Coord|
            c.in_bounds(old(board)@.layout) && #[trigger] middle_blocked_both_ways(old(board)@, c)
                && e == (Error::NoSpaceForMiddle { at: c }),
        r is Ok ==> forall|c: Coord|
            c.in_bounds(old(board)@.layout) ==> final(board)@.cell(c) == (if old(board)@.cell(c)
                == Square::ShipSquare(ShipSquare::AnyMiddle) {
                oriented_by_water(old(board)@, c)
            } else {
                old(board)@.cell(c)
            }),
        (r is Ok && !old(board)@.dirty && !final(board)@.dirty) ==> forall|c: Coord|
            c.in_bounds(final(board)@.layout) ==> specify_middle_quiescent(final(board)@, c),
{
    let ghost pre = board@;
    let layout = board.layout();
    let coords = layout.all_coordinates();
    let mut buf = coord_buffer_new();
    let mut i: usize = 0;
    while i < coords.len()
        invariant
            pre == board@,
            board.wf(),
            layout == pre.layout,
            coords@ == all_coords_seq(pre.layout),
            i <= coords@.len(),
            forall|kk: int|
                0 <= kk < coord_buffer_items(buf).len() ==> pair_coord(
                    #[trigger] coord_buffer_items(buf)[kk],
                ).in_bounds(pre.layout) && pre.cell(pair_coord(coord_buffer_items(buf)[kk]))
                    == Square::ShipSquare(ShipSquare::AnyMiddle),
            forall|kk: int|
                0 <= kk < coord_buffer_items(buf).len() ==> (#[trigger] coord_buffer_items(
                    buf,
                )[kk]).0 * pre.layout.num_cols + coord_buffer_items(buf)[kk].1 < i,
            forall|a: int, b: int|
                0 <= a < b < coord_buffer_items(buf).len() ==> coord_buffer_items(buf)[a]
                    != coord_buffer_items(buf)[b],
            forall|k: int|
                0 <= k < i && pre.cell(#[trigger] coords@[k]) == Square::ShipSquare(
                    ShipSquare::AnyMiddle,
                ) ==> exists|kk: int|
                    0 <= kk < coord_buffer_items(buf).len() && #[trigger] coord_buffer_items(
                        buf,
                    )[kk] == (coords@[k].row_num, coords@[k].col_num),
        decreases coords@.len() - i,
    {
        let c = coords[i];
        proof {
            lemma_all_coords_in_bounds(pre.layout, i as int);
        }
        let ghost old_items = coord_buffer_items(buf);
        if board.square_at(c) == Square::ShipSquare(ShipSquare::AnyMiddle) {
            coord_buffer_push(&mut buf, (c.row_num, c.col_num));
            proof {
                vstd::arithmetic::div_mod::lemma_fundamental_div_mod(
                    i as int,
                    pre.layout.num_cols as int,
                );
                assert(c.row_num * pre.layout.num_cols + c.col_num == i);
                assert forall|kk: int| 0 <= kk < coord_buffer_items(buf).len() implies pair_coord(
                    #[trigger] coord_buffer_items(buf)[kk],
                ).in_bounds(pre.layout) && pre.cell(pair_coord(coord_buffer_items(buf)[kk]))
                    == Square::ShipSquare(ShipSquare::AnyMiddle) by {
                    if kk < old_items.len() {
                        assert(coord_buffer_items(buf)[kk] == old_items[kk]);
                    } else {
                        assert(coord_buffer_items(buf)[kk] == (c.row_num, c.col_num));
                    }
                }
                assert forall|kk: int| 0 <= kk < coord_buffer_items(buf).len() implies (
                #[trigger] coord_buffer_items(buf)[kk]).0 * pre.layout.num_cols
                    + coord_buffer_items(buf)[kk].1 < i + 1 by {
                    if kk < old_items.len() {
                        assert(coord_buffer_items(buf)[kk] == old_items[kk]);
                    } else {
                        assert(coord_buffer_items(buf)[kk] == (c.row_num, c.col_num));
                    }
                }
                assert forall|a: int, b: int|
                    0 <= a < b < coord_buffer_items(buf).len() implies coord_buffer_items(buf)[a]
                    != coord_buffer_items(buf)[b] by {
                    if b < old_items.len() {
                        assert(coord_buffer_items(buf)[a] == old_items[a]);
                        assert(coord_buffer_items(buf)[b] == old_items[b]);
                    } else {
                        assert(coord_buffer_items(buf)[b] == (c.row_num, c.col_num));
                        assert(coord_buffer_items(buf)[a] == old_items[a]);
                        assert(old_items[a].0 * pre.layout.num_cols + old_items[a].1 < i);
                    }
                }
            }
        }
        proof {
            assert forall|k: int|
                0 <= k < i + 1 && pre.cell(#[trigger] coords@[k]) == Square::ShipSquare(
                    ShipSquare::AnyMiddle,
                ) implies exists|kk: int|
                0 <= kk < coord_buffer_items(buf).len() && #[trigger] coord_buffer_items(buf)[kk]
                    == (coords@[k].row_num, coords@[k].col_num) by {
                if k < i {
                    let kk0 = choose|kk0: int|
                        0 <= kk0 < old_items.len() && #[trigger] old_items[kk0] == (
                        coords@[k].row_num,
                        coords@[k].col_num,
                        );
                    assert(coord_buffer_items(buf)[kk0] == old_items[kk0]);
                } else {
                    assert(coords@[k] == c);
                    assert(coord_buffer_items(buf)[coord_buffer_items(buf).len() - 1] == (
                    c.row_num,
                    c.col_num,
                    ));
                }
            }
        }
        i += 1;
    }
    let n = coord_buffer_len(&buf);
    proof {
        crate::board::lemma_evolves_refl(pre);
    }
    let mut k: usize = 0;
    while k < n
        invariant
            pre == old(board)@,
            board.wf(),
            pre.wf(),
            evolves(pre, board@),
            board@.layout == pre.layout,
            n == coord_buffer_items(buf).len(),
            k <= n,
            coords@ == all_coords_seq(pre.layout),
            forall|kk: int|
                0 <= kk < coord_buffer_items(buf).len() ==> pair_coord(
                    #[trigger] coord_buffer_items(buf)[kk],
                ).in_bounds(pre.layout) && pre.cell(pair_coord(coord_buffer_items(buf)[kk]))
                    == Square::ShipSquare(ShipSquare::AnyMiddle),
            forall|a: int, b: int|
                0 <= a < b < coord_buffer_items(buf).len() ==> coord_buffer_items(buf)[a]
                    != coord_buffer_items(buf)[b],
            forall|k2: int|
                0 <= k2 < coords@.len() && pre.cell(#[trigger] coords@[k2]) == Square::ShipSquare(
                    ShipSquare::AnyMiddle,
                ) ==> exists|kk: int|
                    0 <= kk < coord_buffer_items(buf).len() && #[trigger] coord_buffer_items(
                        buf,
                    )[kk] == (coords@[k2].row_num, coords@[k2].col_num),
            forall|rr: int, cc: int|
                0 <= rr < pre.squares.len() && 0 <= cc < pre.squares[rr].len() ==> only_oriented(
                    pre,
                    board@,
                    rr,
                    cc,
                ),
            forall|kk: int|
                0 <= kk < k ==> board@.cell(pair_coord(#[trigger] coord_buffer_items(buf)[kk]))
                    == oriented_by_water(pre, pair_coord(coord_buffer_items(buf)[kk])),
            forall|kk: int|
                k <= kk < n ==> board@.cell(pair_coord(#[trigger] coord_buffer_items(buf)[kk]))
                    == Square::ShipSquare(ShipSquare::AnyMiddle),
            forall|kk: int|
                0 <= kk < k ==> !middle_blocked_both_ways(
                    pre,
                    pair_coord(#[trigger] coord_buffer_items(buf)[kk]),
                ),
        decreases n - k,
    {
        let p = coord_buffer_get(&buf, k);
        let c = Coord { row_num: p.0, col_num: p.1 };
        proof {
            assert(coord_buffer_items(buf)[k as int] == p);
            assert(pair_coord(p) == c);
        }
        let vert_blocked = is_water_at(board, c, Neighbor::N) || is_water_at(
            board,
            c,
            Neighbor::S,
        );
        let horz_blocked = is_water_at(board, c, Neighbor::E) || is_water_at(
            board,
            c,
            Neighbor::W,
        );
        proof {
            lemma_water_stable(pre, board@, c, Neighbor::N);
            lemma_water_stable(pre, board@, c, Neighbor::S);
            lemma_water_stable(pre, board@, c, Neighbor::E);
            lemma_water_stable(pre, board@, c, Neighbor::W);
        }
        if vert_blocked && horz_blocked {
            proof {
                assert(middle_blocked_both_ways(pre, c));
            }
            return Err(Error::NoSpaceForMiddle { at: c });
        }
        if vert_blocked || horz_blocked {
            let new_value = if vert_blocked {
                Square::ShipSquare(ShipSquare::HorizontalMiddle)
            } else {
                Square::ShipSquare(ShipSquare::VerticalMiddle)
            };
            let ghost before = board@;
            let res = board.set(c, new_value);
            proof {
                lemma_evolves_trans(pre, before, board@);
                assert forall|rr: int, cc: int|
                    0 <= rr < pre.squares.len() && 0 <= cc < pre.squares[rr].len() implies
                only_oriented(pre, board@, rr, cc) by {
                    assert(only_oriented(pre, before, rr, cc));
                }
                assert(res is Ok);
            }
            if let Err(e) = res {
                proof {
                    assert(false);
                }
                return Err(e);
            }
            proof {
                assert(board@.cell(c) == new_value);
                assert(new_value == oriented_by_water(pre, c));
                lemma_middle_step(pre, before, board@, buf, k as int, n as int, c);
            }
        } else {
            proof {
                assert(board@.cell(c) == Square::ShipSquare(ShipSquare::AnyMiddle));
                assert(oriented_by_water(pre, c) == Square::ShipSquare(ShipSquare::AnyMiddle));
                assert forall|kk: int| 0 <= kk < k + 1 implies board@.cell(
                    pair_coord(#[trigger] coord_buffer_items(buf)[kk]),
                ) == oriented_by_water(pre, pair_coord(coord_buffer_items(buf)[kk])) by {}
            }
        }
        k += 1;
    }
    proof {
        assert forall|c: Coord|
            c.in_bounds(pre.layout) implies board@.cell(c) == (if pre.cell(c)
            == Square::ShipSquare(ShipSquare::AnyMiddle) {
            oriented_by_water(pre, c)
        } else {
            pre.cell(c)
        }) by {
            if pre.cell(c) == Square::ShipSquare(ShipSquare::AnyMiddle) {
                crate::layout::lemma_all_coords_complete(pre.layout, c);
                let idx = c.row_num * pre.layout.num_cols + c.col_num as int;
                assert(coords@[idx] == c);
                let kk = choose|kk: int|
                    0 <= kk < coord_buffer_items(buf).len() && #[trigger] coord_buffer_items(
                        buf,
                    )[kk] == (coords@[idx].row_num, coords@[idx].col_num);
                assert(pair_coord(coord_buffer_items(buf)[kk]) == c);
            } else {
                assert(only_oriented(pre, board@, c.row_num as int, c.col_num as int));
            }
        }
        assert forall|c: Coord|
            c.in_bounds(pre.layout) implies !(#[trigger] middle_blocked_both_ways(pre, c)) by {
            if pre.cell(c) == Square::ShipSquare(ShipSquare::AnyMiddle) {
                crate::layout::lemma_all_coords_complete(pre.layout, c);
                let idx = c.row_num * pre.layout.num_cols + c.col_num as int;
                assert(coords@[idx] == c);
                let kk = choose|kk: int|
                    0 <= kk < coord_buffer_items(buf).len() && #[trigger] coord_buffer_items(
                        buf,
                    )[kk] == (coords@[idx].row_num, coords@[idx].col_num);
                assert(pair_coord(coord_buffer_items(buf)[kk]) == c);
                assert(!middle_blocked_both_ways(pre, pair_coord(coord_buffer_items(buf)[kk])));
            }
        }
        if !pre.dirty && !board@.dirty {
            assert(board@ == pre);
            assert forall|c: Coord| c.in_bounds(board@.layout) implies specify_middle_quiescent(
                board@,
                c,
            ) by {
                if board@.cell(c) == Square::ShipSquare(ShipSquare::AnyMiddle) {
                    assert(board@.cell(c) == oriented_by_water(pre, c));
                }
            }
        }
    }
    Ok(())
}

/// One orienting write: the processed buffered middles keep their decided
/// orientation, the unprocessed ones stay unresolved, and the one at hand
/// now holds its decided orientation.
proof fn lemma_middle_step(
    pre: BoardView,
    before: BoardView,
    after: BoardView,
    buf: crate::buffer::CoordBuffer,
    k: int,
    n: int,
    c: Coord,
)
    requires
        pre.wf(),
        before.squares.len() == pre.squares.len(),
        forall|r: int|
            0 <= r < pre.squares.len() ==> (#[trigger] before.squares[r]).len()
                == pre.squares[r].len(),
        n == coord_buffer_items(buf).len(),
        0 <= k < n,
        pair_coord(coord_buffer_items(buf)[k]) == c,
        forall|kk: int|
            0 <= kk < coord_buffer_items(buf).len() ==> pair_coord(
                #[trigger] coord_buffer_items(buf)[kk],
            ).in_bounds(pre.layout),
        forall|a: int, b: int|
            0 <= a < b < coord_buffer_items(buf).len() ==> coord_buffer_items(buf)[a]
                != coord_buffer_items(buf)[b],
        forall|kk: int|
            0 <= kk < k ==> before.cell(pair_coord(#[trigger] coord_buffer_items(buf)[kk]))
                == oriented_by_water(pre, pair_coord(coord_buffer_items(buf)[kk])),
        forall|kk: int|
            k <= kk < n ==> before.cell(pair_coord(#[trigger] coord_buffer_items(buf)[kk]))
                == Square::ShipSquare(ShipSquare::AnyMiddle),
        after.squares == before.squares.update(
            c.row_num as int,
            before.squares[c.row_num as int].update(
                c.col_num as int,
                oriented_by_water(pre, c),
            ),
        ),
        after.cell(c) == oriented_by_water(pre, c),
    ensures
        forall|kk: int|
            0 <= kk < k + 1 ==> after.cell(pair_coord(#[trigger] coord_buffer_items(buf)[kk]))
                == oriented_by_water(pre, pair_coord(coord_buffer_items(buf)[kk])),
        forall|kk: int|
            k + 1 <= kk < n ==> after.cell(pair_coord(#[trigger] coord_buffer_items(buf)[kk]))
                == Square::ShipSquare(ShipSquare::AnyMiddle),
{
    assert forall|kk: int| 0 <= kk < n && kk != k implies after.cell(
        pair_coord(#[trigger] coord_buffer_items(buf)[kk]),
    ) == before.cell(pair_coord(coord_buffer_items(buf)[kk])) by {
        let q = pair_coord(coord_buffer_items(buf)[kk]);
        if kk < k {
            assert(coord_buffer_items(buf)[kk] != coord_buffer_items(buf)[k]);
        } else {
            assert(coord_buffer_items(buf)[k] != coord_buffer_items(buf)[kk]);
        }
        assert(q != c);
        if q.row_num == c.row_num {
            assert(q.col_num != c.col_num);
            assert(after.squares[q.row_num as int] == before.squares[c.row_num as int].update(
                c.col_num as int,
                oriented_by_water(pre, c),
            ));
            assert(after.squares[q.row_num as int][q.col_num as int]
                == before.squares[q.row_num as int][q.col_num as int]);
        } else {
            assert(after.squares[q.row_num as int] == before.squares[q.row_num as int]);
        }
    }
}

} // verus!
