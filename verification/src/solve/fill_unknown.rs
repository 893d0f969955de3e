//! The two fill rules: a row or column with no ship squares left gets water
//! in every unknown cell; one whose unknown-cell count equals its remaining
//! count gets generic ship squares instead.

use vstd::prelude::*;

use crate::board::{evolves, lemma_evolves_trans, Board, BoardView};
use crate::error::Error;
use crate::layout::{row_or_col_coords, rows_and_cols_seq, Axis, Coord, RowOrCol};
use crate::square::{ShipSquare, Square};

verus! {

/// Cell `(r, c)` either kept its value or moved from `Unknown` to `to`.
pub open spec fn only_filled(pre: BoardView, post: BoardView, to: Square, r: int, c: int) -> bool {
    post.squares[r][c] == pre.squares[r][c] || (pre.squares[r][c] == Square::Unknown
        && post.squares[r][c] == to)
}

/// How many cells of the row or column are `Unknown`.
pub open spec fn count_unknown_on(v: BoardView, rc: RowOrCol) -> int {
    row_or_col_coords(rc, v.layout).map_values(|c: Coord| v.cell(c)).filter(
        |s: Square| s == Square::Unknown,
    ).len() as int
}

/// Count the `Unknown` cells of a row or column.
fn count_unknown(board: &Board, rc: RowOrCol) -> (r: usize)
    requires
        board.wf(),
        rc.in_bounds(board@.layout),
    ensures
        r as int == count_unknown_on(board@, rc),
{
    let coords = rc.coords(&board.layout());
    let ghost mapped = row_or_col_coords(rc, board@.layout).map_values(|c: Coord| board@.cell(c));
    let ghost pred = |s: Square| s == Square::Unknown;
    let mut count: usize = 0;
    let mut k: usize = 0;
    while k < coords.len()
        invariant
            board.wf(),
            rc.in_bounds(board@.layout),
            coords@ == row_or_col_coords(rc, board@.layout),
            mapped == row_or_col_coords(rc, board@.layout).map_values(|c: Coord| board@.cell(c)),
            pred == (|s: Square| s == Square::Unknown),
            k <= coords@.len(),
            count <= k,
            count as int == mapped.subrange(0, k as int).filter(pred).len(),
        decreases coords@.len() - k,
    {
        proof {
            crate::board::lemma_row_or_col_coord_in_bounds(rc, board@.layout, k as int);
            mapped.subrange(0, k as int).lemma_filter_len_push(pred, mapped[k as int]);
            assert(mapped.subrange(0, k + 1 as int) =~= mapped.subrange(0, k as int).push(
                mapped[k as int],
            ));
        }
        if board.square_at(coords[k]) == Square::Unknown {
            count += 1;
        }
        k += 1;
    }
    proof {
        assert(mapped.subrange(0, mapped.len() as int) =~= mapped);
    }
    count
}

/// Fill every unknown cell of each row and column whose remaining count is
/// zero with water. This rule always succeeds, changes cells only from
/// `Unknown` to `Water`, and afterwards no row or column with remaining count
/// zero holds an unknown cell.
pub fn fill_with_water(board: &mut Board) -> (r: Result<(), Error>)
    requires
        old(board).wf(),
    ensures
        final(board).wf(),
        evolves(old(board)@, final(board)@),
        r is Ok,
        final(board)@.remaining_row == old(board)@.remaining_row,
        final(board)@.remaining_col == old(board)@.remaining_col,
        forall|rr: int, cc: int|
            0 <= rr < old(board)@.squares.len() && 0 <= cc < old(board)@.squares[rr].len()
                ==> only_filled(old(board)@, final(board)@, Square::Water, rr, cc),
        forall|rr: int, cc: int|
            0 <= rr < old(board)@.squares.len() && 0 <= cc < old(board)@.squares[rr].len()
                && final(board)@.squares[rr][cc] != old(board)@.squares[rr][cc] ==> old(
                board,
            )@.remaining_row[rr] == 0 || old(board)@.remaining_col[cc] == 0,
        forall|rc: RowOrCol, k: int|
            rc.in_bounds(final(board)@.layout) && final(board)@.remaining(rc) == 0 && 0 <= k
                < row_or_col_coords(rc, final(board)@.layout).len() ==> final(board)@.cell(
                #[trigger] row_or_col_coords(rc, final(board)@.layout)[k],
            ) != Square::Unknown,
{
    let rcs = board.layout().rows_and_cols();
    let ghost pre = board@;
    let mut i: usize = 0;
    while i < rcs.len()
        invariant
            pre == old(board)@,
            board.wf(),
            pre.wf(),
            evolves(pre, board@),
            board@.layout == pre.layout,
            board@.remaining_row == pre.remaining_row,
            board@.remaining_col == pre.remaining_col,
            rcs@ == rows_and_cols_seq(pre.layout),
            i <= rcs@.len(),
            forall|rr: int, cc: int|
                0 <= rr < pre.squares.len() && 0 <= cc < pre.squares[rr].len() ==> only_filled(
                    pre,
                    board@,
                    Square::Water,
                    rr,
                    cc,
                ),
            forall|j: int, k: int|
                0 <= j < i && board@.remaining(rcs@[j]) == 0 && 0 <= k < row_or_col_coords(
                    rcs@[j],
                    pre.layout,
                ).len() ==> board@.cell(#[trigger] row_or_col_coords(rcs@[j], pre.layout)[k])
                    != Square::Unknown,
            forall|rr: int, cc: int|
                0 <= rr < pre.squares.len() && 0 <= cc < pre.squares[rr].len()
                    && board@.squares[rr][cc] != pre.squares[rr][cc] ==> pre.remaining_row[rr] == 0
                    || pre.remaining_col[cc] == 0,
        decreases rcs@.len() - i,
    {
        let rc = rcs[i];
        proof {
            lemma_rows_and_cols_in_bounds(pre.layout, i as int);
        }
        let ghost before = board@;
        if board.ship_squares_remaining(rc) == 0 {
            let _res = board.replace_unknown(rc, Square::Water);
            proof {
                lemma_evolves_trans(pre, before, board@);
                assert forall|rr: int, cc: int|
                    0 <= rr < pre.squares.len() && 0 <= cc < pre.squares[rr].len() implies
                only_filled(pre, board@, Square::Water, rr, cc) by {
                    assert(only_filled(pre, before, Square::Water, rr, cc));
                }
                lemma_water_fill_keeps_counters(before, board@);
                assert forall|rr: int, cc: int|
                    0 <= rr < pre.squares.len() && 0 <= cc < pre.squares[rr].len()
                        && board@.squares[rr][cc] != pre.squares[rr][cc] implies
                pre.remaining_row[rr] == 0 || pre.remaining_col[cc] == 0 by {
                    if board@.squares[rr][cc] != before.squares[rr][cc] {
                        let coords = row_or_col_coords(rc, pre.layout);
                        assert(board@.squares[rr][cc] == crate::board::expected_cell_after_prefix(
                            before,
                            rc,
                            Square::Water,
                            coords.len() as int,
                            rr,
                            cc,
                        ));
                        let k = choose|k: int|
                            0 <= k < coords.len() && #[trigger] coords[k] == (Coord {
                                row_num: rr as usize,
                                col_num: cc as usize,
                            });
                        assert(before.remaining(rc) == 0);
                    }
                }
            }
        }
        proof {
            assert forall|j: int, k: int|
                0 <= j < i + 1 && board@.remaining(rcs@[j]) == 0 && 0 <= k < row_or_col_coords(
                    rcs@[j],
                    pre.layout,
                ).len() implies board@.cell(#[trigger] row_or_col_coords(rcs@[j], pre.layout)[k])
                != Square::Unknown by {
                let cellc = row_or_col_coords(rcs@[j], pre.layout)[k];
                crate::board::lemma_row_or_col_coord_in_bounds(rcs@[j], pre.layout, k);
                if j < i {
                    assert(before.cell(cellc) != Square::Unknown);
                } else {
                    assert(rcs@[j] == rc);
                }
            }
        }
        i += 1;
    }
    proof {
        assert forall|rc: RowOrCol, k: int|
            rc.in_bounds(board@.layout) && board@.remaining(rc) == 0 && 0 <= k < row_or_col_coords(
                rc,
                board@.layout,
            ).len() implies board@.cell(#[trigger] row_or_col_coords(rc, board@.layout)[k])
            != Square::Unknown by {
            let j: int = match rc.axis {
                Axis::Row => rc.index as int,
                Axis::Col => pre.layout.num_rows + rc.index,
            };
            assert(rows_and_cols_seq(pre.layout)[j] == rc);
        }
    }
    Ok(())
}

/// The trigger of `fill_with_ships` fires nowhere on `v` for this row or
/// column: its unknown-cell count may equal its remaining count only when
/// both are zero.
pub open spec fn fill_ships_quiescent(v: BoardView, rc: RowOrCol) -> bool {
    count_unknown_on(v, rc) == v.remaining(rc) ==> count_unknown_on(v, rc) == 0
}

/// Fill every unknown cell of each row and column whose unknown-cell count
/// equals its remaining count with generic ship squares. Changes cells only
/// from `Unknown` to the generic ship square; and when the rule reports no
/// change, no row or column still has unknown cells that its remaining count
/// exactly calls for.
pub fn fill_with_ships(board: &mut Board) -> (r: Result<(), Error>)
    requires
        old(board).wf(),
    ensures
        final(board).wf(),
        evolves(old(board)@, final(board)@),
        forall|rr: int, cc: int|
            0 <= rr < old(board)@.squares.len() && 0 <= cc < old(board)@.squares[rr].len()
                ==> only_filled(
                old(board)@,
                final(board)@,
                Square::ShipSquare(ShipSquare::Any),
                rr,
                cc,
            ),
        (r is Ok && !old(board)@.dirty && !final(board)@.dirty) ==> forall|rc: RowOrCol|
            rc.in_bounds(final(board)@.layout) ==> fill_ships_quiescent(final(board)@, rc),
        r matches Err(e) ==> e matches (Error::CounterExhausted { at, current, attempted })
            && current == Square::Unknown && attempted == Square::ShipSquare(ShipSquare::Any)
            && at.in_bounds(
            final(board)@.layout,
        ) && final(board)@.cell(at) == Square::Unknown && (final(board)@.remaining_row[
        at.row_num as int] == 0 || final(board)@.remaining_col[at.col_num as int] == 0),
        (forall|rc: RowOrCol|
            rc.in_bounds(old(board)@.layout) ==> fill_ships_quiescent(old(board)@, rc))
            ==> final(board)@ == old(board)@ && r is Ok,
        r is Ok ==> forall|rc: RowOrCol, k: int|
            rc.in_bounds(old(board)@.layout) && count_unknown_on(old(board)@, rc)
                == old(board)@.remaining(rc) && 0 <= k < row_or_col_coords(
                rc,
                old(board)@.layout,
            ).len() ==> final(board)@.cell(
                #[trigger] row_or_col_coords(rc, old(board)@.layout)[k],
            ) != Square::Unknown,
{
    let rcs = board.layout().rows_and_cols();
    let ghost pre = board@;
    let mut i: usize = 0;
    while i < rcs.len()
        invariant
            pre == old(board)@,
            board.wf(),
            pre.wf(),
            evolves(pre, board@),
            board@.layout == pre.layout,
            rcs@ == rows_and_cols_seq(pre.layout),
            i <= rcs@.len(),
            forall|rr: int, cc: int|
                0 <= rr < pre.squares.len() && 0 <= cc < pre.squares[rr].len() ==> only_filled(
                    pre,
                    board@,
                    Square::ShipSquare(ShipSquare::Any),
                    rr,
                    cc,
                ),
            board@ == pre ==> forall|j: int|
                0 <= j < i ==> fill_ships_quiescent(pre, #[trigger] rcs@[j]),
            (forall|rc: RowOrCol| rc.in_bounds(pre.layout) ==> fill_ships_quiescent(pre, rc))
                ==> board@ == pre,
            forall|j: int, k: int|
                0 <= j < i && count_unknown_on(pre, rcs@[j]) == pre.remaining(rcs@[j]) && 0 <= k
                    < row_or_col_coords(rcs@[j], pre.layout).len() ==> board@.cell(
                    #[trigger] row_or_col_coords(rcs@[j], pre.layout)[k],
                ) != Square::Unknown,
        decreases rcs@.len() - i,
    {
        let rc = rcs[i];
        proof {
            lemma_rows_and_cols_in_bounds(pre.layout, i as int);
        }
        let num_unknown = count_unknown(board, rc);
        let ghost before = board@;
        let remaining = board.ship_squares_remaining(rc);
        if num_unknown == remaining {
            proof {
                if forall|rc2: RowOrCol| rc2.in_bounds(pre.layout) ==> fill_ships_quiescent(
                    pre,
                    rc2,
                ) {
                    assert(fill_ships_quiescent(pre, rc));
                    assert(board@ == pre);
                    assert(count_unknown_on(pre, rc) == 0);
                    lemma_no_unknown_on(pre, rc);
                }
            }
            let res = board.replace_unknown(rc, Square::ShipSquare(ShipSquare::Any));
            proof {
                lemma_evolves_trans(pre, before, board@);
                assert forall|rr: int, cc: int|
                    0 <= rr < pre.squares.len() && 0 <= cc < pre.squares[rr].len() implies
                only_filled(pre, board@, Square::ShipSquare(ShipSquare::Any), rr, cc) by {
                    assert(only_filled(pre, before, Square::ShipSquare(ShipSquare::Any), rr, cc));
                }
            }
            if let Err(e) = res {
                proof {
                    let coords = row_or_col_coords(rc, before.layout);
                    let k = choose|k: int|
                        0 <= k < coords.len() && e == (Error::CounterExhausted {
                            at: #[trigger] coords[k],
                            current: Square::Unknown,
                            attempted: Square::ShipSquare(ShipSquare::Any),
                        }) && board@.cell(coords[k]) == Square::Unknown && (board@.remaining_row[
                        coords[k].row_num as int] == 0 || board@.remaining_col[
                        coords[k].col_num as int] == 0);
                    crate::board::lemma_row_or_col_coord_in_bounds(rc, before.layout, k);
                }
                return Err(e);
            }
            proof {
                assert forall|k: int|
                    0 <= k < row_or_col_coords(rc, pre.layout).len() implies board@.cell(
                    #[trigger] row_or_col_coords(rc, pre.layout)[k],
                ) != Square::Unknown by {
                    let coords = row_or_col_coords(rc, pre.layout);
                    crate::board::lemma_row_or_col_coord_in_bounds(rc, pre.layout, k);
                    let cellc = coords[k];
                    assert(board@.squares == crate::board::replace_unknown_squares(
                        before,
                        rc,
                        Square::ShipSquare(ShipSquare::Any),
                    ));
                    assert(board@.cell(cellc) == crate::board::expected_cell_after_prefix(
                        before,
                        rc,
                        Square::ShipSquare(ShipSquare::Any),
                        coords.len() as int,
                        cellc.row_num as int,
                        cellc.col_num as int,
                    ));
                    if before.cell(cellc) == Square::Unknown {
                        assert(coords[k] == (Coord {
                            row_num: cellc.row_num,
                            col_num: cellc.col_num,
                        }));
                        assert(board@.cell(cellc) == Square::ShipSquare(ShipSquare::Any));
                    }
                }
                if board@ == pre {
                    crate::board::lemma_evolves_sandwich(pre, before, board@);
                    lemma_replaced_all_unknowns_or_none(pre, rc);
                }
                if forall|rc2: RowOrCol| rc2.in_bounds(pre.layout) ==> fill_ships_quiescent(
                    pre,
                    rc2,
                ) {
                    assert(before == pre);
                    assert(res is Ok) by {
                        if res is Err {
                            let e = res->Err_0;
                            let coords = row_or_col_coords(rc, pre.layout);
                            let k = choose|k: int|
                                0 <= k < coords.len() && e == (Error::CounterExhausted {
                                    at: #[trigger] coords[k],
                                    current: Square::Unknown,
                                    attempted: Square::ShipSquare(ShipSquare::Any),
                                }) && board@.cell(coords[k]) == Square::Unknown && (
                                board@.remaining_row[coords[k].row_num as int] == 0
                                    || board@.remaining_col[coords[k].col_num as int] == 0);
                            assert(crate::board::square_narrows(
                                pre.cell(coords[k]),
                                board@.cell(coords[k]),
                            ));
                            assert(pre.cell(coords[k]) == Square::Unknown);
                        }
                    }
                    assert(board@.squares == crate::board::replace_unknown_squares(
                        pre,
                        rc,
                        Square::ShipSquare(ShipSquare::Any),
                    ));
                    assert(board@.squares =~~= pre.squares) by {
                        assert forall|rr: int, cc: int|
                            0 <= rr < pre.squares.len() && 0 <= cc
                                < pre.squares[rr].len() implies board@.squares[rr][cc]
                            == pre.squares[rr][cc] by {
                            assert(board@.squares[rr][cc]
                                == crate::board::expected_cell_after_prefix(
                                pre,
                                rc,
                                Square::ShipSquare(ShipSquare::Any),
                                row_or_col_coords(rc, pre.layout).len() as int,
                                rr,
                                cc,
                            ));
                            if pre.squares[rr][cc] == Square::Unknown {
                                if exists|k: int|
                                    0 <= k < row_or_col_coords(rc, pre.layout).len()
                                        && #[trigger] row_or_col_coords(rc, pre.layout)[k] == (
                                    Coord { row_num: rr as usize, col_num: cc as usize }) {
                                    let k = choose|k: int|
                                        0 <= k < row_or_col_coords(rc, pre.layout).len()
                                            && #[trigger] row_or_col_coords(rc, pre.layout)[k]
                                            == (Coord {
                                            row_num: rr as usize,
                                            col_num: cc as usize,
                                        });
                                    assert(pre.cell(row_or_col_coords(rc, pre.layout)[k])
                                        != Square::Unknown);
                                    assert(false);
                                }
                            }
                        }
                    }
                    assert(board@ == pre);
                }
            }
        }
        proof {
            if board@ == pre {
                if num_unknown != remaining {
                    assert(before == board@);
                }
                assert forall|j: int| 0 <= j < i + 1 implies fill_ships_quiescent(
                    pre,
                    #[trigger] rcs@[j],
                ) by {}
            }
            assert forall|j: int, k: int|
                0 <= j < i + 1 && count_unknown_on(pre, rcs@[j]) == pre.remaining(rcs@[j]) && 0 <= k
                    < row_or_col_coords(rcs@[j], pre.layout).len() implies board@.cell(
                #[trigger] row_or_col_coords(rcs@[j], pre.layout)[k],
            ) != Square::Unknown by {
                lemma_rows_and_cols_in_bounds(pre.layout, j);
                crate::board::lemma_row_or_col_coord_in_bounds(rcs@[j], pre.layout, k);
                let cellc = row_or_col_coords(rcs@[j], pre.layout)[k];
                if j < i {
                    assert(before.cell(cellc) != Square::Unknown);
                    assert(crate::board::square_narrows(before.cell(cellc), board@.cell(cellc)));
                } else {
                    assert(rcs@[j] == rc);
                    lemma_ship_fill_balance(pre, before, rc);
                    assert(num_unknown == remaining);
                }
            }
        }
        i += 1;
    }
    proof {
        assert forall|rc: RowOrCol, k: int|
            rc.in_bounds(pre.layout) && count_unknown_on(pre, rc) == pre.remaining(rc) && 0 <= k
                < row_or_col_coords(rc, pre.layout).len() implies board@.cell(
            #[trigger] row_or_col_coords(rc, pre.layout)[k],
        ) != Square::Unknown by {
            let j: int = match rc.axis {
                Axis::Row => rc.index as int,
                Axis::Col => pre.layout.num_rows + rc.index,
            };
            assert(rows_and_cols_seq(pre.layout)[j] == rc);
        }
        if !pre.dirty && !board@.dirty {
            assert(board@ == pre);
            assert forall|rc: RowOrCol| rc.in_bounds(board@.layout) implies fill_ships_quiescent(
                board@,
                rc,
            ) by {
                let j: int = match rc.axis {
                    Axis::Row => rc.index as int,
                    Axis::Col => pre.layout.num_rows + rc.index,
                };
                assert(rows_and_cols_seq(pre.layout)[j] == rc);
            }
        }
    }
    Ok(())
}

/// When cells change only from `Unknown` to ship squares, a line loses
/// exactly as many unknown cells as it gains ship squares.
proof fn lemma_unknown_ship_balance(s: Seq<Square>, t: Seq<Square>)
    requires
        s.len() == t.len(),
        forall|i: int|
            0 <= i < s.len() ==> t[i] == s[i] || (s[i] == Square::Unknown && (#[trigger] t[
                i
            ]).spec_is_ship()),
    ensures
        s.filter(|q: Square| q == Square::Unknown).len() - t.filter(
            |q: Square| q == Square::Unknown,
        ).len() == crate::board::count_ships(t) - crate::board::count_ships(s),
    decreases s.len(),
{
    let pred = |q: Square| q == Square::Unknown;
    if s.len() > 0 {
        lemma_unknown_ship_balance(s.drop_last(), t.drop_last());
        assert(s =~= s.drop_last().push(s.last()));
        assert(t =~= t.drop_last().push(t.last()));
        s.drop_last().lemma_filter_len_push(pred, s.last());
        t.drop_last().lemma_filter_len_push(pred, t.last());
        assert(t.last() == s.last() || (s.last() == Square::Unknown && t.last().spec_is_ship()));
    }
}

/// A step that only turns unknown cells into ship squares keeps, for every
/// row and column, the difference between its unknown-cell count and its
/// remaining count: each fill decrements both together. So whether the fill
/// rule's trigger holds of a line is decided by the board this rule started
/// from, whatever the earlier lines did to it.
proof fn lemma_ship_fill_balance(pre: BoardView, post: BoardView, rc: RowOrCol)
    requires
        pre.wf(),
        evolves(pre, post),
        forall|rr: int, cc: int|
            0 <= rr < pre.squares.len() && 0 <= cc < pre.squares[rr].len() ==> only_filled(
                pre,
                post,
                Square::ShipSquare(ShipSquare::Any),
                rr,
                cc,
            ),
        rc.in_bounds(pre.layout),
    ensures
        count_unknown_on(post, rc) - post.remaining(rc) == count_unknown_on(pre, rc)
            - pre.remaining(rc),
{
    let coords = row_or_col_coords(rc, pre.layout);
    let mapped_pre = coords.map_values(|c: Coord| pre.cell(c));
    let mapped_post = coords.map_values(|c: Coord| post.cell(c));
    assert forall|i: int| 0 <= i < mapped_pre.len() implies mapped_post[i] == mapped_pre[i] || (
    mapped_pre[i] == Square::Unknown && (#[trigger] mapped_post[i]).spec_is_ship()) by {
        crate::board::lemma_row_or_col_coord_in_bounds(rc, pre.layout, i);
        let c = coords[i];
        assert(only_filled(
            pre,
            post,
            Square::ShipSquare(ShipSquare::Any),
            c.row_num as int,
            c.col_num as int,
        ));
    }
    lemma_unknown_ship_balance(mapped_pre, mapped_post);
    match rc.axis {
        Axis::Row => {
            let r = rc.index as int;
            assert(mapped_pre =~= pre.squares[r]);
            assert(mapped_post =~= post.squares[r]);
            assert(post.row_total(r) == pre.row_total(r));
        },
        Axis::Col => {
            let c = rc.index as int;
            assert(mapped_pre =~= crate::board::col_seq(pre.squares, c));
            assert(mapped_post =~= crate::board::col_seq(post.squares, c));
            assert(post.col_total(c) == pre.col_total(c));
        },
    }
}

/// If replacing the unknown cells of `rc` with generic ship squares leaves
/// the grid unchanged, the row or column had no unknown cells.
proof fn lemma_replaced_all_unknowns_or_none(pre: BoardView, rc: RowOrCol)
    requires
        pre.wf(),
        rc.in_bounds(pre.layout),
        crate::board::replace_unknown_squares(pre, rc, Square::ShipSquare(ShipSquare::Any))
            == pre.squares,
    ensures
        count_unknown_on(pre, rc) == 0,
{
    broadcast use vstd::prelude::Seq::lemma_filter_pred;
    broadcast use vstd::prelude::Seq::lemma_filter_contains_rev;
    broadcast use vstd::seq_lib::lemma_seq_contains_after_push;

    let coords = row_or_col_coords(rc, pre.layout);
    let mapped = coords.map_values(|c: Coord| pre.cell(c));
    let pred = |s: Square| s == Square::Unknown;
    let filtered = mapped.filter(pred);
    if filtered.len() > 0 {
        let bad = filtered[0];
        assert(filtered.contains(bad));
        assert(mapped.contains(bad));
        assert(pred(bad)) by {
            mapped.lemma_filter_pred(pred, 0);
        }
        let k = choose|k: int| 0 <= k < mapped.len() && mapped[k] == bad;
        let c = coords[k];
        crate::board::lemma_row_or_col_coord_in_bounds(rc, pre.layout, k);
        let replaced = crate::board::replace_unknown_squares(
            pre,
            rc,
            Square::ShipSquare(ShipSquare::Any),
        );
        assert(crate::board::expected_cell_after_prefix(
            pre,
            rc,
            Square::ShipSquare(ShipSquare::Any),
            coords.len() as int,
            c.row_num as int,
            c.col_num as int,
        ) == Square::ShipSquare(ShipSquare::Any)) by {
            assert(coords[k] == (Coord { row_num: c.row_num, col_num: c.col_num }));
        }
        assert(replaced[c.row_num as int][c.col_num as int] == Square::ShipSquare(
            ShipSquare::Any,
        ));
        assert(pre.squares[c.row_num as int][c.col_num as int] == Square::Unknown);
        assert(false);
    }
}

/// A row or column with no unknown cells by count has no unknown cell at
/// any of its coordinates.
proof fn lemma_no_unknown_on(v: BoardView, rc: RowOrCol)
    requires
        v.wf(),
        rc.in_bounds(v.layout),
        count_unknown_on(v, rc) == 0,
    ensures
        forall|k: int|
            0 <= k < row_or_col_coords(rc, v.layout).len() ==> v.cell(
                #[trigger] row_or_col_coords(rc, v.layout)[k],
            ) != Square::Unknown,
{
    let coords = row_or_col_coords(rc, v.layout);
    let mapped = coords.map_values(|c: Coord| v.cell(c));
    let pred = |s: Square| s == Square::Unknown;
    assert forall|k: int| 0 <= k < coords.len() implies v.cell(#[trigger] coords[k])
        != Square::Unknown by {
        if v.cell(coords[k]) == Square::Unknown {
            assert(pred(mapped[k]));
            mapped.lemma_filter_contains(pred, k);
            assert(mapped.filter(pred).len() > 0) by {
                assert(mapped.filter(pred).contains(mapped[k]));
                let w = choose|w: int|
                    0 <= w < mapped.filter(pred).len() && mapped.filter(pred)[w] == mapped[k];
            }
        }
    }
}

/// The selectors `rows_and_cols` yields are all on the grid.
pub proof fn lemma_rows_and_cols_in_bounds(layout: crate::layout::Layout, i: int)
    requires
        0 <= i < rows_and_cols_seq(layout).len(),
    ensures
        rows_and_cols_seq(layout)[i].in_bounds(layout),
{
}

/// A step that only turns unknown cells into water leaves every remaining
/// counter as it was.
proof fn lemma_water_fill_keeps_counters(pre: BoardView, post: BoardView)
    requires
        pre.wf(),
        evolves(pre, post),
        forall|rr: int, cc: int|
            0 <= rr < pre.squares.len() && 0 <= cc < pre.squares[rr].len() ==> only_filled(
                pre,
                post,
                Square::Water,
                rr,
                cc,
            ),
    ensures
        post.remaining_row == pre.remaining_row,
        post.remaining_col == pre.remaining_col,
{
    assert forall|r: int| 0 <= r < pre.squares.len() implies post.remaining_row[r]
        == pre.remaining_row[r] by {
        assert forall|i: int| 0 <= i < pre.squares[r].len() implies pre.squares[r][i].spec_is_ship()
            == post.squares[r][i].spec_is_ship() by {
            assert(only_filled(pre, post, Square::Water, r, i));
        }
        lemma_count_ships_same(pre.squares[r], post.squares[r]);
        assert(post.row_total(r) == pre.row_total(r));
    }
    assert forall|c: int| 0 <= c < pre.remaining_col.len() implies post.remaining_col[c]
        == pre.remaining_col[c] by {
        assert forall|r: int|
            0 <= r < crate::board::col_seq(pre.squares, c).len() implies (
        crate::board::col_seq(pre.squares, c)[r].spec_is_ship() == crate::board::col_seq(
            post.squares,
            c,
        )[r].spec_is_ship()) by {
            assert(only_filled(pre, post, Square::Water, r, c));
        }
        lemma_count_ships_same(
            crate::board::col_seq(pre.squares, c),
            crate::board::col_seq(post.squares, c),
        );
        assert(post.col_total(c) == pre.col_total(c));
    }
    assert(post.remaining_row =~= pre.remaining_row);
    assert(post.remaining_col =~= pre.remaining_col);
}

/// Two cell rows that agree on which cells are ship squares hold the same
/// number of them.
proof fn lemma_count_ships_same(s: Seq<Square>, t: Seq<Square>)
    requires
        s.len() == t.len(),
        forall|i: int| 0 <= i < s.len() ==> s[i].spec_is_ship() == t[i].spec_is_ship(),
    ensures
        crate::board::count_ships(s) == crate::board::count_ships(t),
    decreases s.len(),
{
    if s.len() > 0 {
        lemma_count_ships_same(s.drop_last(), t.drop_last());
    }
}

} // verus!
