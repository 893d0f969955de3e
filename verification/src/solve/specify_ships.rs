//! A generic ship square whose surroundings are fully consistent with one
//! shape can be upgraded; among the shapes that fit, the most specific one
//! (the one forcing the most water) wins.

use vstd::prelude::*;

use crate::board::{evolves, lemma_evolves_trans, Board, BoardView};
use crate::error::Error;
use crate::layout::{all_coords_seq, lemma_all_coords_in_bounds, spec_neighbor, Coord};
use crate::neighbor::Neighbor;
use crate::square::{
    all_ship_squares_seq, is_ship_neighbor, is_water_neighbor, ShipSquare, Square,
};

verus! {

/// Cell `(r, c)` either kept its value or was a generic ship square that
/// resolved to some other ship square.
pub open spec fn only_refined(pre: BoardView, post: BoardView, r: int, c: int) -> bool {
    post.squares[r][c] == pre.squares[r][c] || (pre.squares[r][c] == Square::ShipSquare(
        ShipSquare::Any,
    ) && post.squares[r][c].spec_is_ship())
}

/// Shape `t` fits at `c`: every direction the shape needs a further ship
/// square in holds one on the grid, and every direction it forces to water
/// is water or off the grid.
pub open spec fn shape_fits(v: BoardView, c: Coord, t: ShipSquare) -> bool {
    &&& forall|n: Neighbor|
        is_ship_neighbor(t, n) ==> spec_neighbor(c, n, v.layout) is Some && v.cell(
            #[trigger] spec_neighbor(c, n, v.layout)->Some_0,
        ).spec_is_ship()
    &&& forall|n: Neighbor|
        is_water_neighbor(t, n) && (#[trigger] spec_neighbor(c, n, v.layout)) is Some ==> v.cell(
            spec_neighbor(c, n, v.layout)->Some_0,
        ) == Square::Water
}

/// Whether shape `t` fits at `c` on the current board.
fn check_shape_fits(board: &Board, c: Coord, t: ShipSquare) -> (r: bool)
    requires
        board.wf(),
        c.in_bounds(board@.layout),
    ensures
        r == shape_fits(board@, c, t),
{
    let layout = board.layout();
    let sn = t.ship_neighbors();
    let mut ships_ok = true;
    let mut j: usize = 0;
    while j < sn.len()
        invariant
            board.wf(),
            c.in_bounds(board@.layout),
            layout == board@.layout,
            forall|n: Neighbor| sn@.contains(n) <==> is_ship_neighbor(t, n),
            j <= sn@.len(),
            ships_ok == forall|k: int|
                0 <= k < j ==> spec_neighbor(c, #[trigger] sn@[k], board@.layout) is Some
                    && board@.cell(
                    spec_neighbor(c, sn@[k], board@.layout)->Some_0,
                ).spec_is_ship(),
        decreases sn@.len() - j,
    {
        let n = sn[j];
        let this_ok = match c.neighbor(n, &layout) {
            Some(nc) => board.square_at(nc).is_ship(),
            None => false,
        };
        ships_ok = ships_ok && this_ok;
        j += 1;
    }
    let wn = t.water_neighbors();
    let mut water_ok = true;
    let mut k: usize = 0;
    while k < wn.len()
        invariant
            board.wf(),
            c.in_bounds(board@.layout),
            layout == board@.layout,
            forall|n: Neighbor| wn@.contains(n) <==> is_water_neighbor(t, n),
            k <= wn@.len(),
            water_ok == forall|q: int|
                0 <= q < k ==> (spec_neighbor(c, #[trigger] wn@[q], board@.layout) is Some
                    ==> board@.cell(spec_neighbor(c, wn@[q], board@.layout)->Some_0)
                    == Square::Water),
        decreases wn@.len() - k,
    {
        let n = wn[k];
        let this_ok = match c.neighbor(n, &layout) {
            Some(nc) => board.square_at(nc) == Square::Water,
            None => true,
        };
        water_ok = water_ok && this_ok;
        k += 1;
    }
    proof {
        if ships_ok && water_ok {
            assert forall|n: Neighbor| is_ship_neighbor(t, n) implies spec_neighbor(
                c,
                n,
                board@.layout,
            ) is Some && board@.cell(
                spec_neighbor(c, n, board@.layout)->Some_0,
            ).spec_is_ship() by {
                assert(sn@.contains(n));
                let idx = choose|idx: int| 0 <= idx < sn@.len() && sn@[idx] == n;
            }
            assert forall|n: Neighbor|
                is_water_neighbor(t, n) && (#[trigger] spec_neighbor(
                    c,
                    n,
                    board@.layout,
                )) is Some implies board@.cell(spec_neighbor(c, n, board@.layout)->Some_0)
                == Square::Water by {
                assert(wn@.contains(n));
                let idx = choose|idx: int| 0 <= idx < wn@.len() && wn@[idx] == n;
            }
        }
        if !ships_ok {
            let k0 = choose|k0: int|
                0 <= k0 < sn@.len() && !(spec_neighbor(c, #[trigger] sn@[k0], board@.layout)
                    is Some && board@.cell(
                    spec_neighbor(c, sn@[k0], board@.layout)->Some_0,
                ).spec_is_ship());
            assert(sn@.contains(sn@[k0]));
            assert(is_ship_neighbor(t, sn@[k0]));
        }
        if !water_ok {
            let k0 = choose|k0: int|
                0 <= k0 < wn@.len() && !(spec_neighbor(c, #[trigger] wn@[k0], board@.layout)
                    is Some ==> board@.cell(spec_neighbor(c, wn@[k0], board@.layout)->Some_0)
                    == Square::Water);
            assert(wn@.contains(wn@[k0]));
            assert(is_water_neighbor(t, wn@[k0]));
        }
    }
    ships_ok && water_ok
}

/// A fitting shape keeps fitting when one generic ship square elsewhere is
/// refined: such a write changes no cell's ship-ness and no water.
proof fn lemma_fits_stable(before: BoardView, after: BoardView, c: Coord, t: ShipSquare)
    requires
        before.wf(),
        after.layout == before.layout,
        after.squares.len() == before.squares.len(),
        forall|r: int|
            0 <= r < before.squares.len() ==> (#[trigger] after.squares[r]).len()
                == before.squares[r].len(),
        forall|rr: int, cc: int|
            0 <= rr < before.squares.len() && 0 <= cc < before.squares[rr].len()
                ==> after.squares[rr][cc] == before.squares[rr][cc] || (before.squares[rr][cc]
                == Square::ShipSquare(ShipSquare::Any) && after.squares[rr][cc].spec_is_ship()),
        shape_fits(before, c, t),
    ensures
        shape_fits(after, c, t),
{
    assert forall|n: Neighbor| is_ship_neighbor(t, n) implies spec_neighbor(
        c,
        n,
        after.layout,
    ) is Some && after.cell(#[trigger] spec_neighbor(c, n, after.layout)->Some_0).spec_is_ship() by {
        let nb = spec_neighbor(c, n, before.layout)->Some_0;
        assert(nb.in_bounds(before.layout));
        assert(after.squares[nb.row_num as int][nb.col_num as int]
            == before.squares[nb.row_num as int][nb.col_num as int] || (
        before.squares[nb.row_num as int][nb.col_num as int] == Square::ShipSquare(
            ShipSquare::Any,
        ) && after.squares[nb.row_num as int][nb.col_num as int].spec_is_ship()));
    }
    assert forall|n: Neighbor|
        is_water_neighbor(t, n) && (#[trigger] spec_neighbor(c, n, after.layout)) is Some implies
    after.cell(spec_neighbor(c, n, after.layout)->Some_0) == Square::Water by {
        let nb = spec_neighbor(c, n, before.layout)->Some_0;
        assert(nb.in_bounds(before.layout));
        assert(after.squares[nb.row_num as int][nb.col_num as int]
            == before.squares[nb.row_num as int][nb.col_num as int] || (
        before.squares[nb.row_num as int][nb.col_num as int] == Square::ShipSquare(
            ShipSquare::Any,
        ) && after.squares[nb.row_num as int][nb.col_num as int].spec_is_ship()));
    }
}

/// The trigger of `refine_any_ship_to_specific_ship` fires nowhere at `c`: a
/// generic ship square there has no fitting shape other than the generic one
/// itself.
pub open spec fn refine_quiescent(v: BoardView, c: Coord) -> bool {
    v.cell(c) == Square::ShipSquare(ShipSquare::Any) ==> forall|t: ShipSquare|
        t != ShipSquare::Any ==> !(#[trigger] shape_fits(v, c, t))
}

/// Upgrade every generic ship square for which some shape fits to the most
/// specific fitting shape. Changes cells only from the generic ship square
/// to another ship square, and never fails; and when it reports no change,
/// no generic ship square has a more specific fitting shape.
pub fn refine_any_ship_to_specific_ship(board: &mut Board) -> (r: Result<(), Error>)
    requires
        old(board).wf(),
    ensures
        final(board).wf(),
        evolves(old(board)@, final(board)@),
        r is Ok,
        forall|rr: int, cc: int|
            0 <= rr < old(board)@.squares.len() && 0 <= cc < old(board)@.squares[rr].len()
                ==> only_refined(old(board)@, final(board)@, rr, cc),
        (!old(board)@.dirty && !final(board)@.dirty) ==> forall|c: Coord|
            c.in_bounds(final(board)@.layout) ==> refine_quiescent(final(board)@, c),
        (forall|c: Coord| c.in_bounds(old(board)@.layout) ==> refine_quiescent(old(board)@, c))
            ==> final(board)@ == old(board)@,
        forall|rr: int, cc: int|
            0 <= rr < old(board)@.squares.len() && 0 <= cc < old(board)@.squares[rr].len()
                && final(board)@.squares[rr][cc] != old(board)@.squares[rr][cc] ==> exists|
                t: ShipSquare,
            |
                final(board)@.squares[rr][cc] == Square::ShipSquare(t) && #[trigger] shape_fits(
                    final(board)@,
                    Coord { row_num: rr as usize, col_num: cc as usize },
                    t,
                ),
{
    let ghost pre = board@;
    let layout = board.layout();
    let coords = layout.all_coordinates();
    let mut i: usize = 0;
    while i < coords.len()
        invariant
            pre == old(board)@,
            board.wf(),
            pre.wf(),
            evolves(pre, board@),
            board@.layout == pre.layout,
            layout == pre.layout,
            coords@ == all_coords_seq(pre.layout),
            i <= coords@.len(),
            forall|rr: int, cc: int|
                0 <= rr < pre.squares.len() && 0 <= cc < pre.squares[rr].len() ==> only_refined(
                    pre,
                    board@,
                    rr,
                    cc,
                ),
            board@ == pre ==> forall|k: int|
                0 <= k < i ==> refine_quiescent(pre, #[trigger] coords@[k]),
            (forall|c: Coord| c.in_bounds(pre.layout) ==> refine_quiescent(pre, c)) ==> board@
                == pre,
            forall|rr: int, cc: int|
                0 <= rr < pre.squares.len() && 0 <= cc < pre.squares[rr].len()
                    && board@.squares[rr][cc] != pre.squares[rr][cc] ==> exists|t: ShipSquare|
                    board@.squares[rr][cc] == Square::ShipSquare(t) && #[trigger] shape_fits(
                        board@,
                        Coord { row_num: rr as usize, col_num: cc as usize },
                        t,
                    ),
        decreases coords@.len() - i,
    {
        let c = coords[i];
        proof {
            lemma_all_coords_in_bounds(pre.layout, i as int);
        }
        let ghost at_start = board@;
        if board.square_at(c) == Square::ShipSquare(ShipSquare::Any) {
            let shapes = ShipSquare::all();
            let mut best: Option<ShipSquare> = None;
            let mut best_water: usize = 0;
            let mut s: usize = 0;
            while s < shapes.len()
                invariant
                    board.wf(),
                    board@ == at_start,
                    c.in_bounds(board@.layout),
                    layout == board@.layout,
                    shapes@ == all_ship_squares_seq(),
                    s <= shapes@.len(),
                    best is None ==> forall|s2: int|
                        0 <= s2 < s ==> !shape_fits(board@, c, #[trigger] shapes@[s2]),
                    best matches Some(b) ==> shape_fits(board@, c, b) && best_water as int
                        == crate::square::water_neighbor_count(b),
                    best == Some(ShipSquare::Any) ==> forall|s2: int|
                        0 <= s2 < s && shape_fits(board@, c, #[trigger] shapes@[s2])
                            ==> shapes@[s2] == ShipSquare::Any,
                decreases shapes@.len() - s,
            {
                let t = shapes[s];
                if check_shape_fits(board, c, t) {
                    let wcount = t.water_neighbor_total();
                    match best {
                        None => {
                            best = Some(t);
                            best_water = wcount;
                        },
                        Some(_) => {
                            if wcount >= best_water {
                                best = Some(t);
                                best_water = wcount;
                            } else {
                                proof {
                                    // a fitting shape never loses to the
                                    // generic one: every shape forces at
                                    // least as much water
                                    assert(best != Some(ShipSquare::Any));
                                }
                            }
                        },
                    }
                }
                s += 1;
            }
            if let Some(t) = best {
                proof {
                    if forall|c2: Coord| c2.in_bounds(pre.layout) ==> refine_quiescent(pre, c2) {
                        assert(refine_quiescent(pre, c));
                        assert(board@ == pre);
                        assert(pre.cell(c) == Square::ShipSquare(ShipSquare::Any));
                        if t != ShipSquare::Any {
                            assert(shape_fits(pre, c, t));
                            assert(false);
                        }
                    }
                }
                let ghost before = board@;
                let res = board.set(c, Square::ShipSquare(t));
                proof {
                    lemma_evolves_trans(pre, before, board@);
                    assert forall|rr: int, cc: int|
                        0 <= rr < pre.squares.len() && 0 <= cc < pre.squares[rr].len() implies
                    only_refined(pre, board@, rr, cc) by {
                        assert(only_refined(pre, before, rr, cc));
                    }
                    assert(res is Ok);
                    if board@ == pre && t != ShipSquare::Any {
                        crate::board::lemma_evolves_sandwich(pre, before, board@);
                        assert(board@.cell(c) == Square::ShipSquare(t));
                        assert(false);
                    }
                    assert(shape_fits(before, c, t));
                    lemma_fits_stable(before, board@, c, t);
                    assert forall|rr: int, cc: int|
                        0 <= rr < pre.squares.len() && 0 <= cc < pre.squares[rr].len()
                            && board@.squares[rr][cc] != pre.squares[rr][cc] implies exists|
                        t2: ShipSquare,
                    |
                        board@.squares[rr][cc] == Square::ShipSquare(t2) && #[trigger] shape_fits(
                            board@,
                            Coord { row_num: rr as usize, col_num: cc as usize },
                            t2,
                        ) by {
                        let cc2 = Coord { row_num: rr as usize, col_num: cc as usize };
                        if cc2 == c {
                            assert(board@.squares[rr][cc] == Square::ShipSquare(t));
                            assert(shape_fits(board@, cc2, t));
                        } else {
                            assert(board@.squares[rr][cc] == before.squares[rr][cc]);
                            if before.squares[rr][cc] != pre.squares[rr][cc] {
                                let t2 = choose|t2: ShipSquare|
                                    before.squares[rr][cc] == Square::ShipSquare(t2)
                                        && #[trigger] shape_fits(before, cc2, t2);
                                lemma_fits_stable(before, board@, cc2, t2);
                            }
                        }
                    }
                }
            }
            proof {
                if board@ == pre {
                    assert(at_start == pre);
                    assert(refine_quiescent(pre, c)) by {
                        assert forall|t2: ShipSquare| t2 != ShipSquare::Any implies !(
                        #[trigger] shape_fits(pre, c, t2)) by {
                            crate::square::lemma_all_ship_squares_complete(t2);
                            if shape_fits(pre, c, t2) {
                                let s2 = choose|s2: int|
                                    0 <= s2 < all_ship_squares_seq().len()
                                        && all_ship_squares_seq()[s2] == t2;
                                assert(shape_fits(pre, c, shapes@[s2]));
                            }
                        }
                    }
                }
            }
        }
        proof {
            if board@ == pre {
                assert forall|k: int| 0 <= k < i + 1 implies refine_quiescent(
                    pre,
                    #[trigger] coords@[k],
                ) by {
                    if k == i {
                        assert(coords@[k] == c);
                        if pre.cell(c) != Square::ShipSquare(ShipSquare::Any) {
                            assert(refine_quiescent(pre, c));
                        }
                    }
                }
            }
        }
        i += 1;
    }
    proof {
        if !pre.dirty && !board@.dirty {
            assert(board@ == pre);
            assert forall|c: Coord| c.in_bounds(board@.layout) implies refine_quiescent(
                board@,
                c,
            ) by {
                crate::layout::lemma_all_coords_complete(pre.layout, c);
                let idx = c.row_num * pre.layout.num_cols + c.col_num as int;
                assert(coords@[idx] == c);
            }
        }
    }
    Ok(())
}

} // verus!
