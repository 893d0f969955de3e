//! Every resolved ship-square shape forces certain neighbors to be water;
//! this rule writes that water in.

use vstd::prelude::*;

use crate::board::{evolves, lemma_evolves_trans, Board};
use crate::error::Error;
use crate::layout::{all_coords_seq, lemma_all_coords_complete, spec_neighbor, Coord};
use crate::neighbor::{all_neighbors_seq, lemma_all_neighbors_complete, Neighbor};
use crate::solve::fill_unknown::only_filled;
use crate::square::{is_water_neighbor, Square};

verus! {

broadcast use vstd::seq_lib::lemma_seq_contains_after_push;

/// The ship square at `c` forces direction `n` to water, and that neighbor
/// lies on the grid.
pub open spec fn water_target(v: crate::board::BoardView, c: Coord, n: Neighbor) -> bool {
    &&& c.in_bounds(v.layout)
    &&& v.cell(c) is ShipSquare
    &&& is_water_neighbor(v.cell(c)->ShipSquare_0, n)
    &&& spec_neighbor(c, n, v.layout) is Some
}

/// Some ship square of `v` forces the cell `t` to water.
pub open spec fn is_forced_water_cell(v: crate::board::BoardView, t: Coord) -> bool {
    exists|c: Coord, n: Neighbor|
        #[trigger] water_target(v, c, n) && spec_neighbor(c, n, v.layout) == Some(t)
}

/// Set to water every in-bounds neighbor that a resolved ship square forces
/// to water. Changes cells only from `Unknown` to `Water`, and only at cells
/// some ship square forces to water. The rule fails exactly when a
/// forced-water cell already holds a ship square — a contradiction — and the
/// error then names that cell; on success every forced neighbor is water.
pub fn surround_ships_with_water(board: &mut Board) -> (r: Result<(), Error>)
    requires
        old(board).wf(),
    ensures
        final(board).wf(),
        evolves(old(board)@, final(board)@),
        forall|rr: int, cc: int|
            0 <= rr < old(board)@.squares.len() && 0 <= cc < old(board)@.squares[rr].len()
                ==> only_filled(old(board)@, final(board)@, Square::Water, rr, cc),
        forall|rr: int, cc: int|
            0 <= rr < old(board)@.squares.len() && 0 <= cc < old(board)@.squares[rr].len()
                && final(board)@.squares[rr][cc] != old(board)@.squares[rr][cc]
                ==> is_forced_water_cell(
                old(board)@,
                Coord { row_num: rr as usize, col_num: cc as usize },
            ),
        r is Err <==> exists|c: Coord, n: Neighbor|
            #[trigger] water_target(old(board)@, c, n) && old(board)@.cell(
                spec_neighbor(c, n, old(board)@.layout)->Some_0,
            ).spec_is_ship(),
        r matches Err(e) ==> exists|c: Coord, n: Neighbor|
            #[trigger] water_target(old(board)@, c, n) && old(board)@.cell(
                spec_neighbor(c, n, old(board)@.layout)->Some_0,
            ).spec_is_ship() && e == (Error::BadTransition {
                at: spec_neighbor(c, n, old(board)@.layout)->Some_0,
                current: old(board)@.cell(spec_neighbor(c, n, old(board)@.layout)->Some_0),
                attempted: Square::Water,
            }),
        r is Ok ==> forall|c: Coord, n: Neighbor|
            #[trigger] water_target(final(board)@, c, n) ==> final(board)@.cell(
                spec_neighbor(c, n, final(board)@.layout)->Some_0,
            ) == Square::Water,
{
    let ghost pre = board@;
    let layout = board.layout();
    let coords = layout.all_coordinates();
    let mut targets: Vec<Coord> = Vec::new();
    let mut i: usize = 0;
    while i < coords.len()
        invariant
            board.wf(),
            pre == board@,
            layout == pre.layout,
            coords@ == all_coords_seq(pre.layout),
            i <= coords@.len(),
            forall|t: Coord| targets@.contains(t) ==> t.in_bounds(pre.layout),
            forall|kk: int|
                0 <= kk < targets@.len() ==> is_forced_water_cell(pre, #[trigger] targets@[kk]),
            forall|k: int, n: Neighbor|
                0 <= k < i && #[trigger] water_target(pre, coords@[k], n) ==> targets@.contains(
                    spec_neighbor(coords@[k], n, pre.layout)->Some_0,
                ),
        decreases coords@.len() - i,
    {
        let c = coords[i];
        proof {
            crate::layout::lemma_all_coords_in_bounds(pre.layout, i as int);
        }
        let sq = board.square_at(c);
        if let Square::ShipSquare(t) = sq {
            let wn = t.water_neighbors();
            let mut j: usize = 0;
            while j < wn.len()
                invariant
                    board.wf(),
                    pre == board@,
                    layout == pre.layout,
                    c.in_bounds(pre.layout),
                    pre.cell(c) == Square::ShipSquare(t),
                    forall|n: Neighbor| wn@.contains(n) <==> is_water_neighbor(t, n),
                    j <= wn@.len(),
                    forall|tc: Coord| targets@.contains(tc) ==> tc.in_bounds(pre.layout),
                    forall|kk: int|
                        0 <= kk < targets@.len() ==> is_forced_water_cell(
                            pre,
                            #[trigger] targets@[kk],
                        ),
                    forall|k: int, n: Neighbor|
                        0 <= k < i && #[trigger] water_target(pre, coords@[k], n)
                            ==> targets@.contains(spec_neighbor(coords@[k], n, pre.layout)->Some_0),
                    forall|k: int|
                        0 <= k < j && spec_neighbor(c, wn@[k], pre.layout) is Some
                            ==> targets@.contains(
                            spec_neighbor(c, #[trigger] wn@[k], pre.layout)->Some_0,
                        ),
                decreases wn@.len() - j,
            {
                let n = wn[j];
                if let Some(nc) = c.neighbor(n, &layout) {
                    let ghost old_targets = targets@;
                    targets.push(nc);
                    proof {
                        assert(wn@.contains(n)) by {
                            wn@.lemma_index_contains(j as int);
                        }
                        assert(water_target(pre, c, n));
                        assert forall|kk: int| 0 <= kk < targets@.len() implies
                        is_forced_water_cell(pre, #[trigger] targets@[kk]) by {
                            if kk < old_targets.len() {
                                assert(targets@[kk] == old_targets[kk]);
                            } else {
                                assert(targets@[kk] == nc);
                                assert(spec_neighbor(c, n, pre.layout) == Some(nc));
                            }
                        }
                    }
                }
                j += 1;
            }
            proof {
                assert forall|n: Neighbor| #[trigger] water_target(pre, c, n) implies targets@
                    .contains(spec_neighbor(c, n, pre.layout)->Some_0) by {
                    let k = choose|k: int| 0 <= k < wn@.len() && wn@[k] == n;
                    assert(wn@.contains(n));
                }
            }
        }
        proof {
            assert forall|k: int, n: Neighbor|
                0 <= k < i + 1 && #[trigger] water_target(pre, coords@[k], n) implies targets@
                .contains(spec_neighbor(coords@[k], n, pre.layout)->Some_0) by {
                if k == i {
                    assert(coords@[k] == c);
                    assert(pre.cell(c) is ShipSquare);
                }
            }
        }
        i += 1;
    }
    proof {
        crate::board::lemma_evolves_refl(pre);
    }
    let mut k: usize = 0;
    while k < targets.len()
        invariant
            pre == old(board)@,
            board.wf(),
            pre.wf(),
            evolves(pre, board@),
            board@.layout == pre.layout,
            k <= targets@.len(),
            forall|t: Coord| targets@.contains(t) ==> t.in_bounds(pre.layout),
            forall|kk: int|
                0 <= kk < targets@.len() ==> is_forced_water_cell(pre, #[trigger] targets@[kk]),
            forall|rr: int, cc: int|
                0 <= rr < pre.squares.len() && 0 <= cc < pre.squares[rr].len() ==> only_filled(
                    pre,
                    board@,
                    Square::Water,
                    rr,
                    cc,
                ),
            forall|rr: int, cc: int|
                0 <= rr < pre.squares.len() && 0 <= cc < pre.squares[rr].len()
                    && board@.squares[rr][cc] != pre.squares[rr][cc] ==> is_forced_water_cell(
                    pre,
                    Coord { row_num: rr as usize, col_num: cc as usize },
                ),
            forall|kk: int|
                0 <= kk < k ==> board@.cell(#[trigger] targets@[kk]) == Square::Water,
        decreases targets@.len() - k,
    {
        let t = targets[k];
        proof {
            assert(targets@.contains(t)) by {
                targets@.lemma_index_contains(k as int);
            }
        }
        let ghost before = board@;
        let res = board.set(t, Square::Water);
        proof {
            lemma_evolves_trans(pre, before, board@);
            assert forall|rr: int, cc: int|
                0 <= rr < pre.squares.len() && 0 <= cc < pre.squares[rr].len() implies only_filled(
                pre,
                board@,
                Square::Water,
                rr,
                cc,
            ) by {
                assert(only_filled(pre, before, Square::Water, rr, cc));
            }
            assert forall|rr: int, cc: int|
                0 <= rr < pre.squares.len() && 0 <= cc < pre.squares[rr].len()
                    && board@.squares[rr][cc] != pre.squares[rr][cc] implies is_forced_water_cell(
                pre,
                Coord { row_num: rr as usize, col_num: cc as usize },
            ) by {
                if board@.squares[rr][cc] != before.squares[rr][cc] {
                    assert(rr == t.row_num && cc == t.col_num);
                    assert(targets@[k as int] == t);
                    assert((Coord { row_num: rr as usize, col_num: cc as usize }) == t);
                }
            }
        }
        if let Err(e) = res {
            proof {
                assert(crate::board::square_narrows(before.cell(t), Square::Water)
                    ==> Board::set_ok(before, t, Square::Water));
                assert(before.cell(t).spec_is_ship());
                assert(pre.cell(t) == before.cell(t)) by {
                    assert(only_filled(pre, before, Square::Water, t.row_num as int,
                        t.col_num as int));
                }
                assert(e == (Error::BadTransition {
                    at: t,
                    current: pre.cell(t),
                    attempted: Square::Water,
                }));
                assert(targets@[k as int] == t);
                let (c0, n0) = choose|c0: Coord, n0: Neighbor|
                    #[trigger] water_target(pre, c0, n0) && spec_neighbor(c0, n0, pre.layout)
                        == Some(t);
                assert(water_target(pre, c0, n0) && pre.cell(
                    spec_neighbor(c0, n0, pre.layout)->Some_0,
                ).spec_is_ship());
            }
            return Err(e);
        }
        proof {
            assert forall|kk: int| 0 <= kk < k + 1 implies board@.cell(#[trigger] targets@[kk])
                == Square::Water by {
                targets@.lemma_index_contains(kk);
                if kk < k {
                    assert(before.cell(targets@[kk]) == Square::Water);
                    assert(crate::board::square_narrows(
                        before.cell(targets@[kk]),
                        board@.cell(targets@[kk]),
                    ));
                } else {
                    assert(targets@[kk] == t);
                }
            }
        }
        k += 1;
    }
    proof {
        assert forall|c: Coord, n: Neighbor| #[trigger] water_target(board@, c, n) implies board@
            .cell(spec_neighbor(c, n, board@.layout)->Some_0) == Square::Water by {
            lemma_all_coords_complete(pre.layout, c);
            let idx = c.row_num * pre.layout.num_cols + c.col_num as int;
            assert(only_filled(pre, board@, Square::Water, c.row_num as int, c.col_num as int));
            assert(pre.cell(c) == board@.cell(c));
            assert(water_target(pre, coords@[idx], n));
            let tc = spec_neighbor(c, n, pre.layout)->Some_0;
            assert(targets@.contains(tc));
            let kk = choose|kk: int| 0 <= kk < targets@.len() && targets@[kk] == tc;
            assert(board@.cell(targets@[kk]) == Square::Water);
        }
        assert forall|c: Coord, n: Neighbor|
            #[trigger] water_target(pre, c, n) implies !pre.cell(
            spec_neighbor(c, n, pre.layout)->Some_0,
        ).spec_is_ship() by {
            lemma_all_coords_complete(pre.layout, c);
            let idx = c.row_num * pre.layout.num_cols + c.col_num as int;
            assert(water_target(pre, coords@[idx], n));
            let tc = spec_neighbor(c, n, pre.layout)->Some_0;
            assert(targets@.contains(tc));
            let kk = choose|kk: int| 0 <= kk < targets@.len() && targets@[kk] == tc;
            assert(board@.cell(targets@[kk]) == Square::Water);
            assert(tc.in_bounds(pre.layout));
            assert(crate::board::square_narrows(pre.cell(tc), board@.cell(tc)));
        }
    }
    Ok(())
}

} // verus!
