//! The deduction rules, one module each, and the fixed-point solve loop.

pub mod enough_space_for_middle;
pub mod fill_unknown;
pub mod only_place_it_can_go;
pub mod place_at_ends;
pub mod specify_middles;
pub mod specify_ships;
pub mod surround_middles;
pub mod surround_with_water;

use vstd::prelude::*;

use crate::board::{board_narrows, lemma_board_narrows_trans, Board, BoardView};
use crate::error::Error;
use crate::layout::{row_or_col_coords, spec_neighbor, Coord, RowOrCol};
use crate::neighbor::Neighbor;
use crate::solve::enough_space_for_middle::enough_space_quiescent;
use crate::solve::fill_unknown::fill_ships_quiescent;
use crate::solve::only_place_it_can_go::feasible_heads;
use crate::solve::place_at_ends::cap_open_direction;
use crate::solve::specify_middles::specify_middle_quiescent;
use crate::solve::specify_ships::refine_quiescent;
use crate::solve::surround_middles::middle_extension_dirs;
use crate::solve::surround_with_water::water_target;
use crate::square::Square;

verus! {

/// A generous safety cap on whole passes of the pipeline. Each pass that
/// continues the loop has changed at least one cell and cells only narrow,
/// so a puzzle needing this many passes signals a defect, not a hard puzzle.
pub const MAX_SOLVE_PASSES: u64 = 1000000;

/// The board is a fixed point of the whole pipeline, rule by rule: rows and
/// columns with nothing remaining hold no unknown cells; no row or column
/// has unknown cells that its remaining count exactly calls for; every
/// neighbor a ship square forces to water is water; every end cap's open
/// neighbor is known; no generic ship square has a more specific fitting
/// shape; both extension neighbors of every resolved middle hold ships; and
/// no unresolved middle is decided by the water beside it or by the
/// remaining counts.
pub open spec fn pipeline_quiescent(v: BoardView) -> bool {
    &&& forall|rc: RowOrCol, k: int|
        rc.in_bounds(v.layout) && v.remaining(rc) == 0 && 0 <= k < row_or_col_coords(
            rc,
            v.layout,
        ).len() ==> v.cell(#[trigger] row_or_col_coords(rc, v.layout)[k]) != Square::Unknown
    &&& forall|rc: RowOrCol| rc.in_bounds(v.layout) ==> #[trigger] fill_ships_quiescent(v, rc)
    &&& forall|c: Coord, n: Neighbor|
        #[trigger] water_target(v, c, n) ==> v.cell(spec_neighbor(c, n, v.layout)->Some_0)
            == Square::Water
    &&& forall|c: Coord|
        c.in_bounds(v.layout) && (#[trigger] cap_open_direction(v.cell(c))) is Some
            ==> spec_neighbor(c, cap_open_direction(v.cell(c))->Some_0, v.layout) is Some && v.cell(
            spec_neighbor(c, cap_open_direction(v.cell(c))->Some_0, v.layout)->Some_0,
        ) != Square::Unknown
    &&& forall|c: Coord| c.in_bounds(v.layout) ==> #[trigger] refine_quiescent(v, c)
    &&& forall|c: Coord, n: Neighbor|
        c.in_bounds(v.layout) && (#[trigger] middle_extension_dirs(v.cell(c))) is Some && (n
            == middle_extension_dirs(v.cell(c))->Some_0.0 || n == middle_extension_dirs(
            v.cell(c),
        )->Some_0.1) ==> (#[trigger] spec_neighbor(c, n, v.layout)) is Some && v.cell(
            spec_neighbor(c, n, v.layout)->Some_0,
        ).spec_is_ship()
    &&& forall|c: Coord| c.in_bounds(v.layout) ==> #[trigger] specify_middle_quiescent(v, c)
    &&& forall|c: Coord| c.in_bounds(v.layout) ==> #[trigger] enough_space_quiescent(v, c)
    &&& forall|t: int|
        0 <= t < v.spec_remaining_expected().len() ==> !(feasible_heads(
            v,
            #[trigger] v.spec_remaining_expected()[t],
        ).len() == v.spec_num_remaining(v.spec_remaining_expected()[t].size) && feasible_heads(
            v,
            v.spec_remaining_expected()[t],
        ).len() > 0)
}

/// One pass of the pipeline in its fixed order; reports whether any rule
/// changed the board. A pass that changes nothing certifies the board as a
/// fixed point of every rule.
#[verifier::rlimit(100)]
fn run_pass(board: &mut Board) -> (r: Result<bool, Error>)
    requires
        old(board).wf(),
    ensures
        final(board).wf(),
        board_narrows(old(board)@, final(board)@),
        match r {
            Ok(changed) => !changed ==> pipeline_quiescent(final(board)@),
            Err(e) => e is BadTransition || e is CounterExhausted || e is NoRoomForNeighbor
                || e is NoSpaceForMiddle,
        },
{
    let ghost pre = board@;
    let mut changed = false;

    let ghost b1 = board@;
    board.clear_dirty();
    let ghost c1 = board@;
    let res1 = fill_unknown::fill_with_water(board);
    proof {
        lemma_board_narrows_trans(b1, c1, board@);
        lemma_board_narrows_trans(pre, b1, board@);
    }
    if let Err(e) = res1 {
        return Err(e);
    }
    if board.dirty() {
        changed = true;
    }
    let ghost b2 = board@;
    board.clear_dirty();
    let ghost c2 = board@;
    let res2 = fill_unknown::fill_with_ships(board);
    proof {
        lemma_board_narrows_trans(b2, c2, board@);
        lemma_board_narrows_trans(pre, b2, board@);
    }
    if let Err(e) = res2 {
        return Err(e);
    }
    if board.dirty() {
        changed = true;
    }
    let ghost b3 = board@;
    board.clear_dirty();
    let ghost c3 = board@;
    let res3 = surround_with_water::surround_ships_with_water(board);
    proof {
        lemma_board_narrows_trans(b3, c3, board@);
        lemma_board_narrows_trans(pre, b3, board@);
    }
    if let Err(e) = res3 {
        return Err(e);
    }
    if board.dirty() {
        changed = true;
    }
    let ghost b4 = board@;
    board.clear_dirty();
    let ghost c4 = board@;
    let res4 = place_at_ends::place_ships_next_to_ends(board);
    proof {
        lemma_board_narrows_trans(b4, c4, board@);
        lemma_board_narrows_trans(pre, b4, board@);
    }
    if let Err(e) = res4 {
        return Err(e);
    }
    if board.dirty() {
        changed = true;
    }
    let ghost b5 = board@;
    board.clear_dirty();
    let ghost c5 = board@;
    let res5 = specify_ships::refine_any_ship_to_specific_ship(board);
    proof {
        lemma_board_narrows_trans(b5, c5, board@);
        lemma_board_narrows_trans(pre, b5, board@);
    }
    if let Err(e) = res5 {
        return Err(e);
    }
    if board.dirty() {
        changed = true;
    }
    let ghost b6 = board@;
    board.clear_dirty();
    let ghost c6 = board@;
    let res6 = only_place_it_can_go::find_only_place_for_ships(board);
    proof {
        lemma_board_narrows_trans(b6, c6, board@);
        lemma_board_narrows_trans(pre, b6, board@);
    }
    if let Err(e) = res6 {
        return Err(e);
    }
    if board.dirty() {
        changed = true;
    }
    let ghost b7 = board@;
    board.clear_dirty();
    let ghost c7 = board@;
    let res7 = specify_middles::specify_middle(board);
    proof {
        lemma_board_narrows_trans(b7, c7, board@);
        lemma_board_narrows_trans(pre, b7, board@);
    }
    if let Err(e) = res7 {
        return Err(e);
    }
    if board.dirty() {
        changed = true;
    }
    let ghost b8 = board@;
    board.clear_dirty();
    let ghost c8 = board@;
    let res8 = surround_middles::surround_middle_with_ships(board);
    proof {
        lemma_board_narrows_trans(b8, c8, board@);
        lemma_board_narrows_trans(pre, b8, board@);
    }
    if let Err(e) = res8 {
        return Err(e);
    }
    if board.dirty() {
        changed = true;
    }
    let ghost b9 = board@;
    board.clear_dirty();
    let ghost c9 = board@;
    let res9 = enough_space_for_middle::enough_space_for_middle(board);
    proof {
        lemma_board_narrows_trans(b9, c9, board@);
        lemma_board_narrows_trans(pre, b9, board@);
    }
    if let Err(e) = res9 {
        return Err(e);
    }
    if board.dirty() {
        changed = true;
    }

    proof {
        if !changed {
            crate::board::lemma_clean_pass_is_identity(c1, b2);
            assert(c2 == c1);
            crate::board::lemma_clean_pass_is_identity(c2, b3);
            assert(c3 == c1);
            crate::board::lemma_clean_pass_is_identity(c3, b4);
            assert(c4 == c1);
            crate::board::lemma_clean_pass_is_identity(c4, b5);
            assert(c5 == c1);
            crate::board::lemma_clean_pass_is_identity(c5, b6);
            assert(c6 == c1);
            crate::board::lemma_clean_pass_is_identity(c6, b7);
            assert(c7 == c1);
            crate::board::lemma_clean_pass_is_identity(c7, b8);
            assert(c8 == c1);
            crate::board::lemma_clean_pass_is_identity(c8, b9);
            assert(c9 == c1);
            crate::board::lemma_clean_pass_is_identity(c9, board@);
            assert(board@ == c1);
            assert(b2 == board@);
            assert(b3 == board@);
            assert(b4 == board@);
            assert(b5 == board@);
            assert(b6 == board@);
            assert(b7 == board@);
            assert(b8 == board@);
            assert(b9 == board@);
            assert(pipeline_quiescent(board@));
        }
    }
    Ok(changed)
}

/// Run the rule pipeline in its fixed order until a whole pass changes
/// nothing, and report whether the board came out fully solved. The board
/// only ever narrows: cells resolve and are never un-resolved, and every
/// remaining counter stays consistent with the ship squares on its row or
/// column. On success the final board is a fixed point of every rule. An
/// error is either the safety cap or a contradiction a rule found — never a
/// parse error — and aborts the solve with the progress made so far in
/// place.
pub fn solve(board: &mut Board) -> (r: Result<bool, Error>)
    requires
        old(board).wf(),
    ensures
        final(board).wf(),
        board_narrows(old(board)@, final(board)@),
        match r {
            Ok(solved) => solved == final(board)@.solved() && pipeline_quiescent(final(board)@),
            Err(e) => e == Error::TooManyPasses || e is BadTransition || e is CounterExhausted
                || e is NoRoomForNeighbor || e is NoSpaceForMiddle,
        },
{
    let ghost pre = board@;
    let mut passes: u64 = 0;
    loop
        invariant
            pre == old(board)@,
            board.wf(),
            pre.wf(),
            board_narrows(pre, board@),
            passes <= MAX_SOLVE_PASSES,
        ensures
            board.wf(),
            pre == old(board)@,
            board_narrows(pre, board@),
            pipeline_quiescent(board@),
        decreases MAX_SOLVE_PASSES - passes,
    {
        if passes >= MAX_SOLVE_PASSES {
            return Err(Error::TooManyPasses);
        }
        passes = passes + 1;
        let ghost b = board@;
        let res = run_pass(board);
        proof {
            lemma_board_narrows_trans(pre, b, board@);
        }
        match res {
            Err(e) => {
                return Err(e);
            },
            Ok(changed) => {
                if !changed {
                    break;
                }
            },
        }
    }
    Ok(board.is_solved())
}

} // verus!
