//! Static evaluation: the worth of the pieces where they stand, blended
//! between midgame and endgame by the game phase.

use vstd::prelude::*;
use crate::rules::Pos;
use crate::board::Board;
use crate::pst::{game_phase, piece_square, phase_of, tapered, tapered_score, worth_sum,
    lemma_tapered_between};

verus! {

/// No static score lies further from zero than this.
pub const EVAL_LIMIT: i32 = 30_000;

pub open spec fn clamp(x: int, lo: int, hi: int) -> int {
    if x < lo {
        lo
    } else if x > hi {
        hi
    } else {
        x
    }
}

/// The static score of a position for the side to move: the midgame and
/// endgame worth of the pieces, counted for White, blended by the game
/// phase, negated where Black is to move, and kept within `EVAL_LIMIT`.
pub open spec fn eval_of(pos: Pos) -> int {
    let blend = tapered(
        worth_sum(pos.squares, 64, false),
        worth_sum(pos.squares, 64, true),
        phase_of(pos),
    );
    clamp(
        if pos.white_to_move {
            blend
        } else {
            -blend
        },
        -EVAL_LIMIT as int,
        EVAL_LIMIT as int,
    )
}

fn total_worth(board: &Board, endgame: bool) -> (total: i32)
    requires
        board.wf(),
    ensures
        total == worth_sum(board@.pos.squares, 64, endgame),
        -64000 <= total <= 64000,
{
    let mut total: i32 = 0;
    let mut i: u8 = 0;
    while i < 64
        invariant
            i <= 64,
            board.wf(),
            total == worth_sum(board@.pos.squares, i as int, endgame),
            -1000 * i <= total <= 1000 * i,
        decreases 64 - i,
    {
        let p: u8 = board.state.squares[i as usize];
        assert(board@.pos.squares[i as int] <= 12);
        total = total + piece_square(p, i, endgame);
        i += 1;
    }
    total
}

/// Scores the position for the side to move; a positive score favours
/// that side.
pub fn evaluate(board: &Board) -> (score: i32)
    requires
        board.wf(),
    ensures
        score == eval_of(board@.pos),
        -EVAL_LIMIT <= score <= EVAL_LIMIT,
{
    let mg: i32 = total_worth(board, false);
    let eg: i32 = total_worth(board, true);
    let phase: i32 = game_phase(board);
    proof {
        lemma_tapered_between(mg as int, eg as int, phase as int);
    }
    let blend: i32 = tapered_score(mg, eg, phase);
    let score: i32 = if board.state.white_to_move { blend } else { -blend };
    if score < -EVAL_LIMIT {
        -EVAL_LIMIT
    } else if score > EVAL_LIMIT {
        EVAL_LIMIT
    } else {
        score
    }
}

} // verus!
