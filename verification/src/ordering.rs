//! Move ordering: the hint first, then the captures by most valuable
//! victim and least valuable attacker, then the quiet moves.

use vstd::prelude::*;
use crate::rules::{Move, Pos, PAWN, is_capture, takes_en_passant, kind_of, kind, legal,
    captures, lemma_legal_wf};
use crate::board::Board;
use crate::movegen::{code_of, legal_seq, lemma_legal_seq, lemma_code_round_trip, MOVE_CODES};

verus! {

/// The weight of the victim against the attacker in a capture's score.
pub const VICTIM_WEIGHT: i32 = 8;

/// The rank of the hint, above the score of every capture.
pub const HINT_RANK: i32 = 49;

/// The score of a move: for a capture the kind of the piece taken, times
/// `VICTIM_WEIGHT`, less the kind of the piece that takes, with the kinds
/// counted from pawn (1) to king (6); 0 for a quiet move.
pub open spec fn mvv_lva(pos: Pos, m: Move) -> int {
    if is_capture(pos, m) {
        let victim = if takes_en_passant(pos, m) {
            PAWN as int
        } else {
            kind_of(pos.squares[m.to as int])
        };
        victim * VICTIM_WEIGHT - kind_of(pos.squares[m.from as int])
    } else {
        0
    }
}

/// Every capture scores above every quiet move.
pub proof fn lemma_capture_outranks_quiet(pos: Pos, capture: Move, quiet: Move)
    requires
        pos.wf(),
        capture.wf(),
        quiet.wf(),
        is_capture(pos, capture),
        !is_capture(pos, quiet),
    ensures
        mvv_lva(pos, capture) > mvv_lva(pos, quiet),
        2 <= mvv_lva(pos, capture) <= 48,
{
    assert(pos.squares[capture.to as int] <= 12);
    assert(pos.squares[capture.from as int] <= 12);
}

/// The rank of a move in the ordering: `HINT_RANK` for the hint, else the
/// move's score.
pub open spec fn rank_of_move(pos: Pos, hint: Option<Move>, m: Move) -> int {
    if hint == Some(m) {
        HINT_RANK as int
    } else {
        mvv_lva(pos, m)
    }
}

/// Move `a` comes before move `b`: it has the higher rank, or the same
/// rank and the lower code.
pub open spec fn comes_before(pos: Pos, hint: Option<Move>, a: Move, b: Move) -> bool {
    rank_of_move(pos, hint, a) > rank_of_move(pos, hint, b) || (rank_of_move(pos, hint, a)
        == rank_of_move(pos, hint, b) && code_of(a) < code_of(b))
}

/// The ordering of a position's legal moves: every legal move and no
/// other, each before all that follow it.
pub open spec fn is_ordering(pos: Pos, hint: Option<Move>, moves: Seq<Move>) -> bool {
    &&& forall|m: Move| #[trigger] moves.contains(m) <==> legal(pos, m)
    &&& forall|i: int, j: int|
        0 <= i < j < moves.len() ==> comes_before(pos, hint, #[trigger] moves[i], #[trigger] moves[j])
}

/// An ordering holds no move twice, so it is no longer than there are move
/// codes.
pub proof fn lemma_ordering_len(pos: Pos, hint: Option<Move>, moves: Seq<Move>)
    requires
        is_ordering(pos, hint, moves),
    ensures
        moves.no_duplicates(),
        moves.len() <= MOVE_CODES,
{
    let codes = moves.map_values(|m: Move| code_of(m));
    assert forall|i: int| 0 <= i < moves.len() implies 0 <= #[trigger] codes[i] < MOVE_CODES by {
        assert(moves.contains(moves[i]));
        lemma_legal_wf(pos, moves[i]);
        lemma_code_round_trip(moves[i]);
    }
    assert forall|i: int, j: int| 0 <= i < j < moves.len() implies moves[i] != moves[j]
        && codes[i] != codes[j] by {
        assert(comes_before(pos, hint, moves[i], moves[j]));
        assert(moves.contains(moves[i]));
        assert(moves.contains(moves[j]));
        lemma_legal_wf(pos, moves[i]);
        lemma_legal_wf(pos, moves[j]);
        lemma_code_round_trip(moves[i]);
        lemma_code_round_trip(moves[j]);
    }
    assert(codes.no_duplicates());
    codes.unique_seq_to_set();
    vstd::set_lib::lemma_int_range(0, MOVE_CODES as int);
    assert(codes.to_set().subset_of(vstd::set_lib::set_int_range(0, MOVE_CODES as int))) by {
        assert forall|c: int| codes.to_set().contains(c) implies vstd::set_lib::set_int_range(
            0,
            MOVE_CODES as int,
        ).contains(c) by {
            let i = choose|i: int| 0 <= i < codes.len() && codes[i] == c;
            assert(0 <= codes[i] < MOVE_CODES);
        }
    }
    vstd::set_lib::lemma_len_subset(
        codes.to_set(),
        vstd::set_lib::set_int_range(0, MOVE_CODES as int),
    );
}

/// Scores a move for ordering.
pub fn mvv_lva_score(board: &Board, mv: &Move) -> (score: i32)
    requires
        board.wf(),
        mv.wf(),
    ensures
        score == mvv_lva(board@.pos, *mv),
        0 <= score <= 48,
{
    assert(board@.pos.squares[mv.to as int] <= 12);
    assert(board@.pos.squares[mv.from as int] <= 12);
    if captures(&board.state, mv) {
        let target: u8 = board.state.squares[mv.to as usize];
        let victim: i32 = if target == 0 { PAWN as i32 } else { kind(target) as i32 };
        victim * VICTIM_WEIGHT - kind(board.state.squares[mv.from as usize]) as i32
    } else {
        0
    }
}

/// The legal moves of the position in search order: the hint first, if it
/// is legal here, then the others by descending score, moves of one score
/// by ascending code.
pub fn order_moves(board: &Board, tt_move: Option<&Move>) -> (moves: Vec<Move>)
    requires
        board.wf(),
    ensures
        is_ordering(
            board@.pos,
            match tt_move {
                Some(h) => Some(*h),
                None => None,
            },
            moves@,
        ),
{
    let ghost pos = board@.pos;
    let ghost hint: Option<Move> = match tt_move {
        Some(h) => Some(*h),
        None => None,
    };
    let legal_moves = board.legal_moves();
    let n: usize = legal_moves.len();
    proof {
        lemma_legal_seq(pos);
    }
    let mut ranks: Vec<i32> = Vec::new();
    let mut i: usize = 0;
    while i < n
        invariant
            i <= n,
            n == legal_moves@.len(),
            board.wf(),
            pos == board@.pos,
            legal_moves@ == legal_seq(pos),
            hint == (match tt_move {
                Some(h) => Some(*h),
                None => None,
            }),
            forall|k: int| 0 <= k < n ==> legal(pos, #[trigger] legal_moves@[k]),
            ranks@.len() == i,
            forall|k: int| 0 <= k < i ==> #[trigger] ranks@[k] == rank_of_move(pos, hint, legal_moves@[k]),
            forall|k: int| 0 <= k < i ==> 0 <= #[trigger] ranks@[k] <= 49,
        decreases n - i,
    {
        let m: Move = legal_moves[i];
        assert(legal(pos, legal_moves@[i as int]));
        proof {
            lemma_legal_wf(pos, m);
        }
        let is_hint: bool = match tt_move {
            Some(h) => h.from == m.from && h.to == m.to && h.promo == m.promo,
            None => false,
        };
        let r: i32 = if is_hint { HINT_RANK } else { mvv_lva_score(board, &m) };
        ranks.push(r);
        i += 1;
    }
    let mut moves: Vec<Move> = Vec::new();
    let mut level: i32 = HINT_RANK;
    while level >= 0
        invariant
            -1 <= level <= 49,
            n == legal_moves@.len(),
            ranks@.len() == n,
            legal_moves@ == legal_seq(pos),
            forall|k: int| 0 <= k < n ==> legal(pos, #[trigger] legal_moves@[k]),
            forall|k: int, l: int|
                0 <= k < l < n ==> code_of(#[trigger] legal_moves@[k]) < code_of(
                    #[trigger] legal_moves@[l],
                ),
            forall|k: int| 0 <= k < n ==> #[trigger] ranks@[k] == rank_of_move(pos, hint, legal_moves@[k]),
            forall|k: int| 0 <= k < n ==> 0 <= #[trigger] ranks@[k] <= 49,
            forall|k: int|
                0 <= k < moves@.len() ==> legal(pos, #[trigger] moves@[k]) && rank_of_move(
                    pos,
                    hint,
                    moves@[k],
                ) > level,
            forall|k: int, l: int|
                0 <= k < l < moves@.len() ==> comes_before(
                    pos,
                    hint,
                    #[trigger] moves@[k],
                    #[trigger] moves@[l],
                ),
            forall|k: int|
                0 <= k < n && ranks@[k] > level ==> moves@.contains(#[trigger] legal_moves@[k]),
        decreases level + 1,
    {
        let mut j: usize = 0;
        while j < n
            invariant
                0 <= level <= 49,
                j <= n,
                n == legal_moves@.len(),
                ranks@.len() == n,
                forall|k: int| 0 <= k < n ==> legal(pos, #[trigger] legal_moves@[k]),
                forall|k: int, l: int|
                    0 <= k < l < n ==> code_of(#[trigger] legal_moves@[k]) < code_of(
                        #[trigger] legal_moves@[l],
                    ),
                forall|k: int|
                    0 <= k < n ==> #[trigger] ranks@[k] == rank_of_move(pos, hint, legal_moves@[k]),
                forall|k: int| 0 <= k < n ==> 0 <= #[trigger] ranks@[k] <= 49,
                forall|k: int|
                    0 <= k < moves@.len() ==> legal(pos, #[trigger] moves@[k]) && (rank_of_move(
                        pos,
                        hint,
                        moves@[k],
                    ) > level || (rank_of_move(pos, hint, moves@[k]) == level && (j < n ==> code_of(
                        moves@[k],
                    ) < code_of(legal_moves@[j as int])))),
                forall|k: int, l: int|
                    0 <= k < l < moves@.len() ==> comes_before(
                        pos,
                        hint,
                        #[trigger] moves@[k],
                        #[trigger] moves@[l],
                    ),
                forall|k: int|
                    0 <= k < n && (ranks@[k] > level || (ranks@[k] == level && k < j))
                        ==> moves@.contains(#[trigger] legal_moves@[k]),
            decreases n - j,
        {
            if ranks[j] == level {
                let ghost before = moves@;
                moves.push(legal_moves[j]);
                proof {
                    let m = legal_moves@[j as int];
                    assert(moves@[before.len() as int] == m);
                    assert forall|k: int|
                        0 <= k < n && (ranks@[k] > level || (ranks@[k] == level && k < j + 1))
                            implies moves@.contains(#[trigger] legal_moves@[k]) by {
                        if k == j {
                            assert(moves@[before.len() as int] == legal_moves@[k]);
                        } else {
                            assert(before.contains(legal_moves@[k]));
                            let w = choose|w: int| 0 <= w < before.len() && before[w] == legal_moves@[k];
                            assert(moves@[w] == legal_moves@[k]);
                        }
                    }
                }
            } else {
                proof {
                    assert forall|k: int| 0 <= k < moves@.len() && j + 1 < n && rank_of_move(
                        pos,
                        hint,
                        #[trigger] moves@[k],
                    ) == level implies code_of(moves@[k]) < code_of(legal_moves@[j + 1]) by {
                        assert(code_of(legal_moves@[j as int]) < code_of(legal_moves@[j + 1]));
                    }
                }
            }
            j += 1;
        }
        level -= 1;
    }
    proof {
        assert forall|m: Move| #[trigger] moves@.contains(m) <==> legal(pos, m) by {
            if legal(pos, m) {
                assert(legal_seq(pos).contains(m));
                let k = choose|k: int| 0 <= k < n && legal_moves@[k] == m;
                assert(ranks@[k] > level);
                assert(moves@.contains(legal_moves@[k]));
            }
        }
    }
    moves
}

} // verus!
