//! Enumeration of the legal moves of a position, in a fixed order.
//!
//! Every move has a code below `MOVE_CODES`: origin, destination and
//! promotion in that order of weight. The legal moves of a position are
//! listed by ascending code.

use vstd::prelude::*;
use crate::rules::{Move, Pos, State, legal, pseudo_legal, owned_by, is_legal};

verus! {

/// The number of move codes: 64 origins, 64 destinations, 5 promotions.
pub const MOVE_CODES: u32 = 20480;

/// The move with the given code.
pub open spec fn move_of_code(c: int) -> Move {
    Move {
        from: (c / 320) as u8,
        to: ((c / 5) % 64) as u8,
        promo: (if c % 5 == 0 {
            0
        } else {
            c % 5 + 1
        }) as u8,
    }
}

/// The code of a move.
pub open spec fn code_of(m: Move) -> int {
    m.from * 320 + m.to * 5 + (if m.promo == 0 {
        0
    } else {
        m.promo - 1
    })
}

/// All moves, by ascending code.
pub open spec fn all_moves() -> Seq<Move> {
    Seq::new(MOVE_CODES as nat, |c: int| move_of_code(c))
}

/// The legal moves of a position, by ascending code.
pub open spec fn legal_seq(pos: Pos) -> Seq<Move> {
    all_moves().filter(|m: Move| legal(pos, m))
}

/// The legal moves among those with a code below `n`.
pub open spec fn legal_below(pos: Pos, n: int) -> Seq<Move> {
    all_moves().take(n).filter(|m: Move| legal(pos, m))
}

/// Codes and well-formed moves correspond one to one.
pub proof fn lemma_code_round_trip(m: Move)
    requires
        m.wf(),
    ensures
        0 <= code_of(m) < MOVE_CODES,
        move_of_code(code_of(m)) == m,
{
}

pub proof fn lemma_move_of_code(c: int)
    requires
        0 <= c < MOVE_CODES,
    ensures
        move_of_code(c).wf(),
        code_of(move_of_code(c)) == c,
{
}

/// How the list grows when one more code is considered.
pub proof fn lemma_legal_below_step(pos: Pos, n: int)
    requires
        0 <= n < MOVE_CODES,
    ensures
        legal_below(pos, n + 1) == if legal(pos, move_of_code(n)) {
            legal_below(pos, n).push(move_of_code(n))
        } else {
            legal_below(pos, n)
        },
{
    reveal_with_fuel(Seq::filter, 2);
    let s = all_moves().take(n + 1);
    assert(s.drop_last() =~= all_moves().take(n));
    assert(s.last() == move_of_code(n));
}

/// A stretch of codes without a legal move adds nothing to the list.
pub proof fn lemma_legal_below_skip(pos: Pos, start: int, n: int)
    requires
        0 <= start,
        0 <= n,
        start + n <= MOVE_CODES,
        forall|c: int| start <= c < start + n ==> !legal(pos, #[trigger] move_of_code(c)),
    ensures
        legal_below(pos, start + n) == legal_below(pos, start),
    decreases n,
{
    if n > 0 {
        lemma_legal_below_skip(pos, start, n - 1);
        lemma_legal_below_step(pos, start + n - 1);
    }
}

/// What the list of legal moves below a code holds: each member is legal
/// with a code below `n`, the codes ascend strictly, and every legal move
/// with a code below `n` is a member.
pub proof fn lemma_legal_below(pos: Pos, n: int)
    requires
        0 <= n <= MOVE_CODES,
    ensures
        forall|i: int|
            0 <= i < legal_below(pos, n).len() ==> legal(pos, #[trigger] legal_below(pos, n)[i])
                && code_of(legal_below(pos, n)[i]) < n,
        forall|i: int, j: int|
            0 <= i < j < legal_below(pos, n).len() ==> code_of(#[trigger] legal_below(pos, n)[i])
                < code_of(#[trigger] legal_below(pos, n)[j]),
        forall|m: Move|
            legal(pos, m) && code_of(m) < n ==> #[trigger] legal_below(pos, n).contains(m),
        legal_below(pos, n).len() <= n,
    decreases n,
{
    if n == 0 {
        reveal_with_fuel(Seq::filter, 1);
        assert(all_moves().take(0).len() == 0);
        assert forall|m: Move| legal(pos, m) && code_of(m) < 0 implies #[trigger] legal_below(
            pos,
            0,
        ).contains(m) by {
            lemma_code_round_trip(m);
        }
    } else {
        lemma_legal_below(pos, n - 1);
        lemma_legal_below_step(pos, n - 1);
        lemma_move_of_code(n - 1);
        let prev = legal_below(pos, n - 1);
        let cur = legal_below(pos, n);
        let last = move_of_code(n - 1);
        assert forall|m: Move| legal(pos, m) && code_of(m) < n implies #[trigger] cur.contains(
            m,
        ) by {
            reveal(legal);
            lemma_code_round_trip(m);
            if code_of(m) < n - 1 {
                assert(prev.contains(m));
                let i = choose|i: int| 0 <= i < prev.len() && prev[i] == m;
                assert(cur[i] == m);
            } else {
                assert(m == last);
                assert(cur[prev.len() as int] == m);
            }
        }
    }
}

/// What the list of legal moves holds: exactly the legal moves, by strictly
/// ascending code.
pub proof fn lemma_legal_seq(pos: Pos)
    ensures
        forall|m: Move| #[trigger] legal_seq(pos).contains(m) <==> legal(pos, m),
        forall|i: int| 0 <= i < legal_seq(pos).len() ==> legal(pos, #[trigger] legal_seq(pos)[i]),
        forall|i: int, j: int|
            0 <= i < j < legal_seq(pos).len() ==> code_of(#[trigger] legal_seq(pos)[i]) < code_of(
                #[trigger] legal_seq(pos)[j],
            ),
        legal_seq(pos).len() <= MOVE_CODES,
{
    lemma_legal_below(pos, MOVE_CODES as int);
    assert(all_moves().take(MOVE_CODES as int) =~= all_moves());
    assert forall|m: Move| legal(pos, m) implies #[trigger] legal_seq(pos).contains(m) by {
        reveal(legal);
        lemma_code_round_trip(m);
    }
}

/// Lists the legal moves of the position, by ascending code.
pub fn generate(state: &State) -> (moves: Vec<Move>)
    requires
        state.wf(),
    ensures
        moves@ == legal_seq(state@),
{
    let mut moves: Vec<Move> = Vec::new();
    let mut from: u8 = 0;
    proof {
        reveal_with_fuel(Seq::filter, 1);
        assert(all_moves().take(0).len() == 0);
    }
    while from < 64
        invariant
            from <= 64,
            state.wf(),
            moves@ == legal_below(state@, from * 320),
        decreases 64 - from,
    {
        let p: u8 = state.squares[from as usize];
        let own: bool = if state.white_to_move { 1 <= p && p <= 6 } else { 7 <= p && p <= 12 };
        if own {
            let mut j: u32 = 0;
            while j < 320
                invariant
                    from < 64,
                    j <= 320,
                    state.wf(),
                    moves@ == legal_below(state@, from * 320 + j),
                decreases 320 - j,
            {
                let i: u32 = j % 5;
                let m = Move {
                    from,
                    to: (j / 5) as u8,
                    promo: if i == 0 { 0 } else { (i + 1) as u8 },
                };
                assert(m == move_of_code(from * 320 + j));
                proof {
                    lemma_legal_below_step(state@, from * 320 + j);
                }
                if is_legal(state, &m) {
                    moves.push(m);
                }
                j += 1;
            }
        } else {
            proof {
                assert forall|c: int| from * 320 <= c < from * 320 + 320 implies !legal(
                    state@,
                    #[trigger] move_of_code(c),
                ) by {
                    reveal(legal);
                    assert(move_of_code(c).from == from);
                    assert(!owned_by(state@.squares[from as int], state@.white_to_move));
                }
                lemma_legal_below_skip(state@, from * 320, 320);
            }
        }
        from += 1;
    }
    assert(all_moves().take(MOVE_CODES as int) =~= all_moves());
    moves
}

} // verus!
