//! Game phase and the tapered blend of midgame and endgame scores.

use vstd::prelude::*;
use crate::rules::{Pos, kind_of, kind, is_white, KNIGHT, BISHOP, ROOK, QUEEN, PAWN, KING};
use crate::board::Board;

verus! {

/// Phase value of a position with full material.
pub const MAX_PHASE: i32 = 24;

/// Quotient of `n` by `d`, rounded toward zero.
pub open spec fn div_toward_zero(n: int, d: int) -> int
    recommends
        d > 0,
{
    if n >= 0 {
        n / d
    } else {
        -((-n) / d)
    }
}

/// The blend `(phase * mg + (MAX_PHASE - phase) * eg) / MAX_PHASE`, with the
/// quotient rounded toward zero.
pub open spec fn tapered(mg: int, eg: int, phase: int) -> int {
    div_toward_zero(phase * mg + (MAX_PHASE as int - phase) * eg, MAX_PHASE as int)
}

/// Blends a midgame score and an endgame score by the game phase: the
/// midgame score at `MAX_PHASE`, the endgame score at phase 0.
pub fn tapered_score(mg: i32, eg: i32, phase: i32) -> (score: i32)
    requires
        0 <= phase <= MAX_PHASE,
    ensures
        score == tapered(mg as int, eg as int, phase as int),
{
    let p: i64 = phase as i64;
    let m: i64 = mg as i64;
    let e: i64 = eg as i64;
    assert(-0x8000_0000 * 24 <= p * m <= 0x8000_0000 * 24) by (nonlinear_arith)
        requires
            0 <= p <= 24,
            -0x8000_0000 <= m < 0x8000_0000,
    ;
    assert(-0x8000_0000 * 24 <= (24 - p) * e <= 0x8000_0000 * 24) by (nonlinear_arith)
        requires
            0 <= p <= 24,
            -0x8000_0000 <= e < 0x8000_0000,
    ;
    let n: i64 = p * m + (24 - p) * e;
    proof {
        lemma_tapered_between(mg as int, eg as int, phase as int);
    }
    if n >= 0 {
        (n / 24) as i32
    } else {
        (-((-n) / 24)) as i32
    }
}

/// The blend lies between its two inputs.
pub proof fn lemma_tapered_between(mg: int, eg: int, phase: int)
    requires
        0 <= phase <= MAX_PHASE,
    ensures
        mg <= eg ==> mg <= tapered(mg, eg, phase) <= eg,
        eg <= mg ==> eg <= tapered(mg, eg, phase) <= mg,
{
    let n = phase * mg + (24 - phase) * eg;
    if mg <= eg {
        assert(24 * mg <= n <= 24 * eg) by (nonlinear_arith)
            requires
                0 <= phase <= 24,
                mg <= eg,
                n == phase * mg + (24 - phase) * eg,
        ;
    } else {
        assert(24 * eg <= n <= 24 * mg) by (nonlinear_arith)
            requires
                0 <= phase <= 24,
                eg <= mg,
                n == phase * mg + (24 - phase) * eg,
        ;
    }
}

/// The blend at full phase is the midgame score, at phase 0 the endgame
/// score.
pub proof fn lemma_tapered_endpoints(mg: int, eg: int)
    ensures
        tapered(mg, eg, MAX_PHASE as int) == mg,
        tapered(mg, eg, 0) == eg,
{
    assert(24 * mg + (24 - 24) * eg == 24 * mg);
    assert(0 * mg + (24 - 0) * eg == 24 * eg);
}

/// For a midgame score above the endgame score, a later phase never gives
/// a lower blend.
pub proof fn lemma_tapered_monotonic(mg: int, eg: int, p1: int, p2: int)
    requires
        mg > eg,
        0 <= p1 <= p2 <= MAX_PHASE,
    ensures
        tapered(mg, eg, p1) <= tapered(mg, eg, p2),
{
    let n1 = p1 * mg + (24 - p1) * eg;
    let n2 = p2 * mg + (24 - p2) * eg;
    assert(n1 <= n2) by (nonlinear_arith)
        requires
            mg > eg,
            p1 <= p2,
            n1 == p1 * mg + (24 - p1) * eg,
            n2 == p2 * mg + (24 - p2) * eg,
    ;
    lemma_div_toward_zero_monotonic(n1, n2);
}

/// Division by `MAX_PHASE`, rounded toward zero, keeps the order.
pub proof fn lemma_div_toward_zero_monotonic(a: int, b: int)
    requires
        a <= b,
    ensures
        div_toward_zero(a, MAX_PHASE as int) <= div_toward_zero(b, MAX_PHASE as int),
{
}


/// What a piece of the given kind adds to the game phase: 1 for a knight
/// or bishop, 2 for a rook, 4 for a queen.
pub open spec fn phase_weight(kind: int) -> int {
    if kind == KNIGHT || kind == BISHOP {
        1
    } else if kind == ROOK {
        2
    } else if kind == QUEEN {
        4
    } else {
        0
    }
}

/// The phase weights of the pieces on the first `n` squares.
pub open spec fn phase_sum(squares: Seq<u8>, n: int) -> int
    decreases n,
{
    if n <= 0 {
        0
    } else {
        phase_sum(squares, n - 1) + phase_weight(kind_of(squares[n - 1]))
    }
}

/// The game phase of a position: the phase weights of all pieces on the
/// board, and `MAX_PHASE` where they exceed it.
pub open spec fn phase_of(pos: Pos) -> int {
    let total = phase_sum(pos.squares, 64);
    if total > MAX_PHASE {
        MAX_PHASE as int
    } else {
        total
    }
}

pub proof fn lemma_phase_sum_bounds(squares: Seq<u8>, n: int)
    requires
        0 <= n,
    ensures
        0 <= phase_sum(squares, n) <= 4 * n,
    decreases n,
{
    if n > 0 {
        lemma_phase_sum_bounds(squares, n - 1);
    }
}

/// The game phase of the board's position, from 0 with bare kings and
/// pawns to `MAX_PHASE` with full material.
pub fn game_phase(board: &Board) -> (phase: i32)
    requires
        board.wf(),
    ensures
        phase == phase_of(board@.pos),
        0 <= phase <= MAX_PHASE,
{
    let mut total: i32 = 0;
    let mut i: usize = 0;
    while i < 64
        invariant
            i <= 64,
            total == phase_sum(board@.pos.squares, i as int),
            0 <= total <= 4 * i,
        decreases 64 - i,
    {
        let k: u8 = kind(board.state.squares[i]);
        let w: i32 = if k == KNIGHT || k == BISHOP {
            1
        } else if k == ROOK {
            2
        } else if k == QUEEN {
            4
        } else {
            0
        };
        total = total + w;
        i += 1;
    }
    if total > MAX_PHASE {
        MAX_PHASE
    } else {
        total
    }
}

/// How near a square is to the centre: 0 in a corner, 6 on the four
/// central squares.
pub open spec fn centrality(sq: int) -> int {
    let f = sq % 8;
    let r = sq / 8;
    (if f < 4 {
        f
    } else {
        7 - f
    }) + (if r < 4 {
        r
    } else {
        7 - r
    })
}

/// The rank of a square counted from the side of the piece's colour.
pub open spec fn advance(sq: int, white: bool) -> int {
    if white {
        sq / 8
    } else {
        7 - sq / 8
    }
}

/// The midgame worth of a piece of the given kind and colour on a square:
/// its material and a bonus for where it stands.
pub open spec fn mg_worth(kind: int, sq: int, white: bool) -> int {
    let c = centrality(sq);
    let a = advance(sq, white);
    if kind == PAWN {
        100 + 2 * c + 3 * a
    } else if kind == KNIGHT {
        300 + 8 * c
    } else if kind == BISHOP {
        320 + 4 * c
    } else if kind == ROOK {
        500 + (if a == 6 {
            20int
        } else {
            0int
        })
    } else if kind == QUEEN {
        900 + 2 * c
    } else if kind == KING {
        60 - 10 * c + (if a == 0 {
            20int
        } else {
            0int
        })
    } else {
        0
    }
}

/// The endgame worth of a piece of the given kind and colour on a square.
pub open spec fn eg_worth(kind: int, sq: int, white: bool) -> int {
    let c = centrality(sq);
    let a = advance(sq, white);
    if kind == PAWN {
        110 + 10 * a
    } else if kind == KNIGHT {
        290 + 6 * c
    } else if kind == BISHOP {
        320 + 4 * c
    } else if kind == ROOK {
        520
    } else if kind == QUEEN {
        900 + 4 * c
    } else if kind == KING {
        10 * c
    } else {
        0
    }
}

/// The worth of the piece code `p` on a square, counted for White: a white
/// piece adds its worth, a black piece takes it away.
pub open spec fn signed_worth(p: u8, sq: int, endgame: bool) -> int {
    let w = if endgame {
        eg_worth(kind_of(p), sq, is_white(p))
    } else {
        mg_worth(kind_of(p), sq, is_white(p))
    };
    if is_white(p) {
        w
    } else {
        -w
    }
}

/// The worth of the pieces on the first `n` squares, counted for White.
pub open spec fn worth_sum(squares: Seq<u8>, n: int, endgame: bool) -> int
    decreases n,
{
    if n <= 0 {
        0
    } else {
        worth_sum(squares, n - 1, endgame) + signed_worth(squares[n - 1], n - 1, endgame)
    }
}

/// The worth of the piece code `p` on square `sq`, counted for White, in
/// the midgame or in the endgame.
pub fn piece_square(p: u8, sq: u8, endgame: bool) -> (w: i32)
    requires
        sq < 64,
        p <= 12,
    ensures
        w == signed_worth(p, sq as int, endgame),
        -1000 <= w <= 1000,
{
    let white: bool = 1 <= p && p <= 6;
    let k: u8 = kind(p);
    let f: i32 = (sq % 8) as i32;
    let r: i32 = (sq / 8) as i32;
    let c: i32 = (if f < 4 { f } else { 7 - f }) + (if r < 4 { r } else { 7 - r });
    let a: i32 = if white { r } else { 7 - r };
    let w: i32 = if endgame {
        if k == PAWN {
            110 + 10 * a
        } else if k == KNIGHT {
            290 + 6 * c
        } else if k == BISHOP {
            320 + 4 * c
        } else if k == ROOK {
            520
        } else if k == QUEEN {
            900 + 4 * c
        } else if k == KING {
            10 * c
        } else {
            0
        }
    } else {
        if k == PAWN {
            100 + 2 * c + 3 * a
        } else if k == KNIGHT {
            300 + 8 * c
        } else if k == BISHOP {
            320 + 4 * c
        } else if k == ROOK {
            500 + (if a == 6 { 20 } else { 0 })
        } else if k == QUEEN {
            900 + 2 * c
        } else if k == KING {
            60 - 10 * c + (if a == 0 { 20 } else { 0 })
        } else {
            0
        }
    };
    if white {
        w
    } else {
        -w
    }
}

} // verus!
