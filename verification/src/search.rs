//! The search: negamax with alpha-beta pruning over the legal moves of a
//! position, a quiescence search at the frontier, and the search of the
//! root that names the best move.
//!
//! What the search returns is stated against the values that the game
//! tree defines without any pruning: `minimax_value` and
//! `quiescent_value`.

use vstd::prelude::*;
use crate::rules::{Move, Pos, apply, legal, in_check, is_capture, captures, lemma_legal_wf};
use crate::movegen::{MOVE_CODES, move_of_code, code_of, lemma_code_round_trip};
use crate::board::{Board, lemma_push_pop};
use crate::evaluator::{evaluate, eval_of};
use crate::ordering::{order_moves, comes_before, lemma_ordering_len};
use crate::engine::{Engine, counted, within_poll, lemma_within_poll, poll_reached,
    lemma_poll_reached, POLL_INTERVAL};
use crate::tt::{TTEntry, TableView, Flag, probe_of, slot_of, store_of};
use crate::utils::{INF, MATE, zobrist, hash_of};
use crate::tree::{Node, child_of, guarded, answers_soundly, table_sound, in_tree, grown_in_tree,
    lemma_in_own_tree, lemma_child_in_tree, lemma_answer_sound, lemma_store_sound,
    lemma_store_grown, lemma_grown_twice};

verus! {

/// The quiescence search goes no deeper than this.
pub const MAX_QDEPTH: i32 = 8;

/// The greatest distance from the root that the search reaches.
pub const MAX_PLY: i32 = 128;

pub open spec fn larger(a: int, b: int) -> int {
    if a >= b {
        a
    } else {
        b
    }
}

/// The move is searched by the quiescence search: a legal capture, or any
/// legal move where the side to move is in check.
pub open spec fn in_quiescence(pos: Pos, m: Move) -> bool {
    legal(pos, m) && (in_check(pos, pos.white_to_move) || is_capture(pos, m))
}

/// The best of the replies with a code below `n` that the quiescence
/// search tries, for the side to move; `-INF` where there is none.
pub open spec fn quiet_replies(pos: Pos, q_depth: int, n: int) -> int
    decreases MAX_QDEPTH - q_depth, n,
{
    if n <= 0 || q_depth >= MAX_QDEPTH {
        -INF as int
    } else {
        let m = move_of_code(n - 1);
        let rest = quiet_replies(pos, q_depth, n - 1);
        if in_quiescence(pos, m) {
            larger(rest, -quiescent_value(apply(pos, m), q_depth + 1))
        } else {
            rest
        }
    }
}

/// The value of a position at the frontier, for the side to move: the
/// static score, or the best the side can reach by a move that the
/// quiescence search tries, whichever is greater. At `MAX_QDEPTH` it is
/// the static score.
pub open spec fn quiescent_value(pos: Pos, q_depth: int) -> int
    decreases MAX_QDEPTH - q_depth, MOVE_CODES + 1,
{
    if q_depth >= MAX_QDEPTH {
        eval_of(pos)
    } else {
        larger(eval_of(pos), quiet_replies(pos, q_depth, MOVE_CODES as int))
    }
}

/// The best of the legal replies with a code below `n`, for the side to
/// move; `-INF` where there is none.
pub open spec fn best_reply(pos: Pos, depth: int, ply: int, n: int) -> int
    decreases depth, n,
{
    if n <= 0 || depth <= 0 {
        -INF as int
    } else {
        let m = move_of_code(n - 1);
        let rest = best_reply(pos, depth, ply, n - 1);
        if legal(pos, m) {
            larger(rest, -minimax_value(apply(pos, m), depth - 1, ply + 1))
        } else {
            rest
        }
    }
}

pub open spec fn has_legal_move(pos: Pos) -> bool {
    exists|m: Move| legal(pos, m)
}

/// The value of a position without a legal move, `ply` moves from the
/// root: mated where the side to move is in check, and the sooner the
/// worse; else drawn.
pub open spec fn terminal_value(pos: Pos, ply: int) -> int {
    if in_check(pos, pos.white_to_move) {
        ply - MATE
    } else {
        0
    }
}

/// The minimax value of a position searched `depth` moves deep, for the
/// side to move: at depth 0 the quiescent value; without a legal move the
/// terminal value; else the best of the negated values of the positions
/// after each legal move, one move less deep.
pub open spec fn minimax_value(pos: Pos, depth: int, ply: int) -> int
    decreases depth, MOVE_CODES + 1,
{
    if depth <= 0 {
        quiescent_value(pos, 0)
    } else if !has_legal_move(pos) {
        terminal_value(pos, ply)
    } else {
        best_reply(pos, depth, ply, MOVE_CODES as int)
    }
}

/// The value of a move for the side that makes it, searched `depth` moves
/// deep from the position it is made in.
pub open spec fn reply_value(pos: Pos, depth: int, ply: int, m: Move) -> int {
    -minimax_value(apply(pos, m), depth - 1, ply + 1)
}

/// The value of a move that the quiescence search tries, for the side
/// that makes it.
pub open spec fn quiet_reply_value(pos: Pos, q_depth: int, m: Move) -> int {
    -quiescent_value(apply(pos, m), q_depth + 1)
}

/// What a fail-soft score says of the value: at or below `alpha` it is an
/// upper bound, at or above `beta` a lower bound, and between the two it
/// is the value.
pub open spec fn window_sound(score: int, alpha: int, beta: int, value: int) -> bool {
    &&& score <= alpha ==> value <= score
    &&& score >= beta ==> value >= score
    &&& alpha < score < beta ==> value == score
}

proof fn lemma_quiet_replies(pos: Pos, q_depth: int, n: int)
    requires
        q_depth < MAX_QDEPTH,
        0 <= n <= MOVE_CODES,
    ensures
        quiet_replies(pos, q_depth, n) >= -INF,
        forall|c: int|
            0 <= c < n && in_quiescence(pos, #[trigger] move_of_code(c)) ==> quiet_reply_value(
                pos,
                q_depth,
                move_of_code(c),
            ) <= quiet_replies(pos, q_depth, n),
    decreases n,
{
    if n > 0 {
        lemma_quiet_replies(pos, q_depth, n - 1);
    }
}

proof fn lemma_quiet_replies_least(pos: Pos, q_depth: int, n: int, bound: int)
    requires
        q_depth < MAX_QDEPTH,
        0 <= n <= MOVE_CODES,
        bound >= -INF,
        forall|c: int|
            0 <= c < n && in_quiescence(pos, #[trigger] move_of_code(c)) ==> quiet_reply_value(
                pos,
                q_depth,
                move_of_code(c),
            ) <= bound,
    ensures
        quiet_replies(pos, q_depth, n) <= bound,
    decreases n,
{
    if n > 0 {
        lemma_quiet_replies_least(pos, q_depth, n - 1, bound);
        assert(in_quiescence(pos, move_of_code(n - 1)) ==> quiet_reply_value(
            pos,
            q_depth,
            move_of_code(n - 1),
        ) <= bound);
    }
}

/// The quiescent value is at least the static score and at least the
/// value of every move that the quiescence search tries.
pub proof fn lemma_quiescent_value_above(pos: Pos, q_depth: int, m: Move)
    ensures
        quiescent_value(pos, q_depth) >= eval_of(pos),
        q_depth < MAX_QDEPTH && in_quiescence(pos, m) ==> quiet_reply_value(pos, q_depth, m)
            <= quiescent_value(pos, q_depth),
{
    if q_depth < MAX_QDEPTH && in_quiescence(pos, m) {
        lemma_legal_wf(pos, m);
        lemma_code_round_trip(m);
        lemma_quiet_replies(pos, q_depth, MOVE_CODES as int);
        assert(move_of_code(code_of(m)) == m);
    }
}

/// The quiescent value is the least score that is at least the static
/// score and the value of every move that the quiescence search tries.
pub proof fn lemma_quiescent_value_least(pos: Pos, q_depth: int, bound: int)
    requires
        q_depth < MAX_QDEPTH,
        bound >= eval_of(pos),
        bound >= -INF,
        forall|m: Move| #[trigger] in_quiescence(pos, m) ==> quiet_reply_value(pos, q_depth, m) <= bound,
    ensures
        quiescent_value(pos, q_depth) <= bound,
{
    lemma_quiet_replies_least(pos, q_depth, MOVE_CODES as int, bound);
}

proof fn lemma_best_reply(pos: Pos, depth: int, ply: int, n: int)
    requires
        depth > 0,
        0 <= n <= MOVE_CODES,
    ensures
        best_reply(pos, depth, ply, n) >= -INF,
        forall|c: int|
            0 <= c < n && legal(pos, #[trigger] move_of_code(c)) ==> reply_value(
                pos,
                depth,
                ply,
                move_of_code(c),
            ) <= best_reply(pos, depth, ply, n),
    decreases n,
{
    if n > 0 {
        lemma_best_reply(pos, depth, ply, n - 1);
    }
}

proof fn lemma_best_reply_least(pos: Pos, depth: int, ply: int, n: int, bound: int)
    requires
        depth > 0,
        0 <= n <= MOVE_CODES,
        bound >= -INF,
        forall|c: int|
            0 <= c < n && legal(pos, #[trigger] move_of_code(c)) ==> reply_value(
                pos,
                depth,
                ply,
                move_of_code(c),
            ) <= bound,
    ensures
        best_reply(pos, depth, ply, n) <= bound,
    decreases n,
{
    if n > 0 {
        lemma_best_reply_least(pos, depth, ply, n - 1, bound);
        assert(legal(pos, move_of_code(n - 1)) ==> reply_value(pos, depth, ply, move_of_code(n - 1))
            <= bound);
    }
}

/// The minimax value is at least the value of every legal move.
pub proof fn lemma_minimax_value_above(pos: Pos, depth: int, ply: int, m: Move)
    requires
        depth > 0,
        legal(pos, m),
    ensures
        reply_value(pos, depth, ply, m) <= minimax_value(pos, depth, ply),
{
    lemma_legal_wf(pos, m);
    lemma_code_round_trip(m);
    lemma_best_reply(pos, depth, ply, MOVE_CODES as int);
    assert(move_of_code(code_of(m)) == m);
}

/// The minimax value of a position with a legal move is the least score
/// that is at least the value of every legal move.
pub proof fn lemma_minimax_value_least(pos: Pos, depth: int, ply: int, bound: int)
    requires
        depth > 0,
        has_legal_move(pos),
        bound >= -INF,
        forall|m: Move| #[trigger] legal(pos, m) ==> reply_value(pos, depth, ply, m) <= bound,
    ensures
        minimax_value(pos, depth, ply) <= bound,
{
    lemma_best_reply_least(pos, depth, ply, MOVE_CODES as int, bound);
}

/// A bound on the nodes that a quiescence search at `q_depth` visits: the
/// node itself, and for each of its moves what a search one level deeper
/// visits.
pub open spec fn quiescence_bound(q_depth: int) -> int
    decreases MAX_QDEPTH - q_depth,
{
    if q_depth >= MAX_QDEPTH {
        1
    } else {
        1 + MOVE_CODES * quiescence_bound(q_depth + 1)
    }
}

pub proof fn lemma_quiescence_bound_positive(q_depth: int)
    ensures
        quiescence_bound(q_depth) >= 1,
    decreases MAX_QDEPTH - q_depth,
{
    if q_depth < MAX_QDEPTH {
        lemma_quiescence_bound_positive(q_depth + 1);
        assert(MOVE_CODES * quiescence_bound(q_depth + 1) >= 0) by (nonlinear_arith)
            requires
                quiescence_bound(q_depth + 1) >= 1,
        ;
    }
}

/// The quiescence search of a position: the static score, improved by
/// the captures (in check, by all moves) that the side to move has, each
/// searched in turn with the window negated and swapped.
///
/// A search that is not stopped returns a fail-soft score of the
/// quiescent value. A search that finds the stop signal set on entry
/// returns 0 at once; one that is stopped later returns the best score it
/// has found. It ends after at most `quiescence_bound(q_depth)` nodes.
/// The clock is read where the count of nodes is a multiple of
/// `POLL_INTERVAL`: with a budget that is used up, the counters do not
/// pass that count.
#[verifier::loop_isolation(false)]
pub fn quiescence(board: &mut Board, alpha: i32, beta: i32, eng: &mut Engine, q_depth: i32) -> (score:
    i32)
    requires
        old(board).wf(),
        old(eng).wf(),
    ensures
        final(board).wf(),
        final(board)@ == old(board)@,
        final(eng).wf(),
        final(eng).same_search(old(eng)),
        final(eng).tt@ == old(eng).tt@,
        final(eng).stats.nodes == old(eng).stats.nodes,
        final(eng).stats.qnodes >= counted(old(eng).stats.qnodes),
        final(eng).stats.qnodes <= old(eng).stats.qnodes + quiescence_bound(q_depth as int),
        old(eng).stop_token@ ==> final(eng).stop_token@ && score == 0 && final(eng).stats.qnodes
            == counted(old(eng).stats.qnodes),
        old(eng).budget_ms.is_none() ==> final(eng).stop_token@ == old(eng).stop_token@,
        old(eng).out_of_time() ==> within_poll(
            old(eng).stats,
            final(eng).stats,
            final(eng).stop_token@,
        ),
        !old(eng).stop_token@ && final(eng).stop_token@ ==> poll_reached(
            old(eng).stats,
            final(eng).stats,
        ),
        -INF <= score <= INF,
        !final(eng).stop_token@ ==> -INF < score < INF,
        !final(eng).stop_token@ && (eval_of(old(board)@.pos) >= beta || q_depth >= MAX_QDEPTH)
            ==> score == eval_of(old(board)@.pos) && final(eng).stats.qnodes == counted(
            old(eng).stats.qnodes,
        ),
        !final(eng).stop_token@ && alpha < beta ==> window_sound(
            score as int,
            alpha as int,
            beta as int,
            quiescent_value(old(board)@.pos, q_depth as int),
        ),
    decreases MAX_QDEPTH - q_depth,
{
    let ghost pos = board@.pos;
    let ghost value = quiescent_value(pos, q_depth as int);
    let ghost deeper = quiescence_bound(q_depth + 1);
    proof {
        lemma_quiescence_bound_positive(q_depth as int);
        lemma_quiescence_bound_positive(q_depth + 1);
    }
    eng.count_qnode();
    if eng.stop_token.is_set() {
        return 0;
    }
    if eng.stats.qnodes % POLL_INTERVAL == 0 {
        eng.poll_clock();
        if eng.stop_token.is_set() {
            return 0;
        }
    }
    let stand_pat: i32 = evaluate(board);
    proof {
        lemma_quiescent_value_above(pos, q_depth as int, Move { from: 0, to: 0, promo: 0 });
    }
    if stand_pat >= beta || q_depth >= MAX_QDEPTH {
        return stand_pat;
    }
    let mut best: i32 = stand_pat;
    let mut a: i32 = if stand_pat > alpha { stand_pat } else { alpha };
    let moves = order_moves(board, None);
    let checked: bool = board.in_check();
    proof {
        lemma_ordering_len(pos, None, moves@);
        assert(moves@.len() * deeper <= MOVE_CODES * deeper) by (nonlinear_arith)
            requires
                moves@.len() <= MOVE_CODES,
                deeper >= 1,
        ;
    }
    let mut i: usize = 0;
    while i < moves.len()
        invariant
            i <= moves@.len(),
            board.wf(),
            board@ == old(board)@,
            eng.wf(),
            eng.same_search(old(eng)),
            eng.tt@ == old(eng).tt@,
            eng.stats.nodes == old(eng).stats.nodes,
            eng.stats.qnodes >= counted(old(eng).stats.qnodes),
            eng.stats.qnodes <= old(eng).stats.qnodes + 1 + i * deeper,
            old(eng).out_of_time() ==> within_poll(old(eng).stats, eng.stats, false),
            i * deeper <= moves@.len() * deeper,
            !eng.stop_token@,
            stand_pat <= best < INF,
            a == larger(alpha as int, best as int),
            alpha < beta ==> a < beta,
            alpha < beta ==> forall|k: int|
                0 <= k < i && in_quiescence(pos, #[trigger] moves@[k]) ==> quiet_reply_value(
                    pos,
                    q_depth as int,
                    moves@[k],
                ) <= best,
            alpha < beta && best > alpha ==> best <= value,
        decreases moves@.len() - i,
    {
        let m: Move = moves[i];
        assert(moves@.contains(moves@[i as int]));
        assert(legal(pos, m));
        proof {
            lemma_legal_wf(pos, m);
        }
        proof {
            assert((i + 1) * deeper == i * deeper + deeper) by (nonlinear_arith);
            assert((i + 1) * deeper <= moves@.len() * deeper) by (nonlinear_arith)
                requires
                    i + 1 <= moves@.len(),
                    deeper >= 1,
            ;
        }
        if checked || captures(&board.state, &m) {
            let ghost before = board@;
            let ghost counters = eng.stats;
            board.push(&m);
            let child: i32 = quiescence(board, -beta, -a, eng, q_depth + 1);
            board.pop();
            proof {
                lemma_push_pop(before, m);
                lemma_quiescent_value_above(pos, q_depth as int, m);
                if old(eng).out_of_time() {
                    lemma_within_poll(old(eng).stats, counters, eng.stats, eng.stop_token@);
                }
                if eng.stop_token@ {
                    lemma_poll_reached(old(eng).stats, counters, eng.stats);
                }
            }
            if eng.stop_token.is_set() {
                return best;
            }
            let s: i32 = -child;
            if s > best {
                best = s;
            }
            if s > a {
                a = s;
            }
            if a >= beta {
                return best;
            }
        }
        i += 1;
    }
    proof {
        if alpha < beta {
            assert forall|m: Move| #[trigger] in_quiescence(pos, m) implies quiet_reply_value(
                pos,
                q_depth as int,
                m,
            ) <= best by {
                assert(moves@.contains(m));
                let k = choose|k: int| 0 <= k < moves@.len() && moves@[k] == m;
                assert(in_quiescence(pos, moves@[k]));
            }
            lemma_quiescent_value_least(pos, q_depth as int, best as int);
        }
    }
    best
}


/// A stored entry settles a search `depth` deep in the window: it is from
/// a search at least as deep, its score is a search score, and its bound
/// fits: an exact score always, a lower bound at or above `beta`, an
/// upper bound at or below `alpha`.
pub open spec fn settles(e: TTEntry, depth: int, alpha: int, beta: int) -> bool {
    &&& e.depth >= depth
    &&& -INF < e.score < INF
    &&& match e.flag {
        Flag::Exact => true,
        Flag::LowerBound => e.score >= beta,
        Flag::UpperBound => e.score <= alpha,
    }
}

/// The flag of a fail-soft score: a lower bound at or above `beta`, exact
/// above `alpha`, else an upper bound.
pub open spec fn flag_for(score: int, alpha: int, beta: int) -> Flag {
    if score >= beta {
        Flag::LowerBound
    } else if score > alpha {
        Flag::Exact
    } else {
        Flag::UpperBound
    }
}

/// Every slot of `after` is as in `before`, or holds an entry of the
/// table's generation from a search no deeper than `depth`.
pub open spec fn table_grown(before: TableView, after: TableView, depth: int) -> bool {
    &&& after.slots.len() == before.slots.len()
    &&& after.generation == before.generation
    &&& forall|i: int|
        0 <= i < after.slots.len() ==> #[trigger] after.slots[i] == before.slots[i] || match after.slots[i] {
            Some((_, e)) => e.age == after.generation && e.depth <= depth,
            None => false,
        }
}

/// What two searches in turn leave of a table is what one search no
/// shallower than both leaves.
pub proof fn lemma_table_grown(
    first: TableView,
    second: TableView,
    third: TableView,
    d1: int,
    d2: int,
    depth: int,
)
    requires
        table_grown(first, second, d1),
        table_grown(second, third, d2),
        d1 <= depth,
        d2 <= depth,
    ensures
        table_grown(first, third, depth),
{
    assert forall|i: int| 0 <= i < third.slots.len() implies #[trigger] third.slots[i]
        == first.slots[i] || match third.slots[i] {
        Some((_, e)) => e.age == third.generation && e.depth <= depth,
        None => false,
    } by {
        assert(second.slots[i] == first.slots[i] || match second.slots[i] {
            Some((_, e)) => e.age == second.generation && e.depth <= d1,
            None => false,
        });
    }
}

/// The slot holds the result of a search `depth` deep of the position:
/// the position's hash, the depth, the score, the flag of the score in
/// the window, the age of the generation, and a legal best move.
pub open spec fn is_result(
    slot: Option<(u64, TTEntry)>,
    generation: int,
    pos: Pos,
    depth: int,
    alpha: int,
    beta: int,
    score: int,
) -> bool {
    match slot {
        Some((k, e)) => {
            &&& k == hash_of(pos)
            &&& e.depth == depth
            &&& e.score == score
            &&& e.flag == flag_for(score, alpha, beta)
            &&& e.age == generation
            &&& match e.best_move {
                Some(m) => legal(pos, m),
                None => false,
            }
        },
        None => false,
    }
}

/// The slot of the key gives way to a result of a search `depth` deep: it
/// is empty, or what it holds is no deeper or of an older generation.
pub open spec fn gives_way(table: TableView, key: u64, depth: int) -> bool {
    table.slots.len() > 0 && match table.slots[slot_of(key, table.slots.len() as int)] {
        Some((_, e)) => e.depth <= depth || e.age != table.generation,
        None => true,
    }
}

/// The table `after` records the result of a search of the position that
/// began on the table `before`: the slot of the position's hash holds the
/// result, unless it held a deeper entry of this generation before and
/// holds it still.
pub open spec fn records(
    before: TableView,
    after: TableView,
    pos: Pos,
    depth: int,
    alpha: int,
    beta: int,
    score: int,
) -> bool {
    after.slots.len() > 0 ==> {
        let i = slot_of(hash_of(pos), after.slots.len() as int);
        is_result(after.slots[i], after.generation, pos, depth, alpha, beta, score) || (
        after.slots[i] == before.slots[i] && !gives_way(before, hash_of(pos), depth))
    }
}

/// A probe for the position finds the result of a search `depth` deep.
pub open spec fn probe_shows(
    table: TableView,
    pos: Pos,
    depth: int,
    alpha: int,
    beta: int,
    score: int,
) -> bool {
    match probe_of(table, hash_of(pos)) {
        Some(e) => {
            &&& e.depth == depth
            &&& e.score == score
            &&& e.flag == flag_for(score, alpha, beta)
            &&& e.age == table.generation
            &&& match e.best_move {
                Some(m) => legal(pos, m),
                None => false,
            }
        },
        None => false,
    }
}

fn settles_search(e: &TTEntry, depth: i32, alpha: i32, beta: i32) -> (r: bool)
    ensures
        r == settles(*e, depth as int, alpha as int, beta as int),
{
    e.depth >= depth && -INF < e.score && e.score < INF && match e.flag {
        Flag::Exact => true,
        Flag::LowerBound => e.score >= beta,
        Flag::UpperBound => e.score <= alpha,
    }
}

fn flag_of_score(score: i32, alpha: i32, beta: i32) -> (f: Flag)
    ensures
        f == flag_for(score as int, alpha as int, beta as int),
{
    if score >= beta {
        Flag::LowerBound
    } else if score > alpha {
        Flag::Exact
    } else {
        Flag::UpperBound
    }
}

/// Searches the moves of a node in the order given, each with the window
/// negated and swapped, until one reaches `beta` or the search is
/// stopped; returns the best score found and the move that gave it.
#[verifier::loop_isolation(false)]
fn search_moves(
    board: &mut Board,
    moves: &Vec<Move>,
    depth: i32,
    alpha: i32,
    beta: i32,
    eng: &mut Engine,
    ply: i32,
) -> (found: (i32, Option<Move>))
    requires
        old(board).wf(),
        old(eng).wf(),
        !old(eng).stop_token@,
        -INF <= alpha <= INF,
        -INF <= beta <= INF,
        0 <= ply < MAX_PLY,
        0 < depth <= MAX_PLY - ply,
        moves@.len() > 0,
        forall|m: Move| #[trigger] moves@.contains(m) <==> legal(old(board)@.pos, m),
    ensures
        final(board).wf(),
        final(board)@ == old(board)@,
        final(eng).wf(),
        final(eng).same_search(old(eng)),
        old(eng).tt@.slots.len() == 0 ==> final(eng).tt@ == old(eng).tt@,
        final(eng).stats.nodes >= old(eng).stats.nodes,
        final(eng).stats.qnodes >= old(eng).stats.qnodes,
        table_grown(old(eng).tt@, final(eng).tt@, depth - 1),
        depth == 1 ==> final(eng).tt@ == old(eng).tt@,
        old(eng).budget_ms.is_none() ==> !final(eng).stop_token@,
        old(eng).out_of_time() ==> within_poll(
            old(eng).stats,
            final(eng).stats,
            final(eng).stop_token@,
        ),
        !old(eng).stop_token@ && final(eng).stop_token@ ==> poll_reached(
            old(eng).stats,
            final(eng).stats,
        ),
        -INF <= found.0 < INF,
        !final(eng).stop_token@ ==> -INF < found.0 && found.1.is_some(),
        match found.1 {
            Some(m) => legal(old(board)@.pos, m),
            None => true,
        },
        (old(eng).tt@.slots.len() == 0 || depth == 1) && !final(eng).stop_token@ && alpha < beta
            ==> window_sound(
            found.0 as int,
            alpha as int,
            beta as int,
            minimax_value(old(board)@.pos, depth as int, ply as int),
        ),
        forall|root: Node| #[trigger]
            in_tree(root, Node { pos: old(board)@.pos, depth: depth as int, ply: ply as int })
                ==> grown_in_tree(old(eng).tt@, final(eng).tt@, root),
        forall|root: Node| #[trigger]
            guarded(
                old(eng).tt@,
                root,
                Node { pos: old(board)@.pos, depth: depth as int, ply: ply as int },
            ) && alpha < beta ==> table_sound(final(eng).tt@, root) && (!final(eng).stop_token@
                ==> window_sound(
                found.0 as int,
                alpha as int,
                beta as int,
                minimax_value(old(board)@.pos, depth as int, ply as int),
            )),
    decreases depth, 0int,
{
    let ghost pos = board@.pos;
    let ghost node = Node { pos: pos, depth: depth as int, ply: ply as int };
    let ghost value = minimax_value(pos, depth as int, ply as int);
    let ghost guard = exists|root: Node| guarded(old(eng).tt@, root, node);
    let ghost open = (old(eng).tt@.slots.len() == 0 || depth == 1 || guard) && alpha < beta;
    assert(moves@.contains(moves@[0]));
    assert(has_legal_move(pos));
    let mut best: i32 = -INF;
    let mut best_move: Option<Move> = None;
    let mut a: i32 = alpha;
    let mut i: usize = 0;
    while i < moves.len()
        invariant
            i <= moves@.len(),
            board.wf(),
            board@ == old(board)@,
            eng.wf(),
            eng.same_search(old(eng)),
            old(eng).tt@.slots.len() == 0 ==> eng.tt@ == old(eng).tt@,
            depth == 1 ==> eng.tt@ == old(eng).tt@,
            table_grown(old(eng).tt@, eng.tt@, depth - 1),
            old(eng).out_of_time() ==> within_poll(old(eng).stats, eng.stats, false),
            forall|root: Node| #[trigger]
                guarded(old(eng).tt@, root, node) && alpha < beta ==> table_sound(eng.tt@, root),
            forall|root: Node| #[trigger]
                in_tree(root, node) ==> grown_in_tree(old(eng).tt@, eng.tt@, root),
            eng.stats.nodes >= old(eng).stats.nodes,
            eng.stats.qnodes >= old(eng).stats.qnodes,
            !eng.stop_token@,
            -INF <= best < INF,
            i > 0 ==> best > -INF,
            i > 0 ==> best_move.is_some(),
            best_move.is_none() ==> best == -INF,
            match best_move {
                Some(m) => legal(pos, m),
                None => true,
            },
            a == larger(alpha as int, best as int),
            alpha < beta ==> a < beta,
            open ==> forall|k: int|
                0 <= k < i ==> reply_value(pos, depth as int, ply as int, #[trigger] moves@[k]) <= best,
            open && best > alpha ==> best <= value,
        decreases moves@.len() - i,
    {
        let m: Move = moves[i];
        assert(moves@.contains(moves@[i as int]));
        assert(legal(pos, m));
        proof {
            lemma_legal_wf(pos, m);
        }
        let ghost before = board@;
        let ghost table = eng.tt@;
        let ghost counters = eng.stats;
        board.push(&m);
        let child: i32 = negamax(board, depth - 1, -beta, -a, eng, ply + 1);
        board.pop();
        proof {
            lemma_push_pop(before, m);
            lemma_minimax_value_above(pos, depth as int, ply as int, m);
            lemma_table_grown(old(eng).tt@, table, eng.tt@, depth - 1, depth - 1, depth - 1);
            if old(eng).out_of_time() {
                lemma_within_poll(old(eng).stats, counters, eng.stats, eng.stop_token@);
            }
            if eng.stop_token@ && !old(eng).stop_token@ {
                lemma_poll_reached(old(eng).stats, counters, eng.stats);
            }
            assert forall|root: Node| #[trigger] in_tree(root, node) implies grown_in_tree(
                old(eng).tt@,
                eng.tt@,
                root,
            ) by {
                lemma_child_in_tree(root, node, m);
                lemma_grown_twice(old(eng).tt@, table, eng.tt@, root);
            }
            if alpha < beta {
                assert forall|root: Node| #[trigger] guarded(old(eng).tt@, root, node) implies table_sound(
                    eng.tt@,
                    root,
                ) by {
                    lemma_child_in_tree(root, node, m);
                    assert(guarded(table, root, child_of(node, m)));
                }
                if guard {
                    let r = choose|root: Node| guarded(old(eng).tt@, root, node);
                    lemma_child_in_tree(r, node, m);
                    assert(guarded(table, r, child_of(node, m)));
                }
            }
        }
        if eng.stop_token.is_set() {
            return (best, best_move);
        }
        let s: i32 = -child;
        if s > best {
            best = s;
            best_move = Some(m);
        }
        if s > a {
            a = s;
        }
        if a >= beta {
            return (best, best_move);
        }
        i += 1;
    }
    proof {
        if open {
            assert forall|m: Move| #[trigger] legal(pos, m) implies reply_value(
                pos,
                depth as int,
                ply as int,
                m,
            ) <= best by {
                assert(moves@.contains(m));
                let k = choose|k: int| 0 <= k < moves@.len() && moves@[k] == m;
                assert(reply_value(pos, depth as int, ply as int, moves@[k]) <= best);
            }
            lemma_minimax_value_least(pos, depth as int, ply as int, best as int);
        }
    }
    (best, best_move)
}

/// The score of the entry stored for the position, where that entry
/// settles a search `depth` deep in the window.
pub open spec fn table_answer(
    table: TableView,
    pos: Pos,
    depth: int,
    alpha: int,
    beta: int,
) -> Option<i32> {
    match probe_of(table, hash_of(pos)) {
        Some(e) => if settles(e, depth, alpha, beta) {
            Some(e.score)
        } else {
            None
        },
        None => None,
    }
}

/// Negamax with alpha-beta pruning, `depth` moves deep, `ply` moves from
/// the root.
///
/// The node is counted first. A search that finds the stop signal set
/// returns 0 at once. At depth 0 the quiescence search answers. A table
/// entry that settles the search answers with its score. A position
/// without a legal move has its terminal value. Else the moves are
/// searched in order, the table's best move first, each with the window
/// negated and swapped, until one reaches `beta`; the result is recorded
/// in the table.
///
/// A search that is not stopped returns a fail-soft score of the minimax
/// value where the table answers soundly in its tree: in a clean tree
/// with a table whose entries say nothing false of its nodes (an empty
/// table is one), with a table without slots, at depth 0, and one move
/// deep where no entry settles the search. What it records keeps the
/// table sound in every clean tree that the node stands in.
///
/// The clock is read where the count of nodes is a multiple of
/// `POLL_INTERVAL`: with a budget that is used up the counters do not
/// pass that count, and a stop signal that becomes set was set at such a
/// reading.
pub fn negamax(board: &mut Board, depth: i32, alpha: i32, beta: i32, eng: &mut Engine, ply: i32) -> (score:
    i32)
    requires
        old(board).wf(),
        old(eng).wf(),
        -INF <= alpha <= INF,
        -INF <= beta <= INF,
        0 <= ply <= MAX_PLY,
        depth <= MAX_PLY - ply,
    ensures
        final(board).wf(),
        final(board)@ == old(board)@,
        final(eng).wf(),
        final(eng).same_search(old(eng)),
        old(eng).tt@.slots.len() == 0 ==> final(eng).tt@ == old(eng).tt@,
        table_grown(old(eng).tt@, final(eng).tt@, depth as int),
        depth <= 0 ==> final(eng).tt@ == old(eng).tt@ && final(eng).stats.nodes == counted(
            old(eng).stats.nodes,
        ),
        final(eng).stats.nodes >= counted(old(eng).stats.nodes),
        final(eng).stats.qnodes >= old(eng).stats.qnodes,
        old(eng).stop_token@ ==> final(eng).stop_token@ && score == 0 && final(eng).tt@ == old(eng).tt@ && final(eng).stats.nodes == counted(old(eng).stats.nodes) && final(eng).stats.qnodes
            == old(eng).stats.qnodes,
        old(eng).budget_ms.is_none() ==> final(eng).stop_token@ == old(eng).stop_token@,
        old(eng).out_of_time() ==> within_poll(
            old(eng).stats,
            final(eng).stats,
            final(eng).stop_token@,
        ),
        !old(eng).stop_token@ && final(eng).stop_token@ ==> poll_reached(
            old(eng).stats,
            final(eng).stats,
        ),
        -INF <= score <= INF,
        !final(eng).stop_token@ ==> -INF < score < INF,
        !final(eng).stop_token@ && depth > 0 ==> match table_answer(
            old(eng).tt@,
            old(board)@.pos,
            depth as int,
            alpha as int,
            beta as int,
        ) {
            Some(stored) => score == stored && final(eng).tt@ == old(eng).tt@ && final(eng).stats.nodes == counted(old(eng).stats.nodes) && final(eng).stats.qnodes == old(eng).stats.qnodes,
            None => if has_legal_move(old(board)@.pos) {
                records(
                    old(eng).tt@,
                    final(eng).tt@,
                    old(board)@.pos,
                    depth as int,
                    alpha as int,
                    beta as int,
                    score as int,
                ) && (gives_way(old(eng).tt@, hash_of(old(board)@.pos), depth as int)
                    ==> probe_shows(
                    final(eng).tt@,
                    old(board)@.pos,
                    depth as int,
                    alpha as int,
                    beta as int,
                    score as int,
                ))
            } else {
                score == terminal_value(old(board)@.pos, ply as int) && final(eng).tt@ == old(eng).tt@
                    && final(eng).stats.nodes == counted(old(eng).stats.nodes) && final(eng).stats.qnodes
                    == old(eng).stats.qnodes
            },
        },
        !final(eng).stop_token@ && depth <= 0 && alpha < beta ==> window_sound(
            score as int,
            alpha as int,
            beta as int,
            quiescent_value(old(board)@.pos, 0),
        ),
        !final(eng).stop_token@ && depth <= 0 && eval_of(old(board)@.pos) >= beta ==> score
            == eval_of(old(board)@.pos),
        !final(eng).stop_token@ && depth == 1 && alpha < beta && table_answer(
            old(eng).tt@,
            old(board)@.pos,
            depth as int,
            alpha as int,
            beta as int,
        ).is_none() ==> window_sound(
            score as int,
            alpha as int,
            beta as int,
            minimax_value(old(board)@.pos, depth as int, ply as int),
        ),
        old(eng).tt@.slots.len() == 0 && !final(eng).stop_token@ && alpha < beta ==> window_sound(
            score as int,
            alpha as int,
            beta as int,
            minimax_value(old(board)@.pos, depth as int, ply as int),
        ),
        !final(eng).stop_token@ && alpha < beta && answers_soundly(
            old(eng).tt@,
            Node { pos: old(board)@.pos, depth: depth as int, ply: ply as int },
        ) ==> window_sound(
            score as int,
            alpha as int,
            beta as int,
            minimax_value(old(board)@.pos, depth as int, ply as int),
        ),
        forall|root: Node| #[trigger]
            in_tree(root, Node { pos: old(board)@.pos, depth: depth as int, ply: ply as int })
                ==> grown_in_tree(old(eng).tt@, final(eng).tt@, root),
        forall|root: Node| #[trigger]
            guarded(
                old(eng).tt@,
                root,
                Node { pos: old(board)@.pos, depth: depth as int, ply: ply as int },
            ) && alpha < beta ==> table_sound(final(eng).tt@, root) && (!final(eng).stop_token@
                ==> window_sound(
                score as int,
                alpha as int,
                beta as int,
                minimax_value(old(board)@.pos, depth as int, ply as int),
            )),
    decreases depth, 1int,
{
    let ghost pos = board@.pos;
    let ghost node = Node { pos: pos, depth: depth as int, ply: ply as int };
    proof {
        lemma_in_own_tree(node);
    }
    eng.count_node();
    if eng.stop_token.is_set() {
        return 0;
    }
    if eng.stats.nodes % POLL_INTERVAL == 0 {
        eng.poll_clock();
        if eng.stop_token.is_set() {
            return 0;
        }
    }
    if depth <= 0 {
        return quiescence(board, alpha, beta, eng, 0);
    }
    let key: u64 = zobrist(board);
    let mut hint: Option<Move> = None;
    match eng.tt.probe(key) {
        Some(e) => {
            if settles_search(&e, depth, alpha, beta) {
                proof {
                    if alpha < beta {
                        assert forall|root: Node| #[trigger]
                            guarded(old(eng).tt@, root, node) implies window_sound(
                            e.score as int,
                            alpha as int,
                            beta as int,
                            minimax_value(pos, depth as int, ply as int),
                        ) by {
                            lemma_answer_sound(old(eng).tt@, root, node, alpha as int, beta as int);
                        }
                        if answers_soundly(old(eng).tt@, node) {
                            assert(guarded(old(eng).tt@, node, node));
                        }
                    }
                }
                return e.score;
            }
            hint = e.best_move;
        },
        None => {},
    }
    let moves = match hint {
        Some(h) => order_moves(board, Some(&h)),
        None => order_moves(board, None),
    };
    if moves.len() == 0 {
        assert forall|m: Move| !legal(pos, m) by {
            assert(!moves@.contains(m));
        }
        return if board.in_check() { ply - MATE } else { 0 };
    }
    assert(moves@.contains(moves@[0]));
    assert(has_legal_move(pos));
    proof {
        if answers_soundly(old(eng).tt@, node) {
            assert(guarded(old(eng).tt@, node, node));
        }
    }
    let found = search_moves(board, &moves, depth, alpha, beta, eng, ply);
    let best: i32 = found.0;
    if eng.stop_token.is_set() {
        return best;
    }
    let ghost table = eng.tt@;
    let entry = TTEntry {
        depth,
        score: best,
        flag: flag_of_score(best, alpha, beta),
        best_move: found.1,
        age: eng.tt.generation,
    };
    eng.tt.store(key, entry);
    proof {
        assert(eng.tt@ == store_of(table, hash_of(pos), entry));
        assert(table_grown(table, eng.tt@, depth as int));
        lemma_table_grown(old(eng).tt@, table, eng.tt@, depth - 1, depth as int, depth as int);
        if alpha < beta {
            assert forall|root: Node| #[trigger] guarded(old(eng).tt@, root, node) implies table_sound(
                eng.tt@,
                root,
            ) by {
                assert(guarded(table, root, node));
                lemma_store_sound(table, root, node, entry, alpha as int, beta as int);
            }
        }
        assert forall|root: Node| #[trigger] in_tree(root, node) implies grown_in_tree(
            old(eng).tt@,
            eng.tt@,
            root,
        ) by {
            lemma_store_grown(table, root, node, entry);
            lemma_grown_twice(old(eng).tt@, table, eng.tt@, root);
        }
    }
    best
}


/// A fail-soft score of the full window that lies inside the window is
/// the value: with the full window, pruning changes no result.
pub proof fn lemma_full_window(score: int, value: int)
    requires
        window_sound(score, -INF as int, INF as int, value),
        -INF < score < INF,
    ensures
        score == value,
{
}

/// The depth that the root is searched to: a depth below 1 counts as 1.
pub open spec fn root_depth(depth: int) -> int {
    if depth < 1 {
        1
    } else {
        depth
    }
}

/// `best` is the principal move of the position searched `depth` moves
/// deep, in the ordering with the given hint, and `score` its value: the
/// move is legal, no legal move has a greater value, and among the moves
/// of that value it is the first in the ordering.
pub open spec fn is_principal_under(
    pos: Pos,
    hint: Option<Move>,
    depth: int,
    score: int,
    best: Move,
) -> bool {
    &&& legal(pos, best)
    &&& reply_value(pos, depth, 0, best) == score
    &&& forall|m: Move| #[trigger] legal(pos, m) ==> reply_value(pos, depth, 0, m) <= score
    &&& forall|m: Move|
        #[trigger] legal(pos, m) && m != best && reply_value(pos, depth, 0, m) == score
            ==> comes_before(pos, hint, best, m)
}

/// `best` is the principal move of the position searched `depth` moves
/// deep, in the ordering without a hint, and `score` its value.
pub open spec fn is_principal(pos: Pos, depth: int, score: int, best: Move) -> bool {
    is_principal_under(pos, None, depth, score, best)
}

/// The move that the table holds for the position, which the ordering of
/// its moves takes as the hint.
pub open spec fn table_hint(table: TableView, pos: Pos) -> Option<Move> {
    match probe_of(table, hash_of(pos)) {
        Some(e) => e.best_move,
        None => None,
    }
}

/// The value of the principal move is the minimax value of the position,
/// whatever the hint of the ordering.
pub proof fn lemma_principal_value(
    pos: Pos,
    hint: Option<Move>,
    depth: int,
    score: int,
    best: Move,
)
    requires
        depth > 0,
        score >= -INF,
        is_principal_under(pos, hint, depth, score, best),
    ensures
        score == minimax_value(pos, depth, 0),
{
    lemma_minimax_value_above(pos, depth, 0, best);
    lemma_minimax_value_least(pos, depth, 0, score);
    lemma_best_reply(pos, depth, 0, MOVE_CODES as int);
}

/// The search of the root, `depth` moves deep: every legal move is
/// searched in order, the table's best move first, and the first move of
/// the greatest score is the best move. A depth below 1 counts as 1.
///
/// A position without a legal move gives `(0, None)`. A search that is
/// stopped gives the best score and move of the moves searched to the
/// end, `None` where there is no such move. A search that is not
/// stopped records its result in the table. With a table that answers
/// soundly in the tree of the position, with a table without slots, and
/// with any table one move deep, it gives the minimax value and the
/// principal move in the ordering that the table's hint gives.
#[verifier::loop_isolation(false)]
pub fn search_root(board: &mut Board, eng: &mut Engine, depth: i32) -> (found: (i32, Option<Move>))
    requires
        old(board).wf(),
        old(eng).wf(),
        depth <= MAX_PLY,
    ensures
        final(board).wf(),
        final(board)@ == old(board)@,
        final(eng).wf(),
        final(eng).same_search(old(eng)),
        old(eng).tt@.slots.len() == 0 ==> final(eng).tt@ == old(eng).tt@,
        table_grown(old(eng).tt@, final(eng).tt@, root_depth(depth as int)),
        final(eng).stats.nodes >= old(eng).stats.nodes,
        final(eng).stats.qnodes >= old(eng).stats.qnodes,
        has_legal_move(old(board)@.pos) ==> final(eng).stats.nodes >= counted(
            old(eng).stats.nodes,
        ),
        old(eng).stop_token@ ==> final(eng).stop_token@ && found.1.is_none() && final(eng).tt@
            == old(eng).tt@,
        old(eng).stop_token@ && has_legal_move(old(board)@.pos) ==> found.0 == -INF && final(eng).stats.nodes == counted(old(eng).stats.nodes) && final(eng).stats.qnodes == old(eng).stats.qnodes,
        old(eng).budget_ms.is_none() ==> final(eng).stop_token@ == old(eng).stop_token@,
        old(eng).out_of_time() ==> within_poll(
            old(eng).stats,
            final(eng).stats,
            final(eng).stop_token@,
        ),
        !old(eng).stop_token@ && final(eng).stop_token@ ==> poll_reached(
            old(eng).stats,
            final(eng).stats,
        ),
        !has_legal_move(old(board)@.pos) ==> found == (0i32, None::<Move>) && final(eng).tt@ == old(eng).tt@
            && final(eng).stats == old(eng).stats && final(eng).stop_token@ == old(eng).stop_token@,
        match found.1 {
            Some(m) => legal(old(board)@.pos, m),
            None => true,
        },
        -INF <= found.0 < INF,
        has_legal_move(old(board)@.pos) && !final(eng).stop_token@ ==> found.1.is_some() && -INF
            < found.0 && records(
            old(eng).tt@,
            final(eng).tt@,
            old(board)@.pos,
            root_depth(depth as int),
            -INF as int,
            INF as int,
            found.0 as int,
        ) && (gives_way(old(eng).tt@, hash_of(old(board)@.pos), root_depth(depth as int))
            ==> probe_shows(
            final(eng).tt@,
            old(board)@.pos,
            root_depth(depth as int),
            -INF as int,
            INF as int,
            found.0 as int,
        )),
        (old(eng).tt@.slots.len() == 0 || depth <= 1) && has_legal_move(old(board)@.pos)
            && !final(eng).stop_token@ ==> is_principal_under(
            old(board)@.pos,
            table_hint(old(eng).tt@, old(board)@.pos),
            root_depth(depth as int),
            found.0 as int,
            found.1.unwrap(),
        ) && found.0 == minimax_value(old(board)@.pos, root_depth(depth as int), 0),
        old(eng).tt@.slots.len() == 0 && has_legal_move(old(board)@.pos) && !final(eng).stop_token@
            ==> is_principal(
            old(board)@.pos,
            root_depth(depth as int),
            found.0 as int,
            found.1.unwrap(),
        ),
        grown_in_tree(
            old(eng).tt@,
            final(eng).tt@,
            Node { pos: old(board)@.pos, depth: root_depth(depth as int), ply: 0 },
        ),
        answers_soundly(
            old(eng).tt@,
            Node { pos: old(board)@.pos, depth: root_depth(depth as int), ply: 0 },
        ) ==> table_sound(
            final(eng).tt@,
            Node { pos: old(board)@.pos, depth: root_depth(depth as int), ply: 0 },
        ),
        answers_soundly(
            old(eng).tt@,
            Node { pos: old(board)@.pos, depth: root_depth(depth as int), ply: 0 },
        ) && has_legal_move(old(board)@.pos) && !final(eng).stop_token@ ==> is_principal_under(
            old(board)@.pos,
            table_hint(old(eng).tt@, old(board)@.pos),
            root_depth(depth as int),
            found.0 as int,
            found.1.unwrap(),
        ) && found.0 == minimax_value(old(board)@.pos, root_depth(depth as int), 0),
{
    let ghost pos = board@.pos;
    let d: i32 = if depth < 1 { 1 } else { depth };
    let ghost node = Node { pos: pos, depth: d as int, ply: 0 };
    let ghost exact = old(eng).tt@.slots.len() == 0 || d == 1;
    let ghost sound = exact || answers_soundly(old(eng).tt@, node);
    proof {
        lemma_in_own_tree(node);
    }
    let key: u64 = zobrist(board);
    let hint: Option<Move> = match eng.tt.probe(key) {
        Some(e) => e.best_move,
        None => None,
    };
    let moves = match hint {
        Some(h) => order_moves(board, Some(&h)),
        None => order_moves(board, None),
    };
    if moves.len() == 0 {
        assert forall|m: Move| !legal(pos, m) by {
            assert(!moves@.contains(m));
        }
        return (0, None);
    }
    assert(moves@.contains(moves@[0]));
    assert(has_legal_move(pos));
    let mut best: i32 = -INF;
    let mut best_move: Option<Move> = None;
    let ghost mut b: int = 0;
    let mut i: usize = 0;
    while i < moves.len()
        invariant
            i <= moves@.len(),
            board.wf(),
            board@ == old(board)@,
            eng.wf(),
            eng.same_search(old(eng)),
            exact ==> eng.tt@ == old(eng).tt@,
            table_grown(old(eng).tt@, eng.tt@, d - 1),
            old(eng).out_of_time() ==> within_poll(old(eng).stats, eng.stats, false),
            !old(eng).stop_token@ ==> !eng.stop_token@,
            eng.stats.nodes >= old(eng).stats.nodes,
            i > 0 ==> eng.stats.nodes >= counted(old(eng).stats.nodes),
            eng.stats.qnodes >= old(eng).stats.qnodes,
            old(eng).stop_token@ ==> eng.stop_token@ && i == 0 && eng.tt@ == old(eng).tt@
                && eng.stats == old(eng).stats,
            old(eng).budget_ms.is_none() ==> eng.stop_token@ == old(eng).stop_token@,
            i > 0 ==> !eng.stop_token@,
            -INF <= best < INF,
            i > 0 ==> best > -INF && best_move.is_some(),
            i == 0 ==> best_move.is_none(),
            best_move.is_none() ==> best == -INF,
            match best_move {
                Some(m) => legal(pos, m),
                None => true,
            },
            answers_soundly(old(eng).tt@, node) ==> table_sound(eng.tt@, node),
            grown_in_tree(old(eng).tt@, eng.tt@, node),
            sound ==> forall|k: int|
                0 <= k < i ==> reply_value(pos, d as int, 0, #[trigger] moves@[k]) <= best,
            sound && i > 0 ==> 0 <= b < i && best_move == Some(moves@[b]) && reply_value(
                pos,
                d as int,
                0,
                moves@[b],
            ) == best && forall|k: int|
                0 <= k < b ==> reply_value(pos, d as int, 0, #[trigger] moves@[k]) < best,
        decreases moves@.len() - i,
    {
        let m: Move = moves[i];
        assert(moves@.contains(moves@[i as int]));
        assert(legal(pos, m));
        proof {
            lemma_legal_wf(pos, m);
        }
        let ghost before = board@;
        let ghost table = eng.tt@;
        let ghost counters = eng.stats;
        board.push(&m);
        let child: i32 = negamax(board, d - 1, -INF, -best, eng, 1);
        board.pop();
        proof {
            lemma_push_pop(before, m);
            lemma_table_grown(old(eng).tt@, table, eng.tt@, d - 1, d - 1, d - 1);
            if old(eng).out_of_time() {
                lemma_within_poll(old(eng).stats, counters, eng.stats, eng.stop_token@);
            }
            if eng.stop_token@ && !old(eng).stop_token@ {
                lemma_poll_reached(old(eng).stats, counters, eng.stats);
            }
            lemma_child_in_tree(node, node, m);
            lemma_grown_twice(old(eng).tt@, table, eng.tt@, node);
            if answers_soundly(old(eng).tt@, node) {
                assert(guarded(table, node, child_of(node, m)));
            }
        }
        if eng.stop_token.is_set() {
            return (best, best_move);
        }
        let s: i32 = -child;
        if s > best {
            best = s;
            best_move = Some(m);
            proof {
                b = i as int;
            }
        }
        i += 1;
    }
    proof {
        if sound {
            let bm = moves@[b];
            assert forall|m: Move| #[trigger] legal(pos, m) implies reply_value(pos, d as int, 0, m)
                <= best && (m != bm && reply_value(pos, d as int, 0, m) == best ==> comes_before(
                pos,
                hint,
                bm,
                m,
            )) by {
                assert(moves@.contains(m));
                let k = choose|k: int| 0 <= k < moves@.len() && moves@[k] == m;
                assert(reply_value(pos, d as int, 0, moves@[k]) <= best);
                if m != bm && reply_value(pos, d as int, 0, m) == best {
                    assert(b < k);
                    assert(comes_before(pos, hint, moves@[b], moves@[k]));
                }
            }
            assert(hint == table_hint(old(eng).tt@, pos));
            assert(is_principal_under(pos, hint, d as int, best as int, bm));
            lemma_principal_value(pos, hint, d as int, best as int, bm);
        }
    }
    let ghost table = eng.tt@;
    let entry = TTEntry {
        depth: d,
        score: best,
        flag: Flag::Exact,
        best_move,
        age: eng.tt.generation,
    };
    eng.tt.store(key, entry);
    proof {
        assert(eng.tt@ == store_of(table, hash_of(pos), entry));
        assert(table_grown(table, eng.tt@, d as int));
        lemma_table_grown(old(eng).tt@, table, eng.tt@, d - 1, d as int, d as int);
        if answers_soundly(old(eng).tt@, node) {
            assert(guarded(table, node, node));
            lemma_store_sound(table, node, node, entry, -INF as int, INF as int);
        }
        lemma_store_grown(table, node, node, entry);
        lemma_grown_twice(old(eng).tt@, table, eng.tt@, node);
    }
    (best, best_move)
}

} // verus!
