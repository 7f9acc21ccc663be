//! The engine: the transposition table, the stop signal and the counters
//! of one search at a time, and the choice of a move under a time budget.

use vstd::prelude::*;
use crate::tt::TranspositionTable;
use crate::tt::SLOTS_PER_MB;
use crate::utils::{now_ms, elapsed_between, elapsed_of};
use crate::rules::{Move, legal};
use crate::board::Board;
use crate::movegen::lemma_legal_seq;
use crate::search::{search_root, has_legal_move, is_principal, is_principal_under, table_hint,
    minimax_value};
use crate::tree::{answers_soundly_upto, sound_between, is_best_move, root_node, lemma_clean_less,
    lemma_sound_at, lemma_sound_narrower, lemma_sound_after, lemma_sound_between_by_slots};

verus! {

/// The time a move gets where the clock of the side to move is unknown.
pub const DEFAULT_BUDGET_MS: u128 = 1000;

/// The number of moves the remaining time is spread over where the time
/// control names none.
pub const DEFAULT_MOVES_TO_GO: u128 = 30;

/// The depth at which iterative deepening ends.
pub const MAX_DEPTH: i32 = 64;

/// The search reads the clock once in this many nodes.
pub const POLL_INTERVAL: u64 = 128;

/// The clocks of a game, in milliseconds: the time left and the increment
/// per move for White and for Black, and the moves to the next time
/// control.
pub struct TimeControl {
    pub wtime: Option<i64>,
    pub btime: Option<i64>,
    pub winc: Option<i64>,
    pub binc: Option<i64>,
    pub movestogo: Option<i32>,
}

/// The counters of one search: nodes of the main search, and nodes of the
/// quiescence search.
pub struct Stats {
    pub nodes: u64,
    pub qnodes: u64,
}

/// The stop signal that a search polls.
pub struct StopToken {
    stopped: bool,
}

impl View for StopToken {
    type V = bool;

    /// Whether the signal is set.
    closed spec fn view(&self) -> bool {
        self.stopped
    }
}

impl StopToken {
    pub fn new() -> (t: StopToken)
        ensures
            !t@,
    {
        StopToken { stopped: false }
    }

    pub fn is_set(&self) -> (r: bool)
        ensures
            r == self@,
    {
        self.stopped
    }

    pub fn set(&mut self)
        ensures
            final(self)@,
    {
        self.stopped = true;
    }

    pub fn reset(&mut self)
        ensures
            !final(self)@,
    {
        self.stopped = false;
    }
}

/// A clock value or an increment as a count of milliseconds: 0 where it
/// is absent or negative.
pub open spec fn millis_of(t: Option<i64>) -> int {
    match t {
        Some(ms) => if ms > 0 {
            ms as int
        } else {
            0
        },
        None => 0,
    }
}

/// The number of moves that the remaining time is spread over.
pub open spec fn moves_to_go_of(tc: TimeControl) -> int {
    match tc.movestogo {
        Some(n) => if n > 0 {
            n as int
        } else {
            DEFAULT_MOVES_TO_GO as int
        },
        None => DEFAULT_MOVES_TO_GO as int,
    }
}

/// The time one move gets: the remaining time of the side to move, spread
/// over the moves to go, and half of its increment, but never more than
/// the remaining time; `DEFAULT_BUDGET_MS` where the remaining time is
/// unknown.
pub open spec fn budget_of(tc: TimeControl, white_to_move: bool) -> int {
    let remaining = if white_to_move {
        tc.wtime
    } else {
        tc.btime
    };
    let increment = if white_to_move {
        tc.winc
    } else {
        tc.binc
    };
    if remaining.is_none() {
        DEFAULT_BUDGET_MS as int
    } else {
        let left = millis_of(remaining);
        let share = left / moves_to_go_of(tc) + millis_of(increment) / 2;
        if share > left {
            left
        } else {
            share
        }
    }
}

fn millis(t: Option<i64>) -> (ms: u128)
    ensures
        ms == millis_of(t),
        ms <= i64::MAX,
{
    match t {
        Some(v) => if v > 0 {
            v as u128
        } else {
            0
        },
        None => 0,
    }
}

/// The time budget of one move, in milliseconds.
pub fn time_budget(tc: &TimeControl, white_to_move: bool) -> (ms: u128)
    ensures
        ms == budget_of(*tc, white_to_move),
{
    let remaining: Option<i64> = if white_to_move { tc.wtime } else { tc.btime };
    let increment: Option<i64> = if white_to_move { tc.winc } else { tc.binc };
    if remaining.is_none() {
        return DEFAULT_BUDGET_MS;
    }
    let left: u128 = millis(remaining);
    let moves: u128 = match tc.movestogo {
        Some(n) => if n > 0 {
            n as u128
        } else {
            DEFAULT_MOVES_TO_GO
        },
        None => DEFAULT_MOVES_TO_GO,
    };
    assert(left / moves <= left) by (nonlinear_arith)
        requires
            moves > 0,
    ;
    let share: u128 = left / moves + millis(increment) / 2;
    if share > left {
        left
    } else {
        share
    }
}

/// Whether a search that began at `started_ms` has used up its budget when
/// the clock reads `now_ms`.
pub fn time_is_up(started_ms: u128, now_ms: u128, budget_ms: u128) -> (up: bool)
    ensures
        up == (elapsed_of(started_ms, now_ms) >= budget_ms),
{
    elapsed_between(started_ms, now_ms) >= budget_ms
}

pub struct Engine {
    pub tt: TranspositionTable,
    pub stop_token: StopToken,
    pub stats: Stats,
    /// The clock when the search began.
    pub started_ms: u128,
    /// The time budget of the search; `None` for a search without one.
    pub budget_ms: Option<u128>,
}

/// The counter after one more node; it stays at its greatest value.
pub open spec fn counted(n: u64) -> u64 {
    if n < u64::MAX {
        (n + 1) as u64
    } else {
        n
    }
}

/// The first count above `n` at which the search reads the clock: the
/// next multiple of `POLL_INTERVAL`.
pub open spec fn next_poll(n: u64) -> int {
    (n as int / POLL_INTERVAL as int + 1) * POLL_INTERVAL as int
}

/// The counters have not passed their next reading of the clock: neither
/// has gone beyond the next multiple of `POLL_INTERVAL`, and where one has
/// reached it the search is stopped.
pub open spec fn within_poll(before: Stats, after: Stats, stopped: bool) -> bool {
    &&& before.nodes <= after.nodes <= next_poll(before.nodes)
    &&& before.qnodes <= after.qnodes <= next_poll(before.qnodes)
    &&& (after.nodes == next_poll(before.nodes) || after.qnodes == next_poll(before.qnodes))
        ==> stopped
}

/// A counter has come to a reading of the clock: it has reached the next
/// multiple of `POLL_INTERVAL`.
pub open spec fn poll_reached(before: Stats, after: Stats) -> bool {
    after.nodes >= next_poll(before.nodes) || after.qnodes >= next_poll(before.qnodes)
}

/// Counters that have come to a reading of the clock since a later count
/// have come to one since an earlier count.
pub proof fn lemma_poll_reached(first: Stats, second: Stats, third: Stats)
    requires
        first.nodes <= second.nodes,
        first.qnodes <= second.qnodes,
        poll_reached(second, third),
    ensures
        poll_reached(first, third),
{
    assert(first.nodes as int / 128 <= second.nodes as int / 128);
    assert(first.qnodes as int / 128 <= second.qnodes as int / 128);
}

/// Counters that stay within their next reading of the clock over two
/// stretches of a search, the first of which did not stop it, stay
/// within it over both.
pub proof fn lemma_within_poll(first: Stats, second: Stats, third: Stats, stopped: bool)
    requires
        within_poll(first, second, false),
        within_poll(second, third, stopped),
    ensures
        within_poll(first, third, stopped),
{
    assert(second.nodes as int / 128 == first.nodes as int / 128);
    assert(second.qnodes as int / 128 == first.qnodes as int / 128);
}

impl Engine {
    pub open spec fn wf(&self) -> bool {
        self.tt.wf()
    }

    /// Two states of an engine within one search: the same table size and
    /// generation, the same budget.
    pub open spec fn same_search(&self, other: &Engine) -> bool {
        &&& self.tt@.slots.len() == other.tt@.slots.len()
        &&& self.tt@.generation == other.tt@.generation
        &&& self.started_ms == other.started_ms
        &&& self.budget_ms == other.budget_ms
    }

    /// The budget is used up whatever the clock reads.
    pub open spec fn out_of_time(&self) -> bool {
        self.budget_ms == Some(0u128)
    }

    /// An engine with an empty table of `tt_mb` megabytes, no stop signal,
    /// no nodes counted and no time budget.
    pub fn new(tt_mb: usize) -> (e: Engine)
        requires
            tt_mb * SLOTS_PER_MB <= usize::MAX,
        ensures
            e.wf(),
            e.tt@.generation == 0,
            e.tt@.slots.len() == tt_mb * SLOTS_PER_MB,
            forall|i: int| 0 <= i < e.tt@.slots.len() ==> (#[trigger] e.tt@.slots[i]).is_none(),
            !e.stop_token@,
            e.stats.nodes == 0,
            e.stats.qnodes == 0,
            e.budget_ms.is_none(),
    {
        Engine {
            tt: TranspositionTable::new(tt_mb),
            stop_token: StopToken::new(),
            stats: Stats { nodes: 0, qnodes: 0 },
            started_ms: 0,
            budget_ms: None,
        }
    }

    /// Whether the search is to stop.
    pub fn should_stop(&self) -> (r: bool)
        ensures
            r == self.stop_token@,
    {
        self.stop_token.is_set()
    }

    /// Sets the stop signal where the clock reading `now_ms` shows the
    /// budget used up. Without a budget nothing changes.
    pub fn note_time(&mut self, now_ms: u128)
        ensures
            final(self).tt == old(self).tt,
            final(self).stats == old(self).stats,
            final(self).started_ms == old(self).started_ms,
            final(self).budget_ms == old(self).budget_ms,
            final(self).stop_token@ == (old(self).stop_token@ || match old(self).budget_ms {
                Some(b) => elapsed_of(old(self).started_ms, now_ms) >= b,
                None => false,
            }),
    {
        match self.budget_ms {
            Some(b) => {
                if time_is_up(self.started_ms, now_ms, b) {
                    self.stop_token.set();
                }
            },
            None => {},
        }
    }

    /// Reads the clock, where the search has a budget, and sets the stop
    /// signal if the budget is used up. A signal that is set stays set.
    pub fn poll_clock(&mut self)
        ensures
            final(self).tt == old(self).tt,
            final(self).stats == old(self).stats,
            final(self).started_ms == old(self).started_ms,
            final(self).budget_ms == old(self).budget_ms,
            old(self).stop_token@ ==> final(self).stop_token@,
            old(self).budget_ms.is_none() ==> final(self).stop_token@ == old(self).stop_token@,
            old(self).budget_ms.is_some() ==> exists|now: u128|
                final(self).stop_token@ == #[trigger] old(self).stop_after(now),
    {
        if self.budget_ms.is_some() {
            let now: u128 = now_ms();
            self.note_time(now);
            assert(self.stop_token@ == old(self).stop_after(now));
        }
    }

    /// Whether the stop signal is set once the clock reading `now_ms` has
    /// been noted: it was set before, or the reading shows the budget used
    /// up.
    pub open spec fn stop_after(&self, now_ms: u128) -> bool {
        self.stop_token@ || match self.budget_ms {
            Some(b) => elapsed_of(self.started_ms, now_ms) >= b,
            None => false,
        }
    }

    /// Counts one node of the main search.
    pub fn count_node(&mut self)
        ensures
            final(self).tt == old(self).tt,
            final(self).stop_token == old(self).stop_token,
            final(self).started_ms == old(self).started_ms,
            final(self).budget_ms == old(self).budget_ms,
            final(self).stats.nodes == counted(old(self).stats.nodes),
            final(self).stats.qnodes == old(self).stats.qnodes,
    {
        if self.stats.nodes < u64::MAX {
            self.stats.nodes += 1;
        }
    }

    /// Counts one node of the quiescence search.
    pub fn count_qnode(&mut self)
        ensures
            final(self).tt == old(self).tt,
            final(self).stop_token == old(self).stop_token,
            final(self).started_ms == old(self).started_ms,
            final(self).budget_ms == old(self).budget_ms,
            final(self).stats.qnodes == counted(old(self).stats.qnodes),
            final(self).stats.nodes == old(self).stats.nodes,
    {
        if self.stats.qnodes < u64::MAX {
            self.stats.qnodes += 1;
        }
    }

    /// Iterative deepening: searches the root 1, 2, 3 ... moves deep up to
    /// `MAX_DEPTH`, and reads the clock after each depth, until the stop
    /// signal is set. Returns the move of the deepest search that ran to
    /// its end, and that depth.
    ///
    /// Where no search ran to its end the depth is 0, and the move is what
    /// the search one move deep had found when it was stopped, if
    /// anything. With a table that answers soundly in the trees of the
    /// position up to the depth returned, the move is a best move of that
    /// depth. Without a budget the stop signal stays as it is.
    #[verifier::loop_isolation(false)]
    pub fn deepen(&mut self, board: &mut Board) -> (found: (Option<Move>, i32))
        requires
            old(self).wf(),
            old(board).wf(),
        ensures
            final(self).wf(),
            final(board).wf(),
            final(board)@ == old(board)@,
            final(self).same_search(old(self)),
            final(self).stats.nodes >= old(self).stats.nodes,
            final(self).stats.qnodes >= old(self).stats.qnodes,
            0 <= found.1 <= MAX_DEPTH,
            match found.0 {
                Some(m) => legal(old(board)@.pos, m),
                None => true,
            },
            found.1 >= 1 ==> found.0.is_some(),
            !has_legal_move(old(board)@.pos) ==> found.0.is_none() && found.1 == 0 && final(self).stats
                == old(self).stats && final(self).stop_token@ == old(self).stop_token@,
            has_legal_move(old(board)@.pos) ==> final(self).stats.nodes >= counted(
                old(self).stats.nodes,
            ),
            old(self).stop_token@ ==> final(self).stop_token@ && found.0.is_none() && found.1 == 0,
            old(self).budget_ms.is_none() ==> final(self).stop_token@ == old(self).stop_token@,
            has_legal_move(old(board)@.pos) && !old(self).stop_token@ && found.1 == 0 ==> final(self).stop_token@ && poll_reached(old(self).stats, final(self).stats),
            has_legal_move(old(board)@.pos) && !final(self).stop_token@ ==> found.1 == MAX_DEPTH,
            old(self).out_of_time() ==> found.1 <= 1 && within_poll(
                old(self).stats,
                final(self).stats,
                final(self).stop_token@,
            ),
            old(self).tt@.slots.len() == 0 && found.1 >= 1 ==> is_principal(
                old(board)@.pos,
                found.1 as int,
                minimax_value(old(board)@.pos, found.1 as int, 0),
                found.0.unwrap(),
            ),
            found.1 == 1 ==> is_principal_under(
                old(board)@.pos,
                table_hint(old(self).tt@, old(board)@.pos),
                1,
                minimax_value(old(board)@.pos, 1, 0),
                found.0.unwrap(),
            ),
            found.1 >= 1 && answers_soundly_upto(old(self).tt@, old(board)@.pos, found.1 as int)
                ==> is_best_move(old(board)@.pos, found.1 as int, found.0.unwrap()),
    {
        let ghost pos = board@.pos;
        let ghost exact = old(self).tt@.slots.len() == 0;
        let mut chosen: Option<Move> = None;
        let mut completed: i32 = 0;
        let mut done: bool = false;
        while completed < MAX_DEPTH && !done
            invariant
                0 <= completed <= MAX_DEPTH,
                board.wf(),
                board@ == old(board)@,
                self.wf(),
                self.same_search(old(self)),
                self.stats.nodes >= old(self).stats.nodes,
                self.stats.qnodes >= old(self).stats.qnodes,
                exact ==> self.tt@ == old(self).tt@,
                completed == 0 && !done ==> *self == *old(self) && chosen.is_none(),
                old(self).budget_ms.is_none() ==> self.stop_token@ == old(self).stop_token@,
                completed == 0 && done && has_legal_move(pos) && !old(self).stop_token@
                    ==> poll_reached(old(self).stats, self.stats),
                old(self).out_of_time() ==> (completed == 0 || done) && completed <= 1
                    && within_poll(old(self).stats, self.stats, self.stop_token@),
                !done ==> !self.stop_token@ || completed == 0,
                old(self).stop_token@ ==> self.stop_token@ && chosen.is_none() && completed == 0,
                completed >= 1 ==> chosen.is_some() && has_legal_move(pos) && self.stats.nodes
                    >= counted(old(self).stats.nodes),
                done && has_legal_move(pos) ==> self.stop_token@ && self.stats.nodes >= counted(
                    old(self).stats.nodes,
                ),
                done && !has_legal_move(pos) ==> chosen.is_none() && completed == 0 && self.stats
                    == old(self).stats && self.stop_token@ == old(self).stop_token@,
                match chosen {
                    Some(m) => legal(pos, m),
                    None => true,
                },
                exact && completed >= 1 ==> is_principal(
                    pos,
                    completed as int,
                    minimax_value(pos, completed as int, 0),
                    chosen.unwrap(),
                ),
                completed == 1 ==> is_principal_under(
                    pos,
                    table_hint(old(self).tt@, pos),
                    1,
                    minimax_value(pos, 1, 0),
                    chosen.unwrap(),
                ),
                forall|upto: int| #[trigger]
                    answers_soundly_upto(old(self).tt@, pos, upto) && completed <= upto ==> (!done
                        ==> sound_between(self.tt@, pos, completed as int, upto)) && (completed >= 1
                        ==> is_best_move(pos, completed as int, chosen.unwrap())),
            decreases MAX_DEPTH - completed + (if done { 0int } else { 1int }),
        {
            let ghost table = self.tt@;
            let found = search_root(board, self, completed + 1);
            if self.stop_token.is_set() {
                if chosen.is_none() {
                    chosen = found.1;
                }
                done = true;
            } else if found.1.is_none() {
                done = true;
            } else {
                proof {
                    let next = completed + 1;
                    assert forall|upto: int| #[trigger]
                        answers_soundly_upto(old(self).tt@, pos, upto) && next
                            <= upto implies sound_between(self.tt@, pos, next as int, upto)
                        && is_best_move(pos, next as int, found.1.unwrap()) by {
                        lemma_sound_at(table, pos, completed as int, upto, next as int);
                        lemma_clean_less(pos, next as int, upto);
                        lemma_sound_narrower(table, pos, completed as int, upto, next as int, upto);
                        lemma_sound_after(table, self.tt@, pos, next as int, upto);
                    }
                }
                chosen = found.1;
                completed = completed + 1;
                self.poll_clock();
                if self.stop_token.is_set() {
                    done = true;
                }
            }
        }
        (chosen, completed)
    }

    /// Chooses a move for the side to move, within the time budget that
    /// the time control gives.
    ///
    /// The stop signal and the counters are reset, the table begins its
    /// next generation, and the root is searched deeper and deeper until
    /// the stop signal is set or the budget is used up. The move of the
    /// deepest search that ran to its end is chosen; a search that was
    /// stopped counts only where none ran to its end, and where it found
    /// nothing the first legal move is chosen.
    ///
    /// `None` is returned if and only if the position has no legal move.
    pub fn choose_move(&mut self, board: &mut Board, tc: &TimeControl) -> (chosen: Option<Move>)
        requires
            old(self).wf(),
            old(board).wf(),
        ensures
            final(self).wf(),
            final(board).wf(),
            final(board)@ == old(board)@,
            final(self).tt@.slots.len() == old(self).tt@.slots.len(),
            final(self).tt@.generation == if old(self).tt@.generation < i32::MAX {
                old(self).tt@.generation + 1
            } else {
                old(self).tt@.generation
            },
            final(self).budget_ms == Some(
                budget_of(*tc, old(board)@.pos.white_to_move) as u128,
            ),
            chosen.is_none() <==> !has_legal_move(old(board)@.pos),
            match chosen {
                Some(m) => legal(old(board)@.pos, m),
                None => true,
            },
            !has_legal_move(old(board)@.pos) ==> final(self).stats.nodes == 0 && final(self).stats.qnodes == 0 && !final(self).stop_token@,
            has_legal_move(old(board)@.pos) ==> final(self).stats.nodes >= 1,
            budget_of(*tc, old(board)@.pos.white_to_move) == 0 ==> final(self).stats.nodes
                <= POLL_INTERVAL && final(self).stats.qnodes <= POLL_INTERVAL,
            old(self).tt@.slots.len() == 0 && !final(self).stop_token@ && chosen.is_some()
                ==> is_principal(
                old(board)@.pos,
                MAX_DEPTH as int,
                minimax_value(old(board)@.pos, MAX_DEPTH as int, 0),
                chosen.unwrap(),
            ),
            exists|d: int| #[trigger]
                chosen_at(
                    *old(self),
                    *final(self),
                    old(board)@.pos,
                    d,
                    chosen,
                ),
    {
        let ghost pos = board@.pos;
        self.stop_token.reset();
        self.stats.nodes = 0;
        self.stats.qnodes = 0;
        if self.tt.generation < i32::MAX {
            self.tt.new_search();
        }
        self.started_ms = now_ms();
        self.budget_ms = Some(time_budget(tc, board.state.white_to_move));
        let ghost begun = *self;
        let found = self.deepen(board);
        let mut chosen: Option<Move> = found.0;
        if chosen.is_none() {
            let moves = board.legal_moves();
            proof {
                lemma_legal_seq(pos);
            }
            if moves.len() > 0 {
                assert(moves@.contains(moves@[0]));
                chosen = Some(moves[0]);
            } else {
                assert forall|m: Move| !legal(pos, m) by {
                    assert(!moves@.contains(m));
                }
            }
        }
        proof {
            if found.1 >= 1 && answers_soundly_upto(old(self).tt@, pos, found.1 as int) {
                lemma_sound_between_by_slots(old(self).tt@, begun.tt@, pos, 0, found.1 as int);
            }
        }
        assert(chosen_at(*old(self), *self, pos, found.1 as int, chosen));
        chosen
    }
}

/// The move chosen is that of the search `depth` moves deep, the deepest
/// that ran to its end: with a table without slots the principal move of
/// that depth; one move deep, with any table, the principal move in the
/// ordering that the table's hint gives; with a table that answers
/// soundly up to that depth, a best move. Where no search ran to its end
/// (`depth` is 0) though there is a legal move, the search was stopped at
/// a reading of the clock.
pub open spec fn chosen_at(
    before: Engine,
    after: Engine,
    pos: crate::rules::Pos,
    depth: int,
    chosen: Option<Move>,
) -> bool {
    &&& 0 <= depth <= MAX_DEPTH
    &&& depth >= 1 ==> chosen.is_some()
    &&& depth >= 1 && before.tt@.slots.len() == 0 ==> is_principal(
        pos,
        depth,
        minimax_value(pos, depth, 0),
        chosen.unwrap(),
    )
    &&& depth == 1 ==> is_principal_under(
        pos,
        table_hint(before.tt@, pos),
        1,
        minimax_value(pos, 1, 0),
        chosen.unwrap(),
    )
    &&& depth >= 1 && answers_soundly_upto(before.tt@, pos, depth) ==> is_best_move(
        pos,
        depth,
        chosen.unwrap(),
    )
    &&& depth == 0 && has_legal_move(pos) ==> after.stop_token@ && (after.stats.nodes
        >= POLL_INTERVAL || after.stats.qnodes >= POLL_INTERVAL)
    &&& !after.stop_token@ && has_legal_move(pos) ==> depth == MAX_DEPTH
}

} // verus!
