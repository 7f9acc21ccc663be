use my_engine::board::Board;
use my_engine::engine::{
    time_budget, time_is_up, Engine, StopToken, TimeControl, DEFAULT_BUDGET_MS,
};
use my_engine::rules::{Move, State};
use my_engine::search::search_root;
use my_engine::tt::SLOTS_PER_MB;
use my_engine::utils::{elapsed_between, elapsed_ms, now_ms, nps};

fn mv(from: u8, to: u8) -> Move {
    Move { from, to, promo: 0 }
}

fn clocks(wtime: Option<i64>, btime: Option<i64>) -> TimeControl {
    TimeControl { wtime, btime, winc: None, binc: None, movestogo: None }
}

#[test]
fn stop_token_is_set_and_reset() {
    let mut token = StopToken::new();
    assert!(!token.is_set());
    token.set();
    assert!(token.is_set());
    token.set();
    assert!(token.is_set());
    token.reset();
    assert!(!token.is_set());
}

#[test]
fn new_engine_is_idle() {
    let eng = Engine::new(2);
    assert_eq!(eng.tt.capacity(), 2 * SLOTS_PER_MB);
    assert_eq!(eng.tt.generation, 0);
    assert!(!eng.should_stop());
    assert_eq!(eng.stats.nodes, 0);
    assert_eq!(eng.stats.qnodes, 0);
    assert!(eng.budget_ms.is_none());
}

#[test]
fn should_stop_follows_the_token() {
    let mut eng = Engine::new(0);
    eng.stop_token.set();
    assert!(eng.should_stop());
    eng.stop_token.reset();
    assert!(!eng.should_stop());
}

#[test]
fn time_budget_spreads_the_remaining_time() {
    assert_eq!(time_budget(&clocks(Some(1000), Some(60_000)), true), 33);
    assert_eq!(time_budget(&clocks(Some(1000), Some(60_000)), false), 2000);
    let tc = TimeControl {
        wtime: Some(1000),
        btime: Some(5000),
        winc: Some(100),
        binc: Some(30),
        movestogo: Some(10),
    };
    assert_eq!(time_budget(&tc, true), 150);
    assert_eq!(time_budget(&tc, false), 515);
}

#[test]
fn time_budget_without_a_clock_is_the_default() {
    assert_eq!(time_budget(&clocks(None, None), true), DEFAULT_BUDGET_MS);
    assert_eq!(time_budget(&clocks(Some(5), None), false), DEFAULT_BUDGET_MS);
}

#[test]
fn time_budget_never_exceeds_the_remaining_time() {
    let tc = TimeControl {
        wtime: Some(10),
        btime: Some(-5),
        winc: Some(1000),
        binc: Some(1000),
        movestogo: Some(0),
    };
    assert_eq!(time_budget(&tc, true), 10);
    assert_eq!(time_budget(&tc, false), 0);
    let tc = TimeControl {
        wtime: Some(i64::MAX),
        btime: None,
        winc: Some(i64::MAX),
        binc: None,
        movestogo: Some(-4),
    };
    assert_eq!(time_budget(&tc, true), (i64::MAX / 30 + i64::MAX / 2) as u128);
}

#[test]
fn time_is_up_when_the_budget_has_passed() {
    assert!(!time_is_up(1000, 1049, 50));
    assert!(time_is_up(1000, 1050, 50));
    assert!(time_is_up(1000, 2000, 50));
    assert!(!time_is_up(1000, 900, 50));
    assert!(time_is_up(1000, 900, 0));
}

#[test]
fn note_time_sets_the_stop_signal() {
    let mut eng = Engine::new(0);
    eng.note_time(u128::MAX);
    assert!(!eng.should_stop());
    eng.started_ms = 100;
    eng.budget_ms = Some(50);
    eng.note_time(149);
    assert!(!eng.should_stop());
    eng.note_time(150);
    assert!(eng.should_stop());
    eng.note_time(100);
    assert!(eng.should_stop());
}

#[test]
fn poll_clock_without_budget_changes_nothing() {
    let mut eng = Engine::new(0);
    eng.poll_clock();
    assert!(!eng.should_stop());
    eng.started_ms = 0;
    eng.budget_ms = Some(0);
    eng.poll_clock();
    assert!(eng.should_stop());
}

#[test]
fn elapsed_time_is_never_negative() {
    assert_eq!(elapsed_between(3, 10), 7);
    assert_eq!(elapsed_between(10, 10), 0);
    assert_eq!(elapsed_between(10, 3), 0);
    assert_eq!(elapsed_between(0, u128::MAX), u128::MAX);
}

#[test]
fn clock_reads_a_time_after_the_epoch() {
    let first = now_ms();
    assert!(first > 1_600_000_000_000);
    assert!(elapsed_ms(first) < 10_000);
    assert!(elapsed_ms(0) >= first);
    assert_eq!(elapsed_ms(u128::MAX), 0);
}

#[test]
fn nps_is_nodes_per_second() {
    assert_eq!(nps(1000, 500), 2000);
    assert_eq!(nps(1, 1000), 1);
    assert_eq!(nps(999, 1_000_000), 0);
    assert_eq!(nps(5, 0), 0);
    assert_eq!(nps(u64::MAX, 1000), u64::MAX);
    assert_eq!(nps(u64::MAX, 1), (u64::MAX as u128 * 1000) as u64);
}

#[test]
fn choose_move_from_the_start_within_a_second_per_side() {
    let mut board = Board::new();
    let mut eng = Engine::new(1);
    let began = now_ms();
    let chosen = eng.choose_move(&mut board, &clocks(Some(1000), Some(1000)));
    let took = elapsed_ms(began);
    let chosen = chosen.unwrap();
    assert!(board.legal_moves().contains(&chosen));
    let developing = ["e2e4", "d2d4", "g1f3", "b1c3", "c2c4", "e2e3", "d2d3", "g2g3", "b2b3"];
    assert!(developing.contains(&chosen.notation().as_str()));
    assert!(took < 1000 + 2000);
    assert_eq!(eng.budget_ms, Some(33));
    assert_eq!(board.state, Board::new().state);
    assert_eq!(board.history.len(), 0);
    assert!(eng.stats.nodes >= 20);
}

#[test]
fn choose_move_resets_the_signal_and_the_counters() {
    let mut board = Board::new();
    let mut eng = Engine::new(1);
    eng.stop_token.set();
    eng.stats.nodes = 1_000_000;
    eng.stats.qnodes = 1_000_000;
    let chosen = eng.choose_move(&mut board, &clocks(Some(0), Some(0)));
    assert!(board.legal_moves().contains(&chosen.unwrap()));
    assert!(eng.stats.nodes < 1_000_000);
    assert!(eng.stats.qnodes < 1_000_000);
    assert_eq!(eng.tt.generation, 1);
    eng.choose_move(&mut board, &clocks(Some(0), Some(0)));
    assert_eq!(eng.tt.generation, 2);
}

#[test]
fn choose_move_with_no_time_left_returns_after_the_first_poll() {
    let mut board = Board::new();
    let mut eng = Engine::new(1);
    let chosen = eng.choose_move(&mut board, &clocks(Some(0), Some(0)));
    assert!(board.legal_moves().contains(&chosen.unwrap()));
    assert!(eng.should_stop());
    assert!(eng.stats.nodes <= 128);
    assert!(eng.stats.qnodes <= 128);
    assert_eq!(eng.budget_ms, Some(0));
}

#[test]
fn choose_move_takes_the_mate_in_one() {
    let mut state = State {
        squares: [0u8; 64],
        white_to_move: true,
        wk: false,
        wq: false,
        bk: false,
        bq: false,
        ep: 64,
    };
    state.squares[46] = 6;
    state.squares[0] = 4;
    state.squares[63] = 12;
    let mut board = Board::from_state(state).unwrap();
    let mut eng = Engine::new(1);
    let chosen = eng.choose_move(&mut board, &clocks(Some(60_000), Some(60_000)));
    assert_eq!(chosen, Some(mv(0, 56)));
}

#[test]
fn choose_move_without_a_legal_move_gives_none() {
    let mut board = Board::new();
    for m in [mv(13, 21), mv(52, 36), mv(14, 30), mv(59, 31)] {
        board.push(&m);
    }
    let mut eng = Engine::new(1);
    assert_eq!(eng.choose_move(&mut board, &clocks(Some(1000), Some(1000))), None);
    assert_eq!(board.history.len(), 4);
}

#[test]
fn choose_move_stays_legal_over_a_short_game() {
    let mut board = Board::new();
    let mut eng = Engine::new(1);
    for _ in 0..6 {
        let chosen = eng.choose_move(&mut board, &clocks(Some(300), Some(300)));
        match chosen {
            Some(m) => {
                assert!(board.legal_moves().contains(&m));
                board.push(&m);
            }
            None => {
                assert_eq!(board.legal_moves().len(), 0);
                return;
            }
        }
    }
    assert_eq!(board.history.len(), 6);
}

#[test]
fn deepen_gives_the_move_of_the_deepest_search_that_ended() {
    let mut board = Board::new();
    let mut plain = Engine::new(1);
    let expected = search_root(&mut board, &mut plain, 1).1;
    let mut eng = Engine::new(1);
    eng.started_ms = 0;
    eng.budget_ms = Some(0);
    let (chosen, completed) = eng.deepen(&mut board);
    assert_eq!(completed, 1);
    assert_eq!(chosen, expected);
    assert!(eng.should_stop());
    assert_eq!(eng.stats.nodes, 20);
    assert_eq!(board.state, Board::new().state);
}

#[test]
fn deepen_that_is_stopped_at_once_completes_nothing() {
    let mut board = Board::new();
    let mut eng = Engine::new(1);
    eng.stop_token.set();
    assert_eq!(eng.deepen(&mut board), (None, 0));
    assert_eq!(eng.stats.nodes, 1);
    assert_eq!(eng.stats.qnodes, 0);
}

#[test]
fn deepen_without_a_legal_move_searches_nothing() {
    let mut board = Board::new();
    for m in [mv(13, 21), mv(52, 36), mv(14, 30), mv(59, 31)] {
        board.push(&m);
    }
    let mut eng = Engine::new(1);
    assert_eq!(eng.deepen(&mut board), (None, 0));
    assert_eq!(eng.stats.nodes, 0);
    assert!(!eng.should_stop());
}

#[test]
fn choose_move_without_a_legal_move_counts_nothing() {
    let mut board = Board::new();
    for m in [mv(13, 21), mv(52, 36), mv(14, 30), mv(59, 31)] {
        board.push(&m);
    }
    let mut eng = Engine::new(1);
    eng.stats.nodes = 5;
    eng.stats.qnodes = 9;
    eng.stop_token.set();
    assert_eq!(eng.choose_move(&mut board, &clocks(Some(1000), Some(1000))), None);
    assert_eq!(eng.stats.nodes, 0);
    assert_eq!(eng.stats.qnodes, 0);
    assert!(!eng.should_stop());
}

#[test]
fn choose_move_counts_from_zero() {
    let mut board = Board::new();
    let mut eng = Engine::new(1);
    eng.stats.nodes = u64::MAX;
    eng.stats.qnodes = u64::MAX;
    eng.choose_move(&mut board, &clocks(Some(0), Some(0)));
    assert_eq!(eng.stats.nodes, 20);
    assert_eq!(eng.stats.qnodes, 20);
}

#[test]
fn deepen_stopped_in_its_first_depth_was_stopped_at_a_poll() {
    let mut board = Board::new();
    let mut eng = Engine::new(1);
    eng.stats.nodes = 127;
    eng.started_ms = 0;
    eng.budget_ms = Some(0);
    assert_eq!(eng.deepen(&mut board), (None, 0));
    assert!(eng.should_stop());
    assert_eq!(eng.stats.nodes, 128);
}

#[test]
fn deepen_with_a_budget_left_goes_deeper_than_one_move() {
    let mut board = Board::new();
    let mut eng = Engine::new(1);
    eng.started_ms = now_ms();
    eng.budget_ms = Some(200);
    let (chosen, completed) = eng.deepen(&mut board);
    assert!(completed >= 2);
    assert!(board.legal_moves().contains(&chosen.unwrap()));
    assert!(eng.should_stop());
}
