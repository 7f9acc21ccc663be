use my_engine::board::Board;
use my_engine::evaluator::evaluate;
use my_engine::pst::{game_phase, piece_square, tapered_score, MAX_PHASE};
use my_engine::rules::{Move, State};

fn kings_only(white_to_move: bool) -> State {
    let mut squares = [0u8; 64];
    squares[4] = 6;
    squares[60] = 12;
    State { squares, white_to_move, wk: false, wq: false, bk: false, bq: false, ep: 64 }
}

#[test]
fn tapered_score_at_the_ends_of_the_phase() {
    assert_eq!(tapered_score(100, 0, MAX_PHASE), 100);
    assert_eq!(tapered_score(100, 0, 0), 0);
    assert_eq!(tapered_score(-37, 512, MAX_PHASE), -37);
    assert_eq!(tapered_score(-37, 512, 0), 512);
    assert_eq!(tapered_score(i32::MAX, i32::MIN, MAX_PHASE), i32::MAX);
    assert_eq!(tapered_score(i32::MAX, i32::MIN, 0), i32::MIN);
}

#[test]
fn tapered_score_blends_by_the_formula() {
    assert_eq!(tapered_score(100, 0, 12), 50);
    assert_eq!(tapered_score(10, -10, 6), -5);
    assert_eq!(tapered_score(300, 100, 18), 250);
    assert_eq!(tapered_score(1, 0, 23), 0);
}

#[test]
fn tapered_score_rounds_toward_zero() {
    assert_eq!(tapered_score(-7, 0, 12), -3);
    assert_eq!(tapered_score(7, 0, 12), 3);
    assert_eq!(tapered_score(-1, 0, 23), 0);
}

#[test]
fn tapered_score_rises_with_the_phase() {
    for (mg, eg) in [(100, 0), (5, 4), (-3, -90), (1000, -1000), (1, 0)] {
        let mut last = tapered_score(mg, eg, 0);
        assert_eq!(last, eg);
        for phase in 1..=MAX_PHASE {
            let next = tapered_score(mg, eg, phase);
            assert!(next >= last);
            last = next;
        }
        assert_eq!(last, mg);
    }
}

#[test]
fn game_phase_counts_the_pieces() {
    assert_eq!(game_phase(&Board::new()), 24);
    assert_eq!(game_phase(&Board::from_state(kings_only(true)).unwrap()), 0);
    let mut state = kings_only(true);
    state.squares[0] = 4;
    state.squares[1] = 2;
    state.squares[59] = 11;
    state.squares[8] = 1;
    assert_eq!(game_phase(&Board::from_state(state).unwrap()), 7);
}

#[test]
fn game_phase_stops_at_the_greatest_phase() {
    let mut state = kings_only(true);
    for i in 8..24 {
        state.squares[i] = 5;
    }
    assert_eq!(game_phase(&Board::from_state(state).unwrap()), MAX_PHASE);
}

#[test]
fn piece_square_values() {
    assert_eq!(piece_square(1, 12, false), 111);
    assert_eq!(piece_square(1, 28, false), 121);
    assert_eq!(piece_square(1, 12, true), 120);
    assert_eq!(piece_square(7, 52, false), -111);
    assert_eq!(piece_square(2, 27, false), 348);
    assert_eq!(piece_square(4, 48, false), 520);
    assert_eq!(piece_square(6, 4, false), 50);
    assert_eq!(piece_square(12, 60, true), -30);
    assert_eq!(piece_square(0, 30, false), 0);
}

#[test]
fn start_position_is_level() {
    assert_eq!(evaluate(&Board::new()), 0);
}

#[test]
fn evaluation_is_for_the_side_to_move() {
    let mut board = Board::new();
    board.push(&Move { from: 12, to: 28, promo: 0 });
    assert_eq!(evaluate(&board), -10);
    board.push(&Move { from: 52, to: 36, promo: 0 });
    assert_eq!(evaluate(&board), 0);
}

#[test]
fn evaluation_uses_the_endgame_worth_without_pieces() {
    let mut state = kings_only(true);
    state.squares[48] = 1;
    assert_eq!(evaluate(&Board::from_state(state).unwrap()), 170);
    state.white_to_move = false;
    assert_eq!(evaluate(&Board::from_state(state).unwrap()), -170);
}

#[test]
fn evaluation_stays_within_its_limit() {
    let mut state = kings_only(true);
    for i in 8..56 {
        state.squares[i] = 5;
    }
    assert_eq!(evaluate(&Board::from_state(state).unwrap()), 30_000);
    state.white_to_move = false;
    assert_eq!(evaluate(&Board::from_state(state).unwrap()), -30_000);
}
