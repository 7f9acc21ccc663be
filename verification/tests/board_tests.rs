use my_engine::board::Board;
use my_engine::rules::{captures, is_legal, make_move, Move, State};
use my_engine::utils::zobrist;

fn mv(from: u8, to: u8) -> Move {
    Move { from, to, promo: 0 }
}

fn empty_state(white_to_move: bool) -> State {
    State {
        squares: [0u8; 64],
        white_to_move,
        wk: false,
        wq: false,
        bk: false,
        bq: false,
        ep: 64,
    }
}

fn board_of(state: State) -> Board {
    Board::from_state(state).unwrap()
}

#[test]
fn start_position_has_twenty_moves() {
    let board = Board::new();
    assert_eq!(board.legal_moves().len(), 20);
    assert!(!board.in_check());
}

#[test]
fn start_moves_ascend_by_origin_and_destination() {
    let moves = Board::new().legal_moves();
    assert_eq!(moves[0], mv(1, 16));
    assert_eq!(moves[1], mv(1, 18));
    assert_eq!(moves[2], mv(6, 21));
    assert_eq!(moves[3], mv(6, 23));
    assert_eq!(moves[4], mv(8, 16));
    assert_eq!(moves[5], mv(8, 24));
    assert_eq!(moves[19], mv(15, 31));
}

#[test]
fn push_then_pop_gives_the_board_before() {
    let mut board = Board::new();
    let before = board.state;
    for m in Board::new().legal_moves() {
        board.push(&m);
        assert_ne!(board.state, before);
        assert_eq!(board.history.len(), 1);
        board.pop();
        assert_eq!(board.state, before);
        assert_eq!(board.history.len(), 0);
    }
}

#[test]
fn push_then_pop_restores_after_special_moves() {
    let mut state = empty_state(true);
    state.squares[4] = 6;
    state.squares[7] = 4;
    state.squares[0] = 4;
    state.squares[60] = 12;
    state.squares[48] = 1;
    state.squares[36] = 1;
    state.squares[35] = 7;
    state.ep = 43;
    state.wk = true;
    state.wq = true;
    let mut board = board_of(state);
    let moves = board.legal_moves();
    assert!(moves.contains(&mv(4, 6)));
    assert!(moves.contains(&mv(4, 2)));
    assert!(moves.contains(&mv(36, 43)));
    assert!(moves.contains(&Move { from: 48, to: 56, promo: 5 }));
    for m in moves {
        board.push(&m);
        board.pop();
        assert_eq!(board.state, state);
        assert_eq!(board.history.len(), 0);
    }
}

#[test]
fn pop_without_history_changes_nothing() {
    let mut board = Board::new();
    let before = board.state;
    board.pop();
    assert_eq!(board.state, before);
    assert_eq!(board.history.len(), 0);
}

#[test]
fn double_step_sets_the_en_passant_square() {
    let mut board = Board::new();
    board.push(&mv(12, 28));
    assert_eq!(board.state.squares[12], 0);
    assert_eq!(board.state.squares[28], 1);
    assert_eq!(board.state.ep, 20);
    assert!(!board.state.white_to_move);
    board.push(&mv(57, 42));
    assert_eq!(board.state.ep, 64);
    assert!(board.state.white_to_move);
    assert_eq!(board.history.len(), 2);
}

#[test]
fn en_passant_takes_the_pawn_that_passed() {
    let mut state = empty_state(true);
    state.squares[4] = 6;
    state.squares[60] = 12;
    state.squares[36] = 1;
    state.squares[35] = 7;
    state.ep = 43;
    let mut board = board_of(state);
    let m = mv(36, 43);
    assert!(board.legal_moves().contains(&m));
    assert!(captures(&board.state, &m));
    board.push(&m);
    assert_eq!(board.state.squares[43], 1);
    assert_eq!(board.state.squares[35], 0);
    assert_eq!(board.state.squares[36], 0);
}

#[test]
fn en_passant_is_not_legal_without_the_square() {
    let mut state = empty_state(true);
    state.squares[4] = 6;
    state.squares[60] = 12;
    state.squares[36] = 1;
    state.squares[35] = 7;
    let board = board_of(state);
    assert!(!board.legal_moves().contains(&mv(36, 43)));
}

#[test]
fn castling_moves_the_rook_over_the_king() {
    let mut state = empty_state(true);
    state.squares[4] = 6;
    state.squares[7] = 4;
    state.squares[0] = 4;
    state.squares[60] = 12;
    state.wk = true;
    state.wq = true;
    let mut board = board_of(state);
    board.push(&mv(4, 6));
    assert_eq!(board.state.squares[6], 6);
    assert_eq!(board.state.squares[5], 4);
    assert_eq!(board.state.squares[7], 0);
    assert_eq!(board.state.squares[4], 0);
    assert!(!board.state.wk);
    assert!(!board.state.wq);
    board.pop();
    board.push(&mv(4, 2));
    assert_eq!(board.state.squares[2], 6);
    assert_eq!(board.state.squares[3], 4);
    assert_eq!(board.state.squares[0], 0);
}

#[test]
fn castling_needs_the_right_and_safe_squares() {
    let mut state = empty_state(true);
    state.squares[4] = 6;
    state.squares[7] = 4;
    state.squares[60] = 12;
    let without_right = board_of(state);
    assert!(!without_right.legal_moves().contains(&mv(4, 6)));
    state.wk = true;
    assert!(board_of(state).legal_moves().contains(&mv(4, 6)));
    state.squares[61] = 10;
    let through_check = board_of(state);
    assert!(!through_check.legal_moves().contains(&mv(4, 6)));
    state.squares[61] = 0;
    state.squares[6] = 2;
    assert!(!board_of(state).legal_moves().contains(&mv(4, 6)));
}

#[test]
fn rook_move_loses_the_castling_right() {
    let mut state = empty_state(true);
    state.squares[4] = 6;
    state.squares[7] = 4;
    state.squares[0] = 4;
    state.squares[60] = 12;
    state.wk = true;
    state.wq = true;
    let next = make_move(&state, &mv(7, 15));
    assert!(!next.wk);
    assert!(next.wq);
}

#[test]
fn pawn_promotes_on_the_last_rank() {
    let mut state = empty_state(true);
    state.squares[4] = 6;
    state.squares[60] = 12;
    state.squares[48] = 1;
    let mut board = board_of(state);
    let moves = board.legal_moves();
    assert!(!moves.contains(&mv(48, 56)));
    for promo in 2..=5u8 {
        assert!(moves.contains(&Move { from: 48, to: 56, promo }));
    }
    assert!(!is_legal(&board.state, &Move { from: 48, to: 56, promo: 6 }));
    board.push(&Move { from: 48, to: 56, promo: 5 });
    assert_eq!(board.state.squares[56], 5);
    assert_eq!(board.state.squares[48], 0);
}

#[test]
fn black_pawn_promotes_to_a_black_piece() {
    let mut state = empty_state(false);
    state.squares[4] = 6;
    state.squares[60] = 12;
    state.squares[8] = 7;
    let next = make_move(&state, &Move { from: 8, to: 0, promo: 2 });
    assert_eq!(next.squares[0], 8);
}

#[test]
fn pinned_piece_may_not_leave_the_line() {
    let mut state = empty_state(true);
    state.squares[4] = 6;
    state.squares[12] = 2;
    state.squares[60] = 10;
    state.squares[63] = 12;
    let board = board_of(state);
    for m in board.legal_moves() {
        assert_ne!(m.from, 12);
    }
    assert!(board.legal_moves().len() > 0);
}

#[test]
fn king_may_not_step_into_check() {
    let mut state = empty_state(true);
    state.squares[4] = 6;
    state.squares[59] = 10;
    state.squares[63] = 12;
    let board = board_of(state);
    let moves = board.legal_moves();
    assert!(!moves.contains(&mv(4, 3)));
    assert!(!moves.contains(&mv(4, 11)));
    assert!(moves.contains(&mv(4, 5)));
}

#[test]
fn slider_is_blocked_by_a_piece_between() {
    let board = Board::new();
    assert!(!is_legal(&board.state, &mv(0, 16)));
    assert!(!is_legal(&board.state, &mv(2, 20)));
    assert!(!is_legal(&board.state, &mv(3, 27)));
}

#[test]
fn fools_mate_leaves_no_move() {
    let mut board = Board::new();
    board.push(&mv(13, 21));
    board.push(&mv(52, 36));
    board.push(&mv(14, 30));
    board.push(&mv(59, 31));
    assert!(board.in_check());
    assert_eq!(board.legal_moves().len(), 0);
}

#[test]
fn stalemate_leaves_no_move_without_check() {
    let mut state = empty_state(false);
    state.squares[56] = 12;
    state.squares[50] = 5;
    state.squares[42] = 6;
    let board = board_of(state);
    assert!(!board.in_check());
    assert_eq!(board.legal_moves().len(), 0);
}

#[test]
fn from_state_refuses_what_is_no_position() {
    let mut state = empty_state(true);
    state.squares[10] = 13;
    assert!(Board::from_state(state).is_none());
    let mut state = empty_state(true);
    state.ep = 65;
    assert!(Board::from_state(state).is_none());
    assert!(Board::from_state(empty_state(true)).is_some());
}

#[test]
fn notation_names_the_squares_and_the_promotion() {
    assert_eq!(mv(12, 28).notation(), "e2e4");
    assert_eq!(mv(6, 21).notation(), "g1f3");
    assert_eq!(mv(0, 63).notation(), "a1h8");
    assert_eq!(Move { from: 52, to: 60, promo: 5 }.notation(), "e7e8q");
    assert_eq!(Move { from: 8, to: 0, promo: 2 }.notation(), "a2a1n");
    assert_eq!(Move { from: 8, to: 0, promo: 3 }.notation(), "a2a1b");
    assert_eq!(Move { from: 8, to: 0, promo: 4 }.notation(), "a2a1r");
}

#[test]
fn hash_is_the_same_for_the_same_position() {
    let mut board = Board::new();
    let start = zobrist(&board);
    assert_eq!(start, zobrist(&Board::new()));
    board.push(&mv(12, 28));
    let after = zobrist(&board);
    assert_ne!(start, after);
    board.pop();
    assert_eq!(zobrist(&board), start);
}

#[test]
fn hash_is_the_same_after_a_transposition() {
    let mut one = Board::new();
    for m in [mv(6, 21), mv(62, 45), mv(1, 18), mv(57, 42)] {
        one.push(&m);
    }
    let mut two = Board::new();
    for m in [mv(1, 18), mv(57, 42), mv(6, 21), mv(62, 45)] {
        two.push(&m);
    }
    assert_eq!(one.state, two.state);
    assert_eq!(zobrist(&one), zobrist(&two));
}

#[test]
fn hash_tells_the_side_to_move_and_the_rights() {
    let mut state = empty_state(true);
    state.squares[4] = 6;
    state.squares[60] = 12;
    let white = zobrist(&board_of(state));
    state.white_to_move = false;
    let black = zobrist(&board_of(state));
    assert_ne!(white, black);
    state.wk = true;
    assert_ne!(black, zobrist(&board_of(state)));
    state.ep = 20;
    let with_ep = zobrist(&board_of(state));
    state.ep = 21;
    assert_ne!(with_ep, zobrist(&board_of(state)));
}

#[test]
fn from_notation_reads_what_notation_writes() {
    for from in 0..64u8 {
        for to in 0..64u8 {
            for promo in [0u8, 2, 3, 4, 5] {
                let m = Move { from, to, promo };
                assert_eq!(Move::from_notation(&m.notation()), Some(m));
            }
        }
    }
    assert_eq!(Move::from_notation("e2e4"), Some(mv(12, 28)));
    assert_eq!(Move::from_notation("a1h8"), Some(mv(0, 63)));
    assert_eq!(Move::from_notation("e7e8q"), Some(Move { from: 52, to: 60, promo: 5 }));
    assert_eq!(Move::from_notation("a2a1n"), Some(Move { from: 8, to: 0, promo: 2 }));
}

#[test]
fn from_notation_refuses_what_names_no_move() {
    for text in [
        "", "e2", "e2e", "e2e4qq", "i2e4", "e9e4", "e2j4", "e2e0", "E2E4", "e7e8k", "e7e8p",
        "e7e8Q", "e2-e4", " e2e4", "e2e4 ", "0000", "\u{e9}2e4", "e2e\u{664}",
    ] {
        assert_eq!(Move::from_notation(text), None);
    }
}
