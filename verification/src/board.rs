//! The board the search works on: a position with the positions it came
//! from, so that every move made can be taken back.

use vstd::prelude::*;
use crate::rules::{Move, Pos, State, apply, in_check, is_in_check, make_move, lemma_apply_wf};
use crate::movegen::{generate, legal_seq};

verus! {

/// A board, as specifications see it: the position, and the earlier
/// positions of the line played, oldest first.
pub struct BoardView {
    pub pos: Pos,
    pub history: Seq<Pos>,
}

pub struct Board {
    pub state: State,
    pub history: Vec<State>,
}

/// The piece on square `i` at the start of a game.
pub open spec fn start_piece(i: int) -> u8 {
    let back: Seq<u8> = seq![4u8, 2u8, 3u8, 5u8, 6u8, 3u8, 2u8, 4u8];
    if i < 8 {
        back[i]
    } else if i < 16 {
        1
    } else if i < 48 {
        0
    } else if i < 56 {
        7
    } else {
        (back[i - 56] + 6) as u8
    }
}

/// The position at the start of a game.
pub open spec fn start_pos() -> Pos {
    Pos {
        squares: Seq::new(64, |i: int| start_piece(i)),
        white_to_move: true,
        wk: true,
        wq: true,
        bk: true,
        bq: true,
        ep: 64,
    }
}

/// The board after a move: the position before it joins the history.
pub open spec fn after_push(b: BoardView, m: Move) -> BoardView {
    BoardView { pos: apply(b.pos, m), history: b.history.push(b.pos) }
}

/// The board after the last move is taken back; a board without history
/// stays as it is.
pub open spec fn after_pop(b: BoardView) -> BoardView {
    if b.history.len() > 0 {
        BoardView { pos: b.history.last(), history: b.history.drop_last() }
    } else {
        b
    }
}

/// Taking back a move just made gives the board before it.
pub proof fn lemma_push_pop(b: BoardView, m: Move)
    ensures
        after_pop(after_push(b, m)) == b,
{
    assert(b.history.push(b.pos).drop_last() =~= b.history);
}

impl View for Board {
    type V = BoardView;

    open spec fn view(&self) -> BoardView {
        BoardView {
            pos: self.state@,
            history: Seq::new(self.history@.len(), |i: int| self.history@[i]@),
        }
    }
}

impl Board {
    pub open spec fn wf(&self) -> bool {
        &&& self.state.wf()
        &&& forall|i: int| 0 <= i < self.history@.len() ==> (#[trigger] self.history@[i]).wf()
    }

    /// The board at the start of a game.
    pub fn new() -> (b: Board)
        ensures
            b.wf(),
            b@.pos == start_pos(),
            b@.history.len() == 0,
    {
        let squares: [u8; 64] = [
            4, 2, 3, 5, 6, 3, 2, 4,
            1, 1, 1, 1, 1, 1, 1, 1,
            0, 0, 0, 0, 0, 0, 0, 0,
            0, 0, 0, 0, 0, 0, 0, 0,
            0, 0, 0, 0, 0, 0, 0, 0,
            0, 0, 0, 0, 0, 0, 0, 0,
            7, 7, 7, 7, 7, 7, 7, 7,
            10, 8, 9, 11, 12, 9, 8, 10,
        ];
        let state = State {
            squares,
            white_to_move: true,
            wk: true,
            wq: true,
            bk: true,
            bq: true,
            ep: 64,
        };
        assert(state@.squares =~= start_pos().squares);
        Board { state, history: Vec::new() }
    }

    /// A board that holds the given position and no history, where the
    /// position is well-formed: every square holds a piece code, and the
    /// en-passant square is on the board or `NO_SQUARE`.
    pub fn from_state(state: State) -> (b: Option<Board>)
        ensures
            b.is_some() <==> state.wf(),
            b.is_some() ==> b.unwrap().wf() && b.unwrap()@.pos == state@
                && b.unwrap()@.history.len() == 0,
    {
        if state.ep > 64 {
            return None;
        }
        let mut i: usize = 0;
        while i < 64
            invariant
                i <= 64,
                forall|j: int| 0 <= j < i ==> #[trigger] state.squares@[j] <= 12,
            decreases 64 - i,
        {
            if state.squares[i] > 12 {
                return None;
            }
            i += 1;
        }
        Some(Board { state, history: Vec::new() })
    }

    /// The legal moves of the side to move, by ascending code.
    pub fn legal_moves(&self) -> (moves: Vec<Move>)
        requires
            self.wf(),
        ensures
            moves@ == legal_seq(self@.pos),
    {
        generate(&self.state)
    }

    /// Whether the side to move is in check.
    pub fn in_check(&self) -> (r: bool)
        requires
            self.wf(),
        ensures
            r == in_check(self@.pos, self@.pos.white_to_move),
    {
        is_in_check(&self.state, self.state.white_to_move)
    }

    /// Makes the move on the board.
    pub fn push(&mut self, mv: &Move)
        requires
            old(self).wf(),
            mv.wf(),
        ensures
            final(self).wf(),
            final(self)@ == after_push(old(self)@, *mv),
    {
        let next = make_move(&self.state, mv);
        self.history.push(self.state);
        self.state = next;
        assert(self@.history =~= old(self)@.history.push(old(self)@.pos));
    }

    /// Takes back the move made last, if there is one.
    pub fn pop(&mut self)
        requires
            old(self).wf(),
        ensures
            final(self).wf(),
            final(self)@ == after_pop(old(self)@),
    {
        match self.history.pop() {
            Some(prev) => {
                self.state = prev;
                assert(self@.history =~= old(self)@.history.drop_last());
            },
            None => {},
        }
    }
}

} // verus!
