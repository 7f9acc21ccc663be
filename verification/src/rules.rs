//! The rules of chess on a board of 64 squares: how pieces attack, which
//! moves are legal, and what a move does to a position.
//!
//! A square is a number below 64, `rank * 8 + file`, with a1 as 0 and h8 as
//! 63. A piece is a code: 0 for an empty square, 1 to 6 for the white pawn,
//! knight, bishop, rook, queen and king, 7 to 12 for the black ones.

use vstd::prelude::*;

verus! {

pub const EMPTY: u8 = 0;

pub const PAWN: u8 = 1;

pub const KNIGHT: u8 = 2;

pub const BISHOP: u8 = 3;

pub const ROOK: u8 = 4;

pub const QUEEN: u8 = 5;

pub const KING: u8 = 6;

/// The value of `ep` in a position without an en-passant square.
pub const NO_SQUARE: u8 = 64;

/// A move: origin, destination, and the kind promoted to (0 where the
/// move is no promotion).
#[derive(Clone, Copy, Debug, PartialEq, Eq, Structural)]
pub struct Move {
    pub from: u8,
    pub to: u8,
    pub promo: u8,
}

impl Move {
    /// Both squares are on the board, and the promotion is to none, or to a
    /// knight, bishop, rook or queen.
    pub open spec fn wf(&self) -> bool {
        &&& self.from < 64
        &&& self.to < 64
        &&& (self.promo == 0 || 2 <= self.promo <= 5)
    }
}

/// A position, as specifications see it.
pub struct Pos {
    pub squares: Seq<u8>,
    pub white_to_move: bool,
    /// Castling rights: white king side, white queen side, black king side,
    /// black queen side.
    pub wk: bool,
    pub wq: bool,
    pub bk: bool,
    pub bq: bool,
    /// The square a pawn passed over in a double step just made, else
    /// `NO_SQUARE`.
    pub ep: int,
}

impl Pos {
    pub open spec fn wf(&self) -> bool {
        &&& self.squares.len() == 64
        &&& forall|i: int| 0 <= i < 64 ==> #[trigger] self.squares[i] <= 12
        &&& 0 <= self.ep <= 64
    }
}

/// A position, as the machine holds it.
#[derive(Clone, Copy, Debug, PartialEq, Eq)]
pub struct State {
    pub squares: [u8; 64],
    pub white_to_move: bool,
    pub wk: bool,
    pub wq: bool,
    pub bk: bool,
    pub bq: bool,
    pub ep: u8,
}

impl View for State {
    type V = Pos;

    open spec fn view(&self) -> Pos {
        Pos {
            squares: self.squares@,
            white_to_move: self.white_to_move,
            wk: self.wk,
            wq: self.wq,
            bk: self.bk,
            bq: self.bq,
            ep: self.ep as int,
        }
    }
}

pub open spec fn is_white(p: u8) -> bool {
    1 <= p <= 6
}

pub open spec fn is_black(p: u8) -> bool {
    7 <= p <= 12
}

pub open spec fn owned_by(p: u8, white: bool) -> bool {
    if white {
        is_white(p)
    } else {
        is_black(p)
    }
}

/// The kind of a piece code, 0 for the empty square.
pub open spec fn kind_of(p: u8) -> int {
    if p <= 6 {
        p as int
    } else {
        p - 6
    }
}

/// The code of the piece of kind `kind` and the given colour.
pub open spec fn piece_code(kind: int, white: bool) -> int {
    if white {
        kind
    } else {
        kind + 6
    }
}

pub open spec fn file_of(sq: int) -> int {
    sq % 8
}

pub open spec fn rank_of(sq: int) -> int {
    sq / 8
}

pub open spec fn dist(a: int, b: int) -> int {
    if a <= b {
        b - a
    } else {
        a - b
    }
}

/// `d` lies strictly between 0 and `span`.
pub open spec fn inside(d: int, span: int) -> bool {
    (0 < d < span) || (span < d < 0)
}

/// Square `x` lies strictly between `a` and `b`, which share a rank, a file
/// or a diagonal.
pub open spec fn between(a: int, b: int, x: int) -> bool {
    let df = file_of(b) - file_of(a);
    let dr = rank_of(b) - rank_of(a);
    let xf = file_of(x) - file_of(a);
    let xr = rank_of(x) - rank_of(a);
    if dr == 0 {
        xr == 0 && inside(xf, df)
    } else if df == 0 {
        xf == 0 && inside(xr, dr)
    } else {
        inside(xf, df) && inside(xr, dr) && dist(0, xf) == dist(0, xr)
    }
}

/// Every square strictly between `a` and `b` is empty.
pub open spec fn path_clear(squares: Seq<u8>, a: int, b: int) -> bool {
    forall|x: int| 0 <= x < 64 && between(a, b, x) ==> #[trigger] squares[x] == 0
}

/// The piece on `from` attacks the square `to`.
pub open spec fn attacks(squares: Seq<u8>, from: int, to: int) -> bool {
    let p = squares[from];
    let k = kind_of(p);
    let df = dist(file_of(from), file_of(to));
    let dr = dist(rank_of(from), rank_of(to));
    if k == PAWN {
        df == 1 && rank_of(to) - rank_of(from) == (if is_white(p) {
            1int
        } else {
            -1int
        })
    } else if k == KNIGHT {
        (df == 1 && dr == 2) || (df == 2 && dr == 1)
    } else if k == BISHOP {
        df == dr && df != 0 && path_clear(squares, from, to)
    } else if k == ROOK {
        (df == 0) != (dr == 0) && path_clear(squares, from, to)
    } else if k == QUEEN {
        ((df == dr && df != 0) || ((df == 0) != (dr == 0))) && path_clear(squares, from, to)
    } else if k == KING {
        df <= 1 && dr <= 1 && from != to
    } else {
        false
    }
}

/// Some piece of the given colour attacks the square `target`.
pub open spec fn attacked(squares: Seq<u8>, target: int, by_white: bool) -> bool {
    exists|f: int| 0 <= f < 64 && owned_by(#[trigger] squares[f], by_white) && attacks(squares, f, target)
}

/// A king of the given colour stands on an attacked square.
pub open spec fn in_check(pos: Pos, white: bool) -> bool {
    exists|k: int|
        0 <= k < 64 && #[trigger] pos.squares[k] as int == piece_code(KING as int, white) && attacked(
            pos.squares,
            k,
            !white,
        )
}

fn file(sq: u8) -> (f: u8)
    requires
        sq < 64,
    ensures
        f == file_of(sq as int),
        f < 8,
{
    sq % 8
}

fn rank(sq: u8) -> (r: u8)
    requires
        sq < 64,
    ensures
        r == rank_of(sq as int),
        r < 8,
{
    sq / 8
}

fn gap(a: u8, b: u8) -> (d: u8)
    ensures
        d == dist(a as int, b as int),
{
    if a <= b {
        b - a
    } else {
        a - b
    }
}

fn is_inside(d: i8, span: i8) -> (r: bool)
    ensures
        r == inside(d as int, span as int),
{
    (0 < d && d < span) || (span < d && d < 0)
}

fn is_between(a: u8, b: u8, x: u8) -> (r: bool)
    requires
        a < 64,
        b < 64,
        x < 64,
    ensures
        r == between(a as int, b as int, x as int),
{
    let fa: i8 = file(a) as i8;
    let ra: i8 = rank(a) as i8;
    let df: i8 = file(b) as i8 - fa;
    let dr: i8 = rank(b) as i8 - ra;
    let xf: i8 = file(x) as i8 - fa;
    let xr: i8 = rank(x) as i8 - ra;
    if dr == 0 {
        xr == 0 && is_inside(xf, df)
    } else if df == 0 {
        xf == 0 && is_inside(xr, dr)
    } else {
        let af: i8 = if xf < 0 { -xf } else { xf };
        let ar: i8 = if xr < 0 { -xr } else { xr };
        is_inside(xf, df) && is_inside(xr, dr) && af == ar
    }
}

fn is_path_clear(squares: &[u8; 64], a: u8, b: u8) -> (r: bool)
    requires
        a < 64,
        b < 64,
    ensures
        r == path_clear(squares@, a as int, b as int),
{
    let mut x: u8 = 0;
    while x < 64
        invariant
            x <= 64,
            a < 64,
            b < 64,
            forall|y: int| 0 <= y < x && between(a as int, b as int, y) ==> #[trigger] squares@[y] == 0,
        decreases 64 - x,
    {
        if is_between(a, b, x) && squares[x as usize] != 0 {
            return false;
        }
        x += 1;
    }
    true
}

fn is_white_piece(p: u8) -> (r: bool)
    ensures
        r == is_white(p),
{
    1 <= p && p <= 6
}

fn is_owned_by(p: u8, white: bool) -> (r: bool)
    ensures
        r == owned_by(p, white),
{
    if white {
        1 <= p && p <= 6
    } else {
        7 <= p && p <= 12
    }
}

/// The kind of a piece code.
pub fn kind(p: u8) -> (k: u8)
    ensures
        k == kind_of(p),
{
    if p <= 6 {
        p
    } else {
        p - 6
    }
}

fn does_attack(squares: &[u8; 64], from: u8, to: u8) -> (r: bool)
    requires
        from < 64,
        to < 64,
    ensures
        r == attacks(squares@, from as int, to as int),
{
    let p: u8 = squares[from as usize];
    let k: u8 = kind(p);
    let df: u8 = gap(file(from), file(to));
    let dr: u8 = gap(rank(from), rank(to));
    if k == PAWN {
        if is_white_piece(p) {
            df == 1 && rank(to) == rank(from) + 1
        } else {
            df == 1 && rank(to) + 1 == rank(from)
        }
    } else if k == KNIGHT {
        (df == 1 && dr == 2) || (df == 2 && dr == 1)
    } else if k == BISHOP {
        df == dr && df != 0 && is_path_clear(squares, from, to)
    } else if k == ROOK {
        (df == 0) != (dr == 0) && is_path_clear(squares, from, to)
    } else if k == QUEEN {
        ((df == dr && df != 0) || ((df == 0) != (dr == 0))) && is_path_clear(squares, from, to)
    } else if k == KING {
        df <= 1 && dr <= 1 && from != to
    } else {
        false
    }
}

fn is_attacked(squares: &[u8; 64], target: u8, by_white: bool) -> (r: bool)
    requires
        target < 64,
    ensures
        r == attacked(squares@, target as int, by_white),
{
    let mut f: u8 = 0;
    while f < 64
        invariant
            f <= 64,
            target < 64,
            forall|g: int|
                0 <= g < f ==> !(owned_by(#[trigger] squares@[g], by_white) && attacks(
                    squares@,
                    g,
                    target as int,
                )),
        decreases 64 - f,
    {
        if is_owned_by(squares[f as usize], by_white) && does_attack(squares, f, target) {
            return true;
        }
        f += 1;
    }
    false
}

/// Whether a king of the given colour is in check.
pub fn is_in_check(state: &State, white: bool) -> (r: bool)
    ensures
        r == in_check(state@, white),
{
    let king: u8 = if white { KING } else { KING + 6 };
    let mut k: u8 = 0;
    while k < 64
        invariant
            k <= 64,
            king as int == piece_code(KING as int, white),
            forall|j: int|
                0 <= j < k ==> !(#[trigger] state@.squares[j] as int == piece_code(KING as int, white)
                    && attacked(state@.squares, j, !white)),
        decreases 64 - k,
    {
        if state.squares[k as usize] == king && is_attacked(&state.squares, k, !white) {
            assert(state@.squares[k as int] as int == piece_code(KING as int, white));
            return true;
        }
        k += 1;
    }
    false
}


/// The castling move of the side to move from `from` to `to` is allowed:
/// the right is still held, the rook is at home, the squares between are
/// empty, and the king neither stands on, passes nor reaches an attacked
/// square.
pub open spec fn castle_ok(pos: Pos, from: int, to: int) -> bool {
    let w = pos.white_to_move;
    let home: int = if w {
        4
    } else {
        60
    };
    let rook = piece_code(ROOK as int, w);
    let sq = pos.squares;
    from == home && ((to == home + 2 && (if w {
        pos.wk
    } else {
        pos.bk
    }) && sq[home + 1] == 0 && sq[home + 2] == 0 && sq[home + 3] as int == rook && !attacked(
        sq,
        home,
        !w,
    ) && !attacked(sq, home + 1, !w) && !attacked(sq, home + 2, !w)) || (to == home - 2 && (if w {
        pos.wq
    } else {
        pos.bq
    }) && sq[home - 1] == 0 && sq[home - 2] == 0 && sq[home - 3] == 0 && sq[home - 4] as int
        == rook && !attacked(sq, home, !w) && !attacked(sq, home - 1, !w) && !attacked(
        sq,
        home - 2,
        !w,
    )))
}

/// The pawn of the side to move on `m.from` may go to `m.to`: one step
/// ahead onto an empty square, two steps from its home rank over empty
/// squares, or one step diagonally ahead onto an enemy piece or the
/// en-passant square. It names a promotion if and only if it reaches the
/// last rank.
pub open spec fn pawn_ok(pos: Pos, m: Move) -> bool {
    let w = pos.white_to_move;
    let from = m.from as int;
    let to = m.to as int;
    let dir: int = if w {
        1
    } else {
        -1
    };
    let home: int = if w {
        1
    } else {
        6
    };
    let last: int = if w {
        7
    } else {
        0
    };
    let df = dist(file_of(from), file_of(to));
    let dr = rank_of(to) - rank_of(from);
    let target = pos.squares[to];
    &&& (rank_of(to) == last) == (m.promo != 0)
    &&& ((df == 0 && dr == dir && target == 0) || (df == 0 && dr == 2 * dir && rank_of(from)
        == home && target == 0 && pos.squares[from + 8 * dir] == 0) || (df == 1 && dr == dir && (
    target != 0 || to == pos.ep)))
}

/// The move obeys the way its piece moves, whether or not it leaves the
/// mover's king in check.
pub open spec fn pseudo_legal(pos: Pos, m: Move) -> bool {
    let w = pos.white_to_move;
    let p = pos.squares[m.from as int];
    let k = kind_of(p);
    &&& owned_by(p, w)
    &&& !owned_by(pos.squares[m.to as int], w)
    &&& if k == PAWN {
        pawn_ok(pos, m)
    } else if k == KING {
        m.promo == 0 && (attacks(pos.squares, m.from as int, m.to as int) || castle_ok(
            pos,
            m.from as int,
            m.to as int,
        ))
    } else {
        m.promo == 0 && attacks(pos.squares, m.from as int, m.to as int)
    }
}

/// The move takes a pawn en passant.
pub open spec fn takes_en_passant(pos: Pos, m: Move) -> bool {
    &&& kind_of(pos.squares[m.from as int]) == PAWN
    &&& m.to as int == pos.ep
    &&& pos.squares[m.to as int] == 0
    &&& file_of(m.from as int) != file_of(m.to as int)
}

/// The move is a king's step of two files.
pub open spec fn is_castling(pos: Pos, m: Move) -> bool {
    &&& kind_of(pos.squares[m.from as int]) == KING
    &&& rank_of(m.from as int) == rank_of(m.to as int)
    &&& dist(file_of(m.from as int), file_of(m.to as int)) == 2
}

/// The squares after the move: the piece leaves `m.from` and stands on
/// `m.to`, promoted if the move says so; a pawn taken en passant leaves the
/// board; in castling the rook steps over the king.
pub open spec fn squares_after(pos: Pos, m: Move) -> Seq<u8> {
    let from = m.from as int;
    let to = m.to as int;
    let p = pos.squares[from];
    let placed: u8 = if m.promo != 0 {
        if is_white(p) {
            m.promo
        } else {
            (m.promo + 6) as u8
        }
    } else {
        p
    };
    let moved = pos.squares.update(from, 0u8).update(to, placed);
    if takes_en_passant(pos, m) {
        moved.update(rank_of(from) * 8 + file_of(to), 0u8)
    } else if is_castling(pos, m) {
        if to > from {
            moved.update(rank_of(from) * 8 + 7, 0u8).update(from + 1, pos.squares[rank_of(from) * 8 + 7])
        } else {
            moved.update(rank_of(from) * 8, 0u8).update(from - 1, pos.squares[rank_of(from) * 8])
        }
    } else {
        moved
    }
}

/// The position after the move: the other side is to move, a castling right
/// is lost once its king or rook square is left or reached, and the
/// en-passant square is the one a pawn's double step passed over.
#[verifier::opaque]
pub open spec fn apply(pos: Pos, m: Move) -> Pos {
    let from = m.from as int;
    let to = m.to as int;
    Pos {
        squares: squares_after(pos, m),
        white_to_move: !pos.white_to_move,
        wk: pos.wk && from != 4 && from != 7 && to != 7,
        wq: pos.wq && from != 4 && from != 0 && to != 0,
        bk: pos.bk && from != 60 && from != 63 && to != 63,
        bq: pos.bq && from != 60 && from != 56 && to != 56,
        ep: if kind_of(pos.squares[from]) == PAWN && dist(rank_of(from), rank_of(to)) == 2 {
            (from + to) / 2
        } else {
            NO_SQUARE as int
        },
    }
}

/// The move is legal: it obeys the way its piece moves, and after it the
/// mover's king is not in check.
#[verifier::opaque]
pub open spec fn legal(pos: Pos, m: Move) -> bool {
    m.wf() && pseudo_legal(pos, m) && !in_check(apply(pos, m), pos.white_to_move)
}

/// The move takes a piece off the board.
pub open spec fn is_capture(pos: Pos, m: Move) -> bool {
    pos.squares[m.to as int] != 0 || takes_en_passant(pos, m)
}

/// A move leaves a well-formed position well-formed.
pub proof fn lemma_apply_wf(pos: Pos, m: Move)
    requires
        pos.wf(),
        m.wf(),
    ensures
        apply(pos, m).wf(),
{
    reveal(apply);
    let from = m.from as int;
    assert(pos.squares[from] <= 12);
    assert(pos.squares[rank_of(from) * 8 + 7] <= 12);
    assert(pos.squares[rank_of(from) * 8] <= 12);
}

/// A legal move is well-formed, and leaves a well-formed position
/// well-formed.
pub proof fn lemma_legal_wf(pos: Pos, m: Move)
    requires
        legal(pos, m),
    ensures
        m.wf(),
        pos.wf() ==> apply(pos, m).wf(),
{
    reveal(legal);
    if pos.wf() {
        lemma_apply_wf(pos, m);
    }
}

impl State {
    pub open spec fn wf(&self) -> bool {
        self@.wf()
    }
}

fn castle_allowed(state: &State, from: u8, to: u8) -> (r: bool)
    requires
        state.wf(),
        from < 64,
        to < 64,
    ensures
        r == castle_ok(state@, from as int, to as int),
{
    let w: bool = state.white_to_move;
    let home: u8 = if w { 4 } else { 60 };
    let rook: u8 = if w { ROOK } else { ROOK + 6 };
    if from != home {
        return false;
    }
    let sq = &state.squares;
    if to == home + 2 {
        (if w { state.wk } else { state.bk }) && sq[(home + 1) as usize] == 0 && sq[(home
            + 2) as usize] == 0 && sq[(home + 3) as usize] == rook && !is_attacked(sq, home, !w)
            && !is_attacked(sq, home + 1, !w) && !is_attacked(sq, home + 2, !w)
    } else if to == home - 2 {
        (if w { state.wq } else { state.bq }) && sq[(home - 1) as usize] == 0 && sq[(home
            - 2) as usize] == 0 && sq[(home - 3) as usize] == 0 && sq[(home - 4) as usize] == rook
            && !is_attacked(sq, home, !w) && !is_attacked(sq, home - 1, !w) && !is_attacked(
            sq,
            home - 2,
            !w,
        )
    } else {
        false
    }
}

fn pawn_allowed(state: &State, m: &Move) -> (r: bool)
    requires
        state.wf(),
        m.wf(),
    ensures
        r == pawn_ok(state@, *m),
{
    let w: bool = state.white_to_move;
    let rf: u8 = rank(m.from);
    let rt: u8 = rank(m.to);
    let last: u8 = if w { 7 } else { 0 };
    let home: u8 = if w { 1 } else { 6 };
    let df: u8 = gap(file(m.from), file(m.to));
    let target: u8 = state.squares[m.to as usize];
    if (rt == last) != (m.promo != 0) {
        return false;
    }
    let one_ahead: bool = if w { rt == rf + 1 } else { rt + 1 == rf };
    let two_ahead: bool = if w { rt == rf + 2 } else { rt + 2 == rf };
    if df == 0 && one_ahead {
        target == 0
    } else if df == 0 && two_ahead {
        if rf == home && target == 0 {
            let mid: u8 = if w { m.from + 8 } else { m.from - 8 };
            state.squares[mid as usize] == 0
        } else {
            false
        }
    } else if df == 1 && one_ahead {
        target != 0 || m.to == state.ep
    } else {
        false
    }
}

fn is_pseudo_legal(state: &State, m: &Move) -> (r: bool)
    requires
        state.wf(),
        m.wf(),
    ensures
        r == pseudo_legal(state@, *m),
{
    let w: bool = state.white_to_move;
    let p: u8 = state.squares[m.from as usize];
    if !is_owned_by(p, w) || is_owned_by(state.squares[m.to as usize], w) {
        return false;
    }
    let k: u8 = kind(p);
    if k == PAWN {
        pawn_allowed(state, m)
    } else if k == KING {
        m.promo == 0 && (does_attack(&state.squares, m.from, m.to) || castle_allowed(
            state,
            m.from,
            m.to,
        ))
    } else {
        m.promo == 0 && does_attack(&state.squares, m.from, m.to)
    }
}

/// Whether the move takes a piece off the board.
pub fn captures(state: &State, m: &Move) -> (r: bool)
    requires
        state.wf(),
        m.wf(),
    ensures
        r == is_capture(state@, *m),
{
    state.squares[m.to as usize] != 0 || (kind(state.squares[m.from as usize]) == PAWN && m.to
        == state.ep && file(m.from) != file(m.to))
}

/// The squares after the move.
fn move_squares(state: &State, m: &Move) -> (squares: [u8; 64])
    requires
        state.wf(),
        m.wf(),
    ensures
        squares@ == squares_after(state@, *m),
{
    let from: u8 = m.from;
    let to: u8 = m.to;
    let p: u8 = state.squares[from as usize];
    let k: u8 = kind(p);
    let placed: u8 = if m.promo != 0 {
        if is_white_piece(p) {
            m.promo
        } else {
            m.promo + 6
        }
    } else {
        p
    };
    let en_passant: bool = k == PAWN && to == state.ep && state.squares[to as usize] == 0 && file(
        from,
    ) != file(to);
    let castling: bool = k == KING && rank(from) == rank(to) && gap(file(from), file(to)) == 2;
    let row: u8 = rank(from) * 8;
    let taken: u8 = row + file(to);
    let ghost before = state.squares@;
    assert(en_passant == takes_en_passant(state@, *m));
    assert(castling == is_castling(state@, *m));
    assert(row as int == rank_of(from as int) * 8);
    assert(taken as int == rank_of(from as int) * 8 + file_of(to as int));
    let mut squares: [u8; 64] = state.squares;
    squares[from as usize] = 0;
    squares[to as usize] = placed;
    let ghost moved = before.update(from as int, 0u8).update(to as int, placed);
    assert(squares@ =~= moved);
    if en_passant {
        squares[taken as usize] = 0;
        assert(squares@ =~= moved.update(taken as int, 0u8));
    } else if castling {
        if to > from {
            assert(from + 1 < 64);
            let rook: u8 = state.squares[(row + 7) as usize];
            squares[(row + 7) as usize] = 0;
            squares[(from + 1) as usize] = rook;
            assert(squares@ =~= moved.update(row + 7, 0u8).update(from + 1, rook));
        } else {
            assert(from >= 1);
            let rook: u8 = state.squares[row as usize];
            squares[row as usize] = 0;
            squares[(from - 1) as usize] = rook;
            assert(squares@ =~= moved.update(row as int, 0u8).update(from - 1, rook));
        }
    }
    squares
}

/// The position after the move.
pub fn make_move(state: &State, m: &Move) -> (next: State)
    requires
        state.wf(),
        m.wf(),
    ensures
        next@ == apply(state@, *m),
        next.wf(),
{
    let from: u8 = m.from;
    let to: u8 = m.to;
    let k: u8 = kind(state.squares[from as usize]);
    let ep: u8 = if k == PAWN && gap(rank(from), rank(to)) == 2 {
        (from + to) / 2
    } else {
        NO_SQUARE
    };
    let next = State {
        squares: move_squares(state, m),
        white_to_move: !state.white_to_move,
        wk: state.wk && from != 4 && from != 7 && to != 7,
        wq: state.wq && from != 4 && from != 0 && to != 0,
        bk: state.bk && from != 60 && from != 63 && to != 63,
        bq: state.bq && from != 60 && from != 56 && to != 56,
        ep,
    };
    proof {
        reveal(apply);
        lemma_apply_wf(state@, *m);
    }
    next
}

/// Whether the move is legal in the position.
pub fn is_legal(state: &State, m: &Move) -> (r: bool)
    requires
        state.wf(),
    ensures
        r == legal(state@, *m),
{
    proof {
        reveal(legal);
    }
    if !(m.from < 64 && m.to < 64 && (m.promo == 0 || (2 <= m.promo && m.promo <= 5))) {
        return false;
    }
    if !is_pseudo_legal(state, m) {
        return false;
    }
    let next = make_move(state, m);
    !is_in_check(&next, state.white_to_move)
}


/// The letter of a file, `a` to `h`.
pub open spec fn file_letter(f: int) -> char {
    if f == 0 {
        'a'
    } else if f == 1 {
        'b'
    } else if f == 2 {
        'c'
    } else if f == 3 {
        'd'
    } else if f == 4 {
        'e'
    } else if f == 5 {
        'f'
    } else if f == 6 {
        'g'
    } else {
        'h'
    }
}

/// The digit of a rank, `1` to `8`.
pub open spec fn rank_digit(r: int) -> char {
    if r == 0 {
        '1'
    } else if r == 1 {
        '2'
    } else if r == 2 {
        '3'
    } else if r == 3 {
        '4'
    } else if r == 4 {
        '5'
    } else if r == 5 {
        '6'
    } else if r == 6 {
        '7'
    } else {
        '8'
    }
}

/// The letter of the kind promoted to; nothing where the move is no
/// promotion.
pub open spec fn promo_letter(promo: u8) -> Seq<char> {
    if promo == KNIGHT {
        seq!['n']
    } else if promo == BISHOP {
        seq!['b']
    } else if promo == ROOK {
        seq!['r']
    } else if promo == QUEEN {
        seq!['q']
    } else {
        Seq::empty()
    }
}

/// A move in coordinate notation: the origin, the destination, and the
/// letter of the promotion, as in `e2e4` and `e7e8q`.
pub open spec fn notation_of(m: Move) -> Seq<char> {
    seq![
        file_letter(file_of(m.from as int)),
        rank_digit(rank_of(m.from as int)),
        file_letter(file_of(m.to as int)),
        rank_digit(rank_of(m.to as int)),
    ] + promo_letter(m.promo)
}

fn file_text(f: u8) -> (t: &'static str)
    ensures
        t@ == seq![file_letter(f as int)],
{
    proof {
        reveal_strlit("a");
        reveal_strlit("b");
        reveal_strlit("c");
        reveal_strlit("d");
        reveal_strlit("e");
        reveal_strlit("f");
        reveal_strlit("g");
        reveal_strlit("h");
    }
    let t = if f == 0 {
        "a"
    } else if f == 1 {
        "b"
    } else if f == 2 {
        "c"
    } else if f == 3 {
        "d"
    } else if f == 4 {
        "e"
    } else if f == 5 {
        "f"
    } else if f == 6 {
        "g"
    } else {
        "h"
    };
    assert(t@ =~= seq![file_letter(f as int)]);
    t
}

fn rank_text(r: u8) -> (t: &'static str)
    ensures
        t@ == seq![rank_digit(r as int)],
{
    proof {
        reveal_strlit("1");
        reveal_strlit("2");
        reveal_strlit("3");
        reveal_strlit("4");
        reveal_strlit("5");
        reveal_strlit("6");
        reveal_strlit("7");
        reveal_strlit("8");
    }
    let t = if r == 0 {
        "1"
    } else if r == 1 {
        "2"
    } else if r == 2 {
        "3"
    } else if r == 3 {
        "4"
    } else if r == 4 {
        "5"
    } else if r == 5 {
        "6"
    } else if r == 6 {
        "7"
    } else {
        "8"
    };
    assert(t@ =~= seq![rank_digit(r as int)]);
    t
}

fn promo_text(promo: u8) -> (t: &'static str)
    ensures
        t@ == promo_letter(promo),
{
    proof {
        reveal_strlit("n");
        reveal_strlit("b");
        reveal_strlit("r");
        reveal_strlit("q");
        reveal_strlit("");
    }
    let t = if promo == KNIGHT {
        "n"
    } else if promo == BISHOP {
        "b"
    } else if promo == ROOK {
        "r"
    } else if promo == QUEEN {
        "q"
    } else {
        ""
    };
    assert(t@ =~= promo_letter(promo));
    t
}

fn file_index(c: char) -> (r: Option<u8>)
    ensures
        match r {
            Some(f) => f < 8 && file_letter(f as int) == c,
            None => forall|f: int| 0 <= f < 8 ==> file_letter(f) != c,
        },
{
    if c == 'a' {
        Some(0)
    } else if c == 'b' {
        Some(1)
    } else if c == 'c' {
        Some(2)
    } else if c == 'd' {
        Some(3)
    } else if c == 'e' {
        Some(4)
    } else if c == 'f' {
        Some(5)
    } else if c == 'g' {
        Some(6)
    } else if c == 'h' {
        Some(7)
    } else {
        None
    }
}

fn rank_index(c: char) -> (r: Option<u8>)
    ensures
        match r {
            Some(k) => k < 8 && rank_digit(k as int) == c,
            None => forall|k: int| 0 <= k < 8 ==> rank_digit(k) != c,
        },
{
    if c == '1' {
        Some(0)
    } else if c == '2' {
        Some(1)
    } else if c == '3' {
        Some(2)
    } else if c == '4' {
        Some(3)
    } else if c == '5' {
        Some(4)
    } else if c == '6' {
        Some(5)
    } else if c == '7' {
        Some(6)
    } else if c == '8' {
        Some(7)
    } else {
        None
    }
}

fn promo_kind(c: char) -> (r: Option<u8>)
    ensures
        match r {
            Some(p) => 2 <= p <= 5 && promo_letter(p) == seq![c],
            None => forall|p: u8| 2 <= p <= 5 ==> promo_letter(p) != seq![c],
        },
{
    if c == 'n' {
        Some(KNIGHT)
    } else if c == 'b' {
        Some(BISHOP)
    } else if c == 'r' {
        Some(ROOK)
    } else if c == 'q' {
        Some(QUEEN)
    } else {
        assert forall|p: u8| 2 <= p <= 5 implies promo_letter(p) != seq![c] by {
            assert(promo_letter(p)[0] != seq![c][0]);
        }
        None
    }
}

/// What the notation of a well-formed move is made of: four characters
/// for the squares, and a fifth if and only if the move is a promotion.
pub proof fn lemma_notation_shape(m: Move)
    requires
        m.wf(),
    ensures
        notation_of(m).len() == if m.promo == 0 {
            4int
        } else {
            5int
        },
        notation_of(m)[0] == file_letter(file_of(m.from as int)),
        notation_of(m)[1] == rank_digit(rank_of(m.from as int)),
        notation_of(m)[2] == file_letter(file_of(m.to as int)),
        notation_of(m)[3] == rank_digit(rank_of(m.to as int)),
        m.promo != 0 ==> promo_letter(m.promo) == seq![notation_of(m)[4]],
{
    if m.promo != 0 {
        assert(promo_letter(m.promo) =~= seq![notation_of(m)[4]]);
    }
}

/// Two well-formed moves with the same notation are the same move.
pub proof fn lemma_notation_unique(a: Move, b: Move)
    requires
        a.wf(),
        b.wf(),
        notation_of(a) == notation_of(b),
    ensures
        a == b,
{
    lemma_notation_shape(a);
    lemma_notation_shape(b);
    assert(file_of(a.from as int) == file_of(b.from as int));
    assert(rank_of(a.from as int) == rank_of(b.from as int));
    assert(file_of(a.to as int) == file_of(b.to as int));
    assert(rank_of(a.to as int) == rank_of(b.to as int));
    if a.promo != 0 {
        assert(promo_letter(a.promo)[0] == promo_letter(b.promo)[0]);
    }
}

impl Move {
    /// The move that the text names in coordinate notation; `None` where
    /// the text is the notation of no move.
    pub fn from_notation(text: &str) -> (r: Option<Move>)
        ensures
            match r {
                Some(m) => m.wf() && notation_of(m) == text@,
                None => forall|m: Move| m.wf() ==> notation_of(m) != text@,
            },
    {
        let n: usize = text.unicode_len();
        if n != 4 && n != 5 {
            assert forall|m: Move| m.wf() implies notation_of(m) != text@ by {
                lemma_notation_shape(m);
            }
            return None;
        }
        let from_file = file_index(text.get_char(0));
        let from_rank = rank_index(text.get_char(1));
        let to_file = file_index(text.get_char(2));
        let to_rank = rank_index(text.get_char(3));
        let promo: Option<u8> = if n == 5 {
            promo_kind(text.get_char(4))
        } else {
            Some(0)
        };
        match (from_file, from_rank, to_file, to_rank, promo) {
            (Some(ff), Some(fr), Some(tf), Some(tr), Some(p)) => {
                let m = Move { from: fr * 8 + ff, to: tr * 8 + tf, promo: p };
                proof {
                    lemma_notation_shape(m);
                    assert(notation_of(m) =~= text@);
                }
                Some(m)
            },
            _ => {
                assert forall|m: Move| m.wf() implies notation_of(m) != text@ by {
                    lemma_notation_shape(m);
                    if notation_of(m) == text@ {
                        assert(0 <= file_of(m.from as int) < 8);
                        assert(0 <= rank_of(m.from as int) < 8);
                        assert(0 <= file_of(m.to as int) < 8);
                        assert(0 <= rank_of(m.to as int) < 8);
                        if n == 5 {
                            assert(promo_letter(m.promo) == seq![text@[4]]);
                        }
                    }
                }
                None
            },
        }
    }

    /// The move in coordinate notation.
    pub fn notation(&self) -> (text: String)
        requires
            self.wf(),
        ensures
            text@ == notation_of(*self),
    {
        let mut text = String::new();
        text.append(file_text(file(self.from)));
        text.append(rank_text(rank(self.from)));
        text.append(file_text(file(self.to)));
        text.append(rank_text(rank(self.to)));
        text.append(promo_text(self.promo));
        assert(text@ =~= notation_of(*self));
        text
    }
}

} // verus!
