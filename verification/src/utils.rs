//! Score bounds, the position hash, and search speed.

use vstd::prelude::*;
use crate::rules::Pos;
pub use crate::board::Board;
pub use crate::rules::Move;

verus! {

/// A score no search result reaches.
pub const INF: i32 = 50_000;

/// The score of giving mate at once.
pub const MATE: i32 = 32_000;

/// A mixing of the 64 bits of `x`.
pub open spec fn mix(x: u64) -> u64 {
    let a = x.wrapping_add(0x9E37_79B9_7F4A_7C15u64);
    let b = (a ^ (a >> 30)).wrapping_mul(0xBF58_476D_1CE4_E5B9u64);
    let c = (b ^ (b >> 27)).wrapping_mul(0x94D0_49BB_1331_11EBu64);
    c ^ (c >> 31)
}

/// The key of piece `p` on square `sq`; an empty square has key 0.
pub open spec fn square_key(p: u8, sq: int) -> u64 {
    if p == 0 {
        0
    } else {
        mix((p as int * 64 + sq) as u64)
    }
}

/// The keys of the first `n` squares, combined by exclusive or.
pub open spec fn squares_hash(squares: Seq<u8>, n: int) -> u64
    decreases n,
{
    if n <= 0 {
        0
    } else {
        squares_hash(squares, n - 1) ^ square_key(squares[n - 1], n - 1)
    }
}

/// The key of `flag`, or 0 where it is not set.
pub open spec fn flag_key(flag: bool, index: u64) -> u64 {
    if flag {
        mix(index)
    } else {
        0
    }
}

/// The hash of a position: the exclusive or of the keys of its pieces on
/// their squares, of the side to move, of the castling rights and of the
/// en-passant square.
pub open spec fn hash_of(pos: Pos) -> u64 {
    squares_hash(pos.squares, 64) ^ flag_key(pos.white_to_move, 1000) ^ flag_key(pos.wk, 1001)
        ^ flag_key(pos.wq, 1002) ^ flag_key(pos.bk, 1003) ^ flag_key(pos.bq, 1004) ^ flag_key(
        pos.ep < 64,
        (1100 + pos.ep) as u64,
    )
}

fn mix_bits(x: u64) -> (r: u64)
    ensures
        r == mix(x),
{
    let a: u64 = x.wrapping_add(0x9E37_79B9_7F4A_7C15u64);
    let b: u64 = (a ^ (a >> 30)).wrapping_mul(0xBF58_476D_1CE4_E5B9u64);
    let c: u64 = (b ^ (b >> 27)).wrapping_mul(0x94D0_49BB_1331_11EBu64);
    c ^ (c >> 31)
}

fn key_of_flag(flag: bool, index: u64) -> (r: u64)
    ensures
        r == flag_key(flag, index),
{
    if flag {
        mix_bits(index)
    } else {
        0
    }
}

/// The 64-bit hash of the board's position. Equal positions have equal
/// hashes; the history of the board plays no part.
pub fn zobrist(board: &Board) -> (key: u64)
    requires
        board.wf(),
    ensures
        key == hash_of(board@.pos),
{
    let state = &board.state;
    let mut h: u64 = 0;
    let mut i: usize = 0;
    while i < 64
        invariant
            i <= 64,
            h == squares_hash(state@.squares, i as int),
        decreases 64 - i,
    {
        let p: u8 = state.squares[i];
        let k: u64 = if p == 0 { 0 } else { mix_bits(p as u64 * 64 + i as u64) };
        h = h ^ k;
        i += 1;
    }
    h ^ key_of_flag(state.white_to_move, 1000) ^ key_of_flag(state.wk, 1001) ^ key_of_flag(
        state.wq,
        1002,
    ) ^ key_of_flag(state.bk, 1003) ^ key_of_flag(state.bq, 1004) ^ key_of_flag(
        state.ep < 64,
        1100 + state.ep as u64,
    )
}

/// Nodes per second: `nodes * 1000 / elapsed_ms`, cut to its low 64 bits,
/// and 0 where no time has passed.
pub open spec fn nps_of(nodes: u64, elapsed_ms: u128) -> u64 {
    if elapsed_ms == 0 {
        0
    } else {
        ((nodes as int * 1000) / (elapsed_ms as int)) as u64
    }
}

/// The speed of a search that visited `nodes` nodes in `elapsed_ms`
/// milliseconds.
pub fn nps(nodes: u64, elapsed_ms: u128) -> (r: u64)
    ensures
        r == nps_of(nodes, elapsed_ms),
{
    if elapsed_ms == 0 {
        return 0;
    }
    let scaled: u128 = nodes as u128 * 1000;
    #[verifier::truncate]
    ((scaled / elapsed_ms) as u64)
}


/// `std::time::SystemTime`, a reading of the system clock; nothing inside
/// it is visible here.
#[verifier::external_type_specification]
#[verifier::external_body]
pub struct ExSystemTime(std::time::SystemTime);

/// `std::time::SystemTimeError`, the error of `SystemTime::duration_since`;
/// nothing inside it is visible here.
#[verifier::external_type_specification]
#[verifier::external_body]
pub struct ExSystemTimeError(std::time::SystemTimeError);

/// `SystemTime::now` reads the system clock; nothing is claimed of the
/// time it returns.
pub assume_specification[ std::time::SystemTime::now ]() -> (t: std::time::SystemTime);

/// `SystemTime::duration_since` gives the time from `earlier` to `t`, or
/// an error where `earlier` is the later of the two; nothing is claimed of
/// which it returns.
pub assume_specification[ std::time::SystemTime::duration_since ](
    t: &std::time::SystemTime,
    earlier: std::time::SystemTime,
) -> (r: Result<core::time::Duration, std::time::SystemTimeError>);

/// `Duration::as_millis` gives the whole milliseconds of a duration;
/// nothing is claimed of the number.
pub assume_specification[ core::time::Duration::as_millis ](d: &core::time::Duration) -> (ms:
    u128);

/// The constant `std::time::UNIX_EPOCH`; nothing is claimed of it.
#[verifier::external_body]
fn unix_epoch() -> (t: std::time::SystemTime) {
    std::time::UNIX_EPOCH
}

/// The milliseconds from `start_ms` to `now_ms`, and 0 where the clock has
/// gone back.
pub open spec fn elapsed_of(start_ms: u128, now_ms: u128) -> u128 {
    if now_ms >= start_ms {
        (now_ms - start_ms) as u128
    } else {
        0
    }
}

/// The time that has passed between two readings of the clock.
pub fn elapsed_between(start_ms: u128, now_ms: u128) -> (ms: u128)
    ensures
        ms == elapsed_of(start_ms, now_ms),
{
    if now_ms >= start_ms {
        now_ms - start_ms
    } else {
        0
    }
}

/// The system clock, in milliseconds since the Unix epoch; 0 where the
/// clock stands before it.
pub fn now_ms() -> u128 {
    let now = std::time::SystemTime::now();
    match now.duration_since(unix_epoch()) {
        Ok(d) => d.as_millis(),
        Err(_) => 0,
    }
}

/// The milliseconds from `start_ms` to a reading of the clock made now.
pub fn elapsed_ms(start_ms: u128) -> (ms: u128)
    ensures
        exists|now: u128| ms == #[trigger] elapsed_of(start_ms, now),
{
    let now: u128 = now_ms();
    let ms: u128 = elapsed_between(start_ms, now);
    assert(ms == elapsed_of(start_ms, now));
    ms
}

} // verus!
