//! Search core of a chess engine: negamax with alpha-beta pruning and a
//! quiescence extension, a bounded transposition table, move ordering, a
//! tapered evaluator and the time control that bounds a search.

pub mod pst;
pub mod rules;
pub mod movegen;
pub mod board;
pub mod utils;
pub mod evaluator;
pub mod tt;
pub mod ordering;
pub mod engine;
pub mod search;
pub mod tree;
