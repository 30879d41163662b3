//! A verified core for an English-draughts (checkers) engine: a bitboard
//! position type with move generation, legality and application of actions,
//! Zobrist hashing with incremental updates, a transposition table with a
//! generational replacement policy, and a depth-bounded alpha-beta search.

pub mod action;
pub mod bitboard;
pub mod engine;
pub mod error;
pub mod movepick;
pub mod searchable;
pub mod tt;
pub mod zobrist;
