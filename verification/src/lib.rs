//! A Connect-Four rule engine: a packed two-bit-per-cell board, move
//! legality checking, win and draw detection, and a line-oriented text
//! format for the full game state.

pub mod bitvec;
pub mod codec;
pub mod direction;
pub mod game;
pub mod laws;
pub mod query;
pub mod text;
