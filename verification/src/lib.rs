//! Shark: the board core of a chess engine.

pub mod geometry;
pub mod types;
pub mod bitboard;
pub mod attacks;
pub mod magic;
pub mod zobrist;
pub mod text;
pub mod state;
pub mod position;
pub mod fen;
pub mod movegen;
pub mod legality;
pub mod perft;
pub mod see;
pub mod tt;
pub mod nnue;
