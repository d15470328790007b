pub mod attacks;
pub mod bitboard;
pub mod board;
pub mod magic;
pub mod rng;
pub mod zobrist;
