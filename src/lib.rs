//! Search engine for nine-board tic-tac-toe: bit-packed boards, move
//! generation, static evaluation, alpha-beta search and a transposition table.

pub mod bitboard;
pub mod board;
pub mod counting;
pub mod game;
pub mod moves;
pub mod openingbook;
pub mod random;
pub mod ref_counting;
pub mod table;
pub mod zobrist;
