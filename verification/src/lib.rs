//! A bitboard chess engine library: board representation, FEN handling,
//! move encoding and legal move generation, Zobrist hashing, and the
//! integer parts of the search and evaluation machinery.

pub mod pieces;
pub mod text;
pub mod square;
pub mod board_move;
pub mod zobrist;
pub mod rules;
pub mod board;
pub mod movegen;
pub mod fen;
pub mod killer;
pub mod history;
pub mod limits;
pub mod nnue;
pub mod stats;
pub mod controller;
pub mod consistency;
pub mod tables;
pub mod perft;
pub mod repetition;
pub mod cli;
pub mod pgn;
pub mod bitboard;
pub mod laws;
pub mod table;
pub mod book;
pub mod training;
