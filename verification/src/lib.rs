pub mod bitboard;
pub mod attacks;
pub mod board;
pub mod text;
pub mod parsing;
pub mod moves;
pub mod fen;
pub mod movegen;
pub mod perft;
pub mod roundtrip;
pub mod laws;
pub mod bitwalk;
pub mod fish;
pub mod edge_cases;
pub mod bench;
pub mod diagram;
pub mod safety;
pub mod cli;
pub mod validity;
pub mod distinct;
pub mod timing;
pub mod compare;
pub mod check;
