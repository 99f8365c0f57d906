pub mod bits;
pub mod board;
pub mod consistency;
pub mod defs;
pub mod fen;
pub mod makemove;
pub mod movegen;
pub mod perft;
pub mod search;
pub mod test_suites;
pub mod text;
pub mod transposition_table;
pub mod uci;
pub mod zobrist;
