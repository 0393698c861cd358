pub mod bits;
pub mod text;
pub mod types;
pub mod mv;
pub mod zobrist;
pub mod position;
pub mod fen;
pub mod movegen;
pub mod eval;
pub mod search;
pub mod game;
pub mod uci;
