//! Dou Shou Qi (Jungle) engine core: board rules, notation, search and endgame tables.

pub mod board;
pub mod movegen;
pub mod status;
pub mod eval;
pub mod text;
pub mod fen;
pub mod notation;
pub mod tablebase;
pub mod solver;
pub mod tbfile;
pub mod search;
pub mod protocol;
pub mod api;
