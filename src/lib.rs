//! A two-player mark-placing game on a square grid: board state, move
//! legality, turn bookkeeping and detection of winning runs.

pub mod board;
pub mod game;
pub mod grid;
pub mod input;
pub mod lane;
