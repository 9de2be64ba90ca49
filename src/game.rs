//! The board, its moves and the per-key decisions of a playing session.

pub mod board;
pub mod laws;
pub mod logic;
pub mod ui;
