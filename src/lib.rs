//! Game-state engine and high-score ledger for a terminal edition of the
//! 2048 sliding-tile puzzle.
//!
//! - `game::board` holds the mathematical model of the 4x4 grid and the laws
//!   that the moves obey.
//! - `game::logic` holds the engine: moves, tile spawning, move detection.
//! - `game::ui` holds the decisions that a front end makes on each key.
//! - `scores` holds the bounded, ranked ledger of finished games.

pub mod game;
pub mod scores;
