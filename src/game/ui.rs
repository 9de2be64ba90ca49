//! The decisions of a playing session: what each key does to the game, and
//! what happens to the ledger when a game ends. A front end reads the keys,
//! draws the screens and stores the ledger; it hands each key to
//! `GameUI::handle_key` and does what the returned `Reaction` asks.

use vstd::prelude::*;
use crate::game::board::{grid, has_move, spawned, tiles_ok, Direction};
use crate::game::logic::{is_opening, GameLogic};
use crate::scores::{add_high_score, is_highest, is_new_high_score, qualifies, recorded, HighScores, ScoreEntry};

verus! {

/// What the player chose on a high-score screen.
#[derive(Clone, Copy, Debug, PartialEq, Eq, Structural)]
pub enum HighScoreAction {
    Continue,
    Quit,
}

/// A key as the session understands it.
#[derive(Clone, Copy, Debug, PartialEq, Eq, Structural)]
pub enum Key {
    Up,
    Down,
    Left,
    Right,
    HighScores,
    Quit,
    Other,
}

/// What the front end does after a key.
#[derive(Clone, Copy, Debug, PartialEq, Eq, Structural)]
pub enum Reaction {
    /// Draw the board again and wait for the next key.
    Redraw,
    /// Show the high-score screen, then go on unless the player quits there.
    ShowHighScores,
    /// Leave the session.
    Quit,
}

/// The direction that a key moves the tiles in, if any.
pub open spec fn key_direction(key: Key) -> Option<Direction> {
    match key {
        Key::Up => Some(Direction::Up),
        Key::Down => Some(Direction::Down),
        Key::Left => Some(Direction::Left),
        Key::Right => Some(Direction::Right),
        _ => None,
    }
}

/// `next` follows `mid` once a move that reported `moved` is done: a tile is
/// spawned if the board changed, and the game ends when no move is left.
pub open spec fn settles(mid: GameLogic, next: GameLogic, moved: bool) -> bool {
    &&& if moved {
        spawned(mid.cells(), next.cells())
    } else {
        next.cells() == mid.cells()
    }
    &&& next.score == mid.score
    &&& next.won == mid.won
    &&& next.game_over == (mid.game_over || !has_move(next.cells()))
}

/// A session: the game in play and the ledger of finished games.
pub struct GameUI {
    /// The game in play.
    pub logic: GameLogic,
    /// The ledger, as loaded when the session began and updated since.
    pub high_scores: HighScores,
}

impl GameUI {
    /// A session with a new game and the given ledger.
    pub fn new(high_scores: HighScores) -> (ui: Self)
        ensures
            is_opening(ui.logic.cells()),
            ui.logic.score == 0,
            !ui.logic.won,
            !ui.logic.game_over,
            ui.high_scores == high_scores,
    {
        GameUI { logic: GameLogic::new(), high_scores }
    }

    /// Applies one key: a direction key moves the tiles and, if the board
    /// changed, spawns a tile; then the game ends if no move is left. The
    /// quit key changes nothing.
    pub fn handle_key(&mut self, key: Key) -> (reaction: Reaction)
        requires
            key_direction(key) is Some ==> old(self).logic.move_fits(key_direction(key)->0),
        ensures
            final(self).high_scores == old(self).high_scores,
            tiles_ok(old(self).logic.cells()) ==> tiles_ok(final(self).logic.cells()),
            key == Key::Quit ==> reaction == Reaction::Quit && final(self).logic == old(self).logic,
            key == Key::HighScores ==> reaction == Reaction::ShowHighScores,
            key != Key::Quit && key != Key::HighScores ==> reaction == Reaction::Redraw,
            key_direction(key) is Some ==> exists|mid: GameLogic, moved: bool|
                old(self).logic.moved_to(mid, key_direction(key)->0, moved) && #[trigger] settles(
                    mid,
                    final(self).logic,
                    moved,
                ),
            key_direction(key) is None && key != Key::Quit ==> settles(
                old(self).logic,
                final(self).logic,
                false,
            ),
    {
        if key == Key::Quit {
            return Reaction::Quit;
        }
        let moved = match key {
            Key::Up => self.logic.move_up(),
            Key::Down => self.logic.move_down(),
            Key::Left => self.logic.move_left(),
            Key::Right => self.logic.move_right(),
            _ => false,
        };
        let ghost mid = self.logic;
        if moved {
            self.logic.add_random_tile();
        }
        if !self.logic.can_move() {
            self.logic.game_over = true;
        }
        assert(settles(mid, self.logic, moved));
        if key == Key::HighScores {
            Reaction::ShowHighScores
        } else {
            Reaction::Redraw
        }
    }

    /// Ends the game in play: records its score in the ledger if the score
    /// earns a place there. Returns whether it did, so that the front end
    /// stores the ledger and congratulates the player.
    pub fn finish_game(&mut self) -> (saved: bool)
        ensures
            saved == qualifies(old(self).high_scores.scores@, old(self).logic.score as int),
            final(self).logic == old(self).logic,
            saved ==> exists|e: ScoreEntry|
                e.score == old(self).logic.score && is_highest(
                    grid(old(self).logic.board),
                    e.highest_tile as int,
                ) && final(self).high_scores.scores@ == #[trigger] recorded(
                    old(self).high_scores.scores@,
                    e,
                ),
            !saved ==> final(self).high_scores == old(self).high_scores,
    {
        let qualified = is_new_high_score(&self.high_scores, self.logic.score);
        if qualified {
            add_high_score(&mut self.high_scores, self.logic.score, &self.logic.board);
        }
        qualified
    }
}

} // verus!
