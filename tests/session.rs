use terminal_2048::game::ui::{GameUI, Key, Reaction};
use terminal_2048::scores::{HighScores, ScoreEntry};

fn entry(score: u32) -> ScoreEntry {
    ScoreEntry { score, date: String::from("2024-01-01 00:00:00"), highest_tile: 2 }
}

#[test]
fn direction_key_moves_and_spawns() {
    let mut ui = GameUI::new(HighScores::new());
    ui.logic.board = [[2, 2, 0, 0], [0; 4], [0; 4], [0; 4]];
    ui.logic.score = 0;
    assert_eq!(ui.handle_key(Key::Left), Reaction::Redraw);
    assert_eq!(ui.logic.board[0][0], 4);
    assert_eq!(ui.logic.score, 4);
    let count = ui.logic.board.iter().flatten().filter(|&&v| v != 0).count();
    assert_eq!(count, 2);
    assert!(!ui.logic.game_over);
}

#[test]
fn key_that_moves_nothing_spawns_nothing() {
    let mut ui = GameUI::new(HighScores::new());
    let board = [[2, 0, 0, 0], [0; 4], [0; 4], [0; 4]];
    ui.logic.board = board;
    assert_eq!(ui.handle_key(Key::Left), Reaction::Redraw);
    assert_eq!(ui.logic.board, board);
    assert_eq!(ui.handle_key(Key::Other), Reaction::Redraw);
    assert_eq!(ui.logic.board, board);
}

#[test]
fn stuck_board_ends_the_game() {
    let mut ui = GameUI::new(HighScores::new());
    ui.logic.board = [[2, 4, 2, 4], [4, 2, 4, 2], [2, 4, 2, 4], [4, 2, 4, 2]];
    assert_eq!(ui.handle_key(Key::HighScores), Reaction::ShowHighScores);
    assert!(ui.logic.game_over);
}

#[test]
fn quit_key_changes_nothing() {
    let mut ui = GameUI::new(HighScores::new());
    let board = ui.logic.board;
    assert_eq!(ui.handle_key(Key::Quit), Reaction::Quit);
    assert_eq!(ui.logic.board, board);
}

#[test]
fn finish_game_records_a_qualifying_score() {
    let mut ui = GameUI::new(HighScores::new());
    ui.logic.board = [[2, 4, 2, 4], [4, 128, 4, 2], [2, 4, 2, 4], [4, 2, 4, 2]];
    ui.logic.score = 900;
    assert!(ui.finish_game());
    assert_eq!(ui.high_scores.scores.len(), 1);
    assert_eq!(ui.high_scores.scores[0].score, 900);
    assert_eq!(ui.high_scores.scores[0].highest_tile, 128);
    let date = &ui.high_scores.scores[0].date;
    assert_eq!(date.len(), 19);
    assert_eq!(&date[4..5], "-");
    assert_eq!(&date[13..14], ":");
}

#[test]
fn finish_game_skips_a_score_that_does_not_place() {
    let mut scores = HighScores::new();
    for s in 0..10u32 {
        scores.scores.push(entry(100 - s));
    }
    let mut ui = GameUI::new(scores);
    ui.logic.score = 91;
    assert!(!ui.finish_game());
    assert_eq!(ui.high_scores.scores.len(), 10);
    assert_eq!(ui.high_scores.scores[9].score, 91);
    assert_eq!(ui.high_scores.scores[9].date, "2024-01-01 00:00:00");
}
