use terminal_2048::scores::{add_high_score, is_new_high_score, record_score, HighScores, ScoreEntry};

fn entry(score: u32, date: &str) -> ScoreEntry {
    ScoreEntry { score, date: String::from(date), highest_tile: 4 }
}

fn scores_of(h: &HighScores) -> Vec<u32> {
    h.scores.iter().map(|e| e.score).collect()
}

#[test]
fn eleven_distinct_scores_keep_the_top_ten() {
    let mut h = HighScores::new();
    let input = [50u32, 10, 90, 30, 70, 5, 100, 60, 20, 80, 40];
    for s in input {
        record_score(&mut h, entry(s, "d"));
    }
    assert_eq!(scores_of(&h), vec![100, 90, 80, 70, 60, 50, 40, 30, 20, 10]);
}

#[test]
fn eleventh_score_evicts_the_lowest() {
    let mut h = HighScores::new();
    for s in 1..=10u32 {
        record_score(&mut h, entry(s * 10, "d"));
    }
    record_score(&mut h, entry(55, "d"));
    assert_eq!(scores_of(&h), vec![100, 90, 80, 70, 60, 55, 50, 40, 30, 20]);
}

#[test]
fn equal_scores_keep_their_order() {
    let mut h = HighScores::new();
    record_score(&mut h, entry(10, "first"));
    record_score(&mut h, entry(20, "top"));
    record_score(&mut h, entry(10, "second"));
    assert_eq!(scores_of(&h), vec![20, 10, 10]);
    assert_eq!(h.scores[1].date, "first");
    assert_eq!(h.scores[2].date, "second");
}

#[test]
fn unordered_ledger_is_ranked_on_insert() {
    let mut h = HighScores::new();
    h.scores.push(entry(5, "a"));
    h.scores.push(entry(30, "b"));
    h.scores.push(entry(10, "c"));
    record_score(&mut h, entry(20, "d"));
    assert_eq!(scores_of(&h), vec![30, 20, 10, 5]);
}

#[test]
fn equal_to_tenth_does_not_qualify() {
    let mut h = HighScores::new();
    for s in 1..=10u32 {
        record_score(&mut h, entry(s * 10, "d"));
    }
    assert!(!is_new_high_score(&h, 10));
    assert!(!is_new_high_score(&h, 0));
    assert!(is_new_high_score(&h, 11));
}

#[test]
fn any_score_qualifies_while_there_is_room() {
    let mut h = HighScores::new();
    assert!(is_new_high_score(&h, 0));
    for s in 1..=9u32 {
        record_score(&mut h, entry(s * 10, "d"));
    }
    assert!(is_new_high_score(&h, 0));
}

#[test]
fn add_high_score_takes_the_largest_tile() {
    let mut h = HighScores::new();
    let board = [[2, 4, 8, 16], [16, 8, 4, 2], [2, 512, 8, 16], [16, 8, 4, 2]];
    add_high_score(&mut h, 1234, &board);
    assert_eq!(h.scores.len(), 1);
    assert_eq!(h.scores[0].score, 1234);
    assert_eq!(h.scores[0].highest_tile, 512);
    assert!(!h.scores[0].date.is_empty());
}

#[test]
fn add_high_score_keeps_the_cap() {
    let mut h = HighScores::new();
    let board = [[0; 4]; 4];
    for s in 0..15u32 {
        add_high_score(&mut h, s, &board);
    }
    assert_eq!(scores_of(&h), vec![14, 13, 12, 11, 10, 9, 8, 7, 6, 5]);
    assert_eq!(h.scores[0].highest_tile, 0);
}
