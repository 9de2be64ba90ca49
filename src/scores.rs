//! The high-score ledger: finished games ranked by score, best first, at
//! most ten of them.

use vstd::prelude::*;
use crate::game::board::{grid, Board};

verus! {

/// The most entries that the ledger keeps.
pub const CAPACITY: usize = 10;

/// One finished game.
#[derive(Clone, Debug)]
pub struct ScoreEntry {
    /// The game's final score.
    pub score: u32,
    /// When the game ended, as local time `YYYY-MM-DD HH:MM:SS`.
    pub date: String,
    /// The largest tile on the board when the game ended.
    pub highest_tile: u16,
}

/// The ledger, best score first.
#[derive(Debug)]
pub struct HighScores {
    /// The entries, in descending order of score.
    pub scores: Vec<ScoreEntry>,
}

/// Entries ordered by score, best first.
pub open spec fn descending(s: Seq<ScoreEntry>) -> bool {
    forall|i: int, j: int| 0 <= i < j < s.len() ==> #[trigger] s[i].score >= #[trigger] s[j].score
}

/// `s` with `e` put just before the first entry that scores less than `e`:
/// after every entry that scores at least as much.
pub open spec fn place(s: Seq<ScoreEntry>, e: ScoreEntry) -> Seq<ScoreEntry>
    decreases s.len(),
{
    if s.len() == 0 {
        seq![e]
    } else if s[0].score >= e.score {
        seq![s[0]] + place(s.drop_first(), e)
    } else {
        seq![e] + s
    }
}

/// The entries of `s` in descending order of score, entries of equal score
/// in their order in `s`: what a stable sort by descending score gives.
pub open spec fn ranked(s: Seq<ScoreEntry>) -> Seq<ScoreEntry>
    decreases s.len(),
{
    if s.len() == 0 {
        s
    } else {
        place(ranked(s.drop_last()), s.last())
    }
}

/// The first `CAPACITY` entries of `s`.
pub open spec fn kept(s: Seq<ScoreEntry>) -> Seq<ScoreEntry> {
    if s.len() > CAPACITY {
        s.take(CAPACITY as int)
    } else {
        s
    }
}

/// The ledger `s` after entry `e` is added: appended, ranked, cut to
/// capacity.
pub open spec fn recorded(s: Seq<ScoreEntry>, e: ScoreEntry) -> Seq<ScoreEntry> {
    kept(ranked(s.push(e)))
}

/// Whether `score` earns a place in ledger `s`: the ledger has room, or the
/// score beats its last entry.
pub open spec fn qualifies(s: Seq<ScoreEntry>, score: int) -> bool {
    s.len() < CAPACITY || score > s.last().score
}

/// `t` is the largest value on grid `g`.
pub open spec fn is_highest(g: Seq<Seq<int>>, t: int) -> bool {
    &&& forall|r: int, c: int| 0 <= r < 4 && 0 <= c < 4 ==> #[trigger] g[r][c] <= t
    &&& exists|r: int, c: int| 0 <= r < 4 && 0 <= c < 4 && #[trigger] g[r][c] == t
}

/// Relies on chrono's `Local::now()` and `format`: the local time now,
/// written `YYYY-MM-DD HH:MM:SS`.
#[verifier::external_body]
fn now_stamp() -> (stamp: String) {
    chrono::Local::now().format("%Y-%m-%d %H:%M:%S").to_string()
}

impl HighScores {
    /// An empty ledger.
    pub fn new() -> (h: Self)
        ensures
            h.scores@.len() == 0,
    {
        HighScores { scores: Vec::new() }
    }
}

/// Putting `e` at the first index `p` whose entry scores less than `e` is
/// what `place` does.
proof fn lemma_place_at(s: Seq<ScoreEntry>, e: ScoreEntry, p: int)
    requires
        0 <= p <= s.len(),
        forall|k: int| 0 <= k < p ==> #[trigger] s[k].score >= e.score,
        p < s.len() ==> s[p].score < e.score,
    ensures
        place(s, e) == s.insert(p, e),
    decreases s.len(),
{
    if s.len() == 0 {
        assert(s.insert(p, e) =~= seq![e]);
    } else if p == 0 {
        assert(s.insert(p, e) =~= seq![e] + s);
    } else {
        let t = s.drop_first();
        assert forall|k: int| 0 <= k < p - 1 implies #[trigger] t[k].score >= e.score by {
            assert(s[k + 1].score >= e.score);
        }
        lemma_place_at(t, e, p - 1);
        assert(seq![s[0]] + t.insert(p - 1, e) =~= s.insert(p, e));
    }
}

/// Puts `e` into `v` as `place` does.
fn insert_ranked(v: &mut Vec<ScoreEntry>, e: ScoreEntry)
    ensures
        final(v)@ == place(old(v)@, e),
{
    let mut p: usize = 0;
    while p < v.len() && v[p].score >= e.score
        invariant
            p <= v.len(),
            forall|k: int| 0 <= k < p ==> #[trigger] v@[k].score >= e.score,
        decreases v.len() - p,
    {
        p = p + 1;
    }
    proof {
        lemma_place_at(v@, e, p as int);
    }
    v.insert(p, e);
}

/// Adds `entry` to the ledger: appends it, ranks the entries by descending
/// score, entries of equal score in their earlier order, and keeps the first
/// `CAPACITY`.
pub fn record_score(high_scores: &mut HighScores, entry: ScoreEntry)
    ensures
        final(high_scores).scores@ == recorded(old(high_scores).scores@, entry),
{
    let mut pending: Vec<ScoreEntry> = Vec::new();
    std::mem::swap(&mut pending, &mut high_scores.scores);
    pending.push(entry);
    let ghost all = pending@;
    let mut out: Vec<ScoreEntry> = Vec::new();
    let ghost mut i: int = 0;
    proof {
        assert(all.take(0) =~= Seq::<ScoreEntry>::empty());
        assert(all.skip(0) =~= all);
    }
    while pending.len() > 0
        invariant
            0 <= i <= all.len(),
            pending@ == all.skip(i),
            out@ == ranked(all.take(i)),
        decreases pending.len(),
    {
        let x = pending.remove(0);
        proof {
            assert(all.take(i + 1).drop_last() =~= all.take(i));
            assert(pending@ =~= all.skip(i + 1));
        }
        insert_ranked(&mut out, x);
        proof {
            i = i + 1;
        }
    }
    proof {
        assert(all.take(i) =~= all);
    }
    out.truncate(CAPACITY);
    high_scores.scores = out;
}

/// The largest tile on the board.
fn highest_tile(board: &Board) -> (t: u16)
    ensures
        is_highest(grid(*board), t as int),
{
    let ghost g = grid(*board);
    let mut best: u16 = board[0][0];
    assert(g[0][0] == best);
    for r in 0..4
        invariant
            g == grid(*board),
            forall|i: int, j: int| 0 <= i < r && 0 <= j < 4 ==> #[trigger] g[i][j] <= best,
            exists|i: int, j: int| 0 <= i < 4 && 0 <= j < 4 && #[trigger] g[i][j] == best,
    {
        for c in 0..4
            invariant
                g == grid(*board),
                r < 4,
                forall|i: int, j: int|
                    (0 <= i < r && 0 <= j < 4) || (i == r && 0 <= j < c) ==> #[trigger] g[i][j]
                        <= best,
                exists|i: int, j: int| 0 <= i < 4 && 0 <= j < 4 && #[trigger] g[i][j] == best,
        {
            assert(g[r as int][c as int] == board[r as int][c as int]);
            if board[r][c] > best {
                best = board[r][c];
            }
        }
    }
    best
}

/// Adds a finished game to the ledger: its score, the local time now and the
/// largest tile on `board`. Whether the score earns a place is left to the
/// caller: an entry that ranks below the first `CAPACITY` is dropped.
pub fn add_high_score(high_scores: &mut HighScores, score: u32, board: &Board)
    ensures
        exists|e: ScoreEntry|
            e.score == score && is_highest(grid(*board), e.highest_tile as int)
                && final(high_scores).scores@ == #[trigger] recorded(old(high_scores).scores@, e),
{
    let highest = highest_tile(board);
    let entry = ScoreEntry { score, date: now_stamp(), highest_tile: highest };
    let ghost e = entry;
    record_score(high_scores, entry);
    assert(high_scores.scores@ == recorded(old(high_scores).scores@, e));
}

/// Whether `score` earns a place in the ledger: true while the ledger holds
/// fewer than `CAPACITY` entries, else only for a score strictly above its
/// last entry's.
pub fn is_new_high_score(high_scores: &HighScores, score: u32) -> (r: bool)
    ensures
        r == qualifies(high_scores.scores@, score as int),
{
    let n = high_scores.scores.len();
    if n < CAPACITY {
        return true;
    }
    score > high_scores.scores[n - 1].score
}

/// A ledger built from no entries by adding `es` in order.
pub open spec fn record_all(es: Seq<ScoreEntry>) -> Seq<ScoreEntry>
    decreases es.len(),
{
    if es.len() == 0 {
        es
    } else {
        recorded(record_all(es.drop_last()), es.last())
    }
}

/// No two entries of `es` have the same score.
pub open spec fn distinct_scores(es: Seq<ScoreEntry>) -> bool {
    forall|i: int, j: int|
        0 <= i < es.len() && 0 <= j < es.len() && i != j ==> #[trigger] es[i].score
            != #[trigger] es[j].score
}

/// Ranking entries that are already in order changes nothing.
proof fn lemma_ranked_descending(s: Seq<ScoreEntry>)
    requires
        descending(s),
    ensures
        ranked(s) == s,
    decreases s.len(),
{
    if s.len() > 0 {
        let d = s.drop_last();
        lemma_ranked_descending(d);
        lemma_place_at(d, s.last(), d.len() as int);
        assert(d.insert(d.len() as int, s.last()) =~= s);
    }
}

/// Adding to an ordered ledger inserts the entry after every entry that
/// scores at least as much, then cuts to capacity.
proof fn lemma_recorded_descending(s: Seq<ScoreEntry>, e: ScoreEntry) -> (p: int)
    requires
        descending(s),
    ensures
        0 <= p <= s.len(),
        forall|k: int| 0 <= k < p ==> #[trigger] s[k].score >= e.score,
        p < s.len() ==> s[p].score < e.score,
        recorded(s, e) == kept(s.insert(p, e)),
{
    lemma_ranked_descending(s);
    assert(s.push(e).drop_last() =~= s);
    let q = first_below(s, e.score as int);
    lemma_first_below(s, e.score as int);
    lemma_place_at(s, e, q);
    q
}

/// The index of the first entry of `s` that scores below `score`, or the
/// length of `s` where there is none.
spec fn first_below(s: Seq<ScoreEntry>, score: int) -> int
    decreases s.len(),
{
    if s.len() == 0 || s[0].score < score {
        0
    } else {
        1 + first_below(s.drop_first(), score)
    }
}

proof fn lemma_first_below(s: Seq<ScoreEntry>, score: int)
    ensures
        0 <= first_below(s, score) <= s.len(),
        forall|k: int| 0 <= k < first_below(s, score) ==> #[trigger] s[k].score >= score,
        first_below(s, score) < s.len() ==> s[first_below(s, score)].score < score,
    decreases s.len(),
{
    if s.len() > 0 && s[0].score >= score {
        let t = s.drop_first();
        lemma_first_below(t, score);
        assert forall|k: int| 0 <= k < first_below(s, score) implies #[trigger] s[k].score
            >= score by {
            if k > 0 {
                assert(s[k] == t[k - 1]);
            }
        }
    }
}

/// A score that does not earn a place leaves a well-kept ledger as it was:
/// adding it anyway changes nothing.
pub proof fn lemma_unqualified_changes_nothing(s: Seq<ScoreEntry>, e: ScoreEntry)
    requires
        descending(s),
        s.len() <= CAPACITY,
        !qualifies(s, e.score as int),
    ensures
        recorded(s, e) == s,
{
    let p = lemma_recorded_descending(s, e);
    if p < s.len() {
        assert(s[p].score >= s.last().score);
    }
    assert(s.insert(p, e).take(CAPACITY as int) =~= s);
}

/// Adding entries of distinct scores one by one to an empty ledger keeps the
/// best ten of them in strictly descending order: every kept entry is one of
/// them, all of them are kept while there are at most ten, and each one left
/// out scores below every kept one.
pub proof fn lemma_keeps_best(es: Seq<ScoreEntry>)
    requires
        distinct_scores(es),
    ensures
        ({
            let l = record_all(es);
            &&& l.len() == if es.len() < CAPACITY { es.len() as int } else { CAPACITY as int }
            &&& forall|i: int, j: int| 0 <= i < j < l.len() ==> #[trigger] l[i].score
                > #[trigger] l[j].score
            &&& forall|i: int| 0 <= i < l.len() ==> es.contains(#[trigger] l[i])
            &&& es.len() <= CAPACITY ==> forall|k: int| 0 <= k < es.len() ==> l.contains(#[trigger] es[k])
            &&& forall|k: int, i: int|
                0 <= k < es.len() && 0 <= i < l.len() && !l.contains(es[k]) ==> #[trigger] es[k].score
                    < #[trigger] l[i].score
        }),
    decreases es.len(),
{
    let l = record_all(es);
    if es.len() == 0 {
        return;
    }
    let d = es.drop_last();
    let e = es.last();
    let n = es.len() - 1;
    assert(distinct_scores(d)) by {
        assert forall|i: int, j: int|
            0 <= i < d.len() && 0 <= j < d.len() && i != j implies #[trigger] d[i].score
            != #[trigger] d[j].score by {
            assert(es[i] == d[i] && es[j] == d[j]);
        }
    }
    lemma_keeps_best(d);
    let prev = record_all(d);
    assert(descending(prev));
    // Every entry of `prev` is an earlier entry, so its score differs from `e`'s.
    assert forall|i: int| 0 <= i < prev.len() implies #[trigger] prev[i].score != e.score by {
        assert(d.contains(prev[i]));
        let k = choose|k: int| 0 <= k < d.len() && d[k] == prev[i];
        assert(es[k] == prev[i]);
        assert(es[n] == e);
    }
    let p = lemma_recorded_descending(prev, e);
    let ins = prev.insert(p, e);
    assert(l == kept(ins));
    assert forall|i: int, j: int| 0 <= i < j < ins.len() implies #[trigger] ins[i].score
        > #[trigger] ins[j].score by {
        if j < p {
        } else if j == p {
            assert(prev[i].score != e.score);
        } else if i < p {
            assert(prev[i].score >= e.score);
            assert(prev[i].score != e.score);
            assert(e.score > prev[p].score);
            if j - 1 > p {
                assert(prev[p].score > prev[j - 1].score);
            }
        } else if i == p {
            if j - 1 > p {
                assert(prev[p].score > prev[j - 1].score);
            }
        } else {
        }
    }
    assert forall|i: int| 0 <= i < l.len() implies es.contains(#[trigger] l[i]) by {
        assert(l[i] == ins[i]);
        if i == p {
            assert(es[n] == e);
        } else {
            let j = if i < p { i } else { i - 1 };
            assert(ins[i] == prev[j]);
            assert(d.contains(prev[j]));
            let k = choose|k: int| 0 <= k < d.len() && d[k] == prev[j];
            assert(es[k] == d[k]);
        }
    }
    if es.len() <= CAPACITY {
        assert(l == ins);
        assert forall|k: int| 0 <= k < es.len() implies l.contains(#[trigger] es[k]) by {
            if k == n {
                assert(l[p] == e);
            } else {
                assert(es[k] == d[k]);
                assert(prev.contains(d[k]));
                let j = choose|j: int| 0 <= j < prev.len() && prev[j] == d[k];
                if j < p {
                    assert(l[j] == prev[j]);
                } else {
                    assert(l[j + 1] == prev[j]);
                }
            }
        }
    }
    assert forall|k: int, i: int|
        0 <= k < es.len() && 0 <= i < l.len() && !l.contains(es[k]) implies #[trigger] es[k].score
        < #[trigger] l[i].score by {
        assert(l[i] == ins[i]);
        let x = es[k];
        if ins.contains(x) {
            // A left-out entry of `ins` lies beyond the cut, below every kept one.
            let j = choose|j: int| 0 <= j < ins.len() && ins[j] == x;
            if j < CAPACITY {
                assert(l[j] == x);
            }
            assert(ins[i].score > ins[j].score);
        } else {
            // An entry left out before stays below every earlier kept one.
            assert(ins[p] == e);
            if k == n {
                assert(es[n] == e);
            }
            assert(k < n);
            assert(d[k] == x);
            assert(!prev.contains(x)) by {
                if prev.contains(x) {
                    let j = choose|j: int| 0 <= j < prev.len() && prev[j] == x;
                    if j < p {
                        assert(ins[j] == x);
                    } else {
                        assert(ins[j + 1] == x);
                    }
                }
            }
            assert(d.len() > CAPACITY) by {
                if d.len() <= CAPACITY {
                    assert(prev.contains(d[k]));
                }
            }
            if i < p {
                assert(ins[i] == prev[i]);
                assert(d[k].score < prev[i].score);
            } else if i > p {
                assert(ins[i] == prev[i - 1]);
                assert(d[k].score < prev[i - 1].score);
            } else {
                assert(p < prev.len());
                assert(d[k].score < prev[p].score);
            }
        }
    }
}

} // verus!
