//! Laws that the moves obey, stated over the model of `board`.

use vstd::prelude::*;
use crate::game::board::{
    column, compact, gain, gain_upto, grid_cells, has_move, line, merge, merge_gain, merge_makes,
    pad, pair_at, empty_at, row_gain, row_wins, slid, slide, transpose, wins, Direction, WIN_TILE,
};

verus! {

/// A row of four cells whose tiles are packed at its start, with no two
/// neighbouring tiles of the same value.
pub open spec fn settled(r: Seq<int>) -> bool {
    &&& r.len() == 4
    &&& forall|i: int| 0 <= i < 3 && #[trigger] r[i] == 0 ==> r[i + 1] == 0
    &&& forall|i: int| 0 <= i < 3 && #[trigger] r[i] != 0 ==> r[i] != r[i + 1]
}

/// Compaction of a row whose first `m` cells are its tiles keeps exactly
/// those cells.
proof fn lemma_compact_prefix(r: Seq<int>, m: int)
    requires
        0 <= m <= r.len(),
        forall|i: int| 0 <= i < r.len() ==> (i < m <==> #[trigger] r[i] != 0),
    ensures
        compact(r) == r.take(m),
    decreases r.len(),
{
    if r.len() > 0 {
        let d = r.drop_last();
        if r.last() != 0 {
            lemma_compact_prefix(d, m - 1);
            assert(d.take(m - 1).push(r.last()) =~= r.take(m));
        } else {
            lemma_compact_prefix(d, m);
            assert(d.take(m) =~= r.take(m));
        }
    }
}

/// A merge pass over tiles with no two equal neighbours changes nothing.
proof fn lemma_merge_distinct(s: Seq<int>)
    requires
        forall|i: int| 0 <= i < s.len() - 1 ==> #[trigger] s[i] != s[i + 1],
    ensures
        merge(s) == s,
        merge_gain(s) == 0,
        !merge_makes(s, WIN_TILE as int),
    decreases s.len(),
{
    if s.len() >= 2 {
        let t = s.skip(1);
        assert forall|i: int| 0 <= i < t.len() - 1 implies #[trigger] t[i] != t[i + 1] by {
            let j = i + 1;
            assert(s[j] != s[j + 1]);
        }
        lemma_merge_distinct(t);
        assert(s[0] != s[1]);
        assert(seq![s[0]] + t =~= s);
    }
}

/// Sliding a settled row to the left leaves it as it is, earns nothing and
/// wins nothing.
pub proof fn lemma_settled_row_is_fixed(r: Seq<int>)
    requires
        settled(r),
    ensures
        slide(r) == r,
        row_gain(r) == 0,
        !row_wins(r),
{
    let m: int = if r[0] == 0 {
        0
    } else if r[1] == 0 {
        1
    } else if r[2] == 0 {
        2
    } else if r[3] == 0 {
        3
    } else {
        4
    };
    assert(r[0] == 0 ==> r[1] == 0);
    assert(r[1] == 0 ==> r[2] == 0);
    assert(r[2] == 0 ==> r[3] == 0);
    assert forall|i: int| 0 <= i < r.len() implies (i < m <==> #[trigger] r[i] != 0) by {}
    lemma_compact_prefix(r, m);
    let c = r.take(m);
    assert forall|i: int| 0 <= i < c.len() - 1 implies #[trigger] c[i] != c[i + 1] by {
        assert(r[i] != 0);
    }
    lemma_merge_distinct(c);
    assert(pad(c, 4) =~= r);
}

/// On a grid whose rows are all settled, a move to the left leaves every
/// row as it is, earns nothing and wins nothing; so does a second move to
/// the left after it.
pub proof fn lemma_settled_rows_stay(g: Seq<Seq<int>>)
    requires
        g.len() == 4,
        forall|i: int| 0 <= i < 4 ==> settled(#[trigger] g[i]),
    ensures
        slid(g, Direction::Left) == g,
        slid(slid(g, Direction::Left), Direction::Left) == g,
        gain(g, Direction::Left) == 0,
        !wins(g, Direction::Left),
{
    assert forall|i: int| 0 <= i < 4 implies settled(#[trigger] line(g, Direction::Left, i)) by {
        assert(settled(g[i]));
    }
    lemma_settled_lines_stay(g, Direction::Left);
    assert forall|i: int| 0 <= i < 4 implies #[trigger] slid(g, Direction::Left)[i] == g[i] by {
        assert(slide(line(g, Direction::Left, i)) == line(g, Direction::Left, i));
    }
    assert(slid(g, Direction::Left) =~= g);
}

/// Where every line that a move slides is settled, the move leaves those
/// lines as they are, earns nothing and wins nothing.
proof fn lemma_settled_lines_stay(g: Seq<Seq<int>>, d: Direction)
    requires
        forall|i: int| 0 <= i < 4 ==> settled(#[trigger] line(g, d, i)),
    ensures
        forall|i: int| 0 <= i < 4 ==> slide(#[trigger] line(g, d, i)) == line(g, d, i),
        gain(g, d) == 0,
        !wins(g, d),
{
    assert forall|i: int| 0 <= i < 4 implies slide(#[trigger] line(g, d, i)) == line(g, d, i)
        && row_gain(line(g, d, i)) == 0 && !row_wins(line(g, d, i)) by {
        lemma_settled_row_is_fixed(line(g, d, i));
    }
    assert(gain_upto(g, d, 0) == 0);
    assert(gain_upto(g, d, 1) == 0);
    assert(gain_upto(g, d, 2) == 0);
    assert(gain_upto(g, d, 3) == 0);
}

/// A line of four tiles with no two equal neighbours is settled.
proof fn lemma_full_distinct_settled(r: Seq<int>)
    requires
        r.len() == 4,
        forall|i: int| 0 <= i < 4 ==> #[trigger] r[i] != 0,
        forall|i: int| 0 <= i < 3 ==> #[trigger] r[i] != r[i + 1],
    ensures
        settled(r),
{
}

/// Where no move is available, every move leaves the grid as it is, earns
/// nothing and wins nothing.
pub proof fn lemma_stuck_grid_is_fixed(g: Seq<Seq<int>>, d: Direction)
    requires
        grid_cells(g),
        !has_move(g),
    ensures
        slid(g, d) == g,
        gain(g, d) == 0,
        !wins(g, d),
{
    assert forall|r: int, c: int| 0 <= r < 4 && 0 <= c < 4 implies #[trigger] g[r][c] != 0 && (c
        < 3 ==> g[r][c] != g[r][c + 1]) && (r < 3 ==> g[r][c] != g[r + 1][c]) by {
        assert(!empty_at(g, r, c));
        assert(!pair_at(g, r, c));
    }
    assert forall|i: int| 0 <= i < 4 implies settled(#[trigger] line(g, d, i)) by {
        let l = line(g, d, i);
        assert(g[i].len() == 4);
        match d {
            Direction::Left => {
                assert forall|k: int| 0 <= k < 3 implies #[trigger] l[k] != l[k + 1] by {
                    assert(g[i][k] != g[i][k + 1]);
                }
            },
            Direction::Right => {
                assert forall|k: int| 0 <= k < 3 implies #[trigger] l[k] != l[k + 1] by {
                    assert(g[i][2 - k] != g[i][3 - k]);
                }
            },
            Direction::Up => {
                assert forall|k: int| 0 <= k < 3 implies #[trigger] l[k] != l[k + 1] by {
                    assert(g[k][i] != g[k + 1][i]);
                }
            },
            Direction::Down => {
                assert forall|k: int| 0 <= k < 3 implies #[trigger] l[k] != l[k + 1] by {
                    assert(g[2 - k][i] != g[3 - k][i]);
                }
            },
        }
        lemma_full_distinct_settled(l);
    }
    lemma_settled_lines_stay(g, d);
    match d {
        Direction::Left => {
            assert forall|i: int| 0 <= i < 4 implies #[trigger] slid(g, d)[i] == g[i] by {
                assert(slide(line(g, d, i)) == line(g, d, i));
            }
            assert(slid(g, d) =~= g);
        },
        Direction::Right => {
            assert forall|i: int| 0 <= i < 4 implies #[trigger] slid(g, d)[i] == g[i] by {
                assert(slide(line(g, d, i)) == line(g, d, i));
                assert(g[i].reverse().reverse() =~= g[i]);
            }
            assert(slid(g, d) =~= g);
        },
        Direction::Up => {
            assert forall|i: int| 0 <= i < 4 implies #[trigger] slid(g, d)[i] == g[i] by {
                assert forall|j: int| 0 <= j < 4 implies #[trigger] slid(g, d)[i][j] == g[i][j] by {
                    assert(slide(line(g, d, j)) == line(g, d, j));
                }
                assert(slid(g, d)[i] =~= g[i]);
            }
            assert(slid(g, d) =~= g);
        },
        Direction::Down => {
            assert forall|i: int| 0 <= i < 4 implies #[trigger] slid(g, d)[i] == g[i] by {
                assert forall|j: int| 0 <= j < 4 implies #[trigger] slid(g, d)[i][j] == g[i][j] by {
                    assert(slide(line(g, d, j)) == line(g, d, j));
                    assert(column(g, j).reverse().reverse() =~= column(g, j));
                }
                assert(slid(g, d)[i] =~= g[i]);
            }
            assert(slid(g, d) =~= g);
        },
    }
}

/// A move up is a move to the left on the transposed grid, transposed back;
/// a move down is a move to the right on it, transposed back. Each earns the
/// same points and wins alike.
pub proof fn lemma_vertical_is_transposed(g: Seq<Seq<int>>)
    requires
        grid_cells(g),
    ensures
        slid(g, Direction::Up) == transpose(slid(transpose(g), Direction::Left)),
        slid(g, Direction::Down) == transpose(slid(transpose(g), Direction::Right)),
        gain(g, Direction::Up) == gain(transpose(g), Direction::Left),
        gain(g, Direction::Down) == gain(transpose(g), Direction::Right),
        wins(g, Direction::Up) == wins(transpose(g), Direction::Left),
        wins(g, Direction::Down) == wins(transpose(g), Direction::Right),
{
    let t = transpose(g);
    assert forall|i: int| 0 <= i < 4 implies line(t, Direction::Left, i) == line(
        g,
        Direction::Up,
        i,
    ) && line(t, Direction::Right, i) == line(g, Direction::Down, i) by {
        assert(line(t, Direction::Left, i) =~= line(g, Direction::Up, i));
        assert(line(t, Direction::Right, i) =~= line(g, Direction::Down, i));
    }
    crate::game::board::lemma_same_lines(t, Direction::Left, g, Direction::Up);
    crate::game::board::lemma_same_lines(t, Direction::Right, g, Direction::Down);
    assert(slid(g, Direction::Up) =~~= transpose(slid(t, Direction::Left)));
    assert(slid(g, Direction::Down) =~~= transpose(slid(t, Direction::Right)));
}

} // verus!
