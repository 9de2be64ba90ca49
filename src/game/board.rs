//! The mathematical model of the board: a 4x4 grid of integers, where 0 is an
//! empty cell, together with the effect of each move on it.

use vstd::prelude::*;

verus! {

/// The raw board: `b[r][c]` is the tile in row `r`, column `c`.
pub type Board = [[u16; 4]; 4];

/// A row of raw cells as integers.
pub open spec fn ints(s: Seq<u16>) -> Seq<int> {
    s.map_values(|x: u16| x as int)
}

/// The board as a grid of integers, row by row.
pub open spec fn grid(b: Board) -> Seq<Seq<int>> {
    Seq::new(4, |i: int| ints(b@[i]@))
}

/// The tiles of a row in order, with the empty cells taken out.
pub open spec fn compact(r: Seq<int>) -> Seq<int>
    decreases r.len(),
{
    if r.len() == 0 {
        r
    } else if r.last() != 0 {
        compact(r.drop_last()).push(r.last())
    } else {
        compact(r.drop_last())
    }
}

/// One greedy left-to-right merge pass over a row without empty cells: each
/// pair of equal neighbours becomes one tile of twice the value, and a tile
/// takes part in at most one merge.
pub open spec fn merge(s: Seq<int>) -> Seq<int>
    decreases s.len(),
{
    if s.len() < 2 {
        s
    } else if s[0] == s[1] {
        seq![2 * s[0]] + merge(s.skip(2))
    } else {
        seq![s[0]] + merge(s.skip(1))
    }
}

/// The points that `merge` earns: the sum of the values that its merges make.
pub open spec fn merge_gain(s: Seq<int>) -> int
    decreases s.len(),
{
    if s.len() < 2 {
        0
    } else if s[0] == s[1] {
        2 * s[0] + merge_gain(s.skip(2))
    } else {
        merge_gain(s.skip(1))
    }
}

/// Whether one of the merges of `merge` makes a tile of value `v`.
pub open spec fn merge_makes(s: Seq<int>, v: int) -> bool
    decreases s.len(),
{
    if s.len() < 2 {
        false
    } else if s[0] == s[1] {
        2 * s[0] == v || merge_makes(s.skip(2), v)
    } else {
        merge_makes(s.skip(1), v)
    }
}

/// `s` followed by empty cells up to length `n`.
pub open spec fn pad(s: Seq<int>, n: int) -> Seq<int> {
    s + Seq::new((n - s.len()) as nat, |i: int| 0int)
}

/// A row after sliding it to the left.
pub open spec fn slide(r: Seq<int>) -> Seq<int> {
    pad(merge(compact(r)), r.len() as int)
}

/// The points that sliding row `r` to the left earns.
pub open spec fn row_gain(r: Seq<int>) -> int {
    merge_gain(compact(r))
}

/// Whether sliding row `r` to the left makes a winning tile.
pub open spec fn row_wins(r: Seq<int>) -> bool {
    merge_makes(compact(r), WIN_TILE as int)
}

/// Whether every tile that sliding row `r` to the left makes fits in a cell.
pub open spec fn row_fits(r: Seq<int>) -> bool {
    forall|k: int| 0 <= k < merge(compact(r)).len() ==> #[trigger] merge(compact(r))[k] <= u16::MAX
}

/// The tile value whose creation by a merge wins the game.
pub const WIN_TILE: u16 = 2048;

/// Element-wise widening of a sequence of `u32` to integers.
pub open spec fn wide(s: Seq<u32>) -> Seq<int> {
    s.map_values(|x: u32| x as int)
}

/// Every element of `s` is a value that a cell can hold.
pub open spec fn cell_values(s: Seq<int>) -> bool {
    forall|k: int| 0 <= k < s.len() ==> 0 <= #[trigger] s[k] <= u16::MAX
}

/// Bounds on `merge` and `merge_gain` over rows of cell values.
pub proof fn lemma_merge_bounds(s: Seq<int>)
    requires
        cell_values(s),
    ensures
        merge(s).len() <= s.len(),
        forall|k: int| 0 <= k < merge(s).len() ==> 0 <= #[trigger] merge(s)[k] <= 2 * u16::MAX,
        0 <= merge_gain(s) <= 2 * u16::MAX * s.len(),
    decreases s.len(),
{
    if s.len() >= 2 {
        let t = if s[0] == s[1] { s.skip(2) } else { s.skip(1) };
        lemma_merge_bounds(t);
        assert forall|k: int| 0 <= k < merge(t).len() implies #[trigger] merge(t)[k]
            == merge(s)[k + 1] by {}
    }
}

/// Compaction keeps cell values and never lengthens a row.
pub proof fn lemma_compact_bounds(r: Seq<int>)
    requires
        cell_values(r),
    ensures
        compact(r).len() <= r.len(),
        cell_values(compact(r)),
    decreases r.len(),
{
    if r.len() > 0 {
        lemma_compact_bounds(r.drop_last());
    }
}

/// The four directions in which the tiles can be pushed.
#[derive(Clone, Copy, Debug, PartialEq, Eq, Structural)]
pub enum Direction {
    Up,
    Down,
    Left,
    Right,
}

/// Column `j` of grid `g`, top to bottom.
pub open spec fn column(g: Seq<Seq<int>>, j: int) -> Seq<int> {
    Seq::new(4, |i: int| g[i][j])
}

/// The `i`-th line that a move in direction `d` slides, listed in the order in
/// which its tiles travel: rows for left and right, columns for up and down,
/// reversed where the tiles travel toward the end.
pub open spec fn line(g: Seq<Seq<int>>, d: Direction, i: int) -> Seq<int> {
    match d {
        Direction::Left => g[i],
        Direction::Right => g[i].reverse(),
        Direction::Up => column(g, i),
        Direction::Down => column(g, i).reverse(),
    }
}

/// The grid after a move in direction `d`.
pub open spec fn slid(g: Seq<Seq<int>>, d: Direction) -> Seq<Seq<int>> {
    match d {
        Direction::Left => Seq::new(4, |i: int| slide(g[i])),
        Direction::Right => Seq::new(4, |i: int| slide(g[i].reverse()).reverse()),
        Direction::Up => Seq::new(4, |i: int| Seq::new(4, |j: int| slide(column(g, j))[i])),
        Direction::Down => Seq::new(
            4,
            |i: int| Seq::new(4, |j: int| slide(column(g, j).reverse()).reverse()[i]),
        ),
    }
}

/// The points that a move in direction `d` earns on its first `n` lines.
pub open spec fn gain_upto(g: Seq<Seq<int>>, d: Direction, n: int) -> int
    decreases n,
{
    if n <= 0 {
        0
    } else {
        gain_upto(g, d, n - 1) + row_gain(line(g, d, n - 1))
    }
}

/// The points that a move in direction `d` earns.
pub open spec fn gain(g: Seq<Seq<int>>, d: Direction) -> int {
    gain_upto(g, d, 4)
}

/// Whether a move in direction `d` makes a winning tile by a merge.
pub open spec fn wins(g: Seq<Seq<int>>, d: Direction) -> bool {
    exists|i: int| 0 <= i < 4 && row_wins(#[trigger] line(g, d, i))
}

/// Whether a move in direction `d` from score `score` keeps every tile within
/// a cell and the score within `u32`.
pub open spec fn fits(g: Seq<Seq<int>>, score: int, d: Direction) -> bool {
    &&& forall|i: int| 0 <= i < 4 ==> row_fits(#[trigger] line(g, d, i))
    &&& score + gain(g, d) <= u32::MAX
}

/// Every cell of grid `g` holds a value that a cell can hold.
pub open spec fn grid_cells(g: Seq<Seq<int>>) -> bool {
    &&& g.len() == 4
    &&& forall|i: int| 0 <= i < 4 ==> (#[trigger] g[i]).len() == 4 && cell_values(g[i])
}

/// `grid` of a raw board is a 4x4 grid of cell values.
pub proof fn lemma_grid_cells(b: Board)
    ensures
        grid_cells(grid(b)),
{
    assert forall|i: int| 0 <= i < 4 implies (#[trigger] grid(b)[i]).len() == 4 && cell_values(
        grid(b)[i],
    ) by {
        let r = grid(b)[i];
        assert forall|k: int| 0 <= k < r.len() implies 0 <= #[trigger] r[k] <= u16::MAX by {
            assert(r[k] == b@[i]@[k] as int);
        }
    }
}

/// Every line of a grid of cell values has four cell values.
pub proof fn lemma_line_cells(g: Seq<Seq<int>>, d: Direction, i: int)
    requires
        grid_cells(g),
        0 <= i < 4,
    ensures
        line(g, d, i).len() == 4,
        cell_values(line(g, d, i)),
{
    let l = line(g, d, i);
    assert(g[i].len() == 4 && cell_values(g[i]));
    assert forall|k: int| 0 <= k < l.len() implies 0 <= #[trigger] l[k] <= u16::MAX by {
        match d {
            Direction::Left => {},
            Direction::Right => {
                assert(l[k] == g[i][3 - k]);
            },
            Direction::Up => {
                assert(g[k].len() == 4 && cell_values(g[k]));
            },
            Direction::Down => {
                assert(g[3 - k].len() == 4 && cell_values(g[3 - k]));
            },
        }
    }
}

/// The points of a move never decrease as more lines are counted.
pub proof fn lemma_gain_grows(g: Seq<Seq<int>>, d: Direction, n: int)
    requires
        grid_cells(g),
        0 <= n <= 4,
    ensures
        0 <= gain_upto(g, d, n) <= gain(g, d),
    decreases 4 - n,
{
    lemma_gain_upto_nonneg(g, d, n);
    if n < 4 {
        lemma_gain_grows(g, d, n + 1);
        lemma_line_cells(g, d, n);
        lemma_compact_bounds(line(g, d, n));
        lemma_merge_bounds(compact(line(g, d, n)));
    }
}

proof fn lemma_gain_upto_nonneg(g: Seq<Seq<int>>, d: Direction, n: int)
    requires
        grid_cells(g),
        0 <= n <= 4,
    ensures
        0 <= gain_upto(g, d, n),
    decreases n,
{
    if n > 0 {
        lemma_gain_upto_nonneg(g, d, n - 1);
        lemma_line_cells(g, d, n - 1);
        lemma_compact_bounds(line(g, d, n - 1));
        lemma_merge_bounds(compact(line(g, d, n - 1)));
    }
}

/// Grid `g` with every row reversed.
pub open spec fn mirror(g: Seq<Seq<int>>) -> Seq<Seq<int>> {
    Seq::new(4, |i: int| g[i].reverse())
}

/// Grid `g` swapped across its main diagonal.
pub open spec fn transpose(g: Seq<Seq<int>>) -> Seq<Seq<int>> {
    Seq::new(4, |i: int| Seq::new(4, |j: int| g[j][i]))
}

/// Two moves that slide the same lines earn the same points, win alike and
/// fit alike.
pub proof fn lemma_same_lines(g1: Seq<Seq<int>>, d1: Direction, g2: Seq<Seq<int>>, d2: Direction)
    requires
        forall|i: int| 0 <= i < 4 ==> line(g1, d1, i) == line(g2, d2, i),
    ensures
        gain(g1, d1) == gain(g2, d2),
        wins(g1, d1) == wins(g2, d2),
        forall|score: int| fits(g1, score, d1) == fits(g2, score, d2),
{
    assert(gain_upto(g1, d1, 0) == gain_upto(g2, d2, 0));
    assert(line(g1, d1, 0) == line(g2, d2, 0) && line(g1, d1, 1) == line(g2, d2, 1));
    assert(line(g1, d1, 2) == line(g2, d2, 2) && line(g1, d1, 3) == line(g2, d2, 3));
    assert(gain_upto(g1, d1, 1) == gain_upto(g2, d2, 1));
    assert(gain_upto(g1, d1, 2) == gain_upto(g2, d2, 2));
    assert(gain_upto(g1, d1, 3) == gain_upto(g2, d2, 3));
    assert(gain_upto(g1, d1, 4) == gain_upto(g2, d2, 4));
    if wins(g1, d1) {
        let i = choose|i: int| 0 <= i < 4 && row_wins(#[trigger] line(g1, d1, i));
        assert(row_wins(line(g2, d2, i)));
    }
    if wins(g2, d2) {
        let i = choose|i: int| 0 <= i < 4 && row_wins(#[trigger] line(g2, d2, i));
        assert(row_wins(line(g1, d1, i)));
    }
}

/// Whether cell `(r, c)` of grid `g` is empty.
pub open spec fn empty_at(g: Seq<Seq<int>>, r: int, c: int) -> bool {
    0 <= r < 4 && 0 <= c < 4 && g[r][c] == 0
}

/// Whether cell `(r, c)` of grid `g` holds the same value as its right-hand
/// or its lower neighbour.
pub open spec fn pair_at(g: Seq<Seq<int>>, r: int, c: int) -> bool {
    &&& 0 <= r < 4
    &&& 0 <= c < 4
    &&& (c < 3 && g[r][c] == g[r][c + 1]) || (r < 3 && g[r][c] == g[r + 1][c])
}

/// Whether some move is available on grid `g`: a cell is empty, or two
/// neighbours in a row or in a column hold the same value.
pub open spec fn has_move(g: Seq<Seq<int>>) -> bool {
    (exists|r: int, c: int| #[trigger] empty_at(g, r, c)) || (exists|r: int, c: int|
        #[trigger] pair_at(g, r, c))
}

/// The empty cells among the first `n` cells of grid `g` in row-major order.
pub open spec fn empties_upto(g: Seq<Seq<int>>, n: int) -> Seq<(int, int)>
    decreases n,
{
    if n <= 0 {
        Seq::empty()
    } else {
        let p = ((n - 1) / 4, (n - 1) % 4);
        if g[p.0][p.1] == 0 {
            empties_upto(g, n - 1).push(p)
        } else {
            empties_upto(g, n - 1)
        }
    }
}

/// The empty cells of grid `g`, as (row, column) in row-major order.
pub open spec fn empties(g: Seq<Seq<int>>) -> Seq<(int, int)> {
    empties_upto(g, 16)
}

/// Grid `g` with cell `p` set to `v`.
pub open spec fn put(g: Seq<Seq<int>>, p: (int, int), v: int) -> Seq<Seq<int>> {
    g.update(p.0, g[p.0].update(p.1, v))
}

/// The value of a spawned tile for a roll drawn from `0..10`: nine rolls in
/// ten give a 2, the last gives a 4.
pub open spec fn tile_for(roll: int) -> int {
    if roll < 9 {
        2
    } else {
        4
    }
}

/// `next` is `g` with one of its empty cells set to 2 or 4, or `g` itself
/// where no cell is empty.
pub open spec fn spawned(g: Seq<Seq<int>>, next: Seq<Seq<int>>) -> bool {
    if empties(g).len() == 0 {
        next == g
    } else {
        exists|k: int, v: int|
            0 <= k < empties(g).len() && (v == 2 || v == 4) && next == #[trigger] put(
                g,
                empties(g)[k],
                v,
            )
    }
}

/// Every listed empty cell is in range and empty, listed cells are in
/// row-major order below `n`, and every empty cell below `n` is listed.
pub proof fn lemma_empties(g: Seq<Seq<int>>, n: int)
    requires
        0 <= n <= 16,
    ensures
        forall|k: int|
            0 <= k < empties_upto(g, n).len() ==> {
                let p = #[trigger] empties_upto(g, n)[k];
                empty_at(g, p.0, p.1) && 4 * p.0 + p.1 < n
            },
        forall|r: int, c: int|
            empty_at(g, r, c) && 4 * r + c < n ==> empties_upto(g, n).contains((r, c)),
    decreases n,
{
    if n > 0 {
        lemma_empties(g, n - 1);
        let prev = empties_upto(g, n - 1);
        let p = ((n - 1) / 4, (n - 1) % 4);
        assert(4 * p.0 + p.1 == n - 1);
        assert forall|r: int, c: int| empty_at(g, r, c) && 4 * r + c < n implies empties_upto(
            g,
            n,
        ).contains((r, c)) by {
            if 4 * r + c == n - 1 {
                assert(r == p.0 && c == p.1);
                assert(empties_upto(g, n).last() == (r, c));
            } else {
                let k = choose|k: int| 0 <= k < prev.len() && prev[k] == (r, c);
                assert(empties_upto(g, n)[k] == (r, c));
            }
        }
    }
}

/// Whether `v` is a tile value: a power of two, at least 2.
pub open spec fn is_tile(v: int) -> bool
    decreases v,
{
    if v <= 2 {
        v == 2
    } else {
        v % 2 == 0 && is_tile(v / 2)
    }
}

/// Every cell of `r` is empty or holds a tile value.
pub open spec fn tiles_row(r: Seq<int>) -> bool {
    forall|k: int| 0 <= k < r.len() ==> #[trigger] r[k] == 0 || is_tile(r[k])
}

/// Every cell of the 4x4 grid `g` is empty or holds a tile value.
pub open spec fn tiles_ok(g: Seq<Seq<int>>) -> bool {
    forall|r: int, c: int| 0 <= r < 4 && 0 <= c < 4 ==> #[trigger] g[r][c] == 0 || is_tile(g[r][c])
}

/// Sliding a row of tile values gives a row of tile values.
proof fn lemma_slide_tiles(r: Seq<int>)
    requires
        tiles_row(r),
        cell_values(r),
    ensures
        tiles_row(slide(r)),
{
    lemma_compact_tiles(r);
    lemma_merge_tiles(compact(r));
    lemma_compact_bounds(r);
    lemma_merge_bounds(compact(r));
    let m = merge(compact(r));
    assert forall|k: int| 0 <= k < slide(r).len() implies #[trigger] slide(r)[k] == 0 || is_tile(
        slide(r)[k],
    ) by {
        if k < m.len() {
            assert(slide(r)[k] == m[k]);
        }
    }
}

/// Compaction of a row of tile values keeps only tile values.
proof fn lemma_compact_tiles(r: Seq<int>)
    requires
        tiles_row(r),
    ensures
        forall|k: int| 0 <= k < compact(r).len() ==> is_tile(#[trigger] compact(r)[k]),
    decreases r.len(),
{
    if r.len() > 0 {
        let d = r.drop_last();
        assert forall|k: int| 0 <= k < d.len() implies #[trigger] d[k] == 0 || is_tile(d[k]) by {
            assert(d[k] == r[k]);
        }
        lemma_compact_tiles(d);
        assert(r.last() == r[r.len() - 1]);
        let c = compact(r);
        assert forall|k: int| 0 <= k < c.len() implies is_tile(#[trigger] c[k]) by {
            if r.last() != 0 && k == c.len() - 1 {
                assert(c[k] == r.last());
            } else {
                assert(c[k] == compact(d)[k]);
            }
        }
    }
}

/// A merge pass over tile values makes only tile values.
proof fn lemma_merge_tiles(s: Seq<int>)
    requires
        forall|k: int| 0 <= k < s.len() ==> is_tile(#[trigger] s[k]),
    ensures
        forall|k: int| 0 <= k < merge(s).len() ==> is_tile(#[trigger] merge(s)[k]),
    decreases s.len(),
{
    if s.len() >= 2 {
        let t = if s[0] == s[1] { s.skip(2) } else { s.skip(1) };
        assert forall|k: int| 0 <= k < t.len() implies is_tile(#[trigger] t[k]) by {
            assert(t[k] == s[k + s.len() - t.len()]);
        }
        lemma_merge_tiles(t);
        assert(is_tile(s[0]));
        assert(is_tile(2 * s[0])) by {
            assert((2 * s[0]) / 2 == s[0]);
        }
        assert forall|k: int| 0 <= k < merge(s).len() implies is_tile(#[trigger] merge(s)[k]) by {
            if k > 0 {
                assert(merge(s)[k] == merge(t)[k - 1]);
            }
        }
    }
}

/// A move keeps every cell empty or a tile value.
pub proof fn lemma_slid_tiles(g: Seq<Seq<int>>, d: Direction)
    requires
        grid_cells(g),
        tiles_ok(g),
    ensures
        tiles_ok(slid(g, d)),
{
    assert forall|i: int| 0 <= i < 4 implies tiles_row(#[trigger] line(g, d, i)) && slide(
        line(g, d, i),
    ).len() == 4 && tiles_row(slide(line(g, d, i))) by {
        let l = line(g, d, i);
        lemma_line_cells(g, d, i);
        assert forall|k: int| 0 <= k < l.len() implies #[trigger] l[k] == 0 || is_tile(l[k]) by {
            match d {
                Direction::Left => assert(l[k] == g[i][k]),
                Direction::Right => assert(l[k] == g[i][3 - k]),
                Direction::Up => assert(l[k] == g[k][i]),
                Direction::Down => assert(l[k] == g[3 - k][i]),
            }
        }
        lemma_slide_tiles(l);
        lemma_compact_bounds(l);
        lemma_merge_bounds(compact(l));
    }
    let h = slid(g, d);
    assert forall|r: int, c: int| 0 <= r < 4 && 0 <= c < 4 implies #[trigger] h[r][c] == 0 || is_tile(
        h[r][c],
    ) by {
        match d {
            Direction::Left => {
                assert(tiles_row(slide(line(g, d, r))));
                assert(h[r][c] == slide(line(g, d, r))[c]);
            },
            Direction::Right => {
                assert(tiles_row(slide(line(g, d, r))));
                assert(h[r][c] == slide(line(g, d, r))[3 - c]);
            },
            Direction::Up => {
                assert(tiles_row(slide(line(g, d, c))));
                assert(h[r][c] == slide(line(g, d, c))[r]);
            },
            Direction::Down => {
                assert(tiles_row(slide(line(g, d, c))));
                assert(h[r][c] == slide(line(g, d, c))[3 - r]);
            },
        }
    }
}

/// Spawning a tile keeps every cell empty or a tile value.
pub proof fn lemma_spawned_tiles(g: Seq<Seq<int>>, next: Seq<Seq<int>>)
    requires
        grid_cells(g),
        tiles_ok(g),
        spawned(g, next),
    ensures
        tiles_ok(next),
{
    if empties(g).len() > 0 {
        let (k, v) = choose|k: int, v: int|
            0 <= k < empties(g).len() && (v == 2 || v == 4) && next == #[trigger] put(
                g,
                empties(g)[k],
                v,
            );
        lemma_empties(g, 16);
        let p = empties(g)[k];
        assert(is_tile(4int)) by {
            assert(is_tile(2int));
        }
        assert forall|r: int, c: int| 0 <= r < 4 && 0 <= c < 4 implies #[trigger] next[r][c] == 0
            || is_tile(next[r][c]) by {
            if (r, c) != p {
                assert(next[r][c] == g[r][c]);
            }
        }
    }
}

/// 1 for a tile, 0 for an empty cell.
pub open spec fn nz(x: int) -> int {
    if x != 0 {
        1
    } else {
        0
    }
}

/// The number of tiles in a line of four cells.
pub open spec fn line_tiles(r: Seq<int>) -> int {
    nz(r[0]) + nz(r[1]) + nz(r[2]) + nz(r[3])
}

/// The number of tiles on grid `g`.
pub open spec fn tile_count(g: Seq<Seq<int>>) -> int {
    line_tiles(g[0]) + line_tiles(g[1]) + line_tiles(g[2]) + line_tiles(g[3])
}

/// A merge pass over positive values makes only positive values.
proof fn lemma_merge_positive(s: Seq<int>)
    requires
        forall|k: int| 0 <= k < s.len() ==> #[trigger] s[k] > 0,
    ensures
        forall|k: int| 0 <= k < merge(s).len() ==> #[trigger] merge(s)[k] > 0,
    decreases s.len(),
{
    if s.len() >= 2 {
        let t = if s[0] == s[1] { s.skip(2) } else { s.skip(1) };
        assert forall|k: int| 0 <= k < t.len() implies #[trigger] t[k] > 0 by {
            assert(t[k] == s[k + s.len() - t.len()]);
        }
        lemma_merge_positive(t);
        assert forall|k: int| 0 <= k < merge(s).len() implies #[trigger] merge(s)[k] > 0 by {
            if k > 0 {
                assert(merge(s)[k] == merge(t)[k - 1]);
            }
        }
    }
}

/// Sliding a line never adds a tile.
proof fn lemma_slide_tiles_count(l: Seq<int>)
    requires
        l.len() == 4,
        cell_values(l),
    ensures
        slide(l).len() == 4,
        line_tiles(slide(l)) <= line_tiles(l),
{
    let d1 = l.drop_last();
    let d2 = d1.drop_last();
    let d3 = d2.drop_last();
    let d4 = d3.drop_last();
    assert(d4.len() == 0);
    assert(d3.last() == l[0] && d2.last() == l[1] && d1.last() == l[2] && l.last() == l[3]);
    assert(compact(d4).len() == 0);
    assert(compact(d3).len() == nz(l[0]));
    assert(compact(d2).len() == compact(d3).len() + nz(l[1]));
    assert(compact(d1).len() == compact(d2).len() + nz(l[2]));
    assert(compact(l).len() == compact(d1).len() + nz(l[3]));
    assert(compact(l).len() == line_tiles(l));
    let c = compact(l);
    lemma_compact_bounds(l);
    assert forall|k: int| 0 <= k < c.len() implies #[trigger] c[k] > 0 by {
        lemma_compact_nonzero(l);
    }
    lemma_merge_positive(c);
    lemma_merge_bounds(c);
    let m = merge(c);
    let p = slide(l);
    assert(forall|k: int| 0 <= k < 4 ==> (#[trigger] p[k] != 0 <==> k < m.len())) by {
        assert forall|k: int| 0 <= k < 4 implies (#[trigger] p[k] != 0 <==> k < m.len()) by {
            if k < m.len() {
                assert(p[k] == m[k]);
            }
        }
    }
    assert(line_tiles(p) == m.len());
}

/// Compaction keeps only tiles.
proof fn lemma_compact_nonzero(r: Seq<int>)
    ensures
        forall|k: int| 0 <= k < compact(r).len() ==> #[trigger] compact(r)[k] != 0,
    decreases r.len(),
{
    if r.len() > 0 {
        lemma_compact_nonzero(r.drop_last());
        let c = compact(r);
        assert forall|k: int| 0 <= k < c.len() implies #[trigger] c[k] != 0 by {
            if r.last() != 0 && k == c.len() - 1 {
            } else {
                assert(c[k] == compact(r.drop_last())[k]);
            }
        }
    }
}

/// A move never adds a tile: each merge removes one.
pub proof fn lemma_move_never_adds_tiles(g: Seq<Seq<int>>, d: Direction)
    requires
        grid_cells(g),
    ensures
        tile_count(slid(g, d)) <= tile_count(g),
{
    let h = slid(g, d);
    assert forall|i: int| 0 <= i < 4 implies line_tiles(slide(#[trigger] line(g, d, i)))
        <= line_tiles(line(g, d, i)) && slide(line(g, d, i)).len() == 4 by {
        lemma_line_cells(g, d, i);
        lemma_slide_tiles_count(line(g, d, i));
    }
    let a0 = slide(line(g, d, 0));
    let a1 = slide(line(g, d, 1));
    let a2 = slide(line(g, d, 2));
    let a3 = slide(line(g, d, 3));
    assert(g[0].len() == 4 && g[1].len() == 4 && g[2].len() == 4 && g[3].len() == 4);
    match d {
        Direction::Left => {},
        Direction::Right => {
            assert(line_tiles(h[0]) == line_tiles(a0));
            assert(line_tiles(h[1]) == line_tiles(a1));
            assert(line_tiles(h[2]) == line_tiles(a2));
            assert(line_tiles(h[3]) == line_tiles(a3));
        },
        Direction::Up => {
            assert(tile_count(h) == line_tiles(a0) + line_tiles(a1) + line_tiles(a2) + line_tiles(
                a3,
            ));
            assert(tile_count(g) == line_tiles(line(g, d, 0)) + line_tiles(line(g, d, 1))
                + line_tiles(line(g, d, 2)) + line_tiles(line(g, d, 3)));
        },
        Direction::Down => {
            assert(tile_count(h) == line_tiles(a0) + line_tiles(a1) + line_tiles(a2) + line_tiles(
                a3,
            ));
            assert(tile_count(g) == line_tiles(line(g, d, 0)) + line_tiles(line(g, d, 1))
                + line_tiles(line(g, d, 2)) + line_tiles(line(g, d, 3)));
        },
    }
}

/// Spawning on a grid with an empty cell adds exactly one tile.
pub proof fn lemma_spawn_adds_one_tile(g: Seq<Seq<int>>, next: Seq<Seq<int>>)
    requires
        grid_cells(g),
        spawned(g, next),
        empties(g).len() > 0,
    ensures
        tile_count(next) == tile_count(g) + 1,
{
    let (k, v) = choose|k: int, v: int|
        0 <= k < empties(g).len() && (v == 2 || v == 4) && next == #[trigger] put(
            g,
            empties(g)[k],
            v,
        );
    lemma_empties(g, 16);
    let p = empties(g)[k];
    assert(empty_at(g, p.0, p.1));
    assert(line_tiles(next[p.0]) == line_tiles(g[p.0]) + 1);
    assert(tile_count(next) == tile_count(g) + 1);
}

} // verus!
