//! The game engine: a 4x4 board, its score and its flags, and the moves on it.

use rand::Rng;
use vstd::prelude::*;
use crate::game::board::{
    cell_values, compact, empties, empties_upto, empty_at, fits, gain, gain_upto, grid, has_move,
    ints, is_tile, lemma_compact_bounds, lemma_empties, lemma_gain_grows, lemma_grid_cells,
    lemma_line_cells, lemma_merge_bounds, lemma_same_lines, lemma_slid_tiles, lemma_spawned_tiles,
    line, merge, merge_gain, merge_makes, mirror, pair_at, put, row_fits, row_gain, row_wins, slid,
    slide, spawned, tile_for, tiles_ok, transpose, wide, wins, Board, Direction, WIN_TILE,
};

verus! {

/// The state of one game: the board, the score and the two flags.
pub struct GameLogic {
    /// The 4x4 grid; `board[r][c]` is the tile in row `r`, column `c`, and 0
    /// is an empty cell.
    pub board: Board,
    /// The points earned so far: the sum of the values made by merges.
    pub score: u32,
    /// Set once no move is possible; no move changes the game afterwards.
    pub game_over: bool,
    /// Set once a merge has made the winning tile; never cleared.
    pub won: bool,
}

/// Relies on rand's `thread_rng().gen_range(0..n)`: a value drawn from
/// `0..n`. It panics on an empty range, which `requires` leaves out.
#[verifier::external_body]
fn random_below(n: usize) -> (r: usize)
    requires
        n > 0,
    ensures
        r < n,
{
    rand::thread_rng().gen_range(0..n)
}

/// Cell coordinates as integers.
pub open spec fn coords(s: Seq<(usize, usize)>) -> Seq<(int, int)> {
    s.map_values(|p: (usize, usize)| (p.0 as int, p.1 as int))
}

/// Whether `(r, c)` lies on a 4x4 board.
pub open spec fn on_board(p: (int, int)) -> bool {
    0 <= p.0 < 4 && 0 <= p.1 < 4
}

/// Grid `g` holds exactly two tiles, at two distinct cells, each a 2 or a 4.
pub open spec fn is_opening(g: Seq<Seq<int>>) -> bool {
    exists|p: (int, int), q: (int, int)|
        {
            &&& p != q
            &&& on_board(p)
            &&& on_board(q)
            &&& (#[trigger] g[p.0][p.1] == 2 || g[p.0][p.1] == 4)
            &&& (#[trigger] g[q.0][q.1] == 2 || g[q.0][q.1] == 4)
            &&& forall|r: int, c: int|
                on_board((r, c)) && (r, c) != p && (r, c) != q ==> #[trigger] g[r][c] == 0
        }
}

impl GameLogic {
    /// A new game: two tiles spawned on an empty board, score 0, both flags
    /// clear.
    pub fn new() -> (game: Self)
        ensures
            is_opening(game.cells()),
            tiles_ok(game.cells()),
            game.score == 0,
            !game.won,
            !game.game_over,
    {
        let mut game = GameLogic {
            board: [[0, 0, 0, 0], [0, 0, 0, 0], [0, 0, 0, 0], [0, 0, 0, 0]],
            score: 0,
            game_over: false,
            won: false,
        };
        let ghost g0 = game.cells();
        proof {
            lemma_empties(g0, 16);
            assert(empty_at(g0, 0, 0));
            assert(empties(g0).contains((0, 0)));
        }
        game.add_random_tile();
        let ghost g1 = game.cells();
        let ghost (k1, v1) = choose|k: int, v: int|
            0 <= k < empties(g0).len() && (v == 2 || v == 4) && g1 == #[trigger] put(
                g0,
                empties(g0)[k],
                v,
            );
        let ghost p = empties(g0)[k1];
        proof {
            let z = if p == (0int, 0int) { (0int, 1int) } else { (0int, 0int) };
            assert(empty_at(g1, z.0, z.1));
            lemma_empties(g1, 16);
            assert(empties(g1).contains(z));
        }
        game.add_random_tile();
        let ghost g2 = game.cells();
        proof {
            let (k2, v2) = choose|k: int, v: int|
                0 <= k < empties(g1).len() && (v == 2 || v == 4) && g2 == #[trigger] put(
                    g1,
                    empties(g1)[k],
                    v,
                );
            let q = empties(g1)[k2];
            assert(empty_at(g1, q.0, q.1));
            assert(g2[p.0][p.1] == v1);
            assert(g2[q.0][q.1] == v2);
            assert forall|r: int, c: int|
                on_board((r, c)) && (r, c) != p && (r, c) != q implies #[trigger] g2[r][c] == 0 by {
                assert(g1[r][c] == 0);
            }
            assert(is_tile(4int)) by {
                assert(is_tile(2int));
            }
            assert forall|r: int, c: int| 0 <= r < 4 && 0 <= c < 4 implies #[trigger] g2[r][c] == 0
                || is_tile(g2[r][c]) by {
                if (r, c) != p && (r, c) != q {
                    assert(g1[r][c] == 0);
                }
            }
        }
        game
    }

    /// The empty cells of the board, as (row, column) in row-major order.
    fn empty_cells(&self) -> (cells: Vec<(usize, usize)>)
        ensures
            coords(cells@) == empties(self.cells()),
    {
        let ghost g = self.cells();
        let mut cells: Vec<(usize, usize)> = Vec::new();
        for r in 0..4
            invariant
                g == self.cells(),
                coords(cells@) == empties_upto(g, 4 * r as int),
        {
            for c in 0..4
                invariant
                    g == self.cells(),
                    r < 4,
                    coords(cells@) == empties_upto(g, 4 * r as int + c as int),
            {
                assert((4 * r as int + c as int) / 4 == r as int && (4 * r as int + c as int) % 4 == c as int);
                assert(g[r as int][c as int] == self.board[r as int][c as int] as int);
                if self.board[r][c] == 0 {
                    cells.push((r, c));
                    assert(coords(cells@) =~= coords(cells@.drop_last()).push((r as int, c as int)));
                }
            }
        }
        cells
    }

    /// Sets the `pick`-th empty cell, in row-major order, to the tile that
    /// `roll` gives: a 2 for a roll below 9, a 4 otherwise. A `pick` beyond
    /// the empty cells leaves the game as it is.
    pub fn place_tile(&mut self, pick: usize, roll: usize)
        ensures
            pick < empties(old(self).cells()).len() ==> final(self).cells() == put(
                old(self).cells(),
                empties(old(self).cells())[pick as int],
                tile_for(roll as int),
            ),
            pick >= empties(old(self).cells()).len() ==> final(self).cells() == old(
                self,
            ).cells(),
            final(self).score == old(self).score,
            final(self).won == old(self).won,
            final(self).game_over == old(self).game_over,
    {
        let cells = self.empty_cells();
        if pick < cells.len() {
            let (r, c) = cells[pick];
            let value: u16 = if roll < 9 {
                2
            } else {
                4
            };
            proof {
                lemma_empties(self.cells(), 16);
                assert(coords(cells@)[pick as int] == (r as int, c as int));
            }
            let ghost g = self.cells();
            let mut row = self.board[r];
            row[c] = value;
            self.board[r] = row;
            assert(self.cells() =~~= put(g, (r as int, c as int), tile_for(roll as int)));
        }
    }

    /// Spawns a tile on an empty cell chosen uniformly at random: a 2 with
    /// probability nine in ten, else a 4. A full board is left as it is.
    pub fn add_random_tile(&mut self)
        ensures
            spawned(old(self).cells(), final(self).cells()),
            tiles_ok(old(self).cells()) ==> tiles_ok(final(self).cells()),
            final(self).score == old(self).score,
            final(self).won == old(self).won,
            final(self).game_over == old(self).game_over,
    {
        let count = self.empty_cells().len();
        if count == 0 {
            return;
        }
        let pick = random_below(count);
        let roll = random_below(10);
        let ghost g = self.cells();
        self.place_tile(pick, roll);
        assert(self.cells() == put(g, empties(g)[pick as int], tile_for(roll as int)));
        proof {
            lemma_grid_cells(old(self).board);
            if tiles_ok(g) {
                lemma_spawned_tiles(g, self.cells());
            }
        }
    }

    /// The `i`-th line that a move in direction `d` slides, in the order in
    /// which its tiles travel.
    fn line_of(&self, d: Direction, i: usize) -> (l: [u16; 4])
        requires
            i < 4,
        ensures
            ints(l@) == line(self.cells(), d, i as int),
    {
        let b = &self.board;
        let l = match d {
            Direction::Left => [b[i][0], b[i][1], b[i][2], b[i][3]],
            Direction::Right => [b[i][3], b[i][2], b[i][1], b[i][0]],
            Direction::Up => [b[0][i], b[1][i], b[2][i], b[3][i]],
            Direction::Down => [b[3][i], b[2][i], b[1][i], b[0][i]],
        };
        assert(ints(l@) =~= line(self.cells(), d, i as int));
        l
    }

    /// Whether a move in direction `d` keeps every tile within a cell and the
    /// score within `u32`: the condition under which the moves may be called.
    pub fn fits(&self, d: Direction) -> (r: bool)
        ensures
            r == self.move_fits(d),
    {
        if self.game_over {
            return true;
        }
        let ghost g = self.cells();
        proof {
            lemma_grid_cells(self.board);
        }
        let mut total: u64 = 0;
        for i in 0..4
            invariant
                g == self.cells(),
                !self.game_over,
                total == gain_upto(g, d, i as int),
                total <= 524280 * (i as int),
                forall|k: int| 0 <= k < i ==> row_fits(#[trigger] line(g, d, k)),
        {
            let l = self.line_of(d, i);
            let (wide_row, points, _) = slide_row(l);
            let ghost m = merge(compact(ints(l@)));
            proof {
                lemma_line_cells(g, d, i as int);
                lemma_compact_bounds(ints(l@));
                lemma_merge_bounds(compact(ints(l@)));
                assert forall|k: int| 0 <= k < m.len() implies #[trigger] m[k] == wide_row@[k] by {
                    assert(wide(wide_row@)[k] == slide(ints(l@))[k]);
                }
            }
            if wide_row[0] > 65535 || wide_row[1] > 65535 || wide_row[2] > 65535 || wide_row[3]
                > 65535 {
                proof {
                    let k = choose|k: int| 0 <= k < 4 && wide_row@[k] > u16::MAX;
                    assert(wide(wide_row@)[k] == slide(ints(l@))[k]);
                    assert(!row_fits(line(g, d, i as int)));
                }
                return false;
            }
            proof {
                assert forall|k: int| 0 <= k < m.len() implies #[trigger] m[k] <= u16::MAX by {
                    assert(m[k] == wide_row@[k]);
                }
                assert(ints(l@).len() == 4);
                assert(points <= 2 * u16::MAX * 4);
            }
            total = total + points as u64;
        }
        (self.score as u64) + total <= 0xffff_ffff
    }

    /// Whether a move is available: some cell is empty, or two neighbours in
    /// a row or a column hold the same value.
    pub fn can_move(&self) -> (r: bool)
        ensures
            r == has_move(self.cells()),
    {
        let ghost g = self.cells();
        for r in 0..4
            invariant
                g == self.cells(),
                forall|i: int, j: int| 0 <= i < r && 0 <= j < 4 ==> !#[trigger] empty_at(g, i, j),
                forall|i: int, j: int| 0 <= i < r && 0 <= j < 4 ==> !#[trigger] pair_at(g, i, j),
        {
            for c in 0..4
                invariant
                    g == self.cells(),
                    r < 4,
                    forall|i: int, j: int|
                        (0 <= i < r && 0 <= j < 4) || (i == r && 0 <= j < c) ==> !#[trigger] empty_at(
                            g,
                            i,
                            j,
                        ),
                    forall|i: int, j: int|
                        (0 <= i < r && 0 <= j < 4) || (i == r && 0 <= j < c) ==> !#[trigger] pair_at(
                            g,
                            i,
                            j,
                        ),
            {
                if self.board[r][c] == 0 {
                    assert(empty_at(g, r as int, c as int));
                    return true;
                }
                if c < 3 && self.board[r][c] == self.board[r][c + 1] {
                    assert(pair_at(g, r as int, c as int));
                    return true;
                }
                if r < 3 && self.board[r][c] == self.board[r + 1][c] {
                    assert(pair_at(g, r as int, c as int));
                    return true;
                }
            }
        }
        proof {
            assert forall|i: int, j: int| !#[trigger] empty_at(g, i, j) by {
                if 0 <= i < 4 && 0 <= j < 4 {
                } 
            }
            assert forall|i: int, j: int| !#[trigger] pair_at(g, i, j) by {}
        }
        false
    }
    /// The grid of the game's board.
    pub open spec fn cells(self) -> Seq<Seq<int>> {
        grid(self.board)
    }

    /// Whether a move in direction `d` stays within the machine's integers.
    pub open spec fn move_fits(self, d: Direction) -> bool {
        !self.game_over ==> fits(self.cells(), self.score as int, d)
    }

    /// `next` is `self` after a move in direction `d` that reported `moved`:
    /// a finished game is left as it is; otherwise the board slides, the
    /// score grows by the merges' values and a winning merge sets `won`.
    pub open spec fn moved_to(self, next: Self, d: Direction, moved: bool) -> bool {
        if self.game_over {
            next == self && !moved
        } else {
            &&& next.cells() == slid(self.cells(), d)
            &&& next.score == self.score + gain(self.cells(), d)
            &&& next.won == (self.won || wins(self.cells(), d))
            &&& !next.game_over
            &&& moved == (next.cells() != self.cells())
        }
    }

    /// Slides every row to the left, merging equal neighbours once each.
    /// Returns whether the board changed.
    pub fn move_left(&mut self) -> (moved: bool)
        requires
            old(self).move_fits(Direction::Left),
        ensures
            old(self).moved_to(*final(self), Direction::Left, moved),
            old(self).won ==> final(self).won,
            old(self).score <= final(self).score,
            tiles_ok(old(self).cells()) ==> tiles_ok(final(self).cells()),
    {
        if self.game_over {
            return false;
        }
        let ghost g = self.cells();
        proof {
            lemma_grid_cells(self.board);
        }
        let mut moved = false;
        for i in 0..4
            invariant
                g == grid(old(self).board),
                !old(self).game_over,
                fits(g, old(self).score as int, Direction::Left),
                !self.game_over,
                forall|k: int| 0 <= k < i ==> ints(#[trigger] self.board@[k]@) == slide(g[k]),
                forall|k: int| i <= k < 4 ==> #[trigger] self.board@[k] == old(self).board@[k],
                self.score == old(self).score + gain_upto(g, Direction::Left, i as int),
                self.won == (old(self).won || exists|k: int|
                    0 <= k < i && row_wins(#[trigger] line(g, Direction::Left, k))),
                moved == exists|k: int| 0 <= k < i && #[trigger] ints(self.board@[k]@) != g[k],
        {
            let row = self.board[i];
            assert(ints(row@) == line(g, Direction::Left, i as int));
            let (wide_row, row_points, row_won) = slide_row(row);
            proof {
                lemma_gain_grows(g, Direction::Left, i + 1);
                lemma_line_cells(g, Direction::Left, i as int);
                lemma_compact_bounds(ints(row@));
                assert(row_fits(line(g, Direction::Left, i as int)));
                assert forall|k: int| 0 <= k < 4 implies #[trigger] wide_row@[k] <= u16::MAX by {
                    assert(wide(wide_row@)[k] == slide(ints(row@))[k]);
                    if k < merge(compact(ints(row@))).len() {
                        assert(slide(ints(row@))[k] == merge(compact(ints(row@)))[k]);
                    }
                }
            }
            let new_row: [u16; 4] = [
                wide_row[0] as u16,
                wide_row[1] as u16,
                wide_row[2] as u16,
                wide_row[3] as u16,
            ];
            assert(ints(new_row@) =~= wide(wide_row@));
            let same = same_row(&new_row, &row);
            self.score = self.score + row_points;
            if row_won {
                self.won = true;
            }
            let ghost moved_before = moved;
            if !same {
                moved = true;
            }
            let ghost before = self.board;
            self.board[i] = new_row;
            proof {
                assert(self.board@ == before@.update(i as int, new_row));
                if !same {
                    assert(ints(self.board@[i as int]@) != g[i as int]);
                    assert(exists|k: int| 0 <= k < i + 1 && #[trigger] ints(self.board@[k]@) != g[k]);
                } else {
                    assert(ints(self.board@[i as int]@) == g[i as int]);
                }
                assert forall|k: int| 0 <= k < i implies self.board@[k] == before@[k] by {}
                if moved_before {
                    let k = choose|k: int| 0 <= k < i && #[trigger] ints(before@[k]@) != g[k];
                    assert(ints(self.board@[k]@) != g[k]);
                    assert(exists|k: int| 0 <= k < i + 1 && #[trigger] ints(self.board@[k]@) != g[k]);
                }
                if !moved {
                    assert forall|k: int| 0 <= k < i + 1 implies #[trigger] ints(self.board@[k]@)
                        == g[k] by {
                        if k < i {
                            assert(ints(before@[k]@) == g[k]);
                        }
                    }
                }
            }
        }
        proof {
            lemma_gain_grows(g, Direction::Left, 0);
            if tiles_ok(g) {
                lemma_slid_tiles(g, Direction::Left);
            }
            assert(self.cells() =~= slid(g, Direction::Left));
            if !moved {
                assert(self.cells() =~= g);
            } else {
                let k = choose|k: int| 0 <= k < 4 && #[trigger] ints(self.board@[k]@) != g[k];
                assert(self.cells()[k] != g[k]);
            }
        }
        moved
    }

    /// Reverses every row of the board.
    fn mirror(&mut self)
        ensures
            final(self).cells() == mirror(old(self).cells()),
            final(self).score == old(self).score,
            final(self).won == old(self).won,
            final(self).game_over == old(self).game_over,
    {
        let b = self.board;
        self.board = [
            [b[0][3], b[0][2], b[0][1], b[0][0]],
            [b[1][3], b[1][2], b[1][1], b[1][0]],
            [b[2][3], b[2][2], b[2][1], b[2][0]],
            [b[3][3], b[3][2], b[3][1], b[3][0]],
        ];
        assert(self.cells() =~~= mirror(grid(b)));
    }

    /// Swaps the board across its main diagonal.
    fn transpose(&mut self)
        ensures
            final(self).cells() == transpose(old(self).cells()),
            final(self).score == old(self).score,
            final(self).won == old(self).won,
            final(self).game_over == old(self).game_over,
    {
        let b = self.board;
        self.board = [
            [b[0][0], b[1][0], b[2][0], b[3][0]],
            [b[0][1], b[1][1], b[2][1], b[3][1]],
            [b[0][2], b[1][2], b[2][2], b[3][2]],
            [b[0][3], b[1][3], b[2][3], b[3][3]],
        ];
        assert(self.cells() =~~= transpose(grid(b)));
    }

    /// Slides every row to the right, merging equal neighbours once each,
    /// starting from the right-hand end. Returns whether the board changed.
    pub fn move_right(&mut self) -> (moved: bool)
        requires
            old(self).move_fits(Direction::Right),
        ensures
            old(self).moved_to(*final(self), Direction::Right, moved),
            old(self).won ==> final(self).won,
            old(self).score <= final(self).score,
            tiles_ok(old(self).cells()) ==> tiles_ok(final(self).cells()),
    {
        if self.game_over {
            return false;
        }
        let start = self.board;
        let ghost g = self.cells();
        self.mirror();
        proof {
            assert forall|i: int| 0 <= i < 4 implies line(self.cells(), Direction::Left, i) == line(
                g,
                Direction::Right,
                i,
            ) by {}
            lemma_same_lines(self.cells(), Direction::Left, g, Direction::Right);
        }
        self.move_left();
        self.mirror();
        assert(self.cells() =~~= slid(g, Direction::Right));
        proof {
            lemma_grid_cells(start);
            if tiles_ok(g) {
                lemma_slid_tiles(g, Direction::Right);
            }
        }
        !same_board(&self.board, &start)
    }

    /// Slides every column up, merging equal neighbours once each, starting
    /// from the top. Returns whether the board changed.
    pub fn move_up(&mut self) -> (moved: bool)
        requires
            old(self).move_fits(Direction::Up),
        ensures
            old(self).moved_to(*final(self), Direction::Up, moved),
            old(self).won ==> final(self).won,
            old(self).score <= final(self).score,
            tiles_ok(old(self).cells()) ==> tiles_ok(final(self).cells()),
    {
        if self.game_over {
            return false;
        }
        let start = self.board;
        let ghost g = self.cells();
        self.transpose();
        proof {
            assert forall|i: int| 0 <= i < 4 implies line(self.cells(), Direction::Left, i) == line(
                g,
                Direction::Up,
                i,
            ) by {
                assert(line(self.cells(), Direction::Left, i) =~= line(g, Direction::Up, i));
            }
            lemma_same_lines(self.cells(), Direction::Left, g, Direction::Up);
        }
        self.move_left();
        self.transpose();
        assert(self.cells() =~~= slid(g, Direction::Up));
        proof {
            lemma_grid_cells(start);
            if tiles_ok(g) {
                lemma_slid_tiles(g, Direction::Up);
            }
        }
        !same_board(&self.board, &start)
    }

    /// Slides every column down, merging equal neighbours once each,
    /// starting from the bottom. Returns whether the board changed.
    pub fn move_down(&mut self) -> (moved: bool)
        requires
            old(self).move_fits(Direction::Down),
        ensures
            old(self).moved_to(*final(self), Direction::Down, moved),
            old(self).won ==> final(self).won,
            old(self).score <= final(self).score,
            tiles_ok(old(self).cells()) ==> tiles_ok(final(self).cells()),
    {
        if self.game_over {
            return false;
        }
        let start = self.board;
        let ghost g = self.cells();
        self.transpose();
        proof {
            assert forall|i: int| 0 <= i < 4 implies line(self.cells(), Direction::Right, i) == line(
                g,
                Direction::Down,
                i,
            ) by {
                assert(line(self.cells(), Direction::Right, i) =~= line(g, Direction::Down, i));
            }
            lemma_same_lines(self.cells(), Direction::Right, g, Direction::Down);
        }
        self.move_right();
        self.transpose();
        assert(self.cells() =~~= slid(g, Direction::Down));
        proof {
            lemma_grid_cells(start);
            if tiles_ok(g) {
                lemma_slid_tiles(g, Direction::Down);
            }
        }
        !same_board(&self.board, &start)
    }
}

/// Whether two boards hold the same cells.
fn same_board(a: &Board, b: &Board) -> (same: bool)
    ensures
        same == (grid(*a) == grid(*b)),
{
    let same = same_row(&a[0], &b[0]) && same_row(&a[1], &b[1]) && same_row(&a[2], &b[2])
        && same_row(&a[3], &b[3]);
    proof {
        if same {
            assert(grid(*a) =~= grid(*b));
        } else if grid(*a) == grid(*b) {
            assert(grid(*a)[0] == grid(*b)[0] && grid(*a)[1] == grid(*b)[1]);
            assert(grid(*a)[2] == grid(*b)[2] && grid(*a)[3] == grid(*b)[3]);
        }
    }
    same
}

/// Whether two rows hold the same cells.
fn same_row(a: &[u16; 4], b: &[u16; 4]) -> (same: bool)
    ensures
        same == (ints(a@) == ints(b@)),
{
    let same = a[0] == b[0] && a[1] == b[1] && a[2] == b[2] && a[3] == b[3];
    proof {
        if same {
            assert(ints(a@) =~= ints(b@));
        } else if ints(a@) == ints(b@) {
            assert(ints(a@)[0] == ints(b@)[0] && ints(a@)[1] == ints(b@)[1]);
            assert(ints(a@)[2] == ints(b@)[2] && ints(a@)[3] == ints(b@)[3]);
        }
    }
    same
}

/// Slides one row to the left, merging equal neighbours once, and reports
/// the points earned and whether a winning tile was made. Values are
/// computed in `u32`, where no merge of two `u16` tiles can overflow.
fn slide_row(row: [u16; 4]) -> (res: ([u32; 4], u32, bool))
    ensures
        wide(res.0@) == slide(ints(row@)),
        res.1 == row_gain(ints(row@)),
        res.2 == row_wins(ints(row@)),
{
    let ghost r = ints(row@);
    let mut tiles: Vec<u32> = Vec::new();
    for k in 0..4
        invariant
            r == ints(row@),
            wide(tiles@) == compact(r.take(k as int)),
            tiles.len() <= k,
            forall|i: int| 0 <= i < tiles.len() ==> tiles@[i] <= u16::MAX,
    {
        proof {
            assert(r.take(k + 1).drop_last() =~= r.take(k as int));
            assert(r.take(k + 1).last() == row[k as int] as int);
            assert(compact(r.take(k + 1)) == if row[k as int] != 0 {
                compact(r.take(k as int)).push(row[k as int] as int)
            } else {
                compact(r.take(k as int))
            });
        }
        if row[k] != 0 {
            tiles.push(row[k] as u32);
            proof {
                assert(wide(tiles@) =~= wide(tiles@.drop_last()).push(row[k as int] as int));
            }
        }
    }
    proof {
        assert(r.take(4) =~= r);
    }
    let ghost s = wide(tiles@);
    proof {
        lemma_merge_bounds(s);
        assert(s.skip(0) =~= s);
    }
    let mut merged: Vec<u32> = Vec::new();
    let mut gain: u32 = 0;
    let mut made = false;
    let mut j: usize = 0;
    while j < tiles.len()
        invariant
            s == wide(tiles@),
            s == compact(r),
            r == ints(row@),
            tiles.len() <= 4,
            j <= tiles.len(),
            cell_values(s),
            wide(merged@) + merge(s.skip(j as int)) == merge(s),
            gain + merge_gain(s.skip(j as int)) == merge_gain(s),
            (made || merge_makes(s.skip(j as int), WIN_TILE as int)) == merge_makes(s, WIN_TILE as int),
            merged.len() <= j,
            merge_gain(s) <= 2 * u16::MAX * 4,
            forall|i: int| 0 <= i < tiles.len() ==> tiles@[i] <= u16::MAX,
        decreases tiles.len() - j,
    {
        let ghost rest = s.skip(j as int);
        proof {
            lemma_merge_bounds(rest);
            lemma_merge_bounds(rest.skip(1));
            if rest.len() >= 2 {
                lemma_merge_bounds(rest.skip(2));
            }
        }
        if j + 1 < tiles.len() && tiles[j] == tiles[j + 1] {
            assert(rest.skip(2) =~= s.skip(j + 2));
            let v = tiles[j] * 2;
            merged.push(v);
            gain = gain + v;
            if v == WIN_TILE as u32 {
                made = true;
            }
            proof {
                assert(wide(merged@) =~= wide(merged@.drop_last()).push(v as int));
            }
            j = j + 2;
        } else {
            assert(rest.skip(1) =~= s.skip(j + 1));
            let v = tiles[j];
            merged.push(v);
            proof {
                assert(wide(merged@) =~= wide(merged@.drop_last()).push(v as int));
            }
            j = j + 1;
        }
    }
    proof {
        assert(s.skip(j as int) =~= Seq::<int>::empty());
    }
    let mut out: [u32; 4] = [0; 4];
    for idx in 0..merged.len()
        invariant
            merged.len() <= 4,
            forall|k: int| 0 <= k < idx ==> out@[k] == merged@[k],
            forall|k: int| idx <= k < 4 ==> out@[k] == 0,
    {
        out[idx] = merged[idx];
    }
    assert(wide(out@) =~= slide(r));
    (out, gain, made)
}

} // verus!
