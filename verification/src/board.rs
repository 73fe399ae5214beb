//! The board the AI reasons about: a 4×4 matrix of tile values and the score
//! collected by the moves made on it.
use vstd::prelude::*;

use crate::rules::{
    all_within, can_slide, cell_max, compact, gain_upto, grid_line, grid_sum, has_empty,
    lemma_coords, lemma_gain_nonneg, lemma_gain_upto, lemma_line_valid, lemma_lines,
    lemma_merge_run, lemma_move, lemma_move_sum, lemma_slide, lemma_sum4, line_can_slide, line_gain,
    line_of, merge_gain, merge_run, move_gain, moved, pos_of, slide, valid_grid, zeros, Grid,
};
use crate::tile::{two_pow, CELL_COUNT};
use crate::types::{Direction, Matrix, UTile};

verus! {

/// The entries of a sequence of `u32`, as integers.
pub open spec fn ints(s: Seq<u32>) -> Seq<int> {
    Seq::new(s.len(), |i: int| s[i] as int)
}

/// A matrix of tiles, as a grid of integers.
pub open spec fn matrix_grid(m: Matrix) -> Grid {
    Seq::new(4, |r: int| Seq::new(4, |c: int| m[r][c] as int))
}

/// The grid read row by row from the first sixteen entries of `s`.
pub open spec fn flat_grid(s: Seq<u32>) -> Grid {
    Seq::new(4, |r: int| Seq::new(4, |c: int| s[4 * r + c] as int))
}

/// `g` with cell `(r, c)` set to `v`.
pub open spec fn set_cell(g: Grid, r: int, c: int, v: int) -> Grid {
    g.update(r, g[r].update(c, v))
}

/// The empty cells among the first `n` cells of the grid, in row-major order.
pub open spec fn empty_cells(g: Grid, n: int) -> Seq<(usize, usize)>
    decreases n,
{
    if n <= 0 {
        Seq::empty()
    } else {
        let r = (n - 1) / 4;
        let c = (n - 1) % 4;
        if g[r][c] == 0 {
            empty_cells(g, n - 1).push((r as usize, c as usize))
        } else {
            empty_cells(g, n - 1)
        }
    }
}

/// The moves that change the grid, in the order Up, Down, Left, Right.
pub open spec fn available(g: Grid) -> Seq<Direction> {
    let up = if can_slide(g, Direction::Up) { seq![Direction::Up] } else { Seq::empty() };
    let down = if can_slide(g, Direction::Down) { seq![Direction::Down] } else { Seq::empty() };
    let left = if can_slide(g, Direction::Left) { seq![Direction::Left] } else { Seq::empty() };
    let right = if can_slide(g, Direction::Right) { seq![Direction::Right] } else { Seq::empty() };
    up + down + left + right
}

/// A move in direction `d` on grid `g`, played with score `score`, keeps the
/// score within `u32`.
pub open spec fn fits(g: Grid, score: int, d: Direction) -> bool {
    score + move_gain(g, d) <= cell_max()
}

/// The moves that change the grid and whose points fit next to `score`.
pub open spec fn playable(g: Grid, score: int) -> Seq<Direction> {
    let ok = |d: Direction| can_slide(g, d) && fits(g, score, d);
    let up = if ok(Direction::Up) { seq![Direction::Up] } else { Seq::empty() };
    let down = if ok(Direction::Down) { seq![Direction::Down] } else { Seq::empty() };
    let left = if ok(Direction::Left) { seq![Direction::Left] } else { Seq::empty() };
    let right = if ok(Direction::Right) { seq![Direction::Right] } else { Seq::empty() };
    up + down + left + right
}

/// The moves on the board are the moves of `IBoard`; a move needs the score it
/// makes to fit in the `u32` score, so that no sum overflows.
pub trait IBoard: Sized {
    /// The points a move in `direction` would add still fit in the score.
    spec fn move_fits(&self, direction: Direction) -> bool;

    fn new(flatten_board: &[UTile]) -> Self
        requires
            flatten_board@.len() >= CELL_COUNT,
    ;

    fn empty_tiles(&self) -> Vec<(usize, usize)>;

    fn can_move(&self, direction: Direction) -> bool;

    fn available_moves(&self) -> Vec<Direction>;

    fn make_move(&self, direction: Direction) -> Self
        requires
            self.move_fits(direction),
    ;

    fn merge_left(&self) -> Self
        requires
            self.move_fits(Direction::Left),
    ;

    fn merge_right(&self) -> Self
        requires
            self.move_fits(Direction::Right),
    ;

    fn merge_up(&self) -> Self
        requires
            self.move_fits(Direction::Up),
    ;

    fn merge_down(&self) -> Self
        requires
            self.move_fits(Direction::Down),
    ;
}

pub struct Board {
    matrix: Matrix,
    pub(crate) score: u32,
}

impl Board {
    /// The tiles of the board.
    pub closed spec fn grid(&self) -> Grid {
        matrix_grid(self.matrix)
    }

    /// The score collected by the moves made on the board.
    pub closed spec fn points(&self) -> int {
        self.score as int
    }

    /// Every cell holds a `u32`, and so does the score.
    pub proof fn lemma_valid(&self)
        ensures
            valid_grid(self.grid()),
            0 <= self.points() <= cell_max(),
    {
    }

    /// The value of cell `(row, col)`.
    pub fn cell(&self, row: usize, col: usize) -> (v: u32)
        requires
            row < 4,
            col < 4,
        ensures
            v == self.grid()[row as int][col as int],
    {
        self.matrix[row][col]
    }

    /// The score collected so far.
    pub fn score(&self) -> (s: u32)
        ensures
            s == self.points(),
    {
        self.score
    }

    /// A copy of the board.
    pub fn duplicate(&self) -> (b: Board)
        ensures
            b.grid() == self.grid(),
            b.points() == self.points(),
    {
        Board { matrix: self.matrix, score: self.score }
    }

    /// Whether a move in `direction` keeps every sum within `u32`.
    pub fn accepts_move(&self, direction: Direction) -> (ok: bool)
        ensures
            ok == self.move_fits(direction),
    {
        let mut total: u64 = self.score as u64;
        let mut k: usize = 0;
        proof {
            self.lemma_valid();
            lemma_gain_nonneg(self.grid(), direction, 4);
        }
        while k < 4
            invariant
                k <= 4,
                valid_grid(self.grid()),
                total == self.points() + gain_upto(self.grid(), direction, k as int),
                total <= 0xFFFF_FFFF + 4 * k * 0x4_0000_0000,
            decreases 4 - k,
        {
            let line = read_line(&self.matrix, direction, k);
            let g = line_points(line);
            proof {
                lemma_line_valid(self.grid(), direction, k as int);
                lemma_slide(grid_line(self.grid(), direction, k as int));
            }
            total = total + g;
            k = k + 1;
        }
        total <= 0xFFFF_FFFF
    }

    /// The moves of `available_moves` whose points still fit in the score.
    pub fn playable_moves(&self) -> (moves: Vec<Direction>)
        ensures
            moves@ == playable(self.grid(), self.points()),
    {
        let mut moves: Vec<Direction> = Vec::new();
        if self.can_move(Direction::Up) && self.accepts_move(Direction::Up) {
            moves.push(Direction::Up);
        }
        if self.can_move(Direction::Down) && self.accepts_move(Direction::Down) {
            moves.push(Direction::Down);
        }
        if self.can_move(Direction::Left) && self.accepts_move(Direction::Left) {
            moves.push(Direction::Left);
        }
        if self.can_move(Direction::Right) && self.accepts_move(Direction::Right) {
            moves.push(Direction::Right);
        }
        assert(moves@ =~= playable(self.grid(), self.points()));
        moves
    }

    /// The board with the tile of rank `rank` placed at `(row, col)`.
    pub fn with_rank(&self, row: usize, col: usize, rank: u8) -> (b: Board)
        requires
            row < 4,
            col < 4,
        ensures
            b.points() == self.points(),
            rank < 32 ==> b.grid() == set_cell(self.grid(), row as int, col as int, two_pow(rank as nat) as int),
            rank >= 32 ==> b.grid() == set_cell(self.grid(), row as int, col as int, u32::MAX as int),
    {
        let mut b = self.duplicate();
        let v = crate::tile::value_from_rank(rank);
        b.matrix[row][col] = v;
        assert(b.grid() =~~= set_cell(self.grid(), row as int, col as int, v as int));
        b
    }

    /// Places a tile of value `2` in the first empty cell, in row-major order,
    /// and leaves a full board as it is.
    pub fn set_empty_tile(&mut self)
        ensures
            final(self).points() == old(self).points(),
            empty_cells(old(self).grid(), 16).len() == 0 ==> final(self).grid() == old(self).grid(),
            empty_cells(old(self).grid(), 16).len() > 0 ==> final(self).grid() == set_cell(
                old(self).grid(),
                empty_cells(old(self).grid(), 16)[0].0 as int,
                empty_cells(old(self).grid(), 16)[0].1 as int,
                2,
            ),
    {
        let empty = self.empty_tiles();
        if empty.len() > 0 {
            let (row, col) = empty[0];
            proof {
                lemma_empty_cells(self.grid(), 16);
                assert(empty@.contains(empty@[0]));
            }
            let ghost before = self.grid();
            self.matrix[row][col] = 2;
            assert(self.grid() =~~= set_cell(before, row as int, col as int, 2));
        }
    }

    /// The board after pushing every line in `direction`.
    fn slid(&self, direction: Direction) -> (b: Board)
        requires
            self.points() + move_gain(self.grid(), direction) <= cell_max(),
        ensures
            b.grid() == moved(self.grid(), direction),
            b.points() == self.points() + move_gain(self.grid(), direction),
    {
        let ghost g = self.grid();
        let mut board = self.duplicate();
        let mut k: usize = 0;
        proof {
            self.lemma_valid();
            lemma_coords(direction);
            lemma_lines(g, direction);
        }
        while k < 4
            invariant
                k <= 4,
                g == self.grid(),
                valid_grid(g),
                self.points() + move_gain(g, direction) <= cell_max(),
                board.points() == self.points() + gain_upto(g, direction, k as int),
                forall|r: int, c: int|
                    0 <= r < 4 && 0 <= c < 4 ==> {
                        &&& 0 <= #[trigger] line_of(direction, r, c) < 4
                        &&& 0 <= #[trigger] pos_of(direction, r, c) < 4
                    },
                forall|r: int, c: int|
                    0 <= r < 4 && 0 <= c < 4 && line_of(direction, r, c) < k ==> #[trigger] board.grid()[r][c]
                        == slide(grid_line(g, direction, line_of(direction, r, c)))[pos_of(direction, r, c)],
                forall|r: int, c: int|
                    0 <= r < 4 && 0 <= c < 4 && line_of(direction, r, c) >= k ==> #[trigger] board.grid()[r][c]
                        == g[r][c],
            decreases 4 - k,
        {
            let line = read_line(&self.matrix, direction, k);
            proof {
                lemma_gain_upto(g, direction, k + 1);
                lemma_line_valid(g, direction, k as int);
            }
            let (merged, score) = merge_line_exact(line, board.score);
            let ghost before = board.grid();
            write_line(&mut board.matrix, direction, k, merged);
            board.score = score;
            proof {
                assert forall|r: int, c: int|
                    0 <= r < 4 && 0 <= c < 4 && line_of(direction, r, c) <= k implies #[trigger] board.grid()[r][c]
                        == slide(grid_line(g, direction, line_of(direction, r, c)))[pos_of(direction, r, c)] by {
                    if line_of(direction, r, c) == k {
                        assert(board.grid()[r][c] == merged[pos_of(direction, r, c)] as int);
                        assert(ints(merged@)[pos_of(direction, r, c)] == merged[pos_of(direction, r, c)] as int);
                    } else {
                        assert(board.grid()[r][c] == before[r][c]);
                    }
                }
                assert forall|r: int, c: int|
                    0 <= r < 4 && 0 <= c < 4 && line_of(direction, r, c) > k implies #[trigger] board.grid()[r][c]
                        == g[r][c] by {
                    assert(board.grid()[r][c] == before[r][c]);
                }
            }
            k = k + 1;
        }
        assert(board.grid() =~~= moved(g, direction));
        board
    }
}

/// Line `k` of the matrix in the order of travel for `direction`.
pub(crate) fn read_line(m: &Matrix, direction: Direction, k: usize) -> (line: [u32; 4])
    requires
        k < 4,
    ensures
        ints(line@) == grid_line(matrix_grid(*m), direction, k as int),
{
    let line = match direction {
        Direction::Left => [m[k][0], m[k][1], m[k][2], m[k][3]],
        Direction::Right => [m[k][3], m[k][2], m[k][1], m[k][0]],
        Direction::Up => [m[0][k], m[1][k], m[2][k], m[3][k]],
        Direction::Down => [m[3][k], m[2][k], m[1][k], m[0][k]],
    };
    assert(ints(line@) =~= grid_line(matrix_grid(*m), direction, k as int));
    line
}

/// Writes line `k` of the matrix, in the order of travel for `direction`.
pub(crate) fn write_line(m: &mut Matrix, direction: Direction, k: usize, line: [u32; 4])
    requires
        k < 4,
    ensures
        forall|r: int, c: int|
            0 <= r < 4 && 0 <= c < 4 ==> #[trigger] final(m)[r][c] == if line_of(direction, r, c) == k {
                line[pos_of(direction, r, c)]
            } else {
                old(m)[r][c]
            },
{
    match direction {
        Direction::Left => {
            m[k][0] = line[0];
            m[k][1] = line[1];
            m[k][2] = line[2];
            m[k][3] = line[3];
        },
        Direction::Right => {
            m[k][3] = line[0];
            m[k][2] = line[1];
            m[k][1] = line[2];
            m[k][0] = line[3];
        },
        Direction::Up => {
            m[0][k] = line[0];
            m[1][k] = line[1];
            m[2][k] = line[2];
            m[3][k] = line[3];
        },
        Direction::Down => {
            m[3][k] = line[0];
            m[2][k] = line[1];
            m[1][k] = line[2];
            m[0][k] = line[3];
        },
    }
}

/// The tiles of a line in order, without the empty cells.
pub(crate) fn compact_line(line: [u32; 4]) -> (tiles: Vec<u32>)
    ensures
        ints(tiles@) == compact(ints(line@)),
        tiles@.len() <= 4,
        all_within(ints(tiles@), 1, cell_max()),
{
    let ghost s = ints(line@);
    let mut tiles: Vec<u32> = Vec::new();
    let mut i: usize = 0;
    proof {
        assert(s.take(0) =~= Seq::<int>::empty());
    }
    while i < 4
        invariant
            i <= 4,
            s == ints(line@),
            s.len() == 4,
            ints(tiles@) == compact(s.take(i as int)),
            tiles@.len() <= i,
            forall|j: int| 0 <= j < tiles@.len() ==> #[trigger] tiles@[j] != 0,
        decreases 4 - i,
    {
        proof {
            assert(s.take(i + 1).drop_last() =~= s.take(i as int));
        }
        if line[i] != 0 {
            tiles.push(line[i]);
            assert(ints(tiles@) =~= compact(s.take(i as int)).push(line[i as int] as int));
        }
        i = i + 1;
    }
    proof {
        assert(s.take(4) =~= s);
        assert forall|j: int| 0 <= j < tiles@.len() implies 1 <= #[trigger] ints(tiles@)[j] <= cell_max() by {
            assert(tiles@[j] != 0);
        }
    }
    tiles
}

/// Points scored by pushing a line, computed without bound.
fn line_points(line: [u32; 4]) -> (p: u64)
    ensures
        p == line_gain(ints(line@)),
        p <= 4 * 0x4_0000_0000,
{
    let tiles = compact_line(line);
    let ghost t = ints(tiles@);
    let mut gained: u64 = 0;
    let mut i: usize = 0;
    proof {
        assert(t.skip(0) =~= t);
        lemma_merge_run(t, 1, cell_max());
    }
    while i < tiles.len()
        invariant
            t == ints(tiles@),
            t.len() <= 4,
            all_within(t, 1, cell_max()),
            i <= t.len(),
            gained + merge_gain(t.skip(i as int)) == merge_gain(t),
            gained <= i * 0x2_0000_0000,
        decreases t.len() - i,
    {
        proof {
            lemma_merge_run(t.skip(i as int), 1, cell_max());
        }
        if i + 1 < tiles.len() && tiles[i] == tiles[i + 1] {
            proof {
                assert(t.skip(i as int).skip(2) =~= t.skip(i + 2));
                assert(t.skip(i as int)[0] == t[i as int]);
                assert(t.skip(i as int)[1] == t[i + 1]);
                lemma_merge_run(t.skip(i + 2), 1, cell_max());
            }
            gained = gained + 2 * (tiles[i] as u64);
            i = i + 2;
        } else {
            proof {
                assert(t.skip(i as int).skip(1) =~= t.skip(i + 1));
                assert(t.skip(i as int)[0] == t[i as int]);
                if i + 1 < t.len() {
                    assert(t.skip(i as int)[1] == t[i + 1]);
                }
            }
            i = i + 1;
        }
    }
    proof {
        assert(t.skip(i as int).len() == 0);
    }
    gained
}

/// Pushes a line towards position `0`; returns the new line and `score` plus the
/// points it made.
fn merge_line_exact(line: [u32; 4], score: u32) -> (res: ([u32; 4], u32))
    requires
        score + line_gain(ints(line@)) <= cell_max(),
    ensures
        ints(res.0@) == slide(ints(line@)),
        res.1 == score + line_gain(ints(line@)),
{
    let tiles = compact_line(line);
    let ghost t = ints(tiles@);
    let ghost full = merge_run(t);
    let mut merged: [u32; 4] = [0; 4];
    let mut total: u32 = score;
    let mut i: usize = 0;
    let mut dest: usize = 0;
    proof {
        assert(t.skip(0) =~= t);
        lemma_merge_run(t, 1, cell_max());
        assert(ints(merged@).take(0) + merge_run(t.skip(0)) =~= full);
    }
    while i < tiles.len()
        invariant
            t == ints(tiles@),
            t.len() <= 4,
            all_within(t, 1, cell_max()),
            full == merge_run(t),
            full.len() <= t.len(),
            i <= t.len(),
            dest <= 4,
            ints(merged@).take(dest as int) + merge_run(t.skip(i as int)) == full,
            forall|j: int| dest <= j < 4 ==> #[trigger] merged@[j] == 0,
            total + merge_gain(t.skip(i as int)) == score + merge_gain(t),
            score + merge_gain(t) <= cell_max(),
        decreases t.len() - i,
    {
        let ghost rest = t.skip(i as int);
        proof {
            lemma_merge_run(rest, 1, cell_max());
            assert(dest + merge_run(rest).len() == full.len());
        }
        if i + 1 < tiles.len() && tiles[i] == tiles[i + 1] {
            proof {
                assert(rest.skip(2) =~= t.skip(i + 2));
                assert(rest[0] == t[i as int]);
                assert(rest[1] == t[i + 1]);
                lemma_merge_run(t.skip(i + 2), 1, cell_max());
            }
            let value = tiles[i] * 2;
            let ghost before = merged@;
            merged[dest] = value;
            total = total + value;
            proof {
                assert(ints(merged@).take(dest + 1) =~= ints(before).take(dest as int).push(value as int));
                assert(ints(merged@).take(dest + 1) + merge_run(t.skip(i + 2)) =~= ints(before).take(dest as int) + merge_run(rest));
            }
            i = i + 2;
        } else {
            proof {
                assert(rest.skip(1) =~= t.skip(i + 1));
                assert(rest[0] == t[i as int]);
                if i + 1 < t.len() {
                    assert(rest[1] == t[i + 1]);
                }
            }
            let ghost before = merged@;
            merged[dest] = tiles[i];
            proof {
                assert(ints(merged@).take(dest + 1) =~= ints(before).take(dest as int).push(tiles@[i as int] as int));
                assert(ints(merged@).take(dest + 1) + merge_run(t.skip(i + 1)) =~= ints(before).take(dest as int) + merge_run(rest));
            }
            i = i + 1;
        }
        dest = dest + 1;
    }
    proof {
        assert(t.skip(i as int).len() == 0);
        assert(merge_run(t.skip(i as int)) =~= Seq::<int>::empty());
        assert(ints(merged@).take(dest as int) =~= full);
        assert(ints(merged@) =~= slide(ints(line@))) by {
            assert(slide(ints(line@)) =~= full + zeros((4 - full.len()) as nat));
        }
    }
    (merged, total)
}

pub proof fn lemma_empty_cells(g: Grid, n: int)
    requires
        0 <= n <= 16,
    ensures
        forall|i: int| 0 <= i < empty_cells(g, n).len() ==> {
            &&& (#[trigger] empty_cells(g, n)[i]).0 < 4
            &&& empty_cells(g, n)[i].1 < 4
            &&& g[empty_cells(g, n)[i].0 as int][empty_cells(g, n)[i].1 as int] == 0
        },
    decreases n,
{
    if n > 0 {
        lemma_empty_cells(g, n - 1);
        let r = (n - 1) / 4;
        let c = (n - 1) % 4;
        assert(0 <= r < 4 && 0 <= c < 4);
        assert((r as usize) as int == r && (c as usize) as int == c);
        let e = empty_cells(g, n);
        let p = empty_cells(g, n - 1);
        assert forall|i: int| 0 <= i < e.len() implies {
            &&& (#[trigger] e[i]).0 < 4
            &&& e[i].1 < 4
            &&& g[e[i].0 as int][e[i].1 as int] == 0
        } by {
            if i < p.len() {
                assert(e[i] == p[i]);
            }
        }
    }
}

/// The tiles of a grid sum to at most sixteen times the largest cell.
pub proof fn lemma_grid_sum_bound(g: Grid)
    requires
        valid_grid(g),
    ensures
        0 <= grid_sum(g) <= 16 * cell_max(),
{
    reveal(grid_sum);
    lemma_sum4(g[0]);
    lemma_sum4(g[1]);
    lemma_sum4(g[2]);
    lemma_sum4(g[3]);
    assert(0 <= g[0][0] <= cell_max() && 0 <= g[0][1] <= cell_max() && 0 <= g[0][2] <= cell_max() && 0 <= g[0][3] <= cell_max());
    assert(0 <= g[1][0] <= cell_max() && 0 <= g[1][1] <= cell_max() && 0 <= g[1][2] <= cell_max() && 0 <= g[1][3] <= cell_max());
    assert(0 <= g[2][0] <= cell_max() && 0 <= g[2][1] <= cell_max() && 0 <= g[2][2] <= cell_max() && 0 <= g[2][3] <= cell_max());
    assert(0 <= g[3][0] <= cell_max() && 0 <= g[3][1] <= cell_max() && 0 <= g[3][2] <= cell_max() && 0 <= g[3][3] <= cell_max());
}

/// Setting one cell changes the sum of the grid by the difference.
pub proof fn lemma_set_cell_sum(g: Grid, r: int, c: int, v: int)
    requires
        valid_grid(g),
        0 <= r < 4,
        0 <= c < 4,
    ensures
        grid_sum(set_cell(g, r, c, v)) == grid_sum(g) - g[r][c] + v,
        set_cell(g, r, c, v)[r][c] == v,
{
    reveal(grid_sum);
    let h = set_cell(g, r, c, v);
    lemma_sum4(g[0]);
    lemma_sum4(g[1]);
    lemma_sum4(g[2]);
    lemma_sum4(g[3]);
    lemma_sum4(h[0]);
    lemma_sum4(h[1]);
    lemma_sum4(h[2]);
    lemma_sum4(h[3]);
}

/// A grid with an empty cell lists at least one empty cell.
pub proof fn lemma_empty_cells_found(g: Grid)
    requires
        has_empty(g),
    ensures
        empty_cells(g, 16).len() > 0,
{
    let (r, c) = choose|r: int, c: int| 0 <= r < 4 && 0 <= c < 4 && #[trigger] g[r][c] == 0;
    lemma_empty_cells_grow(g, 4 * r + c + 1, 16);
    assert((4 * r + c) / 4 == r && (4 * r + c) % 4 == c);
}

proof fn lemma_empty_cells_grow(g: Grid, n: int, m: int)
    requires
        0 <= n <= m,
    ensures
        empty_cells(g, n).len() <= empty_cells(g, m).len(),
    decreases m - n,
{
    if n < m {
        lemma_empty_cells_grow(g, n, m - 1);
    }
}

/// Every move that `available` lists changes the grid.
pub proof fn lemma_available(g: Grid)
    ensures
        forall|i: int| 0 <= i < available(g).len() ==> can_slide(g, #[trigger] available(g)[i]),
        available(g).len() == 0 <==> (!can_slide(g, Direction::Up) && !can_slide(g, Direction::Down)
            && !can_slide(g, Direction::Left) && !can_slide(g, Direction::Right)),
{
}

/// Every move that `playable` lists changes the grid and fits.
pub proof fn lemma_playable(g: Grid, score: int)
    ensures
        forall|i: int| 0 <= i < playable(g, score).len() ==> {
            &&& can_slide(g, #[trigger] playable(g, score)[i])
            &&& fits(g, score, playable(g, score)[i])
        },
        playable(g, score).len() <= 4,
{
}

/// Every listed empty cell lies on the board and holds `0`.
pub proof fn lemma_empty_cells_zero(g: Grid)
    ensures
        forall|i: int| 0 <= i < empty_cells(g, 16).len() ==> {
            &&& (#[trigger] empty_cells(g, 16)[i]).0 < 4
            &&& empty_cells(g, 16)[i].1 < 4
            &&& g[empty_cells(g, 16)[i].0 as int][empty_cells(g, 16)[i].1 as int] == 0
        },
{
    lemma_empty_cells(g, 16);
}

/// A grid has at most sixteen empty cells.
pub proof fn lemma_empty_cells_count(g: Grid)
    ensures
        empty_cells(g, 16).len() <= 16,
{
    lemma_empty_cells_len(g, 16);
}

proof fn lemma_empty_cells_len(g: Grid, n: int)
    requires
        0 <= n,
    ensures
        empty_cells(g, n).len() <= n,
    decreases n,
{
    if n > 0 {
        lemma_empty_cells_len(g, n - 1);
    }
}

/// A move changes the board exactly when `can_move` allows it: `make_move`
/// returns a board with different tiles if and only if `can_move` is true.
pub proof fn law_move_changes_board_iff_possible(b: Board, d: Direction)
    ensures
        can_slide(b.grid(), d) <==> moved(b.grid(), d) != b.grid(),
{
    b.lemma_valid();
    lemma_move(b.grid(), d);
}

/// A move keeps the sum of the tiles: a merge turns two tiles into one tile of
/// their sum, and sliding moves tiles without changing them.
pub proof fn law_move_keeps_tile_sum(b: Board, d: Direction)
    ensures
        grid_sum(moved(b.grid(), d)) == grid_sum(b.grid()),
{
    b.lemma_valid();
    lemma_move_sum(b.grid(), d);
}

/// A move that `can_move` refuses leaves the tiles as they are and scores nothing.
pub proof fn law_blocked_move_changes_nothing(b: Board, d: Direction)
    requires
        !can_slide(b.grid(), d),
    ensures
        moved(b.grid(), d) == b.grid(),
        move_gain(b.grid(), d) == 0,
{
    b.lemma_valid();
    lemma_move(b.grid(), d);
}

/// After a move that `can_move` allows, the board has an empty cell for a new tile.
pub proof fn law_possible_move_leaves_room(b: Board, d: Direction)
    requires
        can_slide(b.grid(), d),
    ensures
        has_empty(moved(b.grid(), d)),
        empty_cells(moved(b.grid(), d), 16).len() > 0,
{
    b.lemma_valid();
    lemma_move(b.grid(), d);
    lemma_empty_cells_found(moved(b.grid(), d));
}

/// A move never lowers the score.
pub proof fn law_score_never_decreases(b: Board, d: Direction)
    ensures
        move_gain(b.grid(), d) >= 0,
{
    b.lemma_valid();
    lemma_move(b.grid(), d);
}

impl IBoard for Board {
    open spec fn move_fits(&self, direction: Direction) -> bool {
        fits(self.grid(), self.points(), direction)
    }

    fn new(flatten_board: &[UTile]) -> (b: Self)
        ensures
            b.grid() == flat_grid(flatten_board@),
            b.points() == 0,
    {
        let mut matrix: Matrix = [[0;4];4];
        let mut row: usize = 0;
        while row < 4
            invariant
                row <= 4,
                flatten_board@.len() >= 16,
                forall|r: int, c: int| 0 <= r < row && 0 <= c < 4 ==> #[trigger] matrix[r][c] == flatten_board@[4 * r + c],
            decreases 4 - row,
        {
            let mut col: usize = 0;
            while col < 4
                invariant
                    row < 4,
                    col <= 4,
                    flatten_board@.len() >= 16,
                    forall|r: int, c: int| 0 <= r < row && 0 <= c < 4 ==> #[trigger] matrix[r][c] == flatten_board@[4 * r + c],
                    forall|c: int| 0 <= c < col ==> #[trigger] matrix[row as int][c] == flatten_board@[4 * row + c],
                decreases 4 - col,
            {
                matrix[row][col] = flatten_board[row * 4 + col];
                col = col + 1;
            }
            row = row + 1;
        }
        let b = Board { score: 0, matrix };
        assert(b.grid() =~~= flat_grid(flatten_board@));
        b
    }

    fn empty_tiles(&self) -> (empty: Vec<(usize, usize)>)
        ensures
            empty@ == empty_cells(self.grid(), 16),
    {
        let mut empty: Vec<(usize, usize)> = Vec::new();
        let mut row: usize = 0;
        while row < 4
            invariant
                row <= 4,
                empty@ == empty_cells(self.grid(), 4 * row),
            decreases 4 - row,
        {
            let mut col: usize = 0;
            while col < 4
                invariant
                    row < 4,
                    col <= 4,
                    empty@ == empty_cells(self.grid(), 4 * row + col),
                decreases 4 - col,
            {
                assert((4 * row + col) / 4 == row && (4 * row + col) % 4 == col);
                if self.matrix[row][col] == 0 {
                    empty.push((row, col));
                }
                col = col + 1;
            }
            row = row + 1;
        }
        empty
    }

    fn can_move(&self, direction: Direction) -> (ok: bool)
        ensures
            ok == can_slide(self.grid(), direction),
    {
        reveal(can_slide);
        let mut k: usize = 0;
        while k < 4
            invariant
                k <= 4,
                forall|kk: int| 0 <= kk < k ==> !#[trigger] line_can_slide(grid_line(self.grid(), direction, kk)),
            decreases 4 - k,
        {
            let line = read_line(&self.matrix, direction, k);
            if line_slides(line) {
                proof {
                    reveal(can_slide);
                    assert(line_can_slide(grid_line(self.grid(), direction, k as int)));
                }
                return true;
            }
            k = k + 1;
        }
        false
    }

    fn available_moves(&self) -> (moves: Vec<Direction>)
        ensures
            moves@ == available(self.grid()),
    {
        let mut arr: Vec<Direction> = Vec::new();
        if self.can_move(Direction::Up) {
            arr.push(Direction::Up);
        }
        if self.can_move(Direction::Down) {
            arr.push(Direction::Down);
        }
        if self.can_move(Direction::Left) {
            arr.push(Direction::Left);
        }
        if self.can_move(Direction::Right) {
            arr.push(Direction::Right);
        }
        assert(arr@ =~= available(self.grid()));
        arr
    }

    fn make_move(&self, direction: Direction) -> (b: Board)
        ensures
            b.grid() == moved(self.grid(), direction),
            b.points() == self.points() + move_gain(self.grid(), direction),
    {
        match direction {
            Direction::Left => self.merge_left(),
            Direction::Right => self.merge_right(),
            Direction::Up => self.merge_up(),
            Direction::Down => self.merge_down(),
        }
    }

    fn merge_left(&self) -> (b: Board)
        ensures
            b.grid() == moved(self.grid(), Direction::Left),
            b.points() == self.points() + move_gain(self.grid(), Direction::Left),
    {
        self.slid(Direction::Left)
    }

    fn merge_right(&self) -> (b: Board)
        ensures
            b.grid() == moved(self.grid(), Direction::Right),
            b.points() == self.points() + move_gain(self.grid(), Direction::Right),
    {
        self.slid(Direction::Right)
    }

    fn merge_up(&self) -> (b: Board)
        ensures
            b.grid() == moved(self.grid(), Direction::Up),
            b.points() == self.points() + move_gain(self.grid(), Direction::Up),
    {
        self.slid(Direction::Up)
    }

    fn merge_down(&self) -> (b: Board)
        ensures
            b.grid() == moved(self.grid(), Direction::Down),
            b.points() == self.points() + move_gain(self.grid(), Direction::Down),
    {
        self.slid(Direction::Down)
    }
}

/// Whether pushing the line changes it.
fn line_slides(line: [u32; 4]) -> (ok: bool)
    ensures
        ok == line_can_slide(ints(line@)),
{
    let mut j: usize = 1;
    while j < 4
        invariant
            1 <= j <= 4,
            forall|jj: int| 1 <= jj < j ==> !(#[trigger] line[jj] != 0 && (line[jj - 1] == 0 || line[jj - 1] == line[jj])),
        decreases 4 - j,
    {
        if line[j] != 0 && (line[j - 1] == 0 || line[j - 1] == line[j]) {
            assert(ints(line@)[j as int] != 0);
            return true;
        }
        j = j + 1;
    }
    proof {
        let s = ints(line@);
        assert forall|jj: int| 1 <= jj < 4 implies !(#[trigger] s[jj] != 0 && (s[jj - 1] == 0 || s[jj - 1] == s[jj])) by {
            assert(s[jj] == line[jj] && s[jj - 1] == line[jj - 1]);
        }
    }
    false
}

} // verus!
