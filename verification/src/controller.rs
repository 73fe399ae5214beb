//! A rollout player: every available move is followed by a greedy game played
//! to the end, and the move whose games end with the highest average score wins.
use vstd::prelude::*;

use crate::board::{
    available, empty_cells, fits, lemma_available, lemma_empty_cells_found, lemma_grid_sum_bound,
    lemma_playable, lemma_set_cell_sum, playable, set_cell, Board, IBoard,
};
use crate::rules::{
    can_slide, cell_max, grid_sum, has_empty, lemma_move, lemma_move_sum, move_gain, moved,
    valid_grid, Grid,
};
use crate::tile::{floor_log2, log2};
use crate::types::Direction;

verus! {

/// Largest value of a `u64`.
pub open spec fn u64_max() -> int {
    u64::MAX as int
}

/// Rank of a tile value: `0` for an empty cell, the floor of its base-2 logarithm otherwise.
pub open spec fn rank_of(v: int) -> int {
    if v == 0 {
        0
    } else {
        log2(v)
    }
}

/// Floor of the base-10 logarithm; `0` for arguments below `10`.
pub open spec fn log10(x: int) -> int
    decreases x,
{
    if x < 10 {
        0
    } else {
        1 + log10(x / 10)
    }
}

/// `b` to the power `e`.
pub open spec fn power(b: int, e: nat) -> int
    decreases e,
{
    if e == 0 {
        1
    } else {
        b * power(b, (e - 1) as nat)
    }
}

pub open spec fn abs(x: int) -> int {
    if x < 0 {
        -x
    } else {
        x
    }
}

pub open spec fn min(a: int, b: int) -> int {
    if a < b {
        a
    } else {
        b
    }
}

/// Quotient of `p` by `q > 0`, rounded towards zero.
pub open spec fn div_toward_zero(p: int, q: int) -> int {
    if p >= 0 {
        p / q
    } else {
        -((-p) / q)
    }
}

/// What one pair of neighbouring ranks `a` (first) and `b` (second) adds to the
/// shape tally: a possible merge, the roughness, and the rise and fall from `a` to `b`.
pub open spec fn pair_terms(a: int, b: int) -> (int, int, int, int) {
    let merge = if a > 0 && a == b {
        1int
    } else {
        0int
    };
    if a > 0 && b > 0 {
        (merge, abs(a - b), if a > b { a - b } else { 0 }, if b > a { b - a } else { 0 })
    } else {
        (merge, 0, 0, 0)
    }
}

/// What cell `(r, c)` adds to the shape tally, through its right and lower
/// neighbours: merges, roughness, rises and falls along the row, rises and
/// falls along the column.
pub open spec fn cell_terms(g: Grid, r: int, c: int) -> (int, int, int, int, int, int) {
    let cur = rank_of(g[r][c]);
    let h = if c + 1 < 4 {
        pair_terms(cur, rank_of(g[r][c + 1]))
    } else {
        (0, 0, 0, 0)
    };
    let v = if r + 1 < 4 {
        pair_terms(cur, rank_of(g[r + 1][c]))
    } else {
        (0, 0, 0, 0)
    };
    (h.0 + v.0, h.1 + v.1, h.2, h.3, v.2, v.3)
}

/// The shape tally of the first `n` cells in row-major order.
pub open spec fn tally(g: Grid, n: int) -> (int, int, int, int, int, int)
    decreases n,
{
    if n <= 0 {
        (0, 0, 0, 0, 0, 0)
    } else {
        let t = tally(g, n - 1);
        let e = cell_terms(g, (n - 1) / 4, (n - 1) % 4);
        (t.0 + e.0, t.1 + e.1, t.2 + e.2, t.3 + e.3, t.4 + e.4, t.5 + e.5)
    }
}

/// Largest value among the first `n` cells in row-major order.
pub open spec fn max_upto(g: Grid, n: int) -> int
    decreases n,
{
    if n <= 0 {
        0
    } else {
        let m = max_upto(g, n - 1);
        let v = g[(n - 1) / 4][(n - 1) % 4];
        if v > m {
            v
        } else {
            m
        }
    }
}

/// The rank of the largest tile when that tile sits in a corner, else `0`.
pub open spec fn corner_value(g: Grid) -> int {
    let m = max_upto(g, 16);
    if m > 0 && (g[0][0] == m || g[0][3] == m || g[3][0] == m || g[3][3] == m) {
        rank_of(m)
    } else {
        0
    }
}

/// `max_upto` is the largest of the first `n` cells: no cell is larger, and it
/// is one of them unless it is `0`.
proof fn lemma_max_upto(g: Grid, n: int)
    requires
        valid_grid(g),
        0 <= n <= 16,
    ensures
        0 <= max_upto(g, n),
        forall|k: int| 0 <= k < n ==> #[trigger] g[k / 4][k % 4] <= max_upto(g, n),
        max_upto(g, n) == 0 || exists|k: int| 0 <= k < n && #[trigger] g[k / 4][k % 4] == max_upto(g, n),
    decreases n,
{
    if n > 0 {
        lemma_max_upto(g, n - 1);
        let v = g[(n - 1) / 4][(n - 1) % 4];
        assert(0 <= v);
        if max_upto(g, n - 1) > 0 && v <= max_upto(g, n - 1) {
            let k = choose|k: int| 0 <= k < n - 1 && #[trigger] g[k / 4][k % 4] == max_upto(g, n - 1);
            assert(g[k / 4][k % 4] == max_upto(g, n));
        }
    }
}

/// The value `v` is empty or some tile of the grid is larger.
pub open spec fn outranked(g: Grid, v: int) -> bool {
    v == 0 || exists|i: int, j: int| 0 <= i < 4 && 0 <= j < 4 && #[trigger] g[i][j] > v
}

/// When the largest tile stands in a corner, any of the four, the corner
/// bonus is the floor of its base-2 logarithm.
pub proof fn law_corner_bonus_for_largest_tile(g: Grid, r: int, c: int)
    requires
        valid_grid(g),
        r == 0 || r == 3,
        c == 0 || c == 3,
        g[r][c] > 0,
        forall|i: int, j: int| 0 <= i < 4 && 0 <= j < 4 ==> #[trigger] g[i][j] <= g[r][c],
    ensures
        corner_value(g) == log2(g[r][c]),
{
    lemma_max_upto(g, 16);
    let k0 = 4 * r + c;
    assert(k0 / 4 == r && k0 % 4 == c);
    assert(g[k0 / 4][k0 % 4] <= max_upto(g, 16));
    let m = max_upto(g, 16);
    let k = choose|k: int| 0 <= k < 16 && #[trigger] g[k / 4][k % 4] == m;
    assert(0 <= k / 4 < 4 && 0 <= k % 4 < 4);
    assert(g[k / 4][k % 4] <= g[r][c]);
    assert(m == g[r][c]);
}

/// When no corner holds the largest tile, every corner being empty or smaller
/// than some tile, there is no corner bonus.
pub proof fn law_no_corner_bonus_otherwise(g: Grid)
    requires
        valid_grid(g),
        outranked(g, g[0][0]),
        outranked(g, g[0][3]),
        outranked(g, g[3][0]),
        outranked(g, g[3][3]),
    ensures
        corner_value(g) == 0,
{
    lemma_max_upto(g, 16);
    let m = max_upto(g, 16);
    assert forall|i: int, j: int| 0 <= i < 4 && 0 <= j < 4 implies #[trigger] g[i][j] <= m by {
        let k = 4 * i + j;
        assert(k / 4 == i && k % 4 == j);
        assert(g[k / 4][k % 4] <= m);
    }
}

/// The shape of a position: empty space, merge chances and a largest tile in a
/// corner count for it; roughness and broken monotonicity count against it.
pub open spec fn shape(g: Grid) -> int {
    let t = tally(g, 16);
    empty_cells(g, 16).len() * 10 + t.0 * 6 + corner_value(g) * 2 - t.1 - (min(t.2, t.3) + min(t.4, t.5))
}

/// The rating of a position with score `score`: the score plus its shape,
/// weighted by a hundred to the power of the score's number of decimal digits
/// less one, in tenths; clamped to the range of `u64`.
pub open spec fn evaluate(g: Grid, score: int) -> int {
    let magnitude = if score == 0 {
        0
    } else {
        log10(score)
    };
    let weight = min(power(100, magnitude as nat), u64_max());
    let bonus = div_toward_zero(weight * shape(g), 10);
    let total = score + bonus;
    if total < 0 {
        0
    } else if total > u64_max() {
        u64_max()
    } else {
        total
    }
}

/// Rating of the position reached by move `d`.
pub open spec fn rating_after(g: Grid, score: int, d: Direction) -> int {
    evaluate(moved(g, d), score + move_gain(g, d))
}

/// The best rated of the first `n` moves of `moves`; a later move wins only
/// with a strictly higher rating.
pub open spec fn greedy_upto(g: Grid, score: int, moves: Seq<Direction>, n: int) -> (Direction, int)
    decreases n,
{
    if n <= 1 {
        (moves[0], rating_after(g, score, moves[0]))
    } else {
        let prev = greedy_upto(g, score, moves, n - 1);
        let d = moves[n - 1];
        let e = rating_after(g, score, d);
        if e > prev.1 {
            (d, e)
        } else {
            prev
        }
    }
}

/// The grid with a `2` in its first empty cell, if it has one.
pub open spec fn with_new_tile(g: Grid) -> Grid {
    let e = empty_cells(g, 16);
    if e.len() == 0 {
        g
    } else {
        set_cell(g, e[0].0 as int, e[0].1 as int, 2)
    }
}

/// A measure that every turn of a rollout lowers.
pub open spec fn rollout_measure(g: Grid) -> int {
    2 * (16 * cell_max() - grid_sum(g)) + if has_empty(g) {
        0int
    } else {
        1int
    }
}

/// Final score of a rollout from grid `g` with score `score`: each turn a new
/// tile, then the best rated playable move, until no move is playable.  The test
/// on the measure states for the recursion that every turn lowers it;
/// `lemma_rollout_turn` shows that it always does.
#[verifier::opaque]
pub open spec fn rollout(g: Grid, score: int) -> int
    decreases rollout_measure(g),
{
    let g1 = with_new_tile(g);
    let moves = playable(g1, score);
    if moves.len() == 0 {
        score
    } else {
        let d = greedy_upto(g1, score, moves, moves.len() as int).0;
        let g2 = moved(g1, d);
        let s2 = score + move_gain(g1, d);
        if 0 <= rollout_measure(g2) < rollout_measure(g) {
            rollout(g2, s2)
        } else {
            s2
        }
    }
}

/// Average of `rollouts` rollouts after move `d`, their sum saturated at `u64::MAX`.
pub open spec fn average_after(g: Grid, score: int, d: Direction, rollouts: int) -> int {
    let v = rollout(moved(g, d), score + move_gain(g, d));
    min(rollouts * v, u64_max()) / rollouts
}

/// The move with the best average among the first `n` moves of `moves`; a
/// later move wins only with a strictly higher average.
pub open spec fn best_average_upto(g: Grid, score: int, rollouts: int, moves: Seq<Direction>, n: int) -> (
    Direction,
    int,
)
    decreases n,
{
    if n <= 0 {
        (moves[0], 0)
    } else {
        let prev = best_average_upto(g, score, rollouts, moves, n - 1);
        let d = moves[n - 1];
        if !fits(g, score, d) {
            prev
        } else {
            let a = average_after(g, score, d, rollouts);
            if a > prev.1 {
                (d, a)
            } else {
                prev
            }
        }
    }
}

/// Rank of a tile value, as used by the shape rating.
fn tile_rank(tile: u32) -> (r: i64)
    ensures
        r == rank_of(tile as int),
        0 <= r < 32,
{
    if tile == 0 {
        0
    } else {
        floor_log2(tile) as i64
    }
}

fn pair_terms_exec(a: i64, b: i64) -> (t: (i64, i64, i64, i64))
    requires
        0 <= a < 32,
        0 <= b < 32,
    ensures
        (t.0 as int, t.1 as int, t.2 as int, t.3 as int) == pair_terms(a as int, b as int),
        0 <= t.0 <= 1,
        0 <= t.1 < 32,
        0 <= t.2 < 32,
        0 <= t.3 < 32,
{
    let merge = if a > 0 && a == b {
        1
    } else {
        0
    };
    if a > 0 && b > 0 {
        let rough = if a < b {
            b - a
        } else {
            a - b
        };
        let up = if a > b {
            a - b
        } else {
            0
        };
        let down = if b > a {
            b - a
        } else {
            0
        };
        (merge, rough, up, down)
    } else {
        (merge, 0, 0, 0)
    }
}

fn cell_terms_exec(board: &Board, row: usize, col: usize) -> (t: (i64, i64, i64, i64, i64, i64))
    requires
        row < 4,
        col < 4,
    ensures
        (t.0 as int, t.1 as int, t.2 as int, t.3 as int, t.4 as int, t.5 as int) == cell_terms(
            board.grid(),
            row as int,
            col as int,
        ),
        0 <= t.0 <= 2,
        0 <= t.1 < 64,
        0 <= t.2 < 32,
        0 <= t.3 < 32,
        0 <= t.4 < 32,
        0 <= t.5 < 32,
{
    let current = tile_rank(board.cell(row, col));
    let h = if col + 1 < 4 {
        pair_terms_exec(current, tile_rank(board.cell(row, col + 1)))
    } else {
        (0, 0, 0, 0)
    };
    let v = if row + 1 < 4 {
        pair_terms_exec(current, tile_rank(board.cell(row + 1, col)))
    } else {
        (0, 0, 0, 0)
    };
    (h.0 + v.0, h.1 + v.1, h.2, h.3, v.2, v.3)
}

/// Rates the shape of a position: empty space, merge opportunities and a
/// largest tile in a corner count for it; roughness between neighbouring tiles
/// and broken monotonicity along rows and columns count against it.
pub fn board_shape(board: &Board) -> (s: i64)
    ensures
        s == shape(board.grid()),
        -4000 <= s <= 4000,
{
    let ghost g = board.grid();
    let mut merge_pairs: i64 = 0;
    let mut roughness: i64 = 0;
    let mut row_increasing: i64 = 0;
    let mut row_decreasing: i64 = 0;
    let mut col_increasing: i64 = 0;
    let mut col_decreasing: i64 = 0;
    let mut row: usize = 0;
    while row < 4
        invariant
            g == board.grid(),
            row <= 4,
            (merge_pairs as int, roughness as int, row_increasing as int, row_decreasing as int,
                col_increasing as int, col_decreasing as int) == tally(g, 4 * row),
            0 <= merge_pairs <= 2 * (4 * row),
            0 <= roughness <= 64 * (4 * row),
            0 <= row_increasing <= 32 * (4 * row),
            0 <= row_decreasing <= 32 * (4 * row),
            0 <= col_increasing <= 32 * (4 * row),
            0 <= col_decreasing <= 32 * (4 * row),
        decreases 4 - row,
    {
        let mut col: usize = 0;
        while col < 4
            invariant
                g == board.grid(),
                row < 4,
                col <= 4,
                (merge_pairs as int, roughness as int, row_increasing as int, row_decreasing as int,
                    col_increasing as int, col_decreasing as int) == tally(g, 4 * row + col),
                0 <= merge_pairs <= 2 * (4 * row + col),
                0 <= roughness <= 64 * (4 * row + col),
                0 <= row_increasing <= 32 * (4 * row + col),
                0 <= row_decreasing <= 32 * (4 * row + col),
                0 <= col_increasing <= 32 * (4 * row + col),
                0 <= col_decreasing <= 32 * (4 * row + col),
            decreases 4 - col,
        {
            assert((4 * row + col) / 4 == row && (4 * row + col) % 4 == col);
            let t = cell_terms_exec(board, row, col);
            merge_pairs = merge_pairs + t.0;
            roughness = roughness + t.1;
            row_increasing = row_increasing + t.2;
            row_decreasing = row_decreasing + t.3;
            col_increasing = col_increasing + t.4;
            col_decreasing = col_decreasing + t.5;
            col = col + 1;
        }
        row = row + 1;
    }
    let row_penalty = if row_increasing < row_decreasing {
        row_increasing
    } else {
        row_decreasing
    };
    let col_penalty = if col_increasing < col_decreasing {
        col_increasing
    } else {
        col_decreasing
    };
    let monotonicity_penalty = row_penalty + col_penalty;
    let corner = corner_bonus(board);
    let empty = board.empty_tiles();
    proof {
        crate::board::lemma_empty_cells_count(g);
    }
    empty.len() as i64 * 10 + merge_pairs * 6 + corner * 2 - roughness - monotonicity_penalty
}

/// The rank of the largest tile when that tile sits in a corner, else `0`.
pub fn corner_bonus(board: &Board) -> (b: i64)
    ensures
        b == corner_value(board.grid()),
        0 <= b < 32,
{
    let ghost g = board.grid();
    let mut maximum: u32 = 0;
    let mut row: usize = 0;
    while row < 4
        invariant
            g == board.grid(),
            row <= 4,
            maximum == max_upto(g, 4 * row),
        decreases 4 - row,
    {
        let mut col: usize = 0;
        while col < 4
            invariant
                g == board.grid(),
                row < 4,
                col <= 4,
                maximum == max_upto(g, 4 * row + col),
            decreases 4 - col,
        {
            assert((4 * row + col) / 4 == row && (4 * row + col) % 4 == col);
            let v = board.cell(row, col);
            if v > maximum {
                maximum = v;
            }
            col = col + 1;
        }
        row = row + 1;
    }
    let corners = [board.cell(0, 0), board.cell(0, 3), board.cell(3, 0), board.cell(3, 3)];
    if maximum > 0 && (corners[0] == maximum || corners[1] == maximum || corners[2] == maximum
        || corners[3] == maximum) {
        tile_rank(maximum)
    } else {
        0
    }
}

/// Floor of the base-10 logarithm of a positive `u64`.
fn floor_log10(x: u64) -> (r: u32)
    requires
        x > 0,
    ensures
        r == log10(x as int),
        r < 20,
{
    let mut r: u32 = 0;
    let mut rest: u64 = x;
    while rest >= 10
        invariant
            rest >= 1,
            r + log10(rest as int) == log10(x as int),
            r <= 19,
            rest * power(10, r as nat) <= x,
        decreases rest,
    {
        proof {
            assert(power(10, (r + 1) as nat) == 10 * power(10, r as nat));
            lemma_power_pos(10, r as nat);
            assert((rest / 10) * power(10, (r + 1) as nat) <= rest * power(10, r as nat)) by (nonlinear_arith)
                requires
                    power(10, (r + 1) as nat) == 10 * power(10, r as nat),
                    power(10, r as nat) >= 1,
                    rest >= 0,
            ;
            if r + 1 > 19 {
                lemma_power_10_20();
                lemma_power_grows(10, 20, (r + 1) as nat);
                assert(power(10, (r + 1) as nat) <= (rest / 10) * power(10, (r + 1) as nat)) by (nonlinear_arith)
                    requires
                        rest / 10 >= 1,
                        power(10, (r + 1) as nat) >= 0,
                ;
            }
        }
        rest = rest / 10;
        r = r + 1;
    }
    r
}

proof fn lemma_power_pos(b: int, e: nat)
    requires
        b >= 1,
    ensures
        power(b, e) >= 1,
    decreases e,
{
    if e > 0 {
        lemma_power_pos(b, (e - 1) as nat);
        assert(b * power(b, (e - 1) as nat) >= 1) by (nonlinear_arith)
            requires
                b >= 1,
                power(b, (e - 1) as nat) >= 1,
        ;
    }
}

proof fn lemma_power_grows(b: int, e1: nat, e2: nat)
    requires
        b >= 1,
        e1 <= e2,
    ensures
        power(b, e1) <= power(b, e2),
    decreases e2,
{
    if e1 < e2 {
        lemma_power_grows(b, e1, (e2 - 1) as nat);
        lemma_power_pos(b, (e2 - 1) as nat);
        assert(power(b, (e2 - 1) as nat) <= b * power(b, (e2 - 1) as nat)) by (nonlinear_arith)
            requires
                b >= 1,
                power(b, (e2 - 1) as nat) >= 1,
        ;
    }
}

proof fn lemma_power_10_20()
    ensures
        power(10, 20) == 100_000_000_000_000_000_000,
{
    reveal_with_fuel(power, 21);
}

/// `100` to the power `e`, saturated at `u64::MAX`.
fn saturating_pow100(e: u32) -> (p: u64)
    ensures
        p == min(power(100, e as nat), u64_max()),
{
    let mut acc: u64 = 1;
    let mut i: u32 = 0;
    while i < e
        invariant
            i <= e,
            acc == min(power(100, i as nat), u64_max()),
        decreases e - i,
    {
        proof {
            assert(power(100, (i + 1) as nat) == 100 * power(100, i as nat));
            lemma_power_pos(100, i as nat);
        }
        if acc > u64::MAX / 100 {
            acc = u64::MAX;
        } else {
            acc = acc * 100;
        }
        i = i + 1;
    }
    acc
}

/// Rates a live position using score, space, merge opportunities, tile order,
/// neighboring-tile smoothness, and largest-tile corner placement.
fn evaluate_board(board: &Board) -> (rating: u64)
    ensures
        rating == evaluate(board.grid(), board.points()),
{
    let score = board.score() as u64;
    let magnitude = if score == 0 {
        0
    } else {
        floor_log10(score)
    };
    let empty_weight = saturating_pow100(magnitude);
    let shape = board_shape(board);
    // Shape is stored in tenths, so one empty cell is worth exactly `empty_weight`
    // while smaller signals remain possible.
    proof {
        let w = empty_weight as int;
        let sh = shape as int;
        assert(-0x1_0000_0000_0000_0000 * 4000 <= w * sh <= 0x1_0000_0000_0000_0000 * 4000) by (nonlinear_arith)
            requires
                0 <= w <= 0xFFFF_FFFF_FFFF_FFFF,
                -4000 <= sh <= 4000,
        ;
    }
    let product: i128 = (empty_weight as i128) * (shape as i128);
    let shape_bonus: i128 = if product >= 0 {
        product / 10
    } else {
        -((-product) / 10)
    };
    let total: i128 = score as i128 + shape_bonus;
    if total < 0 {
        0
    } else if total > u64::MAX as i128 {
        u64::MAX
    } else {
        total as u64
    }
}

/// The move `run_simulation` keeps has the highest average among the moves it
/// tried: no playable move has a larger average, and the kept move is either one
/// of them with its average or the first move while every average is `0`.
pub proof fn law_best_average_is_highest(g: Grid, score: int, rollouts: int, moves: Seq<Direction>, n: int)
    requires
        0 <= n <= moves.len(),
        moves.len() > 0,
    ensures
        forall|i: int|
            0 <= i < n && fits(g, score, #[trigger] moves[i]) ==> average_after(g, score, moves[i], rollouts)
                <= best_average_upto(g, score, rollouts, moves, n).1,
        best_average_upto(g, score, rollouts, moves, n) == (moves[0], 0int) || exists|i: int|
            0 <= i < n && fits(g, score, moves[i]) && best_average_upto(g, score, rollouts, moves, n) == (
                moves[i],
                average_after(g, score, #[trigger] moves[i], rollouts),
            ),
    decreases n,
{
    if n > 0 {
        law_best_average_is_highest(g, score, rollouts, moves, n - 1);
    }
}

/// The greedy move of a rollout has the highest rating among the candidates,
/// and is the first of the highest.
pub proof fn law_greedy_choice_is_best(g: Grid, score: int, moves: Seq<Direction>, n: int)
    requires
        1 <= n <= moves.len(),
    ensures
        forall|i: int| 0 <= i < n ==> rating_after(g, score, #[trigger] moves[i]) <= greedy_upto(g, score, moves, n).1,
        exists|i: int|
            0 <= i < n && greedy_upto(g, score, moves, n) == (moves[i], rating_after(g, score, moves[i]))
                && forall|j: int| 0 <= j < i ==> rating_after(g, score, #[trigger] moves[j]) < rating_after(g, score, moves[i]),
    decreases n,
{
    if n > 1 {
        law_greedy_choice_is_best(g, score, moves, n - 1);
    } else {
        assert(greedy_upto(g, score, moves, n) == (moves[0], rating_after(g, score, moves[0])));
    }
}

pub trait IController: Sized {
    /// The position has at least one available move.
    spec fn has_moves(&self) -> bool;

    fn new(board: Board, rollouts: usize) -> Self;

    fn run_simulation(&self) -> Direction
        requires
            self.has_moves(),
    ;

    fn simulate(&self, board: Board) -> u64;
}

pub struct Controller {
    board: Board,
    rollouts: usize,
}

impl Controller {
    /// The position the controller chooses a move for.
    pub closed spec fn position(&self) -> Board {
        self.board
    }

    /// Number of rollouts played after every candidate move.
    pub closed spec fn rollout_count(&self) -> int {
        self.rollouts as int
    }

    /// Number of rollouts played after every candidate move.
    pub fn rollouts(&self) -> (n: usize)
        ensures
            n == self.rollout_count(),
    {
        self.rollouts
    }
}

impl IController for Controller {
    open spec fn has_moves(&self) -> bool {
        available(self.position().grid()).len() > 0
    }

    fn new(board: Board, rollouts: usize) -> (c: Self)
        ensures
            c.position() == board,
            c.rollout_count() == if rollouts < 1 { 1 } else { rollouts as int },
    {
        Controller {
            board,
            rollouts: if rollouts < 1 {
                1
            } else {
                rollouts
            },
        }
    }

    fn run_simulation(&self) -> (direction: Direction)
        ensures
            direction == best_average_upto(
                self.position().grid(),
                self.position().points(),
                self.rollout_count(),
                available(self.position().grid()),
                available(self.position().grid()).len() as int,
            ).0,
            can_slide(self.position().grid(), direction),
    {
        proof {
            use_type_invariant(self);
            lemma_available(self.board.grid());
        }
        let ghost g = self.board.grid();
        let ghost score = self.board.points();
        let candidates = self.board.available_moves();
        let mut best_average: u64 = 0;
        let mut best_direction = candidates[0];
        let mut i: usize = 0;
        while i < candidates.len()
            invariant
                g == self.board.grid(),
                score == self.board.points(),
                self.rollouts >= 1,
                candidates@ == available(g),
                candidates@.len() > 0,
                i <= candidates@.len(),
                (best_direction, best_average as int) == best_average_upto(
                    g,
                    score,
                    self.rollouts as int,
                    candidates@,
                    i as int,
                ),
                can_slide(g, best_direction),
                forall|j: int| 0 <= j < candidates@.len() ==> can_slide(g, #[trigger] candidates@[j]),
            decreases candidates@.len() - i,
        {
            let direction = candidates[i];
            if self.board.accepts_move(direction) {
                let average = self.average_after(direction);
                if average > best_average {
                    best_average = average;
                    best_direction = direction;
                }
            }
            i = i + 1;
        }
        best_direction
    }

    fn simulate(&self, board: Board) -> (score: u64)
        ensures
            score == rollout(board.grid(), board.points()),
    {
        let mut current = board;
        loop
            invariant
                rollout(current.grid(), current.points()) == rollout(board.grid(), board.points()),
            decreases rollout_measure(current.grid()),
        {
            if !rollout_turn(&mut current) {
                return current.score() as u64;
            }
        }
    }
}

impl Controller {
    #[verifier::type_invariant]
    spec fn at_least_one_rollout(&self) -> bool {
        self.rollouts >= 1
    }

    /// Average final score of the rollouts after `direction`, their total
    /// saturated at `u64::MAX`.
    fn average_after(&self, direction: Direction) -> (average: u64)
        requires
            fits(self.position().grid(), self.position().points(), direction),
        ensures
            average == average_after(
                self.position().grid(),
                self.position().points(),
                direction,
                self.rollout_count(),
            ),
    {
        proof {
            use_type_invariant(self);
        }
        let ghost g = self.board.grid();
        let ghost score = self.board.points();
        let ghost v = rollout(moved(g, direction), score + move_gain(g, direction));
        let mut total: u64 = 0;
        let mut run: usize = 0;
        while run < self.rollouts
            invariant
                g == self.board.grid(),
                score == self.board.points(),
                fits(g, score, direction),
                v == rollout(moved(g, direction), score + move_gain(g, direction)),
                run <= self.rollouts,
                total == min(run * v, u64_max()),
            decreases self.rollouts - run,
        {
            let board_copy = self.board.make_move(direction);
            let result = self.simulate(board_copy);
            proof {
                assert((run + 1) * v == run * v + v) by (nonlinear_arith);
                assert(run * v >= 0) by (nonlinear_arith)
                    requires
                        run >= 0,
                        v >= 0,
                ;
            }
            total = total.saturating_add(result);
            run = run + 1;
        }
        total / self.rollouts as u64
    }
}

/// Plays one turn of a rollout: a new tile, then the best rated playable move.
/// Returns `false` when no move is playable once the tile is placed.
fn rollout_turn(board: &mut Board) -> (played: bool)
    ensures
        !played ==> final(board).points() == old(board).points()
            && rollout(old(board).grid(), old(board).points()) == old(board).points(),
        played ==> 0 <= rollout_measure(final(board).grid()) < rollout_measure(old(board).grid()),
        played ==> rollout(old(board).grid(), old(board).points()) == rollout(
            final(board).grid(),
            final(board).points(),
        ),
{
    let ghost g = board.grid();
    let ghost score = board.points();
    proof {
        board.lemma_valid();
    }
    board.set_empty_tile();
    let ghost g1 = board.grid();
    let candidates = board.playable_moves();
    if candidates.len() == 0 {
        proof {
            assert(g1 == with_new_tile(g));
            reveal(rollout);
        }
        return false;
    }
    proof {
        lemma_playable(g1, score);
    }
    let mut best = board.make_move(candidates[0]);
    let mut best_direction = candidates[0];
    let mut best_score = evaluate_board(&best);
    let mut i: usize = 1;
    while i < candidates.len()
        invariant
            g1 == board.grid(),
            score == board.points(),
            candidates@ == playable(g1, score),
            1 <= i <= candidates@.len(),
            (best_direction, best_score as int) == greedy_upto(g1, score, candidates@, i as int),
            best.grid() == moved(g1, best_direction),
            best.points() == score + move_gain(g1, best_direction),
            forall|j: int| 0 <= j < candidates@.len() ==> {
                &&& can_slide(g1, #[trigger] candidates@[j])
                &&& fits(g1, score, candidates@[j])
            },
            exists|j: int| 0 <= j < candidates@.len() && candidates@[j] == best_direction,
        decreases candidates@.len() - i,
    {
        let candidate = board.make_move(candidates[i]);
        let candidate_score = evaluate_board(&candidate);
        if candidate_score > best_score {
            best = candidate;
            best_score = candidate_score;
            best_direction = candidates[i];
        }
        i = i + 1;
    }
    proof {
        board.lemma_valid();
        best.lemma_valid();
        lemma_rollout_turn(g, score, g1, best_direction, best.grid());
    }
    *board = best;
    true
}

/// A turn of a rollout lowers the measure and leaves the rest of the rollout
/// to be played from the new grid.
proof fn lemma_rollout_turn(g: Grid, score: int, g1: Grid, d: Direction, g2: Grid)
    requires
        valid_grid(g),
        g1 == with_new_tile(g),
        valid_grid(g1),
        playable(g1, score).len() > 0,
        d == greedy_upto(g1, score, playable(g1, score), playable(g1, score).len() as int).0,
        exists|j: int| 0 <= j < playable(g1, score).len() && playable(g1, score)[j] == d,
        g2 == moved(g1, d),
        valid_grid(g2),
    ensures
        0 <= rollout_measure(g2) < rollout_measure(g),
        rollout(g, score) == rollout(g2, score + move_gain(g1, d)),
{
    lemma_playable(g1, score);
    assert(can_slide(g1, d));
    lemma_move(g1, d);
    lemma_move_sum(g1, d);
    lemma_grid_sum_bound(g2);
    crate::board::lemma_empty_cells_zero(g);
    let e = empty_cells(g, 16);
    if has_empty(g) {
        lemma_empty_cells_found(g);
        lemma_set_cell_sum(g, e[0].0 as int, e[0].1 as int, 2);
    } else {
        if e.len() > 0 {
            assert(g[e[0].0 as int][e[0].1 as int] == 0);
        }
    }
    reveal(rollout);
}

} // verus!
