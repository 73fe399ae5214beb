//! The rules of 2048 as mathematics: how one line of four cells slides and
//! merges, and how a move acts on a whole grid.
//!
//! A line is read in the order of travel: position `0` is the cell against the
//! wall that the tiles are pushed to.  A grid is a sequence of four rows of four
//! cells; `0` stands for an empty cell.
use vstd::prelude::*;

use crate::types::Direction;

verus! {

pub type Grid = Seq<Seq<int>>;

/// Largest value a cell can hold.
pub open spec fn cell_max() -> int {
    u32::MAX as int
}

/// `x`, saturated at the largest value a cell can hold.
pub open spec fn sat(x: int) -> int {
    if x > cell_max() {
        cell_max()
    } else {
        x
    }
}

/// Sum of the entries of a sequence.
pub open spec fn sum(s: Seq<int>) -> int
    decreases s.len(),
{
    if s.len() == 0 {
        0
    } else {
        s[0] + sum(s.skip(1))
    }
}

/// The tiles of a line, in order, with the empty cells left out.
pub open spec fn compact(s: Seq<int>) -> Seq<int>
    decreases s.len(),
{
    if s.len() == 0 {
        Seq::empty()
    } else if s.last() != 0 {
        compact(s.drop_last()).push(s.last())
    } else {
        compact(s.drop_last())
    }
}

/// Merges packed tiles from the front: two equal neighbours become one tile of
/// twice the value, and a tile that came out of a merge does not merge again.
pub open spec fn merge_run(t: Seq<int>) -> Seq<int>
    decreases t.len(),
{
    if t.len() == 0 {
        Seq::empty()
    } else if t.len() >= 2 && t[0] == t[1] {
        seq![2 * t[0]] + merge_run(t.skip(2))
    } else {
        seq![t[0]] + merge_run(t.skip(1))
    }
}

/// Points scored by `merge_run(t)`: the sum of the tiles made by merges.
pub open spec fn merge_gain(t: Seq<int>) -> int
    decreases t.len(),
{
    if t.len() == 0 {
        0
    } else if t.len() >= 2 && t[0] == t[1] {
        2 * t[0] + merge_gain(t.skip(2))
    } else {
        merge_gain(t.skip(1))
    }
}

/// Like `merge_gain`, with every merged tile saturated at `cell_max()`.
pub open spec fn merge_gain_sat(t: Seq<int>) -> int
    decreases t.len(),
{
    if t.len() == 0 {
        0
    } else if t.len() >= 2 && t[0] == t[1] {
        sat(2 * t[0]) + merge_gain_sat(t.skip(2))
    } else {
        merge_gain_sat(t.skip(1))
    }
}

pub open spec fn zeros(n: nat) -> Seq<int> {
    Seq::new(n, |i: int| 0int)
}

/// A line of four cells after it was pushed towards position `0`.
pub open spec fn slide(line: Seq<int>) -> Seq<int> {
    let m = merge_run(compact(line));
    m + zeros((4 - m.len()) as nat)
}

/// Points scored by pushing a line.
pub open spec fn line_gain(line: Seq<int>) -> int {
    merge_gain(compact(line))
}

/// Points scored by pushing a line when every sum saturates at `cell_max()`.
pub open spec fn line_gain_sat(line: Seq<int>) -> int {
    sat(merge_gain_sat(compact(line)))
}

/// Whether pushing the line changes it: some tile has an empty cell or an
/// equal tile right in front of it.
pub open spec fn line_can_slide(line: Seq<int>) -> bool {
    exists|j: int|
        1 <= j < 4 && #[trigger] line[j] != 0 && (line[j - 1] == 0 || line[j - 1] == line[j])
}

/// Row of the cell at position `j` of line `k` when pushing in direction `d`.
pub open spec fn cell_row(d: Direction, k: int, j: int) -> int {
    match d {
        Direction::Left => k,
        Direction::Right => k,
        Direction::Up => j,
        Direction::Down => 3 - j,
    }
}

/// Column of the cell at position `j` of line `k` when pushing in direction `d`.
pub open spec fn cell_col(d: Direction, k: int, j: int) -> int {
    match d {
        Direction::Left => j,
        Direction::Right => 3 - j,
        Direction::Up => k,
        Direction::Down => k,
    }
}

/// The line that holds cell `(r, c)` when pushing in direction `d`.
pub open spec fn line_of(d: Direction, r: int, c: int) -> int {
    match d {
        Direction::Left => r,
        Direction::Right => r,
        Direction::Up => c,
        Direction::Down => c,
    }
}

/// The position of cell `(r, c)` in its line when pushing in direction `d`.
pub open spec fn pos_of(d: Direction, r: int, c: int) -> int {
    match d {
        Direction::Left => c,
        Direction::Right => 3 - c,
        Direction::Up => r,
        Direction::Down => 3 - r,
    }
}

/// Line `k` of the grid, read in the order of travel for direction `d`.
pub open spec fn grid_line(g: Grid, d: Direction, k: int) -> Seq<int> {
    Seq::new(4, |j: int| g[cell_row(d, k, j)][cell_col(d, k, j)])
}

/// The grid after pushing every line in direction `d`.
pub open spec fn moved(g: Grid, d: Direction) -> Grid {
    Seq::new(
        4,
        |r: int| Seq::new(4, |c: int| slide(grid_line(g, d, line_of(d, r, c)))[pos_of(d, r, c)]),
    )
}

/// The grid after pushing in direction `d`, every merged tile saturated.
pub open spec fn moved_sat(g: Grid, d: Direction) -> Grid {
    Seq::new(
        4,
        |r: int| Seq::new(4, |c: int| sat(slide(grid_line(g, d, line_of(d, r, c)))[pos_of(d, r, c)])),
    )
}

/// Points scored by the first `n` lines of a move.
pub open spec fn gain_upto(g: Grid, d: Direction, n: int) -> int
    decreases n,
{
    if n <= 0 {
        0
    } else {
        gain_upto(g, d, n - 1) + line_gain(grid_line(g, d, n - 1))
    }
}

/// Points scored by a move.
pub open spec fn move_gain(g: Grid, d: Direction) -> int {
    gain_upto(g, d, 4)
}

/// Saturated points of the first `n` lines of a move, summed without a bound.
pub open spec fn gain_sat_upto(g: Grid, d: Direction, n: int) -> int
    decreases n,
{
    if n <= 0 {
        0
    } else {
        gain_sat_upto(g, d, n - 1) + line_gain_sat(grid_line(g, d, n - 1))
    }
}

/// Whether a move in direction `d` changes the grid.
#[verifier::opaque]
pub open spec fn can_slide(g: Grid, d: Direction) -> bool {
    exists|k: int| 0 <= k < 4 && #[trigger] line_can_slide(grid_line(g, d, k))
}

/// A grid of four rows of four cells, each holding a `u32`.
pub open spec fn valid_grid(g: Grid) -> bool {
    &&& g.len() == 4
    &&& forall|r: int| 0 <= r < 4 ==> #[trigger] g[r].len() == 4
    &&& forall|r: int, c: int| 0 <= r < 4 && 0 <= c < 4 ==> 0 <= #[trigger] g[r][c] <= cell_max()
}

/// Sum of all cells of a grid.
#[verifier::opaque]
pub open spec fn grid_sum(g: Grid) -> int {
    sum(g[0]) + sum(g[1]) + sum(g[2]) + sum(g[3])
}

/// Whether some cell of the grid is empty.
pub open spec fn has_empty(g: Grid) -> bool {
    exists|r: int, c: int| 0 <= r < 4 && 0 <= c < 4 && #[trigger] g[r][c] == 0
}

/// All entries of `s` lie in `lo..=hi`.
pub open spec fn all_within(s: Seq<int>, lo: int, hi: int) -> bool {
    forall|i: int| 0 <= i < s.len() ==> lo <= #[trigger] s[i] <= hi
}

/// `s` is a run of non-zero entries followed by zeros only.
pub open spec fn packed(s: Seq<int>) -> bool {
    forall|i: int, j: int| 0 <= i < j < s.len() && #[trigger] s[i] == 0 ==> #[trigger] s[j] == 0
}

/// `t` holds two equal neighbours.
pub open spec fn has_pair(t: Seq<int>) -> bool {
    exists|i: int| 0 <= i < t.len() - 1 && #[trigger] t[i] == t[i + 1]
}

// ---------------------------------------------------------------------------
// Lemmas on lines
// ---------------------------------------------------------------------------

pub proof fn lemma_sum_concat(a: Seq<int>, b: Seq<int>)
    ensures
        sum(a + b) == sum(a) + sum(b),
    decreases a.len(),
{
    if a.len() == 0 {
        assert(a + b =~= b);
    } else {
        assert((a + b).skip(1) =~= a.skip(1) + b);
        lemma_sum_concat(a.skip(1), b);
    }
}

pub proof fn lemma_sum_zeros(n: nat)
    ensures
        sum(zeros(n)) == 0,
    decreases n,
{
    if n > 0 {
        assert(zeros(n).skip(1) =~= zeros((n - 1) as nat));
        lemma_sum_zeros((n - 1) as nat);
    }
}

pub proof fn lemma_sum4(s: Seq<int>)
    requires
        s.len() == 4,
    ensures
        sum(s) == s[0] + s[1] + s[2] + s[3],
{
    assert(s.skip(1).skip(1) =~= s.skip(2));
    assert(s.skip(2).skip(1) =~= s.skip(3));
    assert(s.skip(3).skip(1) =~= s.skip(4));
    assert(s.skip(4).len() == 0);
    assert(sum(s.skip(3)) == s[3] + sum(s.skip(4)));
    assert(sum(s.skip(2)) == s[2] + sum(s.skip(2).skip(1)));
    assert(sum(s.skip(1)) == s[1] + sum(s.skip(1).skip(1)));
}

pub proof fn lemma_compact(s: Seq<int>, lo: int, hi: int)
    requires
        all_within(s, lo, hi),
    ensures
        compact(s).len() <= s.len(),
        all_within(compact(s), lo, hi),
        forall|i: int| 0 <= i < compact(s).len() ==> #[trigger] compact(s)[i] != 0,
        sum(compact(s)) == sum(s),
    decreases s.len(),
{
    if s.len() > 0 {
        let p = s.drop_last();
        assert(s =~= p + seq![s.last()]);
        lemma_compact(p, lo, hi);
        lemma_sum_concat(p, seq![s.last()]);
        assert(seq![s.last()].skip(1) =~= Seq::<int>::empty());
        assert(sum(seq![s.last()]) == s.last() + sum(seq![s.last()].skip(1)));
        if s.last() != 0 {
            lemma_sum_concat(compact(p), seq![s.last()]);
            assert(compact(p).push(s.last()) =~= compact(p) + seq![s.last()]);
        }
    }
}

/// A packed line compacts to its non-zero prefix.
pub proof fn lemma_compact_packed(s: Seq<int>)
    requires
        packed(s),
    ensures
        compact(s).len() <= s.len(),
        compact(s) =~= s.take(compact(s).len() as int),
        forall|i: int| compact(s).len() <= i < s.len() ==> #[trigger] s[i] == 0,
    decreases s.len(),
{
    if s.len() > 0 {
        let p = s.drop_last();
        assert(packed(p)) by {
            assert forall|i: int, j: int| 0 <= i < j < p.len() && #[trigger] p[i] == 0 implies #[trigger] p[j] == 0 by {
                assert(s[i] == p[i] && s[j] == p[j]);
            }
        }
        lemma_compact_packed(p);
        if s.last() != 0 {
            // Every entry before the last is non-zero.
            assert forall|i: int| 0 <= i < p.len() implies p[i] != 0 by {
                if p[i] == 0 {
                    assert(s[i] == 0);
                    assert(s[s.len() - 1] == 0);
                }
            }
            if compact(p).len() < p.len() {
                let i = compact(p).len() as int;
                assert(p[i] == 0);
                assert(false);
            }
            assert(compact(p) =~= p);
        } else {
            assert(compact(s) == compact(p));
            assert(p.take(compact(p).len() as int) =~= s.take(compact(p).len() as int));
            assert forall|i: int| compact(s).len() <= i < s.len() implies #[trigger] s[i] == 0 by {
                if i < p.len() {
                    assert(p[i] == 0);
                }
            }
        }
    }
}

pub proof fn lemma_sum_front(t: Seq<int>)
    requires
        t.len() >= 2,
    ensures
        sum(t) == t[0] + t[1] + sum(t.skip(2)),
{
    assert(t.skip(1).skip(1) =~= t.skip(2));
    assert(sum(t) == t[0] + sum(t.skip(1)));
    assert(sum(t.skip(1)) == t.skip(1)[0] + sum(t.skip(1).skip(1)));
}

pub proof fn lemma_sum_cons(x: int, rest: Seq<int>)
    ensures
        sum(seq![x] + rest) == x + sum(rest),
{
    assert((seq![x] + rest).skip(1) =~= rest);
}

pub proof fn lemma_merge_run(t: Seq<int>, lo: int, hi: int)
    requires
        all_within(t, lo, hi),
        0 <= lo,
    ensures
        merge_run(t).len() <= t.len(),
        t.len() > 0 ==> merge_run(t).len() > 0,
        all_within(merge_run(t), lo, 2 * hi),
        sum(merge_run(t)) == sum(t),
        0 <= merge_gain(t),
        0 <= merge_gain_sat(t),
        has_pair(t) ==> merge_run(t).len() < t.len(),
        !has_pair(t) ==> merge_run(t) == t && merge_gain(t) == 0 && merge_gain_sat(t) == 0,
    decreases t.len(),
{
    if t.len() == 0 {
        assert(merge_run(t) =~= t);
    } else if t.len() >= 2 && t[0] == t[1] {
        let rest = t.skip(2);
        lemma_merge_run(rest, lo, hi);
        lemma_sum_front(t);
        lemma_sum_cons(2 * t[0], merge_run(rest));
        assert(has_pair(t)) by {
            assert(t[0int] == t[0int + 1]);
        }
        let r = merge_run(t);
        assert(r =~= seq![2 * t[0]] + merge_run(rest));
        assert forall|i: int| 0 <= i < r.len() implies lo <= #[trigger] r[i] <= 2 * hi by {
            if i > 0 {
                assert(r[i] == merge_run(rest)[i - 1]);
            }
        }
    } else {
        let rest = t.skip(1);
        lemma_merge_run(rest, lo, hi);
        lemma_sum_cons(t[0], merge_run(rest));
        assert(sum(t) == t[0] + sum(rest));
        let r = merge_run(t);
        assert(r =~= seq![t[0]] + merge_run(rest));
        assert forall|i: int| 0 <= i < r.len() implies lo <= #[trigger] r[i] <= 2 * hi by {
            if i > 0 {
                assert(r[i] == merge_run(rest)[i - 1]);
            }
        }
        if has_pair(t) {
            let i = choose|i: int| 0 <= i < t.len() - 1 && #[trigger] t[i] == t[i + 1];
            assert(i != 0);
            assert(rest[i - 1] == rest[(i - 1) + 1]);
            assert(has_pair(rest));
        } else {
            assert(!has_pair(rest)) by {
                if has_pair(rest) {
                    let i = choose|i: int| 0 <= i < rest.len() - 1 && #[trigger] rest[i] == rest[i + 1];
                    assert(t[i + 1] == t[(i + 1) + 1]);
                }
            }
            assert(seq![t[0]] + rest =~= t);
        }
    }
}

pub proof fn lemma_slide(line: Seq<int>)
    requires
        line.len() == 4,
        all_within(line, 0, cell_max()),
    ensures
        slide(line).len() == 4,
        all_within(slide(line), 0, 2 * cell_max()),
        packed(slide(line)),
        sum(slide(line)) == sum(line),
        0 <= line_gain(line),
        0 <= line_gain_sat(line) <= cell_max(),
        line_can_slide(line) <==> slide(line) != line,
        line_can_slide(line) ==> slide(line)[3] == 0,
        !line_can_slide(line) ==> line_gain(line) == 0 && line_gain_sat(line) == 0,
{
    let t = compact(line);
    lemma_compact(line, 0, cell_max());
    assert(all_within(t, 1, cell_max())) by {
        assert forall|i: int| 0 <= i < t.len() implies 1 <= #[trigger] t[i] <= cell_max() by {
            assert(t[i] != 0);
        }
    }
    lemma_merge_run(t, 1, cell_max());
    let m = merge_run(t);
    let sl = slide(line);
    assert(sl =~= m + zeros((4 - m.len()) as nat));
    assert(sl.len() == 4);
    assert forall|i: int| 0 <= i < 4 implies 0 <= #[trigger] sl[i] <= 2 * cell_max() by {
        if i < m.len() {
            assert(sl[i] == m[i]);
        } else {
            assert(sl[i] == 0);
        }
    }
    assert forall|i: int, j: int| 0 <= i < j < sl.len() && #[trigger] sl[i] == 0 implies #[trigger] sl[j] == 0 by {
        if i < m.len() {
            assert(sl[i] == m[i]);
            assert(false);
        }
    }
    lemma_sum_concat(m, zeros((4 - m.len()) as nat));
    lemma_sum_zeros((4 - m.len()) as nat);
    if !line_can_slide(line) {
        // The line is packed and has no equal neighbours: nothing moves.
        assert(packed(line)) by {
            assert(!(line[1] != 0 && (line[0] == 0 || line[0] == line[1])));
            assert(!(line[2] != 0 && (line[1] == 0 || line[1] == line[2])));
            assert(!(line[3] != 0 && (line[2] == 0 || line[2] == line[3])));
        }
        lemma_compact_packed(line);
        assert(!has_pair(t)) by {
            if has_pair(t) {
                let i = choose|i: int| 0 <= i < t.len() - 1 && #[trigger] t[i] == t[i + 1];
                assert(t[i] == line[i] && t[i + 1] == line[i + 1]);
                assert(line[i + 1] != 0);
                assert(line_can_slide(line)) by {
                    assert(1 <= i + 1 < 4 && line[i + 1] != 0 && line[(i + 1) - 1] == line[i + 1]);
                }
            }
        }
        assert(sl =~= line) by {
            assert forall|i: int| 0 <= i < 4 implies sl[i] == line[i] by {
                if i < m.len() {
                    assert(sl[i] == m[i] && m[i] == t[i] && t[i] == line[i]);
                } else {
                    assert(line[i] == 0);
                }
            }
        }
    } else {
        let j = choose|j: int|
            1 <= j < 4 && #[trigger] line[j] != 0 && (line[j - 1] == 0 || line[j - 1] == line[j]);
        if !packed(line) {
            // The slid line is packed and this one is not.
            assert(sl != line) by {
                if sl == line {
                    assert(packed(line));
                }
            }
            let (a, b) = choose|a: int, b: int|
                0 <= a < b < line.len() && #[trigger] line[a] == 0 && #[trigger] line[b] != 0;
            lemma_compact_len(line);
            assert(t.len() < 4) by {
                if t.len() == 4 {
                    assert(line[a] != 0);
                }
            }
            assert(sl[3] == 0);
        } else {
            lemma_compact_packed(line);
            assert(line[j - 1] == line[j]) by {
                if line[j - 1] == 0 {
                    assert(line[j] == 0);
                }
            }
            assert(j < t.len()) by {
                if j >= t.len() {
                    assert(line[j] == 0);
                }
            }
            assert(t[j - 1] == line[j - 1] && t[j] == line[j]);
            assert(t[j - 1] == t[(j - 1) + 1]);
            assert(has_pair(t));
            assert(m.len() < t.len());
            assert(sl[t.len() - 1] == 0);
            assert(line[t.len() - 1] != 0) by {
                assert(line[t.len() - 1] == t[t.len() - 1]);
            }
            assert(sl[3] == 0) by {
                if t.len() < 4 {
                    assert(m.len() < 4);
                }
            }
        }
    }
}

/// Compacting never lengthens a line, and keeps its length only when no cell is empty.
pub proof fn lemma_compact_len(s: Seq<int>)
    ensures
        compact(s).len() <= s.len(),
        compact(s).len() == s.len() ==> forall|i: int| 0 <= i < s.len() ==> #[trigger] s[i] != 0,
    decreases s.len(),
{
    if s.len() > 0 {
        let p = s.drop_last();
        lemma_compact_len(p);
        if compact(s).len() == s.len() {
            assert(s.last() != 0);
            assert forall|i: int| 0 <= i < s.len() implies #[trigger] s[i] != 0 by {
                if i < p.len() {
                    assert(s[i] == p[i]);
                }
            }
        }
    }
}

// ---------------------------------------------------------------------------
// Lemmas on grids
// ---------------------------------------------------------------------------

/// Lines and positions are a relabelling of the cells, for every direction.
pub proof fn lemma_coords(d: Direction)
    ensures
        forall|r: int, c: int|
            0 <= r < 4 && 0 <= c < 4 ==> {
                &&& 0 <= #[trigger] line_of(d, r, c) < 4
                &&& 0 <= #[trigger] pos_of(d, r, c) < 4
                &&& cell_row(d, line_of(d, r, c), pos_of(d, r, c)) == r
                &&& cell_col(d, line_of(d, r, c), pos_of(d, r, c)) == c
            },
        forall|k: int, j: int|
            0 <= k < 4 && 0 <= j < 4 ==> {
                &&& 0 <= #[trigger] cell_row(d, k, j) < 4
                &&& 0 <= #[trigger] cell_col(d, k, j) < 4
                &&& line_of(d, cell_row(d, k, j), cell_col(d, k, j)) == k
                &&& pos_of(d, cell_row(d, k, j), cell_col(d, k, j)) == j
            },
{
}

pub proof fn lemma_line_valid(g: Grid, d: Direction, k: int)
    requires
        valid_grid(g),
        0 <= k < 4,
    ensures
        grid_line(g, d, k).len() == 4,
        all_within(grid_line(g, d, k), 0, cell_max()),
{
    lemma_coords(d);
    let l = grid_line(g, d, k);
    assert forall|j: int| 0 <= j < 4 implies 0 <= #[trigger] l[j] <= cell_max() by {
        assert(l[j] == g[cell_row(d, k, j)][cell_col(d, k, j)]);
    }
}

/// Cell `(r, c)` of a grid is found at its position in its line.
pub proof fn lemma_cell_in_line(g: Grid, d: Direction, r: int, c: int)
    requires
        0 <= r < 4,
        0 <= c < 4,
    ensures
        grid_line(g, d, line_of(d, r, c))[pos_of(d, r, c)] == g[r][c],
{
    lemma_coords(d);
}

pub proof fn lemma_gain_upto(g: Grid, d: Direction, n: int)
    requires
        valid_grid(g),
        0 <= n <= 4,
    ensures
        0 <= gain_upto(g, d, n) <= move_gain(g, d),
        0 <= gain_sat_upto(g, d, n) <= gain_sat_upto(g, d, 4),
    decreases 4 - n,
{
    if n < 4 {
        lemma_gain_upto(g, d, n + 1);
        lemma_line_valid(g, d, n);
        lemma_slide(grid_line(g, d, n));
    }
    if n > 0 {
        lemma_gain_nonneg(g, d, n);
    }
}

pub proof fn lemma_gain_nonneg(g: Grid, d: Direction, n: int)
    requires
        valid_grid(g),
        0 <= n <= 4,
    ensures
        0 <= gain_upto(g, d, n),
        0 <= gain_sat_upto(g, d, n),
    decreases n,
{
    if n > 0 {
        lemma_gain_nonneg(g, d, n - 1);
        lemma_line_valid(g, d, n - 1);
        lemma_slide(grid_line(g, d, n - 1));
    }
}

/// The facts of `lemma_slide` for every line of a grid.
pub proof fn lemma_lines(g: Grid, d: Direction)
    requires
        valid_grid(g),
    ensures
        forall|k: int| 0 <= k < 4 ==> {
            &&& #[trigger] grid_line(g, d, k).len() == 4
            &&& all_within(grid_line(g, d, k), 0, cell_max())
            &&& slide(grid_line(g, d, k)).len() == 4
            &&& all_within(slide(grid_line(g, d, k)), 0, 2 * cell_max())
            &&& sum(slide(grid_line(g, d, k))) == sum(grid_line(g, d, k))
            &&& (line_can_slide(grid_line(g, d, k)) <==> slide(grid_line(g, d, k)) != grid_line(g, d, k))
            &&& (line_can_slide(grid_line(g, d, k)) ==> slide(grid_line(g, d, k))[3] == 0)
            &&& (!line_can_slide(grid_line(g, d, k)) ==> line_gain(grid_line(g, d, k)) == 0
                && line_gain_sat(grid_line(g, d, k)) == 0)
        },
{
    assert forall|k: int| 0 <= k < 4 implies {
        &&& #[trigger] grid_line(g, d, k).len() == 4
        &&& all_within(grid_line(g, d, k), 0, cell_max())
        &&& slide(grid_line(g, d, k)).len() == 4
        &&& all_within(slide(grid_line(g, d, k)), 0, 2 * cell_max())
        &&& sum(slide(grid_line(g, d, k))) == sum(grid_line(g, d, k))
        &&& (line_can_slide(grid_line(g, d, k)) <==> slide(grid_line(g, d, k)) != grid_line(g, d, k))
        &&& (line_can_slide(grid_line(g, d, k)) ==> slide(grid_line(g, d, k))[3] == 0)
        &&& (!line_can_slide(grid_line(g, d, k)) ==> line_gain(grid_line(g, d, k)) == 0
            && line_gain_sat(grid_line(g, d, k)) == 0)
    } by {
        lemma_line_valid(g, d, k);
        lemma_slide(grid_line(g, d, k));
    }
}

proof fn lemma_move_unchanged(g: Grid, d: Direction)
    requires
        valid_grid(g),
        !can_slide(g, d),
    ensures
        moved(g, d) == g,
        moved_sat(g, d) == g,
        move_gain(g, d) == 0,
        gain_sat_upto(g, d, 4) == 0,
{
    reveal(can_slide);
    lemma_coords(d);
    lemma_lines(g, d);
    assert(!line_can_slide(grid_line(g, d, 0)));
    assert(!line_can_slide(grid_line(g, d, 1)));
    assert(!line_can_slide(grid_line(g, d, 2)));
    assert(!line_can_slide(grid_line(g, d, 3)));
    let m = moved(g, d);
    let ms = moved_sat(g, d);
    assert(m =~~= g) by {
        assert forall|r: int, c: int| 0 <= r < 4 && 0 <= c < 4 implies m[r][c] == g[r][c] by {
            lemma_cell_in_line(g, d, r, c);
            assert(grid_line(g, d, line_of(d, r, c)).len() == 4);
        }
    }
    assert(ms =~~= g) by {
        assert forall|r: int, c: int| 0 <= r < 4 && 0 <= c < 4 implies ms[r][c] == g[r][c] by {
            lemma_cell_in_line(g, d, r, c);
            assert(grid_line(g, d, line_of(d, r, c)).len() == 4);
        }
    }
    assert(grid_line(g, d, 0).len() == 4);
    assert(grid_line(g, d, 1).len() == 4);
    assert(grid_line(g, d, 2).len() == 4);
    assert(grid_line(g, d, 3).len() == 4);
    assert(gain_upto(g, d, 0) == 0);
    assert(gain_upto(g, d, 1) == 0);
    assert(gain_upto(g, d, 2) == 0);
    assert(gain_upto(g, d, 3) == 0);
    assert(gain_sat_upto(g, d, 0) == 0);
    assert(gain_sat_upto(g, d, 1) == 0);
    assert(gain_sat_upto(g, d, 2) == 0);
    assert(gain_sat_upto(g, d, 3) == 0);
}

proof fn lemma_move_changed(g: Grid, d: Direction)
    requires
        valid_grid(g),
        can_slide(g, d),
    ensures
        moved(g, d) != g,
        moved_sat(g, d) != g,
        has_empty(moved(g, d)),
        has_empty(moved_sat(g, d)),
{
    reveal(can_slide);
    lemma_coords(d);
    lemma_lines(g, d);
    let m = moved(g, d);
    let ms = moved_sat(g, d);
    let k = choose|k: int| 0 <= k < 4 && #[trigger] line_can_slide(grid_line(g, d, k));
    let l = grid_line(g, d, k);
    assert(l.len() == 4);
    let sl = slide(l);
    assert(sl != l);
    assert(exists|j: int| 0 <= j < 4 && sl[j] != l[j]) by {
        if forall|j: int| 0 <= j < 4 ==> sl[j] == l[j] {
            assert(sl =~= l);
        }
    }
    let j = choose|j: int| 0 <= j < 4 && sl[j] != l[j];
    let r = cell_row(d, k, j);
    let c = cell_col(d, k, j);
    assert(m[r][c] == sl[j]);
    lemma_cell_in_line(g, d, r, c);
    assert(g[r][c] == l[j]);
    assert(m != g);
    assert(ms != g) by {
        if ms == g {
            assert forall|jj: int| 0 <= jj < 4 implies #[trigger] sat(sl[jj]) == l[jj] by {
                let rr = cell_row(d, k, jj);
                let cc = cell_col(d, k, jj);
                assert(ms[rr][cc] == sat(slide(grid_line(g, d, k))[jj]));
                lemma_cell_in_line(g, d, rr, cc);
            }
            lemma_sat_slide_eq(l);
        }
    }
    let r3 = cell_row(d, k, 3);
    let c3 = cell_col(d, k, 3);
    assert(m[r3][c3] == sl[3]);
    assert(ms[r3][c3] == sat(sl[3]));
    assert(has_empty(m));
    assert(has_empty(ms));
}

/// What a move does to a grid, line by line.
pub proof fn lemma_move(g: Grid, d: Direction)
    requires
        valid_grid(g),
    ensures
        valid_grid(moved_sat(g, d)),
        forall|r: int, c: int|
            0 <= r < 4 && 0 <= c < 4 ==> 0 <= #[trigger] moved(g, d)[r][c] <= 2 * cell_max(),
        moved(g, d).len() == 4,
        forall|r: int| 0 <= r < 4 ==> #[trigger] moved(g, d)[r].len() == 4,
        moved(g, d) == g <==> !can_slide(g, d),
        moved_sat(g, d) == g <==> !can_slide(g, d),
        can_slide(g, d) ==> has_empty(moved(g, d)) && has_empty(moved_sat(g, d)),
        !can_slide(g, d) ==> move_gain(g, d) == 0 && gain_sat_upto(g, d, 4) == 0,
        0 <= move_gain(g, d),
        0 <= gain_sat_upto(g, d, 4),
{
    lemma_coords(d);
    lemma_lines(g, d);
    let m = moved(g, d);
    let ms = moved_sat(g, d);
    assert forall|r: int, c: int| 0 <= r < 4 && 0 <= c < 4 implies 0 <= #[trigger] m[r][c] <= 2 * cell_max() by {
        let k = line_of(d, r, c);
        assert(grid_line(g, d, k).len() == 4);
        assert(0 <= slide(grid_line(g, d, k))[pos_of(d, r, c)] <= 2 * cell_max());
    }
    assert(valid_grid(ms)) by {
        assert forall|r: int, c: int| 0 <= r < 4 && 0 <= c < 4 implies 0 <= #[trigger] ms[r][c] <= cell_max() by {
            assert(ms[r][c] == sat(m[r][c]));
        }
    }
    if can_slide(g, d) {
        lemma_move_changed(g, d);
    } else {
        lemma_move_unchanged(g, d);
    }
    lemma_gain_nonneg(g, d, 4);
}

/// A move keeps the sum of the tiles: merging two tiles makes one of their sum.
pub proof fn lemma_move_sum(g: Grid, d: Direction)
    requires
        valid_grid(g),
    ensures
        grid_sum(moved(g, d)) == grid_sum(g),
{
    reveal(grid_sum);
    lemma_lines(g, d);
    let m = moved(g, d);
    let l0 = grid_line(g, d, 0);
    let l1 = grid_line(g, d, 1);
    let l2 = grid_line(g, d, 2);
    let l3 = grid_line(g, d, 3);
    assert(l0.len() == 4 && l1.len() == 4 && l2.len() == 4 && l3.len() == 4);
    lemma_sum4(l0);
    lemma_sum4(l1);
    lemma_sum4(l2);
    lemma_sum4(l3);
    lemma_sum4(slide(l0));
    lemma_sum4(slide(l1));
    lemma_sum4(slide(l2));
    lemma_sum4(slide(l3));
    lemma_sum4(g[0]);
    lemma_sum4(g[1]);
    lemma_sum4(g[2]);
    lemma_sum4(g[3]);
    lemma_sum4(m[0]);
    lemma_sum4(m[1]);
    lemma_sum4(m[2]);
    lemma_sum4(m[3]);
}

/// When the points of a merge run fit in a cell, no merged tile needs saturating.
pub proof fn lemma_merge_fits(t: Seq<int>)
    requires
        all_within(t, 0, cell_max()),
        merge_gain(t) <= cell_max(),
    ensures
        all_within(merge_run(t), 0, cell_max()),
        merge_gain_sat(t) == merge_gain(t),
    decreases t.len(),
{
    if t.len() == 0 {
    } else if t.len() >= 2 && t[0] == t[1] {
        let rest = t.skip(2);
        lemma_merge_run(rest, 0, cell_max());
        lemma_merge_fits(rest);
        let r = merge_run(t);
        assert(r =~= seq![2 * t[0]] + merge_run(rest));
        assert forall|i: int| 0 <= i < r.len() implies 0 <= #[trigger] r[i] <= cell_max() by {
            if i > 0 {
                assert(r[i] == merge_run(rest)[i - 1]);
            }
        }
    } else {
        let rest = t.skip(1);
        lemma_merge_run(rest, 0, cell_max());
        lemma_merge_fits(rest);
        let r = merge_run(t);
        assert(r =~= seq![t[0]] + merge_run(rest));
        assert forall|i: int| 0 <= i < r.len() implies 0 <= #[trigger] r[i] <= cell_max() by {
            if i > 0 {
                assert(r[i] == merge_run(rest)[i - 1]);
            }
        }
    }
}

/// The saturating move and the exact move agree when the points of the move fit
/// in a cell: every tile and every point is the same.
pub proof fn lemma_saturation_free(g: Grid, d: Direction)
    requires
        valid_grid(g),
        move_gain(g, d) <= cell_max(),
    ensures
        moved_sat(g, d) == moved(g, d),
        gain_sat_upto(g, d, 4) == move_gain(g, d),
{
    lemma_lines(g, d);
    lemma_coords(d);
    assert forall|k: int| 0 <= k < 4 implies {
        &&& all_within(#[trigger] slide(grid_line(g, d, k)), 0, cell_max())
        &&& line_gain_sat(grid_line(g, d, k)) == line_gain(grid_line(g, d, k))
    } by {
        let l = grid_line(g, d, k);
        assert(l.len() == 4);
        lemma_compact(l, 0, cell_max());
        lemma_gain_nonneg(g, d, 4);
        lemma_line_gain_within(g, d, k);
        lemma_merge_fits(compact(l));
        let m = merge_run(compact(l));
        assert forall|i: int| 0 <= i < 4 implies 0 <= #[trigger] slide(l)[i] <= cell_max() by {
            if i < m.len() {
                assert(slide(l)[i] == m[i]);
            }
        }
    }
    let a = moved_sat(g, d);
    let b = moved(g, d);
    assert(a =~~= b) by {
        assert forall|r: int, c: int| 0 <= r < 4 && 0 <= c < 4 implies a[r][c] == b[r][c] by {
            let k = line_of(d, r, c);
            assert(all_within(slide(grid_line(g, d, k)), 0, cell_max()));
            assert(slide(grid_line(g, d, k)).len() == 4);
        }
    }
    assert(line_gain_sat(grid_line(g, d, 0)) == line_gain(grid_line(g, d, 0)));
    assert(line_gain_sat(grid_line(g, d, 1)) == line_gain(grid_line(g, d, 1)));
    assert(line_gain_sat(grid_line(g, d, 2)) == line_gain(grid_line(g, d, 2)));
    assert(line_gain_sat(grid_line(g, d, 3)) == line_gain(grid_line(g, d, 3)));
    assert(gain_sat_upto(g, d, 0) == gain_upto(g, d, 0));
    assert(gain_sat_upto(g, d, 1) == gain_upto(g, d, 1));
    assert(gain_sat_upto(g, d, 2) == gain_upto(g, d, 2));
    assert(gain_sat_upto(g, d, 3) == gain_upto(g, d, 3));
    assert(gain_sat_upto(g, d, 4) == gain_upto(g, d, 4));
}

/// The points of one line are at most the points of the whole move.
proof fn lemma_line_gain_within(g: Grid, d: Direction, k: int)
    requires
        valid_grid(g),
        0 <= k < 4,
    ensures
        line_gain(grid_line(g, d, k)) <= move_gain(g, d),
{
    lemma_lines(g, d);
    lemma_gain_upto(g, d, k);
    lemma_gain_upto(g, d, k + 1);
    lemma_gain_nonneg(g, d, k);
    let l0 = grid_line(g, d, 0);
    let l1 = grid_line(g, d, 1);
    let l2 = grid_line(g, d, 2);
    let l3 = grid_line(g, d, 3);
    lemma_line_valid(g, d, 0);
    lemma_line_valid(g, d, 1);
    lemma_line_valid(g, d, 2);
    lemma_line_valid(g, d, 3);
    lemma_slide(l0);
    lemma_slide(l1);
    lemma_slide(l2);
    lemma_slide(l3);
    assert(gain_upto(g, d, 0) == 0);
    assert(gain_upto(g, d, 1) == line_gain(l0));
    assert(gain_upto(g, d, 2) == line_gain(l0) + line_gain(l1));
    assert(gain_upto(g, d, 3) == line_gain(l0) + line_gain(l1) + line_gain(l2));
    assert(gain_upto(g, d, 4) == line_gain(l0) + line_gain(l1) + line_gain(l2) + line_gain(l3));
}

/// A line whose slid form, saturated, equals the line itself does not move.
pub proof fn lemma_sat_slide_eq(l: Seq<int>)
    requires
        l.len() == 4,
        all_within(l, 0, cell_max()),
        forall|jj: int| 0 <= jj < 4 ==> #[trigger] sat(slide(l)[jj]) == l[jj],
    ensures
        slide(l) == l,
{
    let t = compact(l);
    lemma_compact(l, 0, cell_max());
    assert(all_within(t, 1, cell_max())) by {
        assert forall|i: int| 0 <= i < t.len() implies 1 <= #[trigger] t[i] <= cell_max() by {
            assert(t[i] != 0);
        }
    }
    lemma_merge_run(t, 1, cell_max());
    lemma_slide(l);
    let mm = merge_run(t);
    let sl = slide(l);
    assert(sl =~= mm + zeros((4 - mm.len()) as nat));
    assert forall|i: int| 0 <= i < 4 implies (#[trigger] sl[i] == 0 <==> l[i] == 0) by {
        assert(sat(sl[i]) == l[i]);
    }
    assert(packed(l)) by {
        assert forall|i: int, j: int| 0 <= i < j < l.len() && #[trigger] l[i] == 0 implies #[trigger] l[j] == 0 by {
            assert(sl[i] == 0);
            assert(sl[j] == 0);
        }
    }
    lemma_compact_packed(l);
    assert(mm.len() == t.len()) by {
        if mm.len() < t.len() {
            let i = mm.len() as int;
            assert(sl[i] == 0);
            assert(l[i] == t[i]);
        } else if mm.len() > t.len() {
            let i = t.len() as int;
            assert(sl[i] == mm[i]);
            assert(l[i] == 0);
        }
    }
    assert(!has_pair(t));
    assert(sl =~= l) by {
        assert forall|i: int| 0 <= i < 4 implies sl[i] == l[i] by {
            if i < t.len() {
                assert(sl[i] == mm[i]);
            } else {
                assert(l[i] == 0);
            }
        }
    }
}

/// The grid with every row reversed.
pub open spec fn mirror(g: Grid) -> Grid {
    Seq::new(4, |r: int| Seq::new(4, |c: int| g[r][3 - c]))
}

/// The grid with its rows in reverse order.
pub open spec fn flip(g: Grid) -> Grid {
    Seq::new(4, |r: int| g[3 - r])
}

/// Pushing right is pushing left in the mirror: every line of the mirrored grid
/// read leftward is the line of the grid read rightward.
proof fn lemma_mirror_lines(g: Grid)
    requires
        valid_grid(g),
    ensures
        forall|k: int| 0 <= k < 4 ==> #[trigger] grid_line(mirror(g), Direction::Left, k) == grid_line(g, Direction::Right, k),
{
    assert forall|k: int| 0 <= k < 4 implies #[trigger] grid_line(mirror(g), Direction::Left, k) == grid_line(
        g,
        Direction::Right,
        k,
    ) by {
        assert(grid_line(mirror(g), Direction::Left, k) =~= grid_line(g, Direction::Right, k));
    }
}

/// Pushing down is pushing up in the flipped grid.
proof fn lemma_flip_lines(g: Grid)
    requires
        valid_grid(g),
    ensures
        forall|k: int| 0 <= k < 4 ==> #[trigger] grid_line(flip(g), Direction::Up, k) == grid_line(g, Direction::Down, k),
{
    assert forall|k: int| 0 <= k < 4 implies #[trigger] grid_line(flip(g), Direction::Up, k) == grid_line(
        g,
        Direction::Down,
        k,
    ) by {
        assert(grid_line(flip(g), Direction::Up, k) =~= grid_line(g, Direction::Down, k));
    }
}

/// Two moves whose first `n` lines agree score alike on those lines.
proof fn lemma_gain_same_lines(g: Grid, d: Direction, h: Grid, e: Direction, n: int)
    requires
        0 <= n <= 4,
        forall|k: int| 0 <= k < 4 ==> #[trigger] grid_line(h, e, k) == grid_line(g, d, k),
    ensures
        gain_upto(h, e, n) == gain_upto(g, d, n),
        gain_sat_upto(h, e, n) == gain_sat_upto(g, d, n),
    decreases n,
{
    if n > 0 {
        lemma_gain_same_lines(g, d, h, e, n - 1);
        assert(grid_line(h, e, n - 1) == grid_line(g, d, n - 1));
    }
}

/// A move to the right is the mirror image of a move to the left on the
/// mirrored grid, and scores the same points.
pub proof fn law_right_mirrors_left(g: Grid)
    requires
        valid_grid(g),
    ensures
        moved(g, Direction::Right) == mirror(moved(mirror(g), Direction::Left)),
        moved_sat(g, Direction::Right) == mirror(moved_sat(mirror(g), Direction::Left)),
        move_gain(g, Direction::Right) == move_gain(mirror(g), Direction::Left),
        gain_sat_upto(g, Direction::Right, 4) == gain_sat_upto(mirror(g), Direction::Left, 4),
{
    lemma_mirror_lines(g);
    lemma_gain_same_lines(g, Direction::Right, mirror(g), Direction::Left, 4);
    assert(moved(g, Direction::Right) =~~= mirror(moved(mirror(g), Direction::Left)));
    assert(moved_sat(g, Direction::Right) =~~= mirror(moved_sat(mirror(g), Direction::Left)));
}

/// A move down is the flipped image of a move up on the flipped grid, and
/// scores the same points.
pub proof fn law_down_flips_up(g: Grid)
    requires
        valid_grid(g),
    ensures
        moved(g, Direction::Down) == flip(moved(flip(g), Direction::Up)),
        moved_sat(g, Direction::Down) == flip(moved_sat(flip(g), Direction::Up)),
        move_gain(g, Direction::Down) == move_gain(flip(g), Direction::Up),
        gain_sat_upto(g, Direction::Down, 4) == gain_sat_upto(flip(g), Direction::Up, 4),
{
    lemma_flip_lines(g);
    lemma_gain_same_lines(g, Direction::Down, flip(g), Direction::Up, 4);
    assert(moved(g, Direction::Down) =~~= flip(moved(flip(g), Direction::Up)));
    assert(moved_sat(g, Direction::Down) =~~= flip(moved_sat(flip(g), Direction::Up)));
}

} // verus!
