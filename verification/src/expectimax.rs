//! Chooses a move by an expectimax search of a given depth: the player takes
//! the move of highest value, and after every move a new tile lands in an
//! empty cell, each empty cell alike, a `2` nine times out of ten and a `4`
//! otherwise.  Values are scores; a search that reaches its depth, or a board
//! with no move left, is worth the score collected so far.
use vstd::prelude::*;

use crate::board::{available, fits, lemma_available, set_cell, Board, IBoard};
use crate::rules::{can_slide, cell_max, move_gain, moved, Grid};
use crate::types::Direction;

verus! {

/// The value of cell number `i` of the grid, counted row by row.
pub open spec fn cell_at(g: Grid, i: int) -> int {
    g[i / 4][i % 4]
}

/// The number of empty cells among the first `n` cells, counted row by row.
pub open spec fn empty_count(g: Grid, n: int) -> int
    decreases n,
{
    if n <= 0 {
        0
    } else {
        empty_count(g, n - 1) + if cell_at(g, n - 1) == 0 {
            1int
        } else {
            0int
        }
    }
}

/// Value of the grid `g` with score `score` when the player still has `depth`
/// moves to make: the value of its best move, or the score when no move is
/// left or the depth is spent.
pub open spec fn expectimax_value(g: Grid, score: int, depth: int) -> int
    decreases depth, 3int, 0int,
{
    if depth <= 0 {
        score
    } else {
        match best_move_upto(g, score, depth, available(g), available(g).len() as int) {
            Option::None => score,
            Option::Some(best) => best.1,
        }
    }
}

/// The best of the first `n` moves of `moves` and its value, when `depth`
/// moves are left: moves whose points would not fit in the score are passed
/// over, and a later move replaces the best only with a strictly higher value.
pub open spec fn best_move_upto(g: Grid, score: int, depth: int, moves: Seq<Direction>, n: int) -> Option<
    (Direction, int),
>
    decreases depth, 2int, n,
{
    if n <= 0 || depth <= 0 {
        Option::None
    } else {
        let prev = best_move_upto(g, score, depth, moves, n - 1);
        let d = moves[n - 1];
        if !fits(g, score, d) {
            prev
        } else {
            let v = chance_value(moved(g, d), score + move_gain(g, d), depth);
            match prev {
                Option::None => Option::Some((d, v)),
                Option::Some(p) => if v > p.1 {
                    Option::Some((d, v))
                } else {
                    prev
                },
            }
        }
    }
}

/// Value of the grid `g` just after a move, before the new tile lands: the
/// average, over the empty cells and the tile's two values weighted nine to
/// one, of the value with one move fewer left, rounded down.
pub open spec fn chance_value(g: Grid, score: int, depth: int) -> int
    decreases depth, 1int, 0int,
{
    if depth <= 0 {
        score
    } else {
        let c = empty_count(g, 16);
        if c == 0 {
            expectimax_value(g, score, depth - 1)
        } else {
            spawn_sum(g, score, depth, 16) / (10 * c)
        }
    }
}

/// Over the empty cells among the first `n`: nine times the value with a `2`
/// placed there plus the value with a `4` placed there, one move fewer left.
pub open spec fn spawn_sum(g: Grid, score: int, depth: int, n: int) -> int
    decreases depth, 0int, n,
{
    if n <= 0 || depth <= 0 {
        0
    } else {
        spawn_sum(g, score, depth, n - 1) + if cell_at(g, n - 1) == 0 {
            9 * expectimax_value(set_cell(g, (n - 1) / 4, (n - 1) % 4, 2), score, depth - 1)
                + expectimax_value(set_cell(g, (n - 1) / 4, (n - 1) % 4, 4), score, depth - 1)
        } else {
            0int
        }
    }
}

/// The move the search picks on grid `g` with score `score`, searching
/// `depth` moves deep (at least one): the first move of highest value.
pub open spec fn best_expectimax_move(g: Grid, score: int, depth: int) -> Direction {
    let deep = if depth < 1 {
        1
    } else {
        depth
    };
    match best_move_upto(g, score, deep, available(g), available(g).len() as int) {
        Option::Some(best) => best.0,
        Option::None => available(g)[0],
    }
}

/// The search keeps the move of highest value: no move that fits has a higher
/// value than the kept one, the kept move is one of the moves that fit, and
/// there is a kept move as soon as one move fits.
pub proof fn law_expectimax_choice_is_best(g: Grid, score: int, depth: int, moves: Seq<Direction>, n: int)
    requires
        0 <= n <= moves.len(),
        depth >= 1,
    ensures
        forall|i: int|
            0 <= i < n && fits(g, score, #[trigger] moves[i]) ==> best_move_upto(g, score, depth, moves, n) is Some
                && chance_value(moved(g, moves[i]), score + move_gain(g, moves[i]), depth) <= best_move_upto(
                g,
                score,
                depth,
                moves,
                n,
            ).unwrap().1,
        best_move_upto(g, score, depth, moves, n) matches Option::Some(best) ==> exists|i: int|
            0 <= i < n && fits(g, score, moves[i]) && best == (
                moves[i],
                chance_value(moved(g, #[trigger] moves[i]), score + move_gain(g, moves[i]), depth),
            ),
    decreases n,
{
    if n > 0 {
        law_expectimax_choice_is_best(g, score, depth, moves, n - 1);
    }
}

/// The new tile after a move lands in each empty cell alike and is a `2` nine
/// times in ten and a `4` otherwise: the chance value is the weighted average,
/// rounded down, over the empty cells taken one by one, of nine times the value
/// with a `2` placed there and once the value with a `4` placed there.  A grid
/// with no empty cell gets no tile.
pub proof fn law_chance_weighs_twos_and_fours(g: Grid, score: int, depth: int, n: int)
    requires
        depth >= 1,
        0 <= n < 16,
    ensures
        spawn_sum(g, score, depth, 0) == 0,
        empty_count(g, 0) == 0,
        spawn_sum(g, score, depth, n + 1) == spawn_sum(g, score, depth, n) + if g[n / 4][n % 4] == 0 {
            9 * expectimax_value(set_cell(g, n / 4, n % 4, 2), score, depth - 1) + expectimax_value(
                set_cell(g, n / 4, n % 4, 4),
                score,
                depth - 1,
            )
        } else {
            0int
        },
        empty_count(g, n + 1) == empty_count(g, n) + if g[n / 4][n % 4] == 0 {
            1int
        } else {
            0int
        },
        empty_count(g, 16) > 0 ==> 10 * empty_count(g, 16) * chance_value(g, score, depth) <= spawn_sum(
            g,
            score,
            depth,
            16,
        ) < 10 * empty_count(g, 16) * (chance_value(g, score, depth) + 1),
        empty_count(g, 16) == 0 ==> chance_value(g, score, depth) == expectimax_value(g, score, depth - 1),
{
    assert(((n + 1) - 1) / 4 == n / 4 && ((n + 1) - 1) % 4 == n % 4);
    if empty_count(g, 16) > 0 {
        let c = 10 * empty_count(g, 16);
        let t = spawn_sum(g, score, depth, 16);
        assert(c * (t / c) <= t < c * (t / c + 1)) by (nonlinear_arith)
            requires
                c > 0,
        ;
    }
}

/// Expectimax value of the board with `depth` moves left to search.
pub fn expectimax(board: &Board, depth: usize) -> (value: u64)
    ensures
        value == expectimax_value(board.grid(), board.points(), depth as int),
        value <= cell_max(),
    decreases depth, 3int, 0int,
{
    proof {
        board.lemma_valid();
    }
    if depth == 0 {
        return board.score() as u64;
    }
    match best_of_moves(board, depth) {
        Option::None => board.score() as u64,
        Option::Some(best) => best.1,
    }
}

/// The best available move and its value, with `depth` moves left.
fn best_of_moves(board: &Board, depth: usize) -> (best: Option<(Direction, u64)>)
    requires
        depth >= 1,
    ensures
        best matches Option::None ==> best_move_upto(
            board.grid(),
            board.points(),
            depth as int,
            available(board.grid()),
            available(board.grid()).len() as int,
        ) is None,
        best matches Option::Some(b) ==> best_move_upto(
            board.grid(),
            board.points(),
            depth as int,
            available(board.grid()),
            available(board.grid()).len() as int,
        ) == Option::Some((b.0, b.1 as int)) && b.1 <= cell_max() && can_slide(board.grid(), b.0),
    decreases depth, 2int, 0int,
{
    let ghost g = board.grid();
    let ghost score = board.points();
    let moves = board.available_moves();
    proof {
        lemma_available(g);
    }
    let mut best: Option<(Direction, u64)> = Option::None;
    let mut k: usize = 0;
    while k < moves.len()
        invariant
            g == board.grid(),
            score == board.points(),
            depth >= 1,
            moves@ == available(g),
            k <= moves@.len(),
            forall|i: int| 0 <= i < moves@.len() ==> can_slide(g, #[trigger] moves@[i]),
            best matches Option::None ==> best_move_upto(g, score, depth as int, moves@, k as int) is None,
            best matches Option::Some(b) ==> best_move_upto(g, score, depth as int, moves@, k as int)
                == Option::Some((b.0, b.1 as int)) && b.1 <= cell_max() && can_slide(g, b.0),
        decreases moves@.len() - k,
    {
        let direction = moves[k];
        if board.accepts_move(direction) {
            let next = board.make_move(direction);
            let v = chance_of(&next, depth);
            match best {
                Option::None => {
                    best = Option::Some((direction, v));
                },
                Option::Some(b) => {
                    if v > b.1 {
                        best = Option::Some((direction, v));
                    }
                },
            }
        }
        k = k + 1;
    }
    best
}

/// Value of the board just after a move, before the new tile lands, with
/// `depth` moves left.
fn chance_of(board: &Board, depth: usize) -> (value: u64)
    requires
        depth >= 1,
    ensures
        value == chance_value(board.grid(), board.points(), depth as int),
        value <= cell_max(),
    decreases depth, 1int, 0int,
{
    let ghost g = board.grid();
    let ghost score = board.points();
    let mut sum: u64 = 0;
    let mut count: u64 = 0;
    let mut i: usize = 0;
    while i < 16
        invariant
            g == board.grid(),
            score == board.points(),
            depth >= 1,
            i <= 16,
            count <= i,
            sum == spawn_sum(g, score, depth as int, i as int),
            count == empty_count(g, i as int),
            sum <= 10 * count * cell_max(),
        decreases 16 - i,
    {
        let row = i / 4;
        let col = i % 4;
        assert(((i + 1) - 1) / 4 == row && ((i + 1) - 1) % 4 == col);
        assert(crate::tile::two_pow(1) == 2 && crate::tile::two_pow(2) == 4) by {
            reveal_with_fuel(crate::tile::two_pow, 3);
        }
        if board.cell(row, col) == 0 {
            let with_two = board.with_rank(row, col, 1);
            let with_four = board.with_rank(row, col, 2);
            let v2 = expectimax(&with_two, depth - 1);
            let v4 = expectimax(&with_four, depth - 1);
            proof {
                assert(10 * (count + 1) * cell_max() == 10 * count * cell_max() + 10 * cell_max())
                    by (nonlinear_arith);
            }
            sum = sum + 9 * v2 + v4;
            count = count + 1;
        }
        i = i + 1;
    }
    if count == 0 {
        expectimax(board, depth - 1)
    } else {
        proof {
            assert(sum as int / (10 * count as int) <= cell_max()) by (nonlinear_arith)
                requires
                    count >= 1,
                    sum <= 10 * count * cell_max(),
            ;
        }
        sum / (10 * count)
    }
}

/// Chooses the move with the highest expectimax value, searching `depth`
/// moves deep (at least one); among equal values, the first available move.
pub fn best_move(board: &Board, depth: usize) -> (direction: Direction)
    requires
        available(board.grid()).len() > 0,
    ensures
        direction == best_expectimax_move(board.grid(), board.points(), depth as int),
        can_slide(board.grid(), direction),
{
    let deep = if depth < 1 {
        1
    } else {
        depth
    };
    match best_of_moves(board, deep) {
        Option::Some(best) => best.0,
        Option::None => {
            let moves = board.available_moves();
            proof {
                lemma_available(board.grid());
            }
            moves[0]
        },
    }
}

} // verus!
