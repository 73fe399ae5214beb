//! A 2048 engine and the players that choose its moves: a board that slides
//! and merges tiles, a full game with seeded tile placement, an expectimax
//! search, a greedy rollout player, and a random-simulation player.
use vstd::prelude::*;

pub mod board;
pub mod cli;
pub mod controller;
pub mod expectimax;
pub mod game_2048;
pub mod god;
pub mod player;
pub mod random_simulation;
pub mod rules;
pub mod tile;
pub mod trained_model;
pub mod types;

use crate::board::{available, flat_grid, Board, IBoard};
use crate::expectimax::best_expectimax_move;
use crate::random_simulation::best_random_move;
use crate::tile::CELL_COUNT;
use crate::types::Direction;

verus! {

/// The number a host receives for a direction: `0` up, `1` right, `2` down, `3` left.
pub open spec fn code_of(d: Direction) -> i8 {
    match d {
        Direction::Up => 0,
        Direction::Right => 1,
        Direction::Down => 2,
        Direction::Left => 3,
    }
}

/// The number a host receives for a direction: `0` up, `1` right, `2` down, `3` left.
pub fn direction_code(d: Direction) -> (code: i8)
    ensures
        code == code_of(d),
{
    match d {
        Direction::Up => 0,
        Direction::Right => 1,
        Direction::Down => 2,
        Direction::Left => 3,
    }
}

/// The board a host's sixteen cells describe, when they describe one on which
/// some move is possible.
pub fn board_to_play(flatten_board: &[u32]) -> (board: Option<Board>)
    ensures
        flatten_board@.len() != CELL_COUNT ==> board is None,
        flatten_board@.len() == CELL_COUNT ==> (board is None <==> available(flat_grid(flatten_board@)).len() == 0),
        board matches Some(b) ==> b.grid() == flat_grid(flatten_board@) && b.points() == 0,
{
    if flatten_board.len() != CELL_COUNT {
        return None;
    }
    let board = Board::new(flatten_board);
    if board.available_moves().len() == 0 {
        return None;
    }
    Some(board)
}

/// Chooses a move using the depth-based expectimax search, `depth` moves deep
/// (at least one).  Returns `-1` when the cells do not describe a board or no
/// move is possible.
pub fn next_move_depth(flatten_board: &[u32], depth: usize) -> (code: i8)
    ensures
        flatten_board@.len() != CELL_COUNT ==> code == -1,
        flatten_board@.len() == CELL_COUNT && available(flat_grid(flatten_board@)).len() == 0 ==> code == -1,
        flatten_board@.len() == CELL_COUNT && available(flat_grid(flatten_board@)).len() > 0 ==> code == code_of(
            best_expectimax_move(flat_grid(flatten_board@), 0, depth as int),
        ),
{
    match board_to_play(flatten_board) {
        None => -1,
        Some(board) => direction_code(expectimax::best_move(&board, depth)),
    }
}

/// Chooses a move by averaging 100 complete games of random play per move.
pub fn next_move_random_simulation(flatten_board: &[u32]) -> (code: i8)
    ensures
        flatten_board@.len() != CELL_COUNT ==> code == -1,
        flatten_board@.len() == CELL_COUNT && available(flat_grid(flatten_board@)).len() == 0 ==> code == -1,
        flatten_board@.len() == CELL_COUNT && available(flat_grid(flatten_board@)).len() > 0 ==> code == code_of(
            best_random_move(flat_grid(flatten_board@), 0, random_simulation::DEFAULT_RUN_COUNT as int),
        ),
{
    next_move_random_simulation_with_runs(flatten_board, random_simulation::DEFAULT_RUN_COUNT)
}

/// Random simulation with a configurable number of games per available move.
/// Higher run counts are slower but generally produce a stronger decision.
pub fn next_move_random_simulation_with_runs(flatten_board: &[u32], run_count: usize) -> (code: i8)
    ensures
        flatten_board@.len() != CELL_COUNT ==> code == -1,
        flatten_board@.len() == CELL_COUNT && available(flat_grid(flatten_board@)).len() == 0 ==> code == -1,
        flatten_board@.len() == CELL_COUNT && available(flat_grid(flatten_board@)).len() > 0 ==> code == code_of(
            best_random_move(flat_grid(flatten_board@), 0, run_count as int),
        ),
{
    match board_to_play(flatten_board) {
        None => -1,
        Some(board) => direction_code(random_simulation::best_move(&board, run_count)),
    }
}

} // verus!
