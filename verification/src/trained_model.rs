//! The move choice of the trained network.  The network itself computes in
//! floating point; this module receives its four outputs as order keys, one per
//! direction in the order Up, Right, Down, Left, where a larger key stands for
//! a larger output.
use vstd::prelude::*;

use crate::board::{available, Board, IBoard};
use crate::rules::{can_slide, Grid};
use crate::types::Direction;

verus! {

/// The direction of output `i` of the network.
pub open spec fn output_direction(i: int) -> Direction {
    if i == 0 {
        Direction::Up
    } else if i == 1 {
        Direction::Right
    } else if i == 2 {
        Direction::Down
    } else {
        Direction::Left
    }
}

fn direction_of_output(i: usize) -> (d: Direction)
    requires
        i < 4,
    ensures
        d == output_direction(i as int),
{
    if i == 0 {
        Direction::Up
    } else if i == 1 {
        Direction::Right
    } else if i == 2 {
        Direction::Down
    } else {
        Direction::Left
    }
}

/// Output `i` is the strongest among the outputs of legal directions, and the
/// last of the strongest ones.
pub open spec fn is_best_output(g: Grid, keys: Seq<u32>, i: int) -> bool {
    &&& 0 <= i < 4
    &&& can_slide(g, output_direction(i))
    &&& forall|j: int| 0 <= j < 4 && can_slide(g, #[trigger] output_direction(j)) ==> keys[j] <= keys[i]
    &&& forall|j: int| i < j < 4 && can_slide(g, #[trigger] output_direction(j)) ==> keys[j] < keys[i]
}

/// The legal direction with the strongest network output; among equally strong
/// outputs, the last one.  Training penalizes an illegal first choice and then
/// uses the strongest legal output; at inference time only the legal fallback
/// is needed.
pub fn best_move(board: &Board, output_keys: [u32; 4]) -> (direction: Direction)
    requires
        available(board.grid()).len() > 0,
    ensures
        exists|i: int| direction == output_direction(i) && is_best_output(board.grid(), output_keys@, i),
{
    let ghost g = board.grid();
    let ghost k = output_keys@;
    let legal = [
        board.can_move(Direction::Up),
        board.can_move(Direction::Right),
        board.can_move(Direction::Down),
        board.can_move(Direction::Left),
    ];
    let mut best: usize = 4;
    if legal[0] {
        best = 0;
    }
    if legal[1] && (best == 4 || output_keys[1] >= output_keys[best]) {
        best = 1;
    }
    if legal[2] && (best == 4 || output_keys[2] >= output_keys[best]) {
        best = 2;
    }
    if legal[3] && (best == 4 || output_keys[3] >= output_keys[best]) {
        best = 3;
    }
    proof {
        assert(output_direction(0) == Direction::Up);
        assert(output_direction(1) == Direction::Right);
        assert(output_direction(2) == Direction::Down);
        assert(output_direction(3) == Direction::Left);
        if best == 4 {
            crate::board::lemma_available(g);
            assert(false);
        }
        assert(is_best_output(g, k, best as int));
    }
    direction_of_output(best)
}

} // verus!
