//! How a player's network plays a game: it pushes in the direction of its
//! strongest output, legal or not, and a refused move ends its game.  The
//! network computes in floating point; its four outputs, for Up, Right, Down
//! and Left, arrive here as order keys, where a larger key stands for a larger
//! output.
use vstd::prelude::*;

use crate::game_2048::{game_moves, heading, spawn_tile, Direction, Game};
use crate::rules::{can_slide, gain_sat_upto, moved_sat, sat};

verus! {

/// The order key of a `f32` given by its bits: negative values have all their
/// bits flipped, the others only their sign bit set, so that keys compare as
/// the values do under a total order.
pub open spec fn order_key_of(bits: u32) -> u32 {
    if bits & 0x8000_0000u32 != 0 {
        !bits
    } else {
        bits | 0x8000_0000u32
    }
}

/// The order key of a `f32` given by its bits.
pub fn order_key(bits: u32) -> (key: u32)
    ensures
        key == order_key_of(bits),
{
    if bits & 0x8000_0000 != 0 {
        !bits
    } else {
        bits | 0x8000_0000
    }
}

/// The direction of output `i`.
pub open spec fn output_move(i: int) -> Direction {
    if i == 0 {
        Direction::Up
    } else if i == 1 {
        Direction::Right
    } else if i == 2 {
        Direction::Down
    } else {
        Direction::Left
    }
}

/// The index of the strongest of four keys; of equally strong ones, the last.
pub open spec fn strongest_index(keys: Seq<u32>) -> int {
    let a = if keys[1] >= keys[0] {
        1int
    } else {
        0int
    };
    let b = if keys[2] >= keys[a] {
        2int
    } else {
        a
    };
    if keys[3] >= keys[b] {
        3int
    } else {
        b
    }
}

/// Output `i` is the strongest of the four, and no later output is as strong.
pub open spec fn is_strongest(keys: Seq<u32>, i: int) -> bool {
    &&& 0 <= i < 4
    &&& forall|j: int| 0 <= j < 4 ==> #[trigger] keys[j] <= keys[i]
    &&& forall|j: int| i < j < 4 ==> #[trigger] keys[j] < keys[i]
}

/// The index `strongest_index` picks is the strongest output, the last of the
/// strongest ones.
pub proof fn law_strongest_output_is_highest(keys: Seq<u32>)
    requires
        keys.len() == 4,
    ensures
        is_strongest(keys, strongest_index(keys)),
{
}

/// The direction of the strongest output; of equally strong outputs, the last.
/// Whether the move is legal plays no part.
pub fn best_move(output_keys: [u32; 4]) -> (direction: Direction)
    ensures
        direction == output_move(strongest_index(output_keys@)),
{
    let mut best: usize = 0;
    if output_keys[1] >= output_keys[best] {
        best = 1;
    }
    if output_keys[2] >= output_keys[best] {
        best = 2;
    }
    if output_keys[3] >= output_keys[best] {
        best = 3;
    }
    if best == 0 {
        Direction::Up
    } else if best == 1 {
        Direction::Right
    } else if best == 2 {
        Direction::Down
    } else {
        Direction::Left
    }
}

/// What one turn of a player's game came to.
#[derive(Debug, Clone, Copy, PartialEq, Eq, Structural)]
pub enum TurnOutcome {
    /// No move was left: the game was already over.
    GameOver,
    /// The chosen move does not change the board; the game stops there.
    Refused,
    /// The chosen move was made and a new tile placed.
    Moved,
}

/// One turn of a player's game: nothing when the game is over, else the move
/// of the strongest output, which the game makes or refuses.
pub fn play_turn(game: &mut Game, output_keys: [u32; 4]) -> (outcome: TurnOutcome)
    ensures
        outcome is GameOver <==> game_moves(old(game).grid()).len() == 0,
        outcome is Moved <==> game_moves(old(game).grid()).len() > 0 && can_slide(
            old(game).grid(),
            heading(output_move(strongest_index(output_keys@))),
        ),
        !(outcome is Moved) ==> final(game).grid() == old(game).grid() && final(game).points() == old(
            game,
        ).points() && final(game).state() == old(game).state(),
        outcome is Moved ==> final(game).points() == sat(
            old(game).points() + gain_sat_upto(old(game).grid(), heading(output_move(strongest_index(output_keys@))), 4),
        ),
        outcome is Moved ==> (final(game).grid(), final(game).state(), true) == spawn_tile(
            moved_sat(old(game).grid(), heading(output_move(strongest_index(output_keys@)))),
            old(game).state(),
        ),
{
    if game.is_game_over() {
        return TurnOutcome::GameOver;
    }
    let direction = best_move(output_keys);
    if game.make_move(direction) {
        TurnOutcome::Moved
    } else {
        TurnOutcome::Refused
    }
}

} // verus!
