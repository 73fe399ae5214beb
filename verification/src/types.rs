use vstd::prelude::*;

verus! {

/// Side length of the board.
pub const SIZE: usize = 4;

/// A tile as the board stores it: `0` for an empty cell, otherwise its value.
pub type UTile = u32;

pub type Row = [UTile; SIZE];

pub type Matrix = [Row; SIZE];

pub type Position = (u8, u8);

/// The four directions in which the tiles of a board can be pushed.
#[derive(Debug, Clone, Copy, PartialEq, Eq, Structural)]
pub enum Direction {
    Left,
    Right,
    Up,
    Down,
}

} // verus!
