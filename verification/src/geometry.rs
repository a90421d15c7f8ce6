//! Plain grid types shared by the whole engine: directions, positions,
//! and the rectangular bounds of a play field.
//!
//! Coordinates are unsigned; `y` grows downward and `(0, 0)` is the top-left
//! corner of the play area.

use vstd::prelude::*;

verus! {

/// A discrete movement request for the falling piece.
#[derive(Debug, Clone, Copy)]
pub enum Direction {
    Left,
    Right,
    Up,
    Down,
    Rotate,
}

/// A grid cell, also used for a width/height pair describing a play area
/// (the pair is then the exclusive bottom-right corner).
#[derive(PartialEq, Eq, Structural, Debug, Clone, Copy, Default)]
pub struct Position {
    pub x: u8,
    pub y: u8,
}

impl Position {
    pub fn new(x: u8, y: u8) -> (r: Self)
        ensures
            r.x == x,
            r.y == y,
    {
        Self { x, y }
    }

    /// The spawn point for a fresh piece when `self` is read as a play-area
    /// size: horizontally centered, at the top row.
    pub fn top_middle(&self) -> (r: Position)
        ensures
            r.x == self.x / 2,
            r.y == 0,
    {
        Position { x: self.x / 2, y: 0 }
    }
}

/// A sequence of positions as bare integer pairs.
pub open spec fn positions_view(s: Seq<Position>) -> Seq<(int, int)> {
    s.map_values(|p: Position| (p.x as int, p.y as int))
}

/// A grid cell of a play field given by explicit bounds (see [`Area`]).
#[derive(PartialEq, Eq, Structural, Debug, Clone, Copy)]
pub struct Block {
    pub x: u8,
    pub y: u8,
}

/// A play field given by explicit bounds: `min_x` and `min_y` are inclusive,
/// while cells are kept strictly below `max_x` and `max_y` on each axis.
#[derive(PartialEq, Eq, Structural, Debug, Clone, Copy)]
pub struct Area {
    pub min_x: u8,
    pub min_y: u8,
    pub max_x: u8,
    pub max_y: u8,
}

} // verus!
