//! The small enumerations of the capture format.

use vstd::prelude::*;

verus! {

/// How a block state is rendered.
#[derive(Copy, Clone, Debug, PartialEq, Eq, Hash, Structural)]
pub enum RenderShape {
    Model,
    Invisible,
}

/// How a material is layered against the faces behind it.
#[derive(Copy, Clone, Debug, PartialEq, Eq, Hash, Structural)]
pub enum Layering {
    Flat,
    ViewOffsetZ,
    ViewOffsetZForward,
}

/// A face direction, in the game's order.
#[derive(Copy, Clone, Debug, PartialEq, Eq, Hash, Structural)]
pub enum Direction {
    Down,
    Up,
    North,
    South,
    West,
    East,
}

/// The name of a direction.
pub open spec fn direction_name(d: Direction) -> Seq<char> {
    match d {
        Direction::Down => "down"@,
        Direction::Up => "up"@,
        Direction::North => "north"@,
        Direction::South => "south"@,
        Direction::West => "west"@,
        Direction::East => "east"@,
    }
}

impl Direction {
    /// The name of the direction (see [`direction_name`]).
    pub fn to_string(&self) -> (s: String)
        ensures
            s@ == direction_name(*self),
    {
        match self {
            Direction::Down => "down".to_owned(),
            Direction::Up => "up".to_owned(),
            Direction::North => "north".to_owned(),
            Direction::South => "south".to_owned(),
            Direction::West => "west".to_owned(),
            Direction::East => "east".to_owned(),
        }
    }
}

/// The shape of a captured quad.
#[derive(Copy, Clone, Debug, PartialEq, Eq, Hash, Structural)]
pub enum QuadKind {
    Parallelogram,
    Triangle,
}

/// The bits of an `f32`, compared and hashed as bits.
#[derive(Copy, Clone, Debug, PartialEq, Eq, Hash, Structural)]
pub struct FloatingBits(pub u32);

} // verus!
