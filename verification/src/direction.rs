//! Block-face directions, axes and quarter-turn rotations.

use vstd::prelude::*;
use crate::text::{decimal, push_decimal};

verus! {

/// The six faces of a block, in the order the model format indexes them.
#[derive(Copy, Clone, Debug, PartialEq, Eq, Hash, Structural)]
pub enum Direction {
    North,
    East,
    South,
    West,
    Up,
    Down,
}

/// The index of a direction in the model format's face order (north, east, south, west, up,
/// down).
pub open spec fn direction_index(d: Direction) -> nat {
    match d {
        Direction::North => 0,
        Direction::East => 1,
        Direction::South => 2,
        Direction::West => 3,
        Direction::Up => 4,
        Direction::Down => 5,
    }
}

impl Direction {
    /// Every direction, in index order.
    pub fn all() -> (all: [Direction; 6])
        ensures
            forall|i: int| 0 <= i < 6 ==> direction_index(#[trigger] all@[i]) == i,
    {
        [Direction::North, Direction::East, Direction::South, Direction::West, Direction::Up, Direction::Down]
    }

    /// The position of this direction in [`Direction::all`].
    pub fn index(self) -> (i: usize)
        ensures
            i == direction_index(self),
    {
        match self {
            Direction::North => 0,
            Direction::East => 1,
            Direction::South => 2,
            Direction::West => 3,
            Direction::Up => 4,
            Direction::Down => 5,
        }
    }

    /// The direction at position `i` of [`Direction::all`].
    pub fn from_index(i: usize) -> (d: Direction)
        requires
            i < 6,
        ensures
            direction_index(d) == i,
    {
        if i == 0 {
            Direction::North
        } else if i == 1 {
            Direction::East
        } else if i == 2 {
            Direction::South
        } else if i == 3 {
            Direction::West
        } else if i == 4 {
            Direction::Up
        } else {
            Direction::Down
        }
    }
}

#[derive(Copy, Clone, Debug, PartialEq, Eq, Hash, Structural)]
pub enum Axis {
    X,
    Y,
    Z,
}

/// A rotation by a whole number of quarter turns.
#[derive(Copy, Clone, Debug, PartialEq, Eq, Hash, Structural)]
pub enum Quadrant {
    R0,
    R90,
    R180,
    R270,
}

/// The number of quarter turns of a rotation.
pub open spec fn quarter_turns(q: Quadrant) -> nat {
    match q {
        Quadrant::R0 => 0,
        Quadrant::R90 => 1,
        Quadrant::R180 => 2,
        Quadrant::R270 => 3,
    }
}

/// The rotation named by an angle in degrees, taken modulo a full turn; `None` unless the angle
/// is a multiple of 90.
pub open spec fn quadrant_of_degrees(deg: int) -> Option<Quadrant> {
    let r = deg % 360;
    if r == 0 {
        Some(Quadrant::R0)
    } else if r == 90 {
        Some(Quadrant::R90)
    } else if r == 180 {
        Some(Quadrant::R180)
    } else if r == 270 {
        Some(Quadrant::R270)
    } else {
        None
    }
}

/// The message given for an angle that is not a multiple of 90 degrees.
pub open spec fn invalid_rotation_message(deg: int) -> Seq<char> {
    "Invalid rotation "@ + decimal(deg) + ". (only 0/90/180/270 allowed"@
}

impl Default for Quadrant {
    fn default() -> (q: Quadrant)
        ensures
            q == Quadrant::R0,
    {
        Quadrant::R0
    }
}

impl Quadrant {
    /// The number of quarter turns, 0 to 3.
    pub fn turns(self) -> (n: u8)
        ensures
            n == quarter_turns(self),
    {
        match self {
            Quadrant::R0 => 0,
            Quadrant::R90 => 1,
            Quadrant::R180 => 2,
            Quadrant::R270 => 3,
        }
    }

    /// The rotation for an angle in degrees. Angles are taken modulo 360, so `-90` is `R270`;
    /// an angle that is not a multiple of 90 is refused with a message naming it.
    pub fn try_from(deg: i32) -> (res: Result<Quadrant, String>)
        ensures
            match res {
                Ok(q) => quadrant_of_degrees(deg as int) == Some(q),
                Err(msg) => quadrant_of_degrees(deg as int) is None && msg@
                    == invalid_rotation_message(deg as int),
            },
    {
        let r = deg.checked_rem_euclid(360).unwrap();
        if r == 0 {
            Ok(Quadrant::R0)
        } else if r == 90 {
            Ok(Quadrant::R90)
        } else if r == 180 {
            Ok(Quadrant::R180)
        } else if r == 270 {
            Ok(Quadrant::R270)
        } else {
            let mut msg = String::from_str("Invalid rotation ");
            push_decimal(&mut msg, deg as i64);
            msg.append(". (only 0/90/180/270 allowed");
            proof {
                reveal_strlit("Invalid rotation ");
                reveal_strlit(". (only 0/90/180/270 allowed");
            }
            Err(msg)
        }
    }
}

} // verus!
