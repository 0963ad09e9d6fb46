//! Captured materials: how a material of the generated capture table is drawn.

use vstd::prelude::*;
use std::sync::Arc;
use crate::capture_gen::model::Direction as CapturedDirection;
use crate::direction::Direction;
use crate::resource::texture::sprite::Sprite;
use crate::scene::rasterize::{AlphaCutout, PassKind};

verus! {

/// The face direction a captured direction names.
pub open spec fn direction_from(d: CapturedDirection) -> Direction {
    match d {
        CapturedDirection::Down => Direction::Down,
        CapturedDirection::Up => Direction::Up,
        CapturedDirection::North => Direction::North,
        CapturedDirection::South => Direction::South,
        CapturedDirection::West => Direction::West,
        CapturedDirection::East => Direction::East,
    }
}

/// The face direction a captured direction names (see [`direction_from`]).
pub fn to_direction(d: CapturedDirection) -> (out: Direction)
    ensures
        out == direction_from(d),
{
    match d {
        CapturedDirection::Down => Direction::Down,
        CapturedDirection::Up => Direction::Up,
        CapturedDirection::North => Direction::North,
        CapturedDirection::South => Direction::South,
        CapturedDirection::West => Direction::West,
        CapturedDirection::East => Direction::East,
    }
}

/// The pass of a captured material: blended ones are translucent, ones with an alpha cutout
/// are alpha-tested, and the rest opaque.
pub open spec fn captured_pass(blend: bool, cutout: Option<AlphaCutout>) -> PassKind {
    if blend {
        PassKind::Translucent
    } else {
        match cutout {
            Some(c) => PassKind::Cutout(c),
            None => PassKind::Opaque,
        }
    }
}

/// A material of the capture table, ready to draw.
pub struct CapturedMaterial {
    pub sprite: Arc<Sprite>,
    pub pass: PassKind,
    pub cull: bool,
    pub tint: u32,
    pub light_emission: u8,
    pub shade: Option<Direction>,
}

impl CapturedMaterial {
    /// A captured material drawn with `sprite`: its pass from its blending and alpha cutout
    /// (see [`captured_pass`]), and its shade direction converted.
    pub fn new(
        sprite: Arc<Sprite>,
        blend: bool,
        cutout: Option<AlphaCutout>,
        cull: bool,
        tint: u32,
        light_emission: u8,
        shade: Option<CapturedDirection>,
    ) -> (m: CapturedMaterial)
        ensures
            m.sprite == sprite,
            m.pass == captured_pass(blend, cutout),
            m.cull == cull,
            m.tint == tint,
            m.light_emission == light_emission,
            m.shade == match shade {
                Some(d) => Some(direction_from(d)),
                None => None,
            },
    {
        let pass = if blend {
            PassKind::Translucent
        } else {
            match cutout {
                Some(c) => PassKind::Cutout(c),
                None => PassKind::Opaque,
            }
        };
        let shade = match shade {
            Some(d) => Some(to_direction(d)),
            None => None,
        };
        CapturedMaterial { sprite, pass, cull, tint, light_emission, shade }
    }
}

} // verus!
