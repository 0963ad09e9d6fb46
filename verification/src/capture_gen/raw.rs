//! A captured block file as read: every float is held by its bits, and every map as its
//! entries in key order.

use vstd::prelude::*;
use crate::capture_gen::model::{Direction, FloatingBits, Layering, QuadKind, RenderShape};

verus! {

/// Where a material's texture comes from: a sprite id or a file path, exactly one of them.
pub struct RawTexture {
    pub sprite: Option<String>,
    pub path: Option<String>,
}

/// A material as captured.
pub struct RawMaterial {
    pub texture: RawTexture,
    pub pipeline: String,
    pub cull: bool,
    pub blend: bool,
    pub alpha_cutout: Option<FloatingBits>,
    pub depth_write: bool,
    pub depth_bias: Option<[FloatingBits; 2]>,
    pub layering: Layering,
    pub tint_index: Option<i32>,
    pub tint_color: Option<String>,
    pub shade: Option<Direction>,
    pub light_emission: u8,
}

/// A cube of a model part: its corners, and the UVs of each face by direction.
pub struct RawCube {
    pub from: [FloatingBits; 3],
    pub to: [FloatingBits; 3],
    pub faces: Vec<(Direction, Vec<[FloatingBits; 2]>)>,
}

/// A model part: its pose and its cubes.
pub struct RawPart {
    pub pose: [FloatingBits; 12],
    pub cubes: Vec<RawCube>,
}

/// A quad of a block model.
pub struct RawQuad {
    pub kind: QuadKind,
    pub material: u32,
    pub positions: Vec<[FloatingBits; 3]>,
    pub uvs: Vec<[FloatingBits; 2]>,
}

/// One thing a state submits for drawing.
pub enum RawSubmission {
    Model { order: i32, material: u32, pose: [FloatingBits; 12], parts: Vec<RawPart> },
    BlockModel { order: i32, pose: [FloatingBits; 12], quads: Vec<RawQuad> },
}

/// A block state as captured.
pub struct RawState {
    pub render_shape: RenderShape,
    pub capture: Option<Vec<RawSubmission>>,
    pub discarded: Option<Vec<String>>,
}

/// A captured block file: its format, game version, block id, materials and states by key.
pub struct RawBlockFile {
    pub format: u32,
    pub minecraft_version: String,
    pub block: String,
    pub materials: Vec<RawMaterial>,
    pub states: Vec<(String, RawState)>,
}

} // verus!
