//! Texture metadata (`.mcmeta`): animation strips and where their first frame lies.

use vstd::prelude::*;

verus! {

/// One frame of an animation: its index in the strip, with an optional display time.
#[derive(Clone, Debug)]
pub enum AnimationFrame {
    Index(u32),
    Full { index: u32, time: Option<u32> },
}

/// The strip index of a frame.
pub open spec fn frame_index(f: AnimationFrame) -> u32 {
    match f {
        AnimationFrame::Index(i) => i,
        AnimationFrame::Full { index, .. } => index,
    }
}

impl AnimationFrame {
    /// The strip index of the frame.
    pub fn index(&self) -> (i: u32)
        ensures
            i == frame_index(*self),
    {
        match self {
            AnimationFrame::Index(index) => *index,
            AnimationFrame::Full { index, .. } => *index,
        }
    }
}

/// How long a frame shows when the metadata does not say: one tick.
pub fn default_frametime() -> (t: u32)
    ensures
        t == 1,
{
    1
}

/// The animation section of a texture's metadata. Frame sizes and the frame time are never
/// zero.
#[derive(Clone, Debug)]
pub struct AnimationSection {
    pub frames: Option<Vec<AnimationFrame>>,
    pub width: Option<u32>,
    pub height: Option<u32>,
    pub frametime: u32,
    pub interpolate: bool,
}

impl AnimationSection {
    /// Frame sizes and the frame time are positive.
    pub open spec fn wf(&self) -> bool {
        &&& self.frametime > 0
        &&& (self.width matches Some(w) ==> w > 0)
        &&& (self.height matches Some(h) ==> h > 0)
    }
}

/// How mip levels of a texture are built.
#[derive(Copy, Clone, Debug, Default, PartialEq, Eq, Hash, Structural)]
pub enum MipmapStrategy {
    #[default]
    Auto,
    Mean,
    Cutout,
    StrictCutout,
    DarkCutout,
}

/// The texture section of a texture's metadata. The alpha cutoff bias is kept as the bits of
/// its `f32` value.
#[derive(Clone, Debug)]
pub struct TextureSection {
    pub blur: bool,
    pub clamp: bool,
    pub mipmap_strategy: MipmapStrategy,
    pub alpha_cutoff_bias_bits: u32,
}

/// A texture's metadata.
#[derive(Clone, Debug)]
pub struct RawTextureMeta {
    pub animation: Option<AnimationSection>,
    pub texture: Option<TextureSection>,
}

/// The smaller of two numbers.
pub open spec fn min_u32(a: u32, b: u32) -> u32 {
    if a <= b { a } else { b }
}

/// The size of one frame: as written, else the image's width or height, else the largest
/// square.
pub open spec fn frame_size(a: AnimationSection, w: u32, h: u32) -> (u32, u32) {
    match (a.width, a.height) {
        (Some(fw), Some(fh)) => (fw, fh),
        (Some(fw), None) => (fw, h),
        (None, Some(fh)) => (w, fh),
        (None, None) => (min_u32(w, h), min_u32(w, h)),
    }
}

/// The strip index of the first listed frame, else zero.
pub open spec fn first_frame(a: AnimationSection) -> u32 {
    match a.frames {
        Some(f) => if f@.len() > 0 {
            frame_index(f@[0])
        } else {
            0
        },
        None => 0,
    }
}

/// The rectangle `(x, y, width, height)` of the first frame of a `w`x`h` image: the whole
/// image when it is not animated, none when the frame size does not divide the image, else
/// the frame's cell when frames fill the image row by row.
pub open spec fn frame_rect_of(anim: Option<AnimationSection>, w: u32, h: u32) -> Option<(int, int, int, int)> {
    match anim {
        None => Some((0, 0, w as int, h as int)),
        Some(a) => {
            let (fw, fh) = frame_size(a, w, h);
            if w % fw != 0 || h % fh != 0 {
                None
            } else {
                let first = first_frame(a);
                let per_row = w / fw;
                Some(((first % per_row) * fw, (first / per_row) * fh, fw as int, fh as int))
            }
        },
    }
}

/// Whether the first frame's rectangle fits the `u32` range the computation works in.
pub open spec fn frame_rect_fits(anim: Option<AnimationSection>, w: u32, h: u32) -> bool {
    match frame_rect_of(anim, w, h) {
        Some((x, y, fw, fh)) => y <= u32::MAX,
        None => true,
    }
}

/// The first frame's rectangle (see [`frame_rect_of`]).
pub fn frame_rect(anim: &Option<AnimationSection>, w: u32, h: u32) -> (r: Option<(u32, u32, u32, u32)>)
    requires
        w > 0,
        h > 0,
        anim matches Some(a) ==> a.wf(),
        frame_rect_fits(*anim, w, h),
    ensures
        match r {
            Some((x, y, fw, fh)) => frame_rect_of(*anim, w, h) == Some((x as int, y as int, fw as int, fh as int)),
            None => frame_rect_of(*anim, w, h) is None,
        },
{
    let a = match anim {
        None => {
            return Some((0, 0, w, h));
        },
        Some(a) => a,
    };
    let (fw, fh): (u32, u32) = match (a.width, a.height) {
        (Some(fw), Some(fh)) => (fw, fh),
        (Some(fw), None) => (fw, h),
        (None, Some(fh)) => (w, fh),
        (None, None) => {
            let square = if w <= h { w } else { h };
            (square, square)
        },
    };
    if w % fw != 0 || h % fh != 0 {
        return None;
    }
    let first: u32 = match &a.frames {
        Some(f) => if f.len() > 0 {
            f[0].index()
        } else {
            0
        },
        None => 0,
    };
    let per_row = w / fw;
    assert(per_row > 0) by (nonlinear_arith)
        requires
            w % fw == 0,
            fw > 0,
            w > 0,
            per_row == w / fw,
    ;
    let col = first % per_row;
    let row = first / per_row;
    assert(col * fw <= w) by (nonlinear_arith)
        requires
            col < per_row,
            per_row == w / fw,
            fw > 0,
    ;
    Some((col * fw, row * fh, fw, fh))
}

} // verus!
