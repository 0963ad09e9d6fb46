//! The integer side of rasterization: render passes and their alpha tests, texel shading and
//! blending on packed little-endian RGBA texels, and when a depth buffer is needed.

use vstd::prelude::*;
use crate::resource::texture::sprite::{Blend, le_u32, texel_bits};
use crate::scene::layered::{over_pixel, overlay};
use crate::util::image::{Rgba, RgbaImage};

verus! {

/// Which texels an alpha-tested pass keeps.
#[derive(Copy, Clone, Debug, PartialEq, Eq, Structural)]
pub enum AlphaCutout {
    /// Alpha below 255/255 is dropped: only fully opaque texels stay.
    Visible,
    /// Alpha below 128/255 is dropped.
    Half,
    /// Alpha below 26/255 is dropped.
    Tenth,
}

/// The smallest alpha a cutout pass keeps.
pub open spec fn cutout_min(c: AlphaCutout) -> u32 {
    match c {
        AlphaCutout::Visible => 255,
        AlphaCutout::Half => 128,
        AlphaCutout::Tenth => 26,
    }
}

impl AlphaCutout {
    /// The smallest alpha this pass keeps.
    pub fn min_alpha(self) -> (m: u32)
        ensures
            m == cutout_min(self),
    {
        match self {
            AlphaCutout::Visible => 255,
            AlphaCutout::Half => 128,
            AlphaCutout::Tenth => 26,
        }
    }
}

/// The render pass a quad is drawn in.
#[derive(Copy, Clone, Debug, PartialEq, Eq, Structural)]
pub enum PassKind {
    Opaque,
    Cutout(AlphaCutout),
    Translucent,
}

/// The shape of a quad on screen.
#[derive(Copy, Clone, Debug, PartialEq, Eq, Structural)]
pub enum QuadKind {
    Parallelogram,
    Triangle,
}

/// The pass a sprite's blend mode calls for.
pub open spec fn pass_for(b: Blend) -> PassKind {
    match b {
        Blend::Opaque => PassKind::Opaque,
        Blend::Cutout => PassKind::Cutout(AlphaCutout::Visible),
        Blend::Translucent => PassKind::Translucent,
    }
}

impl PassKind {
    /// The pass a sprite's blend mode calls for: opaque sprites in the opaque pass, cutout
    /// sprites in a pass that drops clear texels, translucent sprites in the blended pass.
    pub fn from_blend(value: Blend) -> (p: PassKind)
        ensures
            p == pass_for(value),
    {
        match value {
            Blend::Opaque => PassKind::Opaque,
            Blend::Cutout => PassKind::Cutout(AlphaCutout::Visible),
            Blend::Translucent => PassKind::Translucent,
        }
    }

    /// Whether the pass writes depth: all but the translucent one.
    pub fn writes_depth(self) -> (b: bool)
        ensures
            b == !(self is Translucent),
    {
        match self {
            PassKind::Translucent => false,
            _ => true,
        }
    }

    /// Whether the pass draws a shaded texel: the opaque pass draws all, a cutout pass those
    /// whose alpha reaches its threshold, the translucent pass those that are not fully clear.
    pub fn keep(self, src: u32) -> (b: bool)
        ensures
            b == keeps(self, src),
    {
        match self {
            PassKind::Opaque => true,
            PassKind::Cutout(c) => src >> 24 >= c.min_alpha(),
            PassKind::Translucent => src & 0xFF00_0000 != 0,
        }
    }

    /// The colour a kept texel leaves in the target: the texel itself, or in the translucent
    /// pass the texel blended over what is there.
    pub fn compose(self, src: u32, dst: u32) -> (out: u32)
        ensures
            out == composed(self, src, dst),
    {
        match self {
            PassKind::Translucent => over(src, dst),
            _ => src,
        }
    }
}

/// Whether a pass keeps a texel (see [`PassKind::keep`]).
pub open spec fn keeps(pass: PassKind, src: u32) -> bool {
    match pass {
        PassKind::Opaque => true,
        PassKind::Cutout(c) => src >> 24 >= cutout_min(c),
        PassKind::Translucent => src & 0xFF00_0000 != 0,
    }
}

/// What a pass leaves in the target for a kept texel (see [`PassKind::compose`]).
pub open spec fn composed(pass: PassKind, src: u32, dst: u32) -> u32 {
    match pass {
        PassKind::Translucent => le_u32(over_pixel(pixel_of(src), pixel_of(dst))),
        _ => src,
    }
}

/// The pixel whose little-endian `u32` is `v`.
pub open spec fn pixel_of(v: u32) -> Rgba {
    Rgba {
        r: (v as int % 256) as u8,
        g: ((v as int / 256) % 256) as u8,
        b: ((v as int / 65536) % 256) as u8,
        a: (v as int / 16777216) as u8,
    }
}

/// The pixel whose little-endian `u32` is `v` (`u32::to_le_bytes`).
pub fn unpack_texel(v: u32) -> (p: Rgba)
    ensures
        p == pixel_of(v),
        le_u32(p) == v,
{
    assert((v & 0xFF) as int == v as int % 256) by (bit_vector);
    assert(((v >> 8) & 0xFF) as int == (v as int / 256) % 256) by (bit_vector);
    assert(((v >> 16) & 0xFF) as int == (v as int / 65536) % 256) by (bit_vector);
    assert((v >> 24) as int == v as int / 16777216) by (bit_vector);
    let p = Rgba {
        r: (v & 0xFF) as u8,
        g: ((v >> 8) & 0xFF) as u8,
        b: ((v >> 16) & 0xFF) as u8,
        a: (v >> 24) as u8,
    };
    proof {
        let (r, g, b, a) = (p.r as u32, p.g as u32, p.b as u32, p.a as u32);
        assert(r + g * 256 + b * 65536 + a * 16777216 == v) by (bit_vector)
            requires
                r == v & 0xFF,
                g == (v >> 8) & 0xFF,
                b == (v >> 16) & 0xFF,
                a == v >> 24,
        ;
    }
    p
}

/// `src` drawn over `dst`, both little-endian RGBA texels (see [`over_pixel`]).
pub fn over(src: u32, dst: u32) -> (out: u32)
    ensures
        out == le_u32(over_pixel(pixel_of(src), pixel_of(dst))),
{
    texel_bits(overlay(unpack_texel(src), unpack_texel(dst)))
}

/// A colour channel scaled by a 16.16 fixed-point factor, rounded to nearest and cut to a byte.
pub open spec fn shade_channel(ch: int, k: int) -> int {
    ((ch * k + 0x8000) / 65536) % 256
}

/// A texel whose colour channels are scaled by 16.16 fixed-point factors; alpha is kept.
pub open spec fn modulated(texel: u32, k: [u32; 3]) -> u32 {
    let p = pixel_of(texel);
    le_u32(Rgba {
        r: shade_channel(p.r as int, k[0] as int) as u8,
        g: shade_channel(p.g as int, k[1] as int) as u8,
        b: shade_channel(p.b as int, k[2] as int) as u8,
        a: p.a,
    })
}

fn shade_byte(ch: u8, k: u32) -> (out: u8)
    requires
        k <= 16842880,
    ensures
        out as int == shade_channel(ch as int, k as int),
{
    assert(ch as u32 * k + 0x8000 <= u32::MAX) by (nonlinear_arith)
        requires
            ch <= 255,
            k <= 16842880,
    ;
    let t: u32 = ch as u32 * k + 0x8000;
    let v = t >> 16;
    assert((v & 0xFF) as int == v as int % 256) by (bit_vector);
    assert(v as int == t as int / 65536) by (bit_vector)
        requires
            v == t >> 16,
    ;
    (v & 0xFF) as u8
}

/// Scales a texel's colour channels by 16.16 fixed-point shading factors, rounding to nearest.
pub fn modulate(texel: u32, k: [u32; 3]) -> (out: u32)
    requires
        k[0] <= 16842880,
        k[1] <= 16842880,
        k[2] <= 16842880,
    ensures
        out == modulated(texel, k),
{
    let p = unpack_texel(texel);
    texel_bits(Rgba { r: shade_byte(p.r, k[0]), g: shade_byte(p.g, k[1]), b: shade_byte(p.b, k[2]), a: p.a })
}

/// A depth buffer is needed when more than one part or element is drawn, or some sprite is
/// translucent.
pub fn needs_depth(part_count: usize, element_count: usize, blends: &[Blend]) -> (b: bool)
    ensures
        b == (part_count > 1 || element_count > 1 || exists|i: int|
            0 <= i < blends@.len() && blends@[i] == Blend::Translucent),
{
    if part_count > 1 || element_count > 1 {
        return true;
    }
    let mut i: usize = 0;
    while i < blends.len()
        invariant
            i <= blends@.len(),
            forall|j: int| 0 <= j < i ==> blends@[j] != Blend::Translucent,
        decreases blends.len() - i,
    {
        if blends[i] == Blend::Translucent {
            return true;
        }
        i = i + 1;
    }
    false
}

/// The image held by a colour buffer of little-endian texels, or `None` when the buffer is not
/// `width * height` long.
pub fn image_from_texels(width: u32, height: u32, color: &Vec<u32>) -> (res: Option<RgbaImage>)
    ensures
        match res {
            Some(img) => img.wf() && img@.width == width && img@.height == height && img@.pixels.len()
                == color@.len() && forall|i: int|
                0 <= i < color@.len() ==> #[trigger] img@.pixels[i] == pixel_of(color@[i]),
            None => color@.len() != width * height,
        },
{
    let mut pixels: Vec<Rgba> = Vec::new();
    let mut i: usize = 0;
    while i < color.len()
        invariant
            i <= color@.len(),
            pixels@.len() == i,
            forall|j: int| 0 <= j < i ==> #[trigger] pixels@[j] == pixel_of(color@[j]),
        decreases color.len() - i,
    {
        pixels.push(unpack_texel(color[i]));
        i = i + 1;
    }
    RgbaImage::from_pixels(width, height, pixels)
}

} // verus!
