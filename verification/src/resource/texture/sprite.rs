//! Sprites: images with their size and how their alpha channel must be blended.

use vstd::prelude::*;
use std::sync::Arc;
use crate::util::image::{Rgba, RgbaImage, ImageView};

verus! {

/// How a texture's alpha channel is used.
#[derive(Copy, Clone, Debug, PartialEq, Eq, Structural)]
pub enum Blend {
    /// Every texel is fully opaque.
    Opaque,
    /// Every texel is fully opaque or fully transparent.
    Cutout,
    /// Some texel is partly transparent.
    Translucent,
}

/// The blend mode a set of pixels needs: translucent when some alpha lies strictly between 0
/// and 255, cutout when some pixel is fully transparent and none is partly so, opaque otherwise.
pub open spec fn blend_of(pixels: Seq<Rgba>) -> Blend {
    if exists|i: int| 0 <= i < pixels.len() && pixels[i].a != 0 && pixels[i].a != 255 {
        Blend::Translucent
    } else if exists|i: int| 0 <= i < pixels.len() && pixels[i].a == 0 {
        Blend::Cutout
    } else {
        Blend::Opaque
    }
}

impl Blend {
    /// The blend mode the image needs (see [`blend_of`]).
    pub fn scan(img: &RgbaImage) -> (b: Blend)
        ensures
            b == blend_of(img@.pixels),
    {
        let pixels = img.pixels();
        let mut clear = false;
        let mut i: usize = 0;
        while i < pixels.len()
            invariant
                pixels@ == img@.pixels,
                i <= pixels@.len(),
                forall|j: int| 0 <= j < i ==> pixels@[j].a == 0 || pixels@[j].a == 255,
                clear == exists|j: int| 0 <= j < i && pixels@[j].a == 0,
            decreases pixels.len() - i,
        {
            let a = pixels[i].a;
            if a == 0 {
                clear = true;
            } else if a != 255 {
                return Blend::Translucent;
            }
            i = i + 1;
        }
        if clear {
            Blend::Cutout
        } else {
            Blend::Opaque
        }
    }
}

/// The value of a pixel read as a little-endian `u32`: red in the low byte, alpha in the high
/// byte.
pub open spec fn le_u32(p: Rgba) -> u32 {
    (p.r as int + p.g as int * 256 + p.b as int * 65536 + p.a as int * 16777216) as u32
}

/// The little-endian `u32` of a pixel (`u32::from_le_bytes([r, g, b, a])`).
pub fn texel_bits(p: Rgba) -> (v: u32)
    ensures
        v == le_u32(p),
{
    let (r, g, b, a) = (p.r as u32, p.g as u32, p.b as u32, p.a as u32);
    assert((r | g << 8 | b << 16 | a << 24) == r + g * 256 + b * 65536 + a * 16777216) by (bit_vector)
        requires
            r < 256,
            g < 256,
            b < 256,
            a < 256,
    ;
    r | g << 8 | b << 16 | a << 24
}

/// A texture ready for sampling: its image, its size and how its alpha must be blended.
#[derive(Clone, Debug)]
pub struct Sprite {
    pub width: u32,
    pub height: u32,
    pub image: Arc<RgbaImage>,
    pub blend: Blend,
}

impl Sprite {
    /// The size matches the image, and the blend mode is the one the image needs.
    pub open spec fn wf(&self) -> bool {
        &&& self.image.wf()
        &&& self.width == self.image@.width
        &&& self.height == self.image@.height
        &&& self.blend == blend_of(self.image@.pixels)
    }

    /// A sprite for an image, with the blend mode the image needs.
    pub fn from_image(image: Arc<RgbaImage>) -> (s: Sprite)
        requires
            image.wf(),
        ensures
            s.wf(),
            s.image == image,
    {
        let (width, height) = image.dimensions();
        let blend = Blend::scan(&image);
        Sprite { width, height, image, blend }
    }

    /// The texel at `(x, y)` as a little-endian `u32`.
    pub fn texel(&self, x: u32, y: u32) -> (v: u32)
        requires
            self.wf(),
            x < self.width,
            y < self.height,
            y * self.width + x <= u32::MAX,
        ensures
            v == le_u32(self.image@.pixel(x as int, y as int)),
    {
        texel_bits(self.image.get_pixel(x, y))
    }
}

/// The colour of the missing-texture checkerboard at `(x, y)`: magenta where exactly one of
/// the coordinates lies in the first half, black elsewhere.
pub open spec fn missing_texel(x: int, y: int) -> Rgba {
    if (y < 8) != (x < 8) {
        Rgba { r: 0xF8, g: 0x00, b: 0xF8, a: 0xFF }
    } else {
        Rgba { r: 0x00, g: 0x00, b: 0x00, a: 0xFF }
    }
}

/// Whether an image is the missing-texture checkerboard: 16 by 16, every texel as
/// [`missing_texel`] says.
pub open spec fn is_checkerboard(img: RgbaImage) -> bool {
    &&& img.wf()
    &&& img@.width == 16
    &&& img@.height == 16
    &&& forall|x: int, y: int| img@.contains(x, y) ==> #[trigger] img@.pixel(x, y) == missing_texel(x, y)
}

/// The 16 by 16 magenta and black checkerboard drawn in place of a texture that cannot be
/// loaded.
pub fn missing_texture() -> (img: Arc<RgbaImage>)
    ensures
        img.wf(),
        img@.width == 16,
        img@.height == 16,
        forall|x: int, y: int| img@.contains(x, y) ==> #[trigger] img@.pixel(x, y) == missing_texel(x, y),
        is_checkerboard(*img),
{
    let f = |x: u32, y: u32| -> (p: Rgba)
        ensures
            p == missing_texel(x as int, y as int),
        {
            if (y < 8) != (x < 8) {
                Rgba { r: 0xF8, g: 0x00, b: 0xF8, a: 0xFF }
            } else {
                Rgba { r: 0x00, g: 0x00, b: 0x00, a: 0xFF }
            }
        };
    let img = RgbaImage::from_fn(16, 16, f);
    proof {
        assert forall|x: int, y: int| img@.contains(x, y) implies #[trigger] img@.pixel(x, y) == missing_texel(x, y) by {
            assert(call_ensures(f, (x as u32, y as u32), img@.pixel(x as u32 as int, y as u32 as int)));
        }
    }
    Arc::new(img)
}

/// The sprite of the missing-texture checkerboard.
pub fn missing_sprite() -> (s: Arc<Sprite>)
    ensures
        s.wf(),
        s.width == 16,
        s.height == 16,
        forall|x: int, y: int| s.image@.contains(x, y) ==> #[trigger] s.image@.pixel(x, y) == missing_texel(x, y),
{
    Arc::new(Sprite::from_image(missing_texture()))
}

} // verus!
