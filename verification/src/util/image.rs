//! RGBA images held as rows of pixels, and the pixel-copying operations on them: building from a
//! function, cropping, flipping and rotating, and integer upscaling.

use vstd::prelude::*;
use crate::direction::Quadrant;
use vstd::arithmetic::div_mod::{lemma_fundamental_div_mod_converse_div, lemma_fundamental_div_mod_converse_mod};

verus! {

/// One pixel: red, green, blue and alpha channels.
#[derive(Copy, Clone, Debug, PartialEq, Eq, Hash, Structural)]
pub struct Rgba {
    pub r: u8,
    pub g: u8,
    pub b: u8,
    pub a: u8,
}

/// The model of an image: its size and its pixels in row-major order.
pub struct ImageView {
    pub width: nat,
    pub height: nat,
    pub pixels: Seq<Rgba>,
}

impl ImageView {
    /// The pixel in column `x` of row `y`.
    pub open spec fn pixel(self, x: int, y: int) -> Rgba {
        self.pixels[y * self.width + x]
    }

    /// `(x, y)` lies inside the image.
    pub open spec fn contains(self, x: int, y: int) -> bool {
        0 <= x < self.width && 0 <= y < self.height
    }
}

/// An RGBA image with 8 bits per channel.
#[derive(Clone, Debug)]
pub struct RgbaImage {
    width: u32,
    height: u32,
    pixels: Vec<Rgba>,
}

/// The position of pixel `(x, y)` in a row-major buffer `w` pixels wide lies before `w * h`.
pub proof fn lemma_pixel_index(x: int, y: int, w: int, h: int)
    requires
        0 <= x < w,
        0 <= y < h,
    ensures
        0 <= y * w + x < w * h,
        y * w + x + 1 <= w * h,
{
    assert(y * w + x < w * h) by (nonlinear_arith)
        requires
            0 <= x < w,
            0 <= y < h,
    ;
    assert(0 <= y * w) by (nonlinear_arith)
        requires
            0 <= y,
            0 <= w,
    ;
}

/// Position `y * w + x` of a row-major buffer is pixel `(x, y)`.
pub proof fn lemma_pixel_coords(x: int, y: int, w: int)
    requires
        0 <= x < w,
        0 <= y,
    ensures
        (y * w + x) % w == x,
        (y * w + x) / w == y,
{
    lemma_fundamental_div_mod_converse_mod(y * w + x, w, y, x);
    lemma_fundamental_div_mod_converse_div(y * w + x, w, y, x);
}

/// A row-major buffer of `w * h` pixels whose pixel `(x, y)` is `f(x, y)`.
pub open spec fn image_from(w: nat, h: nat, f: spec_fn(int, int) -> Rgba) -> ImageView {
    ImageView { width: w, height: h, pixels: Seq::new(w * h, |i: int| f(i % (w as int), i / (w as int))) }
}

impl View for RgbaImage {
    type V = ImageView;

    closed spec fn view(&self) -> ImageView {
        ImageView { width: self.width as nat, height: self.height as nat, pixels: self.pixels@ }
    }
}

impl RgbaImage {
    /// A copy of this image.
    pub fn copy(&self) -> (img: RgbaImage)
        ensures
            img@ == self@,
    {
        RgbaImage { width: self.width, height: self.height, pixels: self.pixels.clone() }
    }

    /// The pixel buffer holds exactly `width * height` pixels.
    pub open spec fn wf(&self) -> bool {
        &&& self@.pixels.len() == self@.width * self@.height
        &&& self@.width * self@.height <= usize::MAX
    }

    /// The width in pixels.
    pub fn width(&self) -> (w: u32)
        ensures
            w == self@.width,
    {
        self.width
    }

    /// The height in pixels.
    pub fn height(&self) -> (h: u32)
        ensures
            h == self@.height,
    {
        self.height
    }

    /// `(width, height)`.
    pub fn dimensions(&self) -> (d: (u32, u32))
        ensures
            d.0 == self@.width,
            d.1 == self@.height,
    {
        (self.width, self.height)
    }

    /// The pixels in row-major order.
    pub fn pixels(&self) -> (p: &Vec<Rgba>)
        ensures
            p@ == self@.pixels,
    {
        &self.pixels
    }

    /// Gives up the pixel buffer.
    pub fn into_pixels(self) -> (p: Vec<Rgba>)
        ensures
            p@ == self@.pixels,
    {
        self.pixels
    }

    /// The pixel in column `x` of row `y`.
    pub fn get_pixel(&self, x: u32, y: u32) -> (p: Rgba)
        requires
            self.wf(),
            x < self@.width,
            y < self@.height,
        ensures
            p == self@.pixel(x as int, y as int),
    {
        let n = self.pixels.len();
        proof {
            lemma_pixel_index(x as int, y as int, self.width as int, self.height as int);
            assert(y * self.width <= y * self.width + x);
        }
        self.pixels[y as usize * self.width as usize + x as usize]
    }

    /// An image of the given size from a row-major pixel buffer, or `None` when the buffer does
    /// not hold exactly `width * height` pixels.
    pub fn from_pixels(width: u32, height: u32, pixels: Vec<Rgba>) -> (img: Option<RgbaImage>)
        ensures
            match img {
                Some(img) => img.wf() && img@.width == width && img@.height == height && img@.pixels
                    == pixels@,
                None => pixels@.len() != width * height,
            },
    {
        let w = width as u64;
        let h = height as u64;
        assert(w * h <= u64::MAX) by (nonlinear_arith)
            requires
                w <= u32::MAX,
                h <= u32::MAX,
        ;
        if pixels.len() as u64 == w * h {
            assert(pixels@.len() <= usize::MAX);
            Some(RgbaImage { width, height, pixels })
        } else {
            None
        }
    }

    /// An image whose pixel `(x, y)` is `f(x, y)`, filled row by row.
    pub fn from_fn<F: Fn(u32, u32) -> Rgba>(width: u32, height: u32, f: F) -> (img: RgbaImage)
        requires
            width * height <= usize::MAX,
            forall|x: u32, y: u32| x < width && y < height ==> call_requires(f, (x, y)),
        ensures
            img.wf(),
            img@.width == width,
            img@.height == height,
            forall|x: u32, y: u32|
                x < width && y < height ==> call_ensures(f, (x, y), #[trigger] img@.pixel(x as int, y as int)),
    {
        let mut pixels: Vec<Rgba> = Vec::new();
        let mut y: u32 = 0;
        while y < height
            invariant
                y <= height,
                width * height <= usize::MAX,
                forall|x: u32, y: u32| x < width && y < height ==> call_requires(f, (x, y)),
                pixels@.len() == y * width,
                forall|i: int|
                    0 <= i < pixels@.len() ==> call_ensures(
                        f,
                        ((i % (width as int)) as u32, (i / (width as int)) as u32),
                        #[trigger] pixels@[i],
                    ),
            decreases height - y,
        {
            proof {
                assert(y * width + width <= width * height) by (nonlinear_arith)
                    requires y < height;
            }
            let mut x: u32 = 0;
            while x < width
                invariant
                    x <= width,
                    y < height,
                    width * height <= usize::MAX,
                    forall|x: u32, y: u32| x < width && y < height ==> call_requires(f, (x, y)),
                    pixels@.len() == y * width + x,
                    y * width + width <= width * height,
                    forall|i: int|
                        0 <= i < pixels@.len() ==> call_ensures(
                            f,
                            ((i % (width as int)) as u32, (i / (width as int)) as u32),
                            #[trigger] pixels@[i],
                        ),
                decreases width - x,
            {
                proof {
                    lemma_pixel_index(x as int, y as int, width as int, height as int);
                    lemma_pixel_coords(x as int, y as int, width as int);
                }
                let p = f(x, y);
                pixels.push(p);
                x = x + 1;
            }
            proof {
                assert((y + 1) * width == y * width + width) by (nonlinear_arith);
            }
            y = y + 1;
        }
        proof {
            assert(height * width == width * height) by (nonlinear_arith);
        }
        let img = RgbaImage { width, height, pixels };
        proof {
            assert forall|x: u32, y: u32| x < width && y < height implies call_ensures(
                f,
                (x, y),
                #[trigger] img@.pixel(x as int, y as int),
            ) by {
                lemma_pixel_index(x as int, y as int, width as int, height as int);
                lemma_pixel_coords(x as int, y as int, width as int);
                let i = y * width + x;
                assert(call_ensures(
                    f,
                    ((i % (width as int)) as u32, (i / (width as int)) as u32),
                    pixels@[i],
                ));
            }
        }
        img
    }

    /// A fully transparent black image.
    pub fn new(width: u32, height: u32) -> (img: RgbaImage)
        requires
            width * height <= usize::MAX,
        ensures
            img.wf(),
            img@.width == width,
            img@.height == height,
            forall|x: int, y: int|
                img@.contains(x, y) ==> #[trigger] img@.pixel(x, y) == (Rgba { r: 0, g: 0, b: 0, a: 0 }),
    {
        let clear = |x: u32, y: u32| -> (p: Rgba)
            ensures
                p == (Rgba { r: 0, g: 0, b: 0, a: 0 }),
            { Rgba { r: 0, g: 0, b: 0, a: 0 } };
        let img = RgbaImage::from_fn(width, height, clear);
        proof {
            assert forall|x: int, y: int| img@.contains(x, y) implies #[trigger] img@.pixel(x, y) == (
            Rgba { r: 0, g: 0, b: 0, a: 0 }) by {
                assert(call_ensures(clear, (x as u32, y as u32), img@.pixel(x as u32 as int, y as u32 as int)));
            }
        }
        img
    }
}


proof fn lemma_area_bound(w: int, h: int, sw: int, sh: int)
    requires
        0 <= w <= sw,
        0 <= h <= sh,
    ensures
        w * h <= sw * sh,
{
    assert(w * h <= sw * h) by (nonlinear_arith)
        requires
            0 <= w <= sw,
            0 <= h,
    ;
    assert(sw * h <= sw * sh) by (nonlinear_arith)
        requires
            0 <= h <= sh,
            0 <= sw,
    ;
}

pub open spec fn min(a: int, b: int) -> int {
    if a <= b { a } else { b }
}

pub open spec fn max(a: int, b: int) -> int {
    if a >= b { a } else { b }
}

/// The part of a `x, y, w, h` rectangle that lies inside an `sw` by `sh` image: the corner is
/// clamped into the image, then the size is cut to what remains.
pub open spec fn clamped_rect(sw: int, sh: int, x: int, y: int, w: int, h: int) -> (int, int, int, int) {
    let cx = min(x, sw);
    let cy = min(y, sh);
    (cx, cy, min(w, sw - cx), min(h, sh - cy))
}

/// The `w` by `h` region at `(x, y)` of `src`, clamped to the image.
pub fn crop(src: &RgbaImage, x: u32, y: u32, w: u32, h: u32) -> (out: RgbaImage)
    requires
        src.wf(),
    ensures
        out.wf(),
        ({
            let (cx, cy, cw, ch) = clamped_rect(src@.width as int, src@.height as int, x as int, y as int, w as int, h as int);
            &&& out@.width == cw
            &&& out@.height == ch
            &&& forall|i: int, j: int|
                out@.contains(i, j) ==> #[trigger] out@.pixel(i, j) == src@.pixel(cx + i, cy + j)
        }),
{
    let (sw, sh) = src.dimensions();
    let x = if x < sw { x } else { sw };
    let y = if y < sh { y } else { sh };
    let w = if w < sw - x { w } else { sw - x };
    let h = if h < sh - y { h } else { sh - y };
    proof {
        lemma_area_bound(w as int, h as int, sw as int, sh as int);
    }
    let f = |i: u32, j: u32| -> (p: Rgba)
        requires
            src.wf(),
            i < w,
            j < h,
            x + w <= src@.width,
            y + h <= src@.height,
        ensures
            p == src@.pixel(x + i, y + j),
        { src.get_pixel(x + i, y + j) };
    let out = RgbaImage::from_fn(w, h, f);
    proof {
        assert forall|i: int, j: int| out@.contains(i, j) implies #[trigger] out@.pixel(i, j) == src@.pixel(
            x + i,
            y + j,
        ) by {
            assert(call_ensures(f, (i as u32, j as u32), out@.pixel(i as u32 as int, j as u32 as int)));
        }
    }
    out
}

/// A rectangle of source pixels to copy, and whether to mirror it horizontally and vertically.
#[derive(Copy, Clone, Debug, PartialEq, Eq, Structural)]
pub struct Window {
    pub x: u32,
    pub y: u32,
    pub width: u32,
    pub height: u32,
    pub flip_x: bool,
    pub flip_y: bool,
}

/// The window for a frame whose corner is at `(fx, fy)`, sampled between the frame-relative
/// pixel corners `from` and `to`: the rectangle they span, clamped to the image, mirrored
/// along each axis where `to` lies before `from`.
pub open spec fn window_of(sw: int, sh: int, fx: int, fy: int, from: (int, int), to: (int, int)) -> Window {
    let lo_x = min(from.0, to.0);
    let lo_y = min(from.1, to.1);
    let hi_x = max(from.0, to.0);
    let hi_y = max(from.1, to.1);
    let ox = min(fx + lo_x, sw);
    let oy = min(fy + lo_y, sh);
    Window {
        x: ox as u32,
        y: oy as u32,
        width: min(hi_x - lo_x, sw - ox) as u32,
        height: min(hi_y - lo_y, sh - oy) as u32,
        flip_x: from.0 > to.0,
        flip_y: from.1 > to.1,
    }
}

/// The window of source pixels that [`transform`] samples.
pub fn window(src: &RgbaImage, frame_origin: (u32, u32), from: (u32, u32), to: (u32, u32)) -> (w: Window)
    requires
        frame_origin.0 + min(from.0 as int, to.0 as int) <= u32::MAX,
        frame_origin.1 + min(from.1 as int, to.1 as int) <= u32::MAX,
    ensures
        w == window_of(src@.width as int, src@.height as int, frame_origin.0 as int, frame_origin.1 as int, (from.0 as int, from.1 as int), (to.0 as int, to.1 as int)),
        w.x + w.width <= src@.width,
        w.y + w.height <= src@.height,
{
    let (fx, fy) = frame_origin;
    let (x0, y0) = from;
    let (x1, y1) = to;
    let lo_x = if x0 <= x1 { x0 } else { x1 };
    let lo_y = if y0 <= y1 { y0 } else { y1 };
    let hi_x = if x0 >= x1 { x0 } else { x1 };
    let hi_y = if y0 >= y1 { y0 } else { y1 };
    let ox = if fx + lo_x <= src.width() { fx + lo_x } else { src.width() };
    let oy = if fy + lo_y <= src.height() { fy + lo_y } else { src.height() };
    let width = if hi_x - lo_x <= src.width() - ox { hi_x - lo_x } else { src.width() - ox };
    let height = if hi_y - lo_y <= src.height() - oy { hi_y - lo_y } else { src.height() - oy };
    Window { x: ox, y: oy, width, height, flip_x: x0 > x1, flip_y: y0 > y1 }
}

/// The source column and row that output pixel `(a, b)` of [`transform`] takes, for a window
/// and a rotation. Half turns mirror both axes; quarter turns swap the axes, so the output is
/// `height` wide and `width` high.
pub open spec fn transform_source(w: Window, rotation: Quadrant, a: int, b: int) -> (int, int) {
    let cw = w.width as int;
    let ch = w.height as int;
    match rotation {
        Quadrant::R0 | Quadrant::R180 => {
            let half = rotation == Quadrant::R180;
            let fx = w.flip_x != half;
            let fy = w.flip_y != half;
            (w.x + if fx { cw - 1 - a } else { a }, w.y + if fy { ch - 1 - b } else { b })
        },
        Quadrant::R90 | Quadrant::R270 => {
            let quarter = rotation == Quadrant::R90;
            let crop_x = if quarter == w.flip_x { cw - 1 - b } else { b };
            let crop_y = if quarter != w.flip_y { ch - 1 - a } else { a };
            (w.x + crop_x, w.y + crop_y)
        },
    }
}

/// [`transform`] leaves the source as it is: no rotation or half turn cancelling the window's
/// mirroring, and a window covering the whole image.
pub open spec fn transform_is_identity(src: ImageView, w: Window, rotation: Quadrant) -> bool {
    &&& (rotation == Quadrant::R0 || rotation == Quadrant::R180)
    &&& w.flip_x == (rotation == Quadrant::R180)
    &&& w.flip_y == (rotation == Quadrant::R180)
    &&& w.x == 0
    &&& w.y == 0
    &&& w.width == src.width
    &&& w.height == src.height
}

/// Crops the frame window of `src` between the pixel corners `from` and `to` (relative to the
/// frame corner `frame_origin`), mirrors it where `to` lies before `from`, and rotates it by
/// `rotation`. `None` means the result would equal the source. An empty window gives a single
/// transparent pixel.
pub fn transform(
    src: &RgbaImage,
    frame_origin: (u32, u32),
    from: (u32, u32),
    to: (u32, u32),
    rotation: Quadrant,
) -> (res: Option<RgbaImage>)
    requires
        src.wf(),
        frame_origin.0 + min(from.0 as int, to.0 as int) <= u32::MAX,
        frame_origin.1 + min(from.1 as int, to.1 as int) <= u32::MAX,
    ensures
        ({
            let w = window_of(src@.width as int, src@.height as int, frame_origin.0 as int, frame_origin.1 as int, (from.0 as int, from.1 as int), (to.0 as int, to.1 as int));
            let quarter = rotation == Quadrant::R90 || rotation == Quadrant::R270;
            if w.width == 0 || w.height == 0 {
                res matches Some(img) && img.wf() && img@.width == 1 && img@.height == 1
                    && img@.pixel(0, 0) == (Rgba { r: 0, g: 0, b: 0, a: 0 })
            } else if transform_is_identity(src@, w, rotation) {
                res is None
            } else {
                res matches Some(img) && img.wf()
                    && img@.width == (if quarter { w.height } else { w.width })
                    && img@.height == (if quarter { w.width } else { w.height })
                    && forall|a: int, b: int| #[trigger] img@.contains(a, b) ==> img@.pixel(a, b)
                        == src@.pixel(transform_source(w, rotation, a, b).0, transform_source(w, rotation, a, b).1)
            }
        }),
{
    let w = window(src, frame_origin, from, to);
    if w.width == 0 || w.height == 0 {
        let one = RgbaImage::new(1, 1);
        return Some(one);
    }
    let (cw, ch) = (w.width, w.height);
    proof {
        lemma_area_bound(cw as int, ch as int, src@.width as int, src@.height as int);
        assert(ch * cw == cw * ch) by (nonlinear_arith);
    }
    match rotation {
        Quadrant::R0 | Quadrant::R180 => {
            let half = rotation == Quadrant::R180;
            let fx = w.flip_x != half;
            let fy = w.flip_y != half;
            if !fx && !fy && w.x == 0 && w.y == 0 && cw == src.width() && ch == src.height() {
                return None;
            }
            let f = |a: u32, b: u32| -> (p: Rgba)
                requires
                    src.wf(),
                    a < cw,
                    b < ch,
                    w.x + cw <= src@.width,
                    w.y + ch <= src@.height,
                ensures
                    p == src@.pixel(transform_source(w, rotation, a as int, b as int).0, transform_source(w, rotation, a as int, b as int).1),
                {
                    let sx = if fx { cw - 1 - a } else { a };
                    let sy = if fy { ch - 1 - b } else { b };
                    src.get_pixel(w.x + sx, w.y + sy)
                };
            let out = RgbaImage::from_fn(cw, ch, f);
            proof {
                assert forall|a: int, b: int| #[trigger] out@.contains(a, b) implies out@.pixel(a, b)
                    == src@.pixel(transform_source(w, rotation, a, b).0, transform_source(w, rotation, a, b).1) by {
                    assert(call_ensures(f, (a as u32, b as u32), out@.pixel(a as u32 as int, b as u32 as int)));
                }
            }
            Some(out)
        },
        Quadrant::R90 | Quadrant::R270 => {
            let quarter = rotation == Quadrant::R90;
            let f = |a: u32, b: u32| -> (p: Rgba)
                requires
                    src.wf(),
                    a < ch,
                    b < cw,
                    w.x + cw <= src@.width,
                    w.y + ch <= src@.height,
                ensures
                    p == src@.pixel(transform_source(w, rotation, a as int, b as int).0, transform_source(w, rotation, a as int, b as int).1),
                {
                    let crop_x = if quarter == w.flip_x { cw - 1 - b } else { b };
                    let crop_y = if quarter != w.flip_y { ch - 1 - a } else { a };
                    src.get_pixel(w.x + crop_x, w.y + crop_y)
                };
            let out = RgbaImage::from_fn(ch, cw, f);
            proof {
                assert forall|a: int, b: int| #[trigger] out@.contains(a, b) implies out@.pixel(a, b)
                    == src@.pixel(transform_source(w, rotation, a, b).0, transform_source(w, rotation, a, b).1) by {
                    assert(call_ensures(f, (a as u32, b as u32), out@.pixel(a as u32 as int, b as u32 as int)));
                }
            }
            Some(out)
        },
    }
}


/// How [`transform`] reads its window: the window is mirrored along each flipped axis, then
/// turned clockwise by the rotation. So output pixel `(a, b)` of a quarter turn takes the
/// window's column `b` (mirrored when `flip_x`) and its row counted up from the bottom by `a`;
/// a half turn reads both axes backwards; three quarter turns read the columns backwards and
/// the rows forwards.
pub proof fn lemma_transform_turns(w: Window, a: int, b: int)
    ensures
        transform_source(w, Quadrant::R0, a, b) == (
            w.x + if w.flip_x { w.width - 1 - a } else { a },
            w.y + if w.flip_y { w.height - 1 - b } else { b },
        ),
        transform_source(w, Quadrant::R90, a, b) == (
            w.x + if w.flip_x { w.width - 1 - b } else { b },
            w.y + if w.flip_y { a } else { w.height - 1 - a },
        ),
        transform_source(w, Quadrant::R180, a, b) == (
            w.x + if w.flip_x { a } else { w.width - 1 - a },
            w.y + if w.flip_y { b } else { w.height - 1 - b },
        ),
        transform_source(w, Quadrant::R270, a, b) == (
            w.x + if w.flip_x { b } else { w.width - 1 - b },
            w.y + if w.flip_y { w.height - 1 - a } else { a },
        ),
{
}

/// A clockwise quarter turn of an unmirrored window: output pixel `(a, b)` is the window's
/// pixel in column `b` of row `height - 1 - a`, so the window's bottom row becomes the output's
/// first column read downwards.
pub proof fn lemma_quarter_turn(w: Window, a: int, b: int)
    requires
        !w.flip_x,
        !w.flip_y,
    ensures
        transform_source(w, Quadrant::R90, a, b) == (w.x + b, w.y + w.height - 1 - a),
{
}

/// Two quarter turns make a half turn, and a quarter turn undone by three more is no turn:
/// turning an unmirrored window, then turning the whole result again, reads the same source
/// pixels as the single combined rotation.
pub proof fn lemma_turns_compose(w: Window, a: int, b: int)
    requires
        !w.flip_x,
        !w.flip_y,
    ensures
        ({
            let turned = Window { x: 0, y: 0, width: w.height, height: w.width, flip_x: false, flip_y: false };
            let p = transform_source(turned, Quadrant::R90, a, b);
            let q = transform_source(turned, Quadrant::R270, a, b);
            &&& transform_source(w, Quadrant::R90, p.0, p.1) == transform_source(w, Quadrant::R180, a, b)
            &&& transform_source(w, Quadrant::R90, q.0, q.1) == transform_source(w, Quadrant::R0, a, b)
        }),
{
}

/// Growing by whole factors repeats each pixel as a block: when the width and the height are
/// `fx` and `fy` times the source's, source pixel `(i, j)` fills the output's `fx` by `fy`
/// block whose corner is `(i * fx, j * fy)`.
pub proof fn lemma_scale_blocks(src: ImageView, width: u32, height: u32, i: int, j: int, dx: int, dy: int)
    requires
        src.width > 0,
        src.height > 0,
        width as nat % src.width == 0,
        height as nat % src.height == 0,
        width >= src.width,
        height >= src.height,
        width != src.width || height != src.height,
        0 <= i < src.width,
        0 <= j < src.height,
        0 <= dx < width as nat / src.width,
        0 <= dy < height as nat / src.height,
    ensures
        scaled(src, width, height) matches Some(img) && img.width == width && img.height == height
            && img.contains(i * (width as nat / src.width) + dx, j * (height as nat / src.height) + dy)
            && img.pixel(i * (width as nat / src.width) + dx, j * (height as nat / src.height) + dy) == src.pixel(i, j),
{
    let sw = src.width as int;
    let sh = src.height as int;
    let fx = (width as nat / src.width) as int;
    let fy = (height as nat / src.height) as int;
    vstd::arithmetic::div_mod::lemma_fundamental_div_mod(width as int, sw);
    vstd::arithmetic::div_mod::lemma_fundamental_div_mod(height as int, sh);
    let x = i * fx + dx;
    let y = j * fy + dy;
    assert(x < width) by (nonlinear_arith)
        requires
            x == i * fx + dx,
            0 <= i < sw,
            0 <= dx < fx,
            width == sw * fx + 0,
    ;
    assert(y < height) by (nonlinear_arith)
        requires
            y == j * fy + dy,
            0 <= j < sh,
            0 <= dy < fy,
            height == sh * fy + 0,
    ;
    assert(0 <= x && 0 <= y) by (nonlinear_arith)
        requires
            x == i * fx + dx,
            y == j * fy + dy,
            i >= 0,
            j >= 0,
            dx >= 0,
            dy >= 0,
            fx > 0,
            fy > 0,
    ;
    vstd::arithmetic::div_mod::lemma_fundamental_div_mod_converse(x, fx, i, dx);
    vstd::arithmetic::div_mod::lemma_fundamental_div_mod_converse(y, fy, j, dy);
    lemma_image_from_pixel(
        width as nat,
        height as nat,
        |x: int, y: int| src.pixel(x / (width as nat / src.width) as int, y / (height as nat / src.height) as int),
        x,
        y,
    );
}

/// Two images of the same size that agree on every pixel are the same image.
pub proof fn lemma_image_ext(a: ImageView, b: ImageView)
    requires
        a.width == b.width,
        a.height == b.height,
        a.pixels.len() == a.width * a.height,
        b.pixels.len() == b.width * b.height,
        forall|x: int, y: int| a.contains(x, y) ==> #[trigger] a.pixel(x, y) == b.pixel(x, y),
    ensures
        a == b,
{
    assert forall|i: int| 0 <= i < a.pixels.len() implies a.pixels[i] == b.pixels[i] by {
        let w = a.width as int;
        vstd::arithmetic::div_mod::lemma_fundamental_div_mod(i, w);
        let x = i % w;
        let y = i / w;
        vstd::arithmetic::div_mod::lemma_mod_bound(i, w);
        vstd::arithmetic::div_mod::lemma_div_pos_is_pos(i, w);
        assert(y < a.height) by {
            if y >= a.height {
                assert(w * y >= w * a.height) by (nonlinear_arith)
                    requires
                        y >= a.height,
                        w > 0,
                ;
                assert(w * a.height == a.width * a.height) by (nonlinear_arith)
                    requires
                        w == a.width,
                ;
            }
        }
        assert(y * w + x == i) by (nonlinear_arith)
            requires
                i == w * y + x,
        ;
        assert(a.contains(x, y));
        assert(a.pixel(x, y) == b.pixel(x, y));
    }
    assert(a.pixels =~= b.pixels);
}

/// Pixel `(x, y)` of [`image_from`] is `f(x, y)`.
pub proof fn lemma_image_from_pixel(w: nat, h: nat, f: spec_fn(int, int) -> Rgba, x: int, y: int)
    requires
        0 <= x < w,
        0 <= y < h,
    ensures
        image_from(w, h, f).pixel(x, y) == f(x, y),
        image_from(w, h, f).pixels.len() == w * h,
{
    lemma_pixel_index(x, y, w as int, h as int);
    lemma_pixel_coords(x, y, w as int);
}

/// The resampling filter of a resize.
#[derive(Copy, Clone, Debug, PartialEq, Eq, Structural)]
pub enum ResizeFilter {
    Nearest,
    Triangle,
}

/// The image that `image::imageops::resize` makes of `src` at the given size with the given
/// filter.
pub uninterp spec fn resized(src: ImageView, width: u32, height: u32, filter: ResizeFilter) -> ImageView;

/// `image::imageops::resize`: resamples `src` to `width` by `height` with the given filter.
/// Claimed: the result has the requested size and is what the crate computes for these
/// arguments. The resampling itself is not stated.
#[verifier::external_body]
fn resize(src: &RgbaImage, width: u32, height: u32, filter: ResizeFilter) -> (out: RgbaImage)
    requires
        src.wf(),
        src@.width * height * 4 <= usize::MAX,
        width * height * 4 <= usize::MAX,
    ensures
        out.wf(),
        out@.width == width,
        out@.height == height,
        out@ == resized(src@, width, height, filter),
{
    let raw: Vec<u8> = src.pixels.iter().flat_map(|p| [p.r, p.g, p.b, p.a]).collect();
    let buf = image::RgbaImage::from_raw(src.width, src.height, raw).unwrap();
    let kind = match filter {
        ResizeFilter::Nearest => image::imageops::FilterType::Nearest,
        ResizeFilter::Triangle => image::imageops::FilterType::Triangle,
    };
    let out = image::imageops::resize(&buf, width, height, kind);
    let pixels = out.pixels().map(|p| Rgba { r: p.0[0], g: p.0[1], b: p.0[2], a: p.0[3] }).collect();
    RgbaImage { width, height, pixels }
}

/// `src` blown up by a whole factor along each axis: every source pixel becomes a block.
pub open spec fn replicated(src: ImageView, width: nat, height: nat) -> ImageView {
    image_from(width, height, |x: int, y: int| src.pixel(x / (width / src.width) as int, y / (height / src.height) as int))
}

/// What [`scale`] makes of an image: `None` at the same size; a smooth resample when either
/// side shrinks; pixel replication when both sides grow by whole factors; otherwise a
/// nearest-neighbour resample.
pub open spec fn scaled(src: ImageView, width: u32, height: u32) -> Option<ImageView> {
    if src.width == width && src.height == height {
        None
    } else if width < src.width || height < src.height {
        Some(resized(src, width, height, ResizeFilter::Triangle))
    } else if src.width == 0 || src.height == 0 || (width as nat) % src.width != 0 || (height as nat) % src.height != 0 {
        Some(resized(src, width, height, ResizeFilter::Nearest))
    } else {
        Some(replicated(src, width as nat, height as nat))
    }
}

/// The image at its own size when [`scaled`] leaves it as it is, else the scaled image.
pub open spec fn fitted(src: ImageView, width: u32, height: u32) -> ImageView {
    match scaled(src, width, height) {
        Some(img) => img,
        None => src,
    }
}

proof fn lemma_replicated_index(x: int, f: int, s: int)
    requires
        0 <= x < f * s,
        f > 0,
        s > 0,
    ensures
        0 <= x / f < s,
{
    vstd::arithmetic::div_mod::lemma_div_pos_is_pos(x, f);
    vstd::arithmetic::div_mod::lemma_div_is_ordered(x, f * s - 1, f);
    assert((f * s - 1) / f < s) by {
        assert((s - 1) * f + (f - 1) == f * s - 1) by (nonlinear_arith);
        vstd::arithmetic::div_mod::lemma_fundamental_div_mod_converse(f * s - 1, f, s - 1, f - 1);
    }
}

/// Resizes `src` to `width` by `height`. `None` when the size is already right. Shrinking
/// resamples smoothly; growing by whole factors repeats each pixel as a block; any other growth
/// resamples to the nearest pixel.
pub fn scale(src: &RgbaImage, width: u32, height: u32) -> (res: Option<RgbaImage>)
    requires
        src.wf(),
        src@.width * height * 4 <= usize::MAX,
        width * height * 4 <= usize::MAX,
    ensures
        match res {
            Some(img) => img.wf() && img@.width == width && img@.height == height && scaled(src@, width, height) == Some(img@),
            None => scaled(src@, width, height) is None,
        },
{
    let (sw, sh) = src.dimensions();
    if sw == width && sh == height {
        return None;
    }
    if width < sw || height < sh {
        return Some(resize(src, width, height, ResizeFilter::Triangle));
    }
    if sw == 0 || sh == 0 || width % sw != 0 || height % sh != 0 {
        return Some(resize(src, width, height, ResizeFilter::Nearest));
    }
    let fx = width / sw;
    let fy = height / sh;
    proof {
        vstd::arithmetic::div_mod::lemma_fundamental_div_mod(width as int, sw as int);
        vstd::arithmetic::div_mod::lemma_fundamental_div_mod(height as int, sh as int);
        assert(fx > 0 && fy > 0);
        assert(width == fx * sw) by (nonlinear_arith)
            requires
                width == sw * fx + 0,
        ;
        assert(height == fy * sh) by (nonlinear_arith)
            requires
                height == sh * fy + 0,
        ;
        assert(width * height <= width * height * 4) by (nonlinear_arith);
    }
    let f = |x: u32, y: u32| -> (p: Rgba)
        requires
            src.wf(),
            x < width,
            y < height,
            fx > 0,
            fy > 0,
            width == fx * src@.width,
            height == fy * src@.height,
            src@.width > 0,
            src@.height > 0,
        ensures
            p == src@.pixel((x / fx) as int, (y / fy) as int),
        {
            proof {
                lemma_replicated_index(x as int, fx as int, src@.width as int);
                lemma_replicated_index(y as int, fy as int, src@.height as int);
            }
            src.get_pixel(x / fx, y / fy)
        };
    let out = RgbaImage::from_fn(width, height, f);
    proof {
        let want = replicated(src@, width as nat, height as nat);
        assert forall|x: int, y: int| out@.contains(x, y) implies #[trigger] out@.pixel(x, y) == want.pixel(x, y) by {
            assert(call_ensures(f, (x as u32, y as u32), out@.pixel(x as u32 as int, y as u32 as int)));
            lemma_image_from_pixel(width as nat, height as nat, |x: int, y: int| src@.pixel(x / (width as nat / src@.width) as int, y / (height as nat / src@.height) as int), x, y);
        }
        lemma_image_from_pixel(width as nat, height as nat, |x: int, y: int| src@.pixel(x / (width as nat / src@.width) as int, y / (height as nat / src@.height) as int), 0, 0);
        if width > 0 && height > 0 {
            lemma_image_ext(out@, want);
        } else {
            assert(want.pixels.len() == 0) by (nonlinear_arith)
                requires want.pixels.len() == width * height, width == 0 || height == 0;
            assert(out@.pixels =~= want.pixels);
        }
    }
    Some(out)
}

/// What `image::load_from_memory` makes of encoded bytes, as RGBA with 8 bits per channel
/// (`DynamicImage::into_rgba8`): the image, or the error's text.
pub uninterp spec fn decoded(bytes: Seq<u8>) -> Result<ImageView, Seq<char>>;

/// Decodes an encoded image with `image::load_from_memory` and converts it to RGBA.
/// Claimed: the outcome is what the crate gives for these bytes, and a decoded image has as
/// many pixels as its size says. Which bytes decode to which pixels is named, not stated.
#[verifier::external_body]
pub(crate) fn decode_rgba(bytes: &[u8]) -> (r: Result<RgbaImage, String>)
    ensures
        match r {
            Ok(img) => img.wf() && decoded(bytes@) == Ok::<ImageView, Seq<char>>(img@),
            Err(e) => decoded(bytes@) == Err::<ImageView, Seq<char>>(e@),
        },
{
    match image::load_from_memory(bytes) {
        Ok(img) => {
            let rgba = img.into_rgba8();
            let (width, height) = rgba.dimensions();
            let pixels = rgba.pixels().map(|p| Rgba { r: p.0[0], g: p.0[1], b: p.0[2], a: p.0[3] }).collect();
            Ok(RgbaImage { width, height, pixels })
        },
        Err(e) => Err(e.to_string()),
    }
}

} // verus!
