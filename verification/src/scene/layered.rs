//! Flat item rendering: tinted sprite layers scaled to a common size and stacked with
//! "source over" blending.

use vstd::prelude::*;
use std::sync::Arc;
use crate::util::image::{
    Rgba, RgbaImage, ImageView, fitted, image_from, lemma_image_ext, lemma_image_from_pixel, scale,
};

verus! {

/// One layer of a flat item: a sprite and the ARGB tint it is multiplied by.
pub struct Layer {
    pub sprite: Arc<RgbaImage>,
    /// `u32::MAX` means no tint.
    pub tint: u32,
}

/// The alpha, red, green and blue bytes of an ARGB colour.
pub open spec fn argb_a(c: u32) -> int {
    c as int / 16777216
}

pub open spec fn argb_r(c: u32) -> int {
    (c as int / 65536) % 256
}

pub open spec fn argb_g(c: u32) -> int {
    (c as int / 256) % 256
}

pub open spec fn argb_b(c: u32) -> int {
    c as int % 256
}

/// A channel scaled by a tint byte: `ch * t / 255`.
pub open spec fn scale_channel(ch: int, t: int) -> u8 {
    (ch * t / 255) as u8
}

/// A pixel multiplied channel by channel by an ARGB tint; `u32::MAX` leaves it as it is.
pub open spec fn tinted(p: Rgba, tint: u32) -> Rgba {
    if tint == 0xFFFF_FFFF {
        p
    } else {
        Rgba {
            r: scale_channel(p.r as int, argb_r(tint)),
            g: scale_channel(p.g as int, argb_g(tint)),
            b: scale_channel(p.b as int, argb_b(tint)),
            a: scale_channel(p.a as int, argb_a(tint)),
        }
    }
}

/// `src` drawn over `dst` with straight (not premultiplied) alpha: an opaque source replaces
/// the destination, a clear one leaves it; otherwise the destination shows through in
/// proportion to what the source lets through, and the colours mix by their weights.
pub open spec fn over_pixel(src: Rgba, dst: Rgba) -> Rgba {
    let sa = src.a as int;
    if sa == 255 {
        src
    } else if sa == 0 {
        dst
    } else {
        let bg = dst.a as int * (255 - sa) / 255;
        let alpha = sa + bg;
        if alpha == 0 {
            Rgba { r: 0, g: 0, b: 0, a: 0 }
        } else {
            Rgba {
                r: ((src.r as int * sa + dst.r as int * bg) / alpha) as u8,
                g: ((src.g as int * sa + dst.g as int * bg) / alpha) as u8,
                b: ((src.b as int * sa + dst.b as int * bg) / alpha) as u8,
                a: alpha as u8,
            }
        }
    }
}

/// The bytes of an ARGB colour, alpha first (`u32::to_be_bytes`).
fn argb_bytes(c: u32) -> (bytes: (u8, u8, u8, u8))
    ensures
        bytes.0 == argb_a(c),
        bytes.1 == argb_r(c),
        bytes.2 == argb_g(c),
        bytes.3 == argb_b(c),
{
    assert((c >> 24) as int == c as int / 16777216) by (bit_vector);
    assert(((c >> 16) & 0xFF) as int == (c as int / 65536) % 256) by (bit_vector);
    assert(((c >> 8) & 0xFF) as int == (c as int / 256) % 256) by (bit_vector);
    assert((c & 0xFF) as int == c as int % 256) by (bit_vector);
    ((c >> 24) as u8, ((c >> 16) & 0xFF) as u8, ((c >> 8) & 0xFF) as u8, (c & 0xFF) as u8)
}

fn mul_channel(ch: u8, t: u8) -> (out: u8)
    ensures
        out == scale_channel(ch as int, t as int),
{
    assert(ch as u16 * t as u16 <= 65025) by (nonlinear_arith)
        requires
            ch <= 255,
            t <= 255,
    ;
    assert((ch as int * t as int) / 255 <= 255) by (nonlinear_arith)
        requires
            ch <= 255,
            t <= 255,
    ;
    ((ch as u16 * t as u16) / 255) as u8
}

/// A pixel multiplied by an ARGB tint (see [`tinted`]).
pub fn multiply_texel(texel: Rgba, tint: u32) -> (out: Rgba)
    ensures
        out == tinted(texel, tint),
{
    if tint == 0xFFFF_FFFF {
        return texel;
    }
    let (ta, tr, tg, tb) = argb_bytes(tint);
    Rgba {
        r: mul_channel(texel.r, tr),
        g: mul_channel(texel.g, tg),
        b: mul_channel(texel.b, tb),
        a: mul_channel(texel.a, ta),
    }
}

/// Multiplies every pixel of an image by an ARGB tint in place.
pub fn multiply(img: &mut RgbaImage, tint: u32)
    requires
        old(img).wf(),
    ensures
        final(img).wf(),
        final(img)@.width == old(img)@.width,
        final(img)@.height == old(img)@.height,
        forall|x: int, y: int|
            old(img)@.contains(x, y) ==> #[trigger] final(img)@.pixel(x, y) == tinted(old(img)@.pixel(x, y), tint),
{
    if tint == 0xFFFF_FFFF {
        return;
    }
    let (w, h) = img.dimensions();
    let src: &RgbaImage = img;
    let f = |x: u32, y: u32| -> (p: Rgba)
        requires
            src.wf(),
            x < w,
            y < h,
            w == src@.width,
            h == src@.height,
        ensures
            p == tinted(src@.pixel(x as int, y as int), tint),
        { multiply_texel(src.get_pixel(x, y), tint) };
    let out = RgbaImage::from_fn(w, h, f);
    proof {
        assert forall|x: int, y: int| src@.contains(x, y) implies #[trigger] out@.pixel(x, y) == tinted(src@.pixel(x, y), tint) by {
            assert(call_ensures(f, (x as u32, y as u32), out@.pixel(x as u32 as int, y as u32 as int)));
        }
    }
    *img = out;
}

/// `src` drawn over `dst` (see [`over_pixel`]).
pub fn overlay(src: Rgba, dst: Rgba) -> (out: Rgba)
    ensures
        out == over_pixel(src, dst),
{
    let src_alpha = src.a as u32;
    if src_alpha == 255 {
        return src;
    }
    if src_alpha == 0 {
        return dst;
    }
    assert(dst.a as u32 * (255 - src_alpha) <= 65025) by (nonlinear_arith)
        requires
            dst.a <= 255,
            src_alpha <= 255,
    ;
    let bg_alpha = dst.a as u32 * (255 - src_alpha) / 255;
    assert(bg_alpha <= 255 - src_alpha) by (nonlinear_arith)
        requires
            bg_alpha == dst.a as u32 * (255 - src_alpha) / 255,
            dst.a <= 255,
            src_alpha <= 255,
    ;
    let alpha = src_alpha + bg_alpha;
    if alpha == 0 {
        return Rgba { r: 0, g: 0, b: 0, a: 0 };
    }
    Rgba {
        r: blend_channel(src.r, dst.r, src_alpha, bg_alpha, alpha),
        g: blend_channel(src.g, dst.g, src_alpha, bg_alpha, alpha),
        b: blend_channel(src.b, dst.b, src_alpha, bg_alpha, alpha),
        a: alpha as u8,
    }
}

fn blend_channel(s: u8, d: u8, sa: u32, bg: u32, alpha: u32) -> (out: u8)
    requires
        sa <= 255,
        bg <= 255,
        alpha == sa + bg,
        alpha > 0,
    ensures
        out == ((s as int * sa as int + d as int * bg as int) / alpha as int) as u8,
{
    assert(s as u32 * sa + d as u32 * bg <= 255 * alpha) by (nonlinear_arith)
        requires
            s <= 255,
            d <= 255,
            alpha == sa + bg,
    ;
    ((s as u32 * sa + d as u32 * bg) / alpha) as u8
}

/// The largest width and the largest height among the layers.
pub open spec fn max_size(layers: Seq<(ImageView, u32)>) -> (nat, nat)
    decreases layers.len(),
{
    if layers.len() == 0 {
        (0, 0)
    } else {
        let (w, h) = max_size(layers.drop_last());
        let last = layers.last().0;
        (if last.width > w { last.width } else { w }, if last.height > h { last.height } else { h })
    }
}

/// The first `n` layers stacked at `width` by `height`: each layer fitted to that size and
/// tinted, then drawn over the layers before it.
pub open spec fn stacked(layers: Seq<(ImageView, u32)>, n: int, width: u32, height: u32) -> ImageView
    decreases n,
{
    if n <= 1 {
        image_from(
            width as nat,
            height as nat,
            |x: int, y: int| tinted(fitted(layers[0].0, width, height).pixel(x, y), layers[0].1),
        )
    } else {
        let below = stacked(layers, n - 1, width, height);
        image_from(
            width as nat,
            height as nat,
            |x: int, y: int| over_pixel(tinted(fitted(layers[n - 1].0, width, height).pixel(x, y), layers[n - 1].1), below.pixel(x, y)),
        )
    }
}

/// The layers with their images and tints.
pub open spec fn layer_views(layers: Seq<Layer>) -> Seq<(ImageView, u32)> {
    layers.map_values(|l: Layer| (l.sprite@, l.tint))
}


proof fn lemma_max_size(layers: Seq<(ImageView, u32)>, i: int)
    requires
        0 <= i < layers.len(),
    ensures
        layers[i].0.width <= max_size(layers).0,
        layers[i].0.height <= max_size(layers).1,
    decreases layers.len(),
{
    if i < layers.len() - 1 {
        lemma_max_size(layers.drop_last(), i);
    }
}

proof fn lemma_budget(a: int, b: int, c: int, d: int)
    requires
        0 <= a <= c,
        0 <= b <= d,
    ensures
        a * b * 4 <= c * d * 4,
{
    assert(a * b <= c * d) by (nonlinear_arith)
        requires
            0 <= a <= c,
            0 <= b <= d,
    ;
}

/// `src` fitted to `width` by `height`: scaled, or copied when it already has that size.
fn fit(src: &RgbaImage, width: u32, height: u32) -> (out: RgbaImage)
    requires
        src.wf(),
        src@.width * height * 4 <= usize::MAX,
        width * height * 4 <= usize::MAX,
    ensures
        out.wf(),
        out@ == fitted(src@, width, height),
        out@.width == width,
        out@.height == height,
{
    match scale(src, width, height) {
        Some(img) => img,
        None => src.copy(),
    }
}

/// The layers stacked at the size of the largest, each fitted to that size and tinted, then
/// scaled to `size` by `size`. `None` when there are no layers.
pub fn composite(layers: &[Layer], size: u32) -> (res: Option<RgbaImage>)
    requires
        forall|i: int| 0 <= i < layers@.len() ==> (#[trigger] layers@[i]).sprite.wf(),
        max_size(layer_views(layers@)).0 * max_size(layer_views(layers@)).1 * 4 <= usize::MAX,
        max_size(layer_views(layers@)).0 * size * 4 <= usize::MAX,
        size * size * 4 <= usize::MAX,
    ensures
        layers@.len() == 0 ==> res is None,
        layers@.len() > 0 ==> (res matches Some(img) && img.wf() && img@.width == size && img@.height == size && img@ == fitted(
            stacked(
                layer_views(layers@),
                layers@.len() as int,
                max_size(layer_views(layers@)).0 as u32,
                max_size(layer_views(layers@)).1 as u32,
            ),
            size,
            size,
        )),
{
    if layers.len() == 0 {
        return None;
    }
    let ghost views = layer_views(layers@);
    let mut width: u32 = 0;
    let mut height: u32 = 0;
    let mut i: usize = 0;
    while i < layers.len()
        invariant
            i <= layers@.len(),
            views == layer_views(layers@),
            forall|j: int| 0 <= j < layers@.len() ==> (#[trigger] layers@[j]).sprite.wf(),
            (width as nat, height as nat) == max_size(views.take(i as int)),
        decreases layers.len() - i,
    {
        let (lw, lh) = layers[i].sprite.dimensions();
        proof {
            assert(views.take(i as int + 1).drop_last() =~= views.take(i as int));
        }
        if lw > width {
            width = lw;
        }
        if lh > height {
            height = lh;
        }
        i = i + 1;
    }
    proof {
        assert(views.take(layers@.len() as int) =~= views);
        assert forall|j: int| 0 <= j < layers@.len() implies
            (#[trigger] layers@[j]).sprite@.width * height * 4 <= usize::MAX by {
            lemma_max_size(views, j);
            lemma_budget(layers@[j].sprite@.width as int, height as int, width as int, height as int);
        }
    }
    let first = &layers[0];
    let mut out = fit(&first.sprite, width, height);
    multiply(&mut out, first.tint);
    proof {
        let want = stacked(views, 1, width, height);
        assert forall|x: int, y: int| out@.contains(x, y) implies #[trigger] out@.pixel(x, y) == want.pixel(x, y) by {
            lemma_image_from_pixel(width as nat, height as nat, |x: int, y: int| tinted(fitted(views[0].0, width, height).pixel(x, y), views[0].1), x, y);
        }
        if width > 0 && height > 0 {
            lemma_image_ext(out@, want);
        } else {
            assert(want.pixels.len() == 0) by (nonlinear_arith)
                requires want.pixels.len() == width * height, width == 0 || height == 0;
            assert(out@.pixels =~= want.pixels);
        }
    }
    let mut k: usize = 1;
    while k < layers.len()
        invariant
            1 <= k <= layers@.len(),
            views == layer_views(layers@),
            forall|j: int| 0 <= j < layers@.len() ==> (#[trigger] layers@[j]).sprite.wf(),
            forall|j: int| 0 <= j < layers@.len() ==> (#[trigger] layers@[j]).sprite@.width * height * 4 <= usize::MAX,
            width * height * 4 <= usize::MAX,
            out.wf(),
            out@ == stacked(views, k as int, width, height),
            out@.width == width,
            out@.height == height,
        decreases layers.len() - k,
    {
        let layer = &layers[k];
        let tint = layer.tint;
        let top = fit(&layer.sprite, width, height);
        let below = &out;
        proof {
            assert(width * height <= width * height * 4) by (nonlinear_arith);
        }
        let f = |x: u32, y: u32| -> (p: Rgba)
            requires
                top.wf(),
                below.wf(),
                x < width,
                y < height,
                top@.width == width,
                top@.height == height,
                below@.width == width,
                below@.height == height,
            ensures
                p == over_pixel(tinted(top@.pixel(x as int, y as int), tint), below@.pixel(x as int, y as int)),
            { overlay(multiply_texel(top.get_pixel(x, y), tint), below.get_pixel(x, y)) };
        let next = RgbaImage::from_fn(width, height, f);
        proof {
            let want = stacked(views, k as int + 1, width, height);
            let g = |x: int, y: int| over_pixel(tinted(fitted(views[k as int].0, width, height).pixel(x, y), views[k as int].1), stacked(views, k as int, width, height).pixel(x, y));
            assert(want == image_from(width as nat, height as nat, g));
            assert forall|x: int, y: int| next@.contains(x, y) implies #[trigger] next@.pixel(x, y) == want.pixel(x, y) by {
                assert(call_ensures(f, (x as u32, y as u32), next@.pixel(x as u32 as int, y as u32 as int)));
                lemma_image_from_pixel(width as nat, height as nat, g, x, y);
            }
            if width > 0 && height > 0 {
                lemma_image_ext(next@, want);
            } else {
                assert(want.pixels.len() == 0) by (nonlinear_arith)
                    requires want.pixels.len() == width * height, width == 0 || height == 0;
                assert(next@.pixels =~= want.pixels);
            }
        }
        out = next;
        k = k + 1;
    }
    Some(fit(&out, size, size))
}

} // verus!
