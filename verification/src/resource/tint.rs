//! Tints: where an item's tint comes from, and the biome color maps.

use vstd::prelude::*;
use crate::diagnostics::{Diagnostics, DiagnosticsView, Severity, Site, SiteView, recorded};
use crate::text::{decimal, push_decimal, push_str};
use crate::util::image::{ImageView, Rgba, RgbaImage, decode_rgba, decoded};

verus! {

/// The width and height of a color map.
pub const COLOR_MAP_SIZE: usize = 256;

/// Where an item model's tint comes from. Grass tints keep the bits of their `f32`
/// temperature and downfall.
#[derive(Copy, Clone, Debug)]
pub enum TintSource {
    Constant(u32),
    Dye { default: u32 },
    Grass { temperature: u32, downfall: u32 },
    Firework { default: u32 },
    Potion { default: u32 },
    MapColor { default: u32 },
    Team { default: u32 },
    RedstonePower,
    StemAge,
    Untinted,
}


/// A pixel packed as `0xAARRGGBB`.
pub open spec fn argb(p: Rgba) -> u32 {
    ((p.a as u32) * 0x100_0000 + (p.r as u32) * 0x1_0000 + (p.g as u32) * 0x100 + (p.b as u32)) as u32
}

/// What a color map's file gives: its pixels packed as `0xAARRGGBB`, or why it cannot be used.
pub open spec fn color_map_pixels(bytes: Option<Seq<u8>>) -> Result<Seq<u32>, Seq<char>> {
    match bytes {
        None => Err("No known pack provided the color map"@),
        Some(b) => match decoded(b) {
            Err(e) => Err(e),
            Ok(img) => color_map_of(img),
        },
    }
}

/// What a decoded image gives as a color map: its pixels packed as `0xAARRGGBB` when it is
/// 256 by 256, else why it cannot be used.
pub open spec fn color_map_of(img: ImageView) -> Result<Seq<u32>, Seq<char>> {
    if img.width != 256 || img.height != 256 {
        Err("Expected a 256x256 color map but it was "@ + decimal(img.width as int) + "x"@ + decimal(img.height as int))
    } else {
        Ok(img.pixels.map_values(|p: Rgba| argb(p)))
    }
}

fn pack(p: Rgba) -> (c: u32)
    ensures
        c == argb(p),
{
    (p.a as u32) * 0x100_0000 + (p.r as u32) * 0x1_0000 + (p.g as u32) * 0x100 + (p.b as u32)
}

/// The pixels of a color map file (see [`color_map_pixels`]).
pub fn fill(bytes: Option<&[u8]>) -> (r: Result<Vec<u32>, String>)
    ensures
        match r {
            Ok(p) => color_map_pixels(match bytes { Some(b) => Some(b@), None => None }) == Ok::<Seq<u32>, Seq<char>>(p@),
            Err(e) => color_map_pixels(match bytes { Some(b) => Some(b@), None => None }) == Err::<Seq<u32>, Seq<char>>(e@),
        },
{
    let bytes = match bytes {
        Some(b) => b,
        None => {
            return Err("No known pack provided the color map".to_owned());
        },
    };
    let image = match decode_rgba(bytes) {
        Ok(img) => img,
        Err(e) => {
            return Err(e);
        },
    };
    color_map_from(&image)
}

/// The pixels of a decoded color map (see [`color_map_of`]).
pub fn color_map_from(image: &RgbaImage) -> (r: Result<Vec<u32>, String>)
    requires
        image.wf(),
    ensures
        match r {
            Ok(p) => color_map_of(image@) == Ok::<Seq<u32>, Seq<char>>(p@),
            Err(e) => color_map_of(image@) == Err::<Seq<u32>, Seq<char>>(e@),
        },
{
    let (w, h) = image.dimensions();
    if w != 256 || h != 256 {
        let mut message = "Expected a 256x256 color map but it was ".to_owned();
        push_decimal(&mut message, w as i64);
        push_str(&mut message, "x");
        push_decimal(&mut message, h as i64);
        return Err(message);
    }
    let pixels = image.pixels();
    let mut out: Vec<u32> = Vec::new();
    let mut i: usize = 0;
    while i < pixels.len()
        invariant
            i <= pixels@.len(),
            pixels@ == image@.pixels,
            out@ == image@.pixels.take(i as int).map_values(|p: Rgba| argb(p)),
        decreases pixels.len() - i,
    {
        out.push(pack(pixels[i]));
        proof {
            assert(image@.pixels.take(i as int + 1).map_values(|p: Rgba| argb(p)) =~= image@.pixels.take(i as int).map_values(
                |p: Rgba| argb(p),
            ).push(argb(image@.pixels[i as int])));
        }
        i = i + 1;
    }
    proof {
        assert(image@.pixels.take(i as int) =~= image@.pixels);
    }
    Ok(out)
}

/// A biome color map: 256 by 256 colors, or one default color where the map could not be
/// loaded.
pub struct ColorMap {
    pub pixels: Vec<u32>,
    pub default: u32,
}

impl ColorMap {
    /// The color at a position of the map, or the default past its end.
    pub fn pixel_at(&self, idx: usize) -> (c: u32)
        ensures
            c == if idx < self.pixels@.len() { self.pixels@[idx as int] } else { self.default },
    {
        if idx < self.pixels.len() {
            self.pixels[idx]
        } else {
            self.default
        }
    }
}

/// The color maps, each with the path of its texture and its default color.
pub fn color_map_sources() -> (s: [(&'static str, u32); 3])
    ensures
        s@ == seq![("colormap/grass", 0xFFFF00FFu32), ("colormap/foliage", 0xFF48B518u32), ("colormap/dry_foliage", 0xFF5C3C32u32)],
{
    [("colormap/grass", 0xFFFF00FF), ("colormap/foliage", 0xFF48B518), ("colormap/dry_foliage", 0xFF5C3C32)]
}

/// Where loading a color map reports a failure.
pub open spec fn color_map_site() -> SiteView {
    ("resource/tint.rs"@, 96u32, 22u32)
}

/// The report for a color map that cannot be used.
pub open spec fn color_map_error(e: Seq<char>) -> Seq<char> {
    "Failed to load color map image: "@ + e + " (using default color)"@
}

/// The map a color map file gives, and what loading it records: the file's colors, or the
/// default color everywhere and an error under the map's path.
pub open spec fn loaded_map(d: DiagnosticsView, path: Seq<char>, default: u32, bytes: Option<Seq<u8>>) -> (Seq<u32>, DiagnosticsView) {
    match color_map_pixels(bytes) {
        Ok(p) => (p, d),
        Err(e) => (Seq::new(65536, |i: int| default), recorded(d, Severity::Error, color_map_site(), path, Seq::empty(), color_map_error(e))),
    }
}

impl ColorMap {
    /// Loads a color map from its file (see [`loaded_map`]).
    pub fn load(path: &str, default: u32, bytes: Option<&[u8]>, diag: &mut Diagnostics) -> (m: ColorMap)
        requires
            old(diag).wf(),
        ensures
            final(diag).wf(),
            m.default == default,
            (m.pixels@, final(diag)@) == loaded_map(old(diag)@, path@, default, match bytes { Some(b) => Some(b@), None => None }),
    {
        match fill(bytes) {
            Ok(pixels) => ColorMap { pixels, default },
            Err(e) => {
                let mut message = "Failed to load color map image: ".to_owned();
                push_str(&mut message, e.as_str());
                push_str(&mut message, " (using default color)");
                let site = Site::at("resource/tint.rs", 96, 22);
                diag.error(&site, path, message);
                let mut pixels: Vec<u32> = Vec::new();
                let mut i: usize = 0;
                while i < 65536
                    invariant
                        i <= 65536,
                        pixels@ == Seq::new(i as nat, |j: int| default),
                    decreases 65536 - i,
                {
                    pixels.push(default);
                    proof {
                        assert(pixels@ =~= Seq::new(i as nat + 1, |j: int| default));
                    }
                    i = i + 1;
                }
                ColorMap { pixels, default }
            },
        }
    }
}

/// The three biome color maps.
pub struct ColorMaps {
    pub grass: ColorMap,
    pub foliage: ColorMap,
    pub dry_foliage: ColorMap,
}

impl ColorMaps {
    /// Loads the grass, foliage and dry foliage maps from their files, in that order (see
    /// [`color_map_sources`] and [`loaded_map`]).
    pub fn from_files(files: &Vec<Option<Vec<u8>>>, diag: &mut Diagnostics) -> (maps: ColorMaps)
        requires
            files@.len() == 3,
            old(diag).wf(),
        ensures
            final(diag).wf(),
            ({
                let f = |i: int| match files@[i] { Some(b) => Some(b@), None => None::<Seq<u8>> };
                let g = loaded_map(old(diag)@, "colormap/grass"@, 0xFFFF00FFu32, f(0));
                let fo = loaded_map(g.1, "colormap/foliage"@, 0xFF48B518u32, f(1));
                let d = loaded_map(fo.1, "colormap/dry_foliage"@, 0xFF5C3C32u32, f(2));
                &&& maps.grass.pixels@ == g.0 && maps.grass.default == 0xFFFF00FFu32
                &&& maps.foliage.pixels@ == fo.0 && maps.foliage.default == 0xFF48B518u32
                &&& maps.dry_foliage.pixels@ == d.0 && maps.dry_foliage.default == 0xFF5C3C32u32
                &&& final(diag)@ == d.1
            }),
    {
        let sources = color_map_sources();
        let grass = ColorMap::load(sources[0].0, sources[0].1, match &files[0] { Some(b) => Some(b.as_slice()), None => None }, diag);
        let foliage = ColorMap::load(sources[1].0, sources[1].1, match &files[1] { Some(b) => Some(b.as_slice()), None => None }, diag);
        let dry_foliage = ColorMap::load(sources[2].0, sources[2].1, match &files[2] { Some(b) => Some(b.as_slice()), None => None }, diag);
        ColorMaps { grass, foliage, dry_foliage }
    }
}

} // verus!
