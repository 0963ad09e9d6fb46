//! The decisions of texture loading: decoding, what stands in for a texture that cannot be
//! loaded, and which frame of a texture is used.

use vstd::prelude::*;
use std::sync::Arc;
use crate::diagnostics::{Diagnostics, DiagnosticsView, Severity, Site, SiteView, recorded};
use crate::direction::Quadrant;
use crate::resource::id::{IdMap, ResourceId};
use crate::resource::model::cache::{IdKey, pending, pending_batch};
use crate::resource::texture::atlas::{SpriteIndex, SpriteRecipe};
use crate::resource::texture::mcmeta::{AnimationSection, frame_rect, frame_rect_fits, frame_rect_of};
use crate::resource::texture::palette::{Palette, PaletteMapping, PaletteSizeMismatch, capacity_from, palette_map, remapped};
use crate::resource::texture::sprite::{is_checkerboard, missing_texture};
use crate::text::{digits, push_str};
use crate::util::image::{ImageView, Rgba, RgbaImage, clamped_rect, crop, decode_rgba, decoded};

verus! {

/// What a rendered texture is keyed by: its id, its rotation, and the bits of its UV corners
/// (from x, from y, to x, to y).
#[derive(Clone, Debug, PartialEq, Eq, Hash)]
pub struct TextureOptions {
    pub id: ResourceId,
    pub rotation: Quadrant,
    pub uv_bits: [u32; 4],
}

impl TextureOptions {
    /// The key of a texture drawn with a rotation and a UV window.
    pub fn new(id: ResourceId, rotation: Quadrant, uv_bits: [u32; 4]) -> (o: TextureOptions)
        ensures
            o.id == id,
            o.rotation == rotation,
            o.uv_bits == uv_bits,
    {
        TextureOptions { id, rotation, uv_bits }
    }
}

/// Why a texture could not be made.
#[derive(Clone, Debug)]
pub enum TextureError {
    NotFound(ResourceId),
    Decode(ResourceId, String),
    Empty(ResourceId),
    Palette(ResourceId, PaletteSizeMismatch),
    InvalidRegion { sprite: ResourceId, base: ResourceId },
    InvalidFrameSize(ResourceId),
}

/// The error as a sentence.
pub open spec fn texture_error_text(e: TextureError) -> Seq<char> {
    match e {
        TextureError::NotFound(id) => "No known pack provides texture "@ + id.text(),
        TextureError::Decode(id, m) => "Failed to decode texture "@ + id.text() + ": "@ + m@,
        TextureError::Empty(id) => "Texture "@ + id.text() + " has a zero dimension"@,
        TextureError::Palette(id, m) => "Cannot build a palette mapping for "@ + id.text() + ": "@
            + "Palette size mismatch: base has "@ + digits(m.base as nat) + " entries, target has "@ + digits(m.target as nat),
        TextureError::InvalidRegion { sprite, base } => "Unstitch region for "@ + sprite.text() + " does not fit inside "@
            + base.text(),
        TextureError::InvalidFrameSize(id) => "Animation frame size does not evenly divide texture "@ + id.text(),
    }
}

impl TextureError {
    /// The error as a sentence (see [`texture_error_text`]).
    pub fn to_string(&self) -> (out: String)
        ensures
            out@ == texture_error_text(*self),
    {
        match self {
            TextureError::NotFound(id) => {
                let mut out = "No known pack provides texture ".to_owned();
                push_str(&mut out, id.to_string().as_str());
                out
            },
            TextureError::Decode(id, m) => {
                let mut out = "Failed to decode texture ".to_owned();
                push_str(&mut out, id.to_string().as_str());
                push_str(&mut out, ": ");
                push_str(&mut out, m.as_str());
                out
            },
            TextureError::Empty(id) => {
                let mut out = "Texture ".to_owned();
                push_str(&mut out, id.to_string().as_str());
                push_str(&mut out, " has a zero dimension");
                out
            },
            TextureError::Palette(id, m) => {
                let mut out = "Cannot build a palette mapping for ".to_owned();
                push_str(&mut out, id.to_string().as_str());
                push_str(&mut out, ": ");
                push_str(&mut out, m.to_string().as_str());
                out
            },
            TextureError::InvalidRegion { sprite, base } => {
                let mut out = "Unstitch region for ".to_owned();
                push_str(&mut out, sprite.to_string().as_str());
                push_str(&mut out, " does not fit inside ");
                push_str(&mut out, base.to_string().as_str());
                out
            },
            TextureError::InvalidFrameSize(id) => {
                let mut out = "Animation frame size does not evenly divide texture ".to_owned();
                push_str(&mut out, id.to_string().as_str());
                out
            },
        }
    }
}

/// Decodes a texture's file: no file is an error naming the texture, and so is a file that
/// does not decode, with the decoder's message.
pub fn decode_image(id: &ResourceId, bytes: Option<&[u8]>) -> (r: Result<Arc<RgbaImage>, TextureError>)
    ensures
        match r {
            Ok(img) => img.wf() && decoded(bytes->0@) == Ok::<ImageView, Seq<char>>(img@) && bytes is Some,
            Err(e) => match bytes {
                None => e matches TextureError::NotFound(i) && i == *id,
                Some(b) => decoded(b@) matches Err(m) && (e matches TextureError::Decode(i, s) && i == *id && s@ == m),
            },
        },
{
    let bytes = match bytes {
        Some(b) => b,
        None => {
            return Err(TextureError::NotFound(id.duplicate()));
        },
    };
    match decode_rgba(bytes) {
        Ok(img) => Ok(Arc::new(img)),
        Err(e) => Err(TextureError::Decode(id.duplicate(), e)),
    }
}

/// Where a substituted texture is reported.
pub open spec fn substitute_site() -> SiteView {
    ("resource/texture/cache.rs"@, 374u32, 22u32)
}

/// Whether an error names `minecraft:missingno`, the texture that is the checkerboard.
pub open spec fn names_missingno(e: TextureError) -> bool {
    e matches TextureError::NotFound(id) && id.namespace@ == "minecraft"@ && id.path@ == "missingno"@
}

/// Whether an error is replaced by the checkerboard when substitution is on.
pub open spec fn substitutable(e: TextureError) -> bool {
    e is NotFound || e is InvalidRegion
}

/// What finishing a texture result records.
pub open spec fn finish_reports(d: DiagnosticsView, id: ResourceId, result: Result<Arc<RgbaImage>, TextureError>, substitute: bool) -> DiagnosticsView {
    match result {
        Err(e) => if !names_missingno(e) && substitute && substitutable(e) {
            recorded(d, Severity::Error, substitute_site(), id.text(), Seq::empty(), texture_error_text(e) + ". Substituting"@)
        } else {
            d
        },
        Ok(_) => d,
    }
}

/// The texture used for a result: `minecraft:missingno` not found is the checkerboard; a
/// texture not found or a region that does not fit is the checkerboard, reported as an
/// error, when substitution is on; anything else is kept.
pub fn finish(diag: &mut Diagnostics, id: &ResourceId, result: Result<Arc<RgbaImage>, TextureError>, substitute_missing: bool) -> (r: Result<Arc<RgbaImage>, TextureError>)
    requires
        old(diag).wf(),
    ensures
        final(diag).wf(),
        final(diag)@ == finish_reports(old(diag)@, *id, result, substitute_missing),
        match result {
            Err(e) => if names_missingno(e) || (substitute_missing && substitutable(e)) {
                r matches Ok(img) && is_checkerboard(*img)
            } else {
                r == result
            },
            Ok(_) => r == result,
        },
{
    match result {
        Err(e) => {
            let is_missingno = match &e {
                TextureError::NotFound(nid) => nid.namespace == "minecraft".to_owned() && nid.path == "missingno".to_owned(),
                _ => false,
            };
            if is_missingno {
                return Ok(missing_texture());
            }
            let replace = match &e {
                TextureError::NotFound(_) => substitute_missing,
                TextureError::InvalidRegion { .. } => substitute_missing,
                _ => false,
            };
            if replace {
                let mut message = e.to_string();
                push_str(&mut message, ". Substituting");
                let subject = id.to_string();
                let site = Site::at("resource/texture/cache.rs", 374, 22);
                diag.error(&site, subject.as_str(), message);
                Ok(missing_texture())
            } else {
                Err(e)
            }
        },
        Ok(img) => Ok(img),
    }
}

/// Whether the first frame's rectangle of an image fits the `u32` range (see
/// [`frame_rect_fits`]).
pub fn frame_in_range(anim: &Option<AnimationSection>, w: u32, h: u32) -> (b: bool)
    requires
        w > 0,
        h > 0,
        anim matches Some(a) ==> a.wf(),
    ensures
        b == frame_rect_fits(*anim, w, h),
{
    let a = match anim {
        None => {
            return true;
        },
        Some(a) => a,
    };
    let (fw, fh): (u32, u32) = match (a.width, a.height) {
        (Some(fw), Some(fh)) => (fw, fh),
        (Some(fw), None) => (fw, h),
        (None, Some(fh)) => (w, fh),
        (None, None) => {
            let square = if w <= h { w } else { h };
            (square, square)
        },
    };
    if w % fw != 0 || h % fh != 0 {
        return true;
    }
    let first: u32 = match &a.frames {
        Some(f) => if f.len() > 0 {
            f[0].index()
        } else {
            0
        },
        None => 0,
    };
    let per_row = w / fw;
    assert(per_row > 0) by (nonlinear_arith)
        requires
            w % fw == 0,
            fw > 0,
            w > 0,
            per_row == w / fw,
    ;
    let row = first / per_row;
    let r64 = row as u64;
    let f64v = fh as u64;
    assert(r64 * f64v <= 0xffff_ffffu64 * 0xffff_ffffu64) by (nonlinear_arith)
        requires
            r64 <= 0xffff_ffffu64,
            f64v <= 0xffff_ffffu64,
    ;
    r64 * f64v <= 0xffff_ffffu64
}

/// The rectangle of the frame a texture shows: an empty image is an error, and so is a frame
/// size that does not divide the image (see [`frame_rect_of`]).
pub fn frame_of(source: &RgbaImage, id: &ResourceId, anim: &Option<AnimationSection>) -> (r: Result<(u32, u32, u32, u32), TextureError>)
    requires
        source.wf(),
        anim matches Some(a) ==> a.wf(),
        source@.width > 0 && source@.height > 0 ==> frame_rect_fits(*anim, source@.width as u32, source@.height as u32),
    ensures
        match r {
            Ok((x, y, w, h)) => source@.width > 0 && source@.height > 0 && frame_rect_of(*anim, source@.width as u32, source@.height as u32)
                == Some((x as int, y as int, w as int, h as int)),
            Err(e) => if source@.width == 0 || source@.height == 0 {
                e matches TextureError::Empty(i) && i == *id
            } else {
                frame_rect_of(*anim, source@.width as u32, source@.height as u32) is None && (e matches TextureError::InvalidFrameSize(i) && i == *id)
            },
        },
{
    let w = source.width();
    let h = source.height();
    if w == 0 || h == 0 {
        return Err(TextureError::Empty(id.duplicate()));
    }
    match frame_rect(anim, w, h) {
        Some(rect) => Ok(rect),
        None => Err(TextureError::InvalidFrameSize(id.duplicate())),
    }
}


impl TextureError {
    /// A copy of the error.
    pub fn duplicate(&self) -> (e: TextureError)
        ensures
            e == *self,
    {
        match self {
            TextureError::NotFound(id) => TextureError::NotFound(id.duplicate()),
            TextureError::Decode(id, m) => TextureError::Decode(id.duplicate(), m.clone()),
            TextureError::Empty(id) => TextureError::Empty(id.duplicate()),
            TextureError::Palette(id, m) => TextureError::Palette(id.duplicate(), PaletteSizeMismatch { base: m.base, target: m.target }),
            TextureError::InvalidRegion { sprite, base } => TextureError::InvalidRegion { sprite: sprite.duplicate(), base: base.duplicate() },
            TextureError::InvalidFrameSize(id) => TextureError::InvalidFrameSize(id.duplicate()),
        }
    }
}

/// The sprites of a request that still have to be made, each with its recipe (none for a
/// plain texture), skipping those already loaded.
pub open spec fn planned(ids: Seq<ResourceId>, loaded: Set<IdKey>, sprites: Map<IdKey, SpriteRecipe>) -> Seq<(IdKey, Option<SpriteRecipe>)>
    decreases ids.len(),
{
    if ids.len() == 0 {
        Seq::empty()
    } else {
        let before = planned(ids.drop_last(), loaded, sprites);
        let id = ids.last().pair();
        if loaded.contains(id) {
            before
        } else {
            before.push((id, if sprites.contains_key(id) { Some(sprites[id]) } else { None }))
        }
    }
}

/// The metadata files a sprite needs: a plain texture's own, or its file's.
pub open spec fn meta_needs(id: IdKey, recipe: Option<SpriteRecipe>) -> Seq<IdKey> {
    match recipe {
        None => seq![id],
        Some(SpriteRecipe::File(src)) => seq![src.pair()],
        _ => Seq::empty(),
    }
}

/// The images a sprite needs: its own, its file, or the sheet or base it is made from.
pub open spec fn image_needs(id: IdKey, recipe: Option<SpriteRecipe>) -> Seq<IdKey> {
    match recipe {
        None => seq![id],
        Some(SpriteRecipe::File(src)) => seq![src.pair()],
        Some(SpriteRecipe::Region { base, .. }) => seq![base.pair()],
        Some(SpriteRecipe::Palettized { base, .. }) => seq![base.pair()],
    }
}

/// The palettes a sprite needs: the key and the target of a palettized one.
pub open spec fn palette_needs(recipe: Option<SpriteRecipe>) -> Seq<IdKey> {
    match recipe {
        Some(SpriteRecipe::Palettized { key, palette, .. }) => seq![key.pair(), palette.pair()],
        _ => Seq::empty(),
    }
}

/// What a plan needs, sprite by sprite, for one kind of need.
pub open spec fn all_needs(plan: Seq<(IdKey, Option<SpriteRecipe>)>, kind: int) -> Seq<IdKey>
    decreases plan.len(),
{
    if plan.len() == 0 {
        Seq::empty()
    } else {
        let (id, recipe) = plan.last();
        all_needs(plan.drop_last(), kind) + if kind == 0 {
            meta_needs(id, recipe)
        } else if kind == 1 {
            image_needs(id, recipe)
        } else {
            palette_needs(recipe)
        }
    }
}

/// What to make and read for a request of sprites.
pub struct PrimePlan {
    /// Each sprite to make, with its recipe.
    pub recipes: Vec<(ResourceId, Option<SpriteRecipe>)>,
    /// The metadata files to read.
    pub meta: Vec<ResourceId>,
    /// The images to decode.
    pub images: Vec<ResourceId>,
    /// The palettes to decode.
    pub palettes: Vec<ResourceId>,
}

/// The keys of a list of identifiers.
pub open spec fn id_keys(ids: Seq<ResourceId>) -> Seq<IdKey> {
    ids.map_values(|id: ResourceId| id.pair())
}

/// Plans a request (see [`planned`]): the sprites to make, and each metadata file, image and
/// palette they need, once, in the order first needed.
pub fn plan_prime<P>(ids: &Vec<ResourceId>, loaded: &IdMap<P>, index: &SpriteIndex) -> (plan: PrimePlan)
    requires
        loaded.wf(),
        index.sprites.wf(),
    ensures
        plan.recipes@.map_values(|e: (ResourceId, Option<SpriteRecipe>)| (e.0.pair(), e.1)) == planned(ids@, loaded@.dom(), index.sprites@),
        id_keys(plan.meta@) == pending(all_needs(planned(ids@, loaded@.dom(), index.sprites@), 0), Set::empty(), Set::empty()),
        id_keys(plan.images@) == pending(all_needs(planned(ids@, loaded@.dom(), index.sprites@), 1), Set::empty(), Set::empty()),
        id_keys(plan.palettes@) == pending(all_needs(planned(ids@, loaded@.dom(), index.sprites@), 2), Set::empty(), Set::empty()),
{
    let mut recipes: Vec<(ResourceId, Option<SpriteRecipe>)> = Vec::new();
    let mut meta: Vec<ResourceId> = Vec::new();
    let mut images: Vec<ResourceId> = Vec::new();
    let mut palettes: Vec<ResourceId> = Vec::new();
    let mut i: usize = 0;
    while i < ids.len()
        invariant
            i <= ids@.len(),
            loaded.wf(),
            index.sprites.wf(),
            recipes@.map_values(|e: (ResourceId, Option<SpriteRecipe>)| (e.0.pair(), e.1)) == planned(ids@.take(i as int), loaded@.dom(), index.sprites@),
            id_keys(meta@) == all_needs(planned(ids@.take(i as int), loaded@.dom(), index.sprites@), 0),
            id_keys(images@) == all_needs(planned(ids@.take(i as int), loaded@.dom(), index.sprites@), 1),
            id_keys(palettes@) == all_needs(planned(ids@.take(i as int), loaded@.dom(), index.sprites@), 2),
        decreases ids.len() - i,
    {
        let ghost pl = planned(ids@.take(i as int), loaded@.dom(), index.sprites@);
        proof {
            assert(ids@.take(i as int + 1).drop_last() =~= ids@.take(i as int));
            assert(ids@.take(i as int + 1).last() == ids@[i as int]);
        }
        let id = &ids[i];
        if !loaded.contains_key(id) {
            let recipe: Option<SpriteRecipe> = match index.recipe(id) {
                Some(r) => Some(r.duplicate()),
                None => None,
            };
            let ghost entry = (id.pair(), recipe);
            let ghost m0 = meta@;
            let ghost i0 = images@;
            let ghost p0 = palettes@;
            match &recipe {
                None => {
                    meta.push(id.duplicate());
                    images.push(id.duplicate());
                },
                Some(SpriteRecipe::File(src)) => {
                    meta.push(src.duplicate());
                    images.push(src.duplicate());
                },
                Some(SpriteRecipe::Region { base, .. }) => {
                    images.push(base.duplicate());
                },
                Some(SpriteRecipe::Palettized { base, key, palette }) => {
                    images.push(base.duplicate());
                    palettes.push(key.duplicate());
                    palettes.push(palette.duplicate());
                },
            }
            let ghost r0 = recipes@;
            recipes.push((id.duplicate(), recipe));
            proof {
                assert(planned(ids@.take(i as int + 1), loaded@.dom(), index.sprites@) == pl.push(entry));
                assert(pl.push(entry).drop_last() =~= pl);
                assert(recipes@.map_values(|e: (ResourceId, Option<SpriteRecipe>)| (e.0.pair(), e.1)) =~= r0.map_values(
                    |e: (ResourceId, Option<SpriteRecipe>)| (e.0.pair(), e.1),
                ).push(entry));
                assert(id_keys(meta@) =~= id_keys(m0) + meta_needs(entry.0, entry.1));
                assert(id_keys(images@) =~= id_keys(i0) + image_needs(entry.0, entry.1));
                assert(id_keys(palettes@) =~= id_keys(p0) + palette_needs(entry.1));
            }
        } else {
            proof {
                assert(planned(ids@.take(i as int + 1), loaded@.dom(), index.sprites@) == pl);
            }
        }
        i = i + 1;
    }
    proof {
        assert(ids@.take(i as int) =~= ids@);
    }
    let mut s1: IdMap<()> = IdMap::new();
    let mut s2: IdMap<()> = IdMap::new();
    let mut s3: IdMap<()> = IdMap::new();
    let none: IdMap<()> = IdMap::new();
    let meta = pending_batch(meta, &mut s1, &none);
    let images = pending_batch(images, &mut s2, &none);
    let palettes = pending_batch(palettes, &mut s3, &none);
    PrimePlan { recipes, meta, images, palettes }
}


/// Another handle to a shared image.
#[verifier::external_body]
fn share(img: &Arc<RgbaImage>) -> (out: Arc<RgbaImage>)
    ensures
        out == *img,
{
    Arc::clone(img)
}

/// Why a palette mapping could not be made: the palettes differ in length, or one could not be
/// loaded.
pub enum MappingError {
    Size(PaletteSizeMismatch),
    Load(TextureError),
}

/// No palette that loaded is too large for a mapping table (2^29 colours).
pub open spec fn palettes_fit(palettes: Map<IdKey, Result<Palette, TextureError>>) -> bool {
    forall|k: IdKey| #[trigger] palettes.contains_key(k) && palettes[k] is Ok ==> palettes[k]->Ok_0@.len() <= 0x2000_0000
}

/// Whether `res` is the mapping from a key palette to a target palette: made from the two
/// palettes when both loaded; otherwise the key's load error, then the target's, then the
/// first one missing.
pub open spec fn mapping_outcome(
    palettes: Map<IdKey, Result<Palette, TextureError>>,
    key: ResourceId,
    target: ResourceId,
    res: Result<PaletteMapping, MappingError>,
) -> bool {
    let kk = key.pair();
    let tk = target.pair();
    if palettes.contains_key(kk) && palettes.contains_key(tk) && palettes[kk] is Ok && palettes[tk] is Ok {
        let kp = palettes[kk]->Ok_0;
        let tp = palettes[tk]->Ok_0;
        match res {
            Ok(m) => kp@.len() == tp@.len() && m.wf() && m@ == palette_map(kp@, tp@, kp@.len() as int),
            Err(MappingError::Size(e)) => kp@.len() != tp@.len() && e == (PaletteSizeMismatch { base: kp@.len() as usize, target: tp@.len() as usize }),
            Err(MappingError::Load(_)) => false,
        }
    } else if palettes.contains_key(kk) && palettes[kk] is Err {
        res == Err::<PaletteMapping, MappingError>(MappingError::Load(palettes[kk]->Err_0))
    } else if palettes.contains_key(tk) && palettes[tk] is Err {
        res == Err::<PaletteMapping, MappingError>(MappingError::Load(palettes[tk]->Err_0))
    } else if !palettes.contains_key(kk) {
        res == Err::<PaletteMapping, MappingError>(MappingError::Load(TextureError::NotFound(key)))
    } else {
        res == Err::<PaletteMapping, MappingError>(MappingError::Load(TextureError::NotFound(target)))
    }
}

proof fn lemma_capacity_bound(c: int, n: int)
    requires
        c > 0,
        n >= 0,
    ensures
        capacity_from(c, n) <= if c >= 2 * n { c } else { 4 * n },
    decreases (if c < 2 * n { 2 * n - c } else { 0 }),
{
    if c < 2 * n {
        lemma_capacity_bound(2 * c, n);
    }
}

/// Makes the mapping from a key palette to a target palette (see [`mapping_outcome`]).
pub fn mapping_for(key: &ResourceId, target: &ResourceId, palettes: &IdMap<Result<Palette, TextureError>>) -> (res: Result<PaletteMapping, MappingError>)
    requires
        palettes.wf(),
        palettes_fit(palettes@),
    ensures
        mapping_outcome(palettes@, *key, *target, res),
{
    let kp = palettes.get(key);
    let tp = palettes.get(target);
    match (kp, tp) {
        (Some(Ok(k)), Some(Ok(t))) => {
            proof {
                assert(palettes@.contains_key(key.pair()));
                assert(palettes@.contains_key(target.pair()));
                lemma_capacity_bound(8, k@.len() as int);
            }
            match PaletteMapping::create(k, t) {
                Ok(m) => Ok(m),
                Err(e) => Err(MappingError::Size(e)),
            }
        },
        (Some(Err(e)), _) => Err(MappingError::Load(e.duplicate())),
        (_, Some(Err(e))) => Err(MappingError::Load(e.duplicate())),
        (None, _) => Err(MappingError::Load(TextureError::NotFound(key.duplicate()))),
        (_, None) => Err(MappingError::Load(TextureError::NotFound(target.duplicate()))),
    }
}

/// The key and target palettes of each palettized sprite, in order.
pub open spec fn palette_pairs(recipes: Seq<(ResourceId, Option<SpriteRecipe>)>) -> Seq<(IdKey, IdKey)>
    decreases recipes.len(),
{
    if recipes.len() == 0 {
        Seq::empty()
    } else {
        palette_pairs(recipes.drop_last()) + match recipes.last().1 {
            Some(SpriteRecipe::Palettized { key, palette, .. }) => seq![(key.pair(), palette.pair())],
            _ => Seq::empty(),
        }
    }
}

/// Each pair once, in the order it first comes.
pub open spec fn first_pairs(s: Seq<(IdKey, IdKey)>) -> Seq<(IdKey, IdKey)>
    decreases s.len(),
{
    if s.len() == 0 {
        Seq::empty()
    } else if s.drop_last().contains(s.last()) {
        first_pairs(s.drop_last())
    } else {
        first_pairs(s.drop_last()).push(s.last())
    }
}

proof fn lemma_first_pairs_contains(s: Seq<(IdKey, IdKey)>, x: (IdKey, IdKey))
    ensures
        first_pairs(s).contains(x) == s.contains(x),
    decreases s.len(),
{
    if s.len() > 0 {
        let dl = s.drop_last();
        lemma_first_pairs_contains(dl, x);
        assert(s =~= dl.push(s.last()));
        assert(s.contains(x) == (dl.contains(x) || x == s.last())) by {
            if s.contains(x) && x != s.last() {
                let i = choose|i: int| 0 <= i < s.len() && s[i] == x;
                assert(i < dl.len());
                assert(dl[i] == x);
            }
            if dl.contains(x) {
                let i = choose|i: int| 0 <= i < dl.len() && dl[i] == x;
                assert(s[i] == x);
            }
            if x == s.last() {
                assert(s[s.len() - 1] == x);
            }
        }
        if !dl.contains(s.last()) {
            let fp = first_pairs(dl);
            assert(first_pairs(s) == fp.push(s.last()));
            assert(fp.push(s.last()).contains(x) == (fp.contains(x) || x == s.last())) by {
                if fp.push(s.last()).contains(x) && x != s.last() {
                    let i = choose|i: int| 0 <= i < fp.push(s.last()).len() && fp.push(s.last())[i] == x;
                    assert(i < fp.len());
                    assert(fp[i] == x);
                }
                if fp.contains(x) {
                    let i = choose|i: int| 0 <= i < fp.len() && fp[i] == x;
                    assert(fp.push(s.last())[i] == x);
                }
                if x == s.last() {
                    assert(fp.push(s.last())[fp.len() as int] == x);
                }
            }
        }
    }
}

/// The mappings the palettized sprites need: one for each distinct key and target pair, in
/// the order first needed (see [`first_pairs`] and [`palette_pairs`]), each made as
/// [`mapping_for`] makes it.
pub fn build_mappings(recipes: &Vec<(ResourceId, Option<SpriteRecipe>)>, palettes: &IdMap<Result<Palette, TextureError>>) -> (out: Vec<((ResourceId, ResourceId), Result<PaletteMapping, MappingError>)>)
    requires
        palettes.wf(),
        palettes_fit(palettes@),
    ensures
        out@.map_values(|e: ((ResourceId, ResourceId), Result<PaletteMapping, MappingError>)| (e.0.0.pair(), e.0.1.pair())) == first_pairs(palette_pairs(recipes@)),
        forall|i: int| 0 <= i < out@.len() ==> mapping_outcome(palettes@, (#[trigger] out@[i]).0.0, out@[i].0.1, out@[i].1),
{
    let mut out: Vec<((ResourceId, ResourceId), Result<PaletteMapping, MappingError>)> = Vec::new();
    let mut i: usize = 0;
    while i < recipes.len()
        invariant
            i <= recipes@.len(),
            palettes.wf(),
            palettes_fit(palettes@),
            out@.map_values(|e: ((ResourceId, ResourceId), Result<PaletteMapping, MappingError>)| (e.0.0.pair(), e.0.1.pair())) == first_pairs(palette_pairs(recipes@.take(i as int))),
            forall|j: int| 0 <= j < out@.len() ==> mapping_outcome(palettes@, (#[trigger] out@[j]).0.0, out@[j].0.1, out@[j].1),
        decreases recipes.len() - i,
    {
        proof {
            assert(recipes@.take(i as int + 1).drop_last() =~= recipes@.take(i as int));
            assert(recipes@.take(i as int + 1).last() == recipes@[i as int]);
        }
        let ghost before = palette_pairs(recipes@.take(i as int));
        if let Some(SpriteRecipe::Palettized { key, palette, .. }) = &recipes[i].1 {
            let ghost pair = (key.pair(), palette.pair());
            let ghost ov = out@.map_values(|e: ((ResourceId, ResourceId), Result<PaletteMapping, MappingError>)| (e.0.0.pair(), e.0.1.pair()));
            let mut found = false;
            let mut j: usize = 0;
            while j < out.len()
                invariant
                    j <= out@.len(),
                    pair == (key.pair(), palette.pair()),
                    ov == out@.map_values(|e: ((ResourceId, ResourceId), Result<PaletteMapping, MappingError>)| (e.0.0.pair(), e.0.1.pair())),
                    found ==> ov.contains(pair),
                    !found ==> forall|l: int| 0 <= l < j ==> ov[l] != pair,
                decreases out.len() - j,
            {
                proof {
                    assert(ov[j as int] == (out@[j as int].0.0.pair(), out@[j as int].0.1.pair()));
                }
                if !found {
                    let a = out[j].0.0.same(key);
                    let b = out[j].0.1.same(palette);
                    if a && b {
                        found = true;
                        proof {
                            assert(ov[j as int] == pair);
                        }
                    }
                }
                j = j + 1;
            }
            proof {
                assert(palette_pairs(recipes@.take(i as int + 1)) == before.push(pair));
                assert(before.push(pair).drop_last() =~= before);
                lemma_first_pairs_contains(before, pair);
                if !found {
                    assert(!ov.contains(pair));
                }
            }
            if !found {
                let res = mapping_for(key, palette, palettes);
                let ghost o0 = out@;
                out.push(((key.duplicate(), palette.duplicate()), res));
                proof {
                    assert(out@.map_values(|e: ((ResourceId, ResourceId), Result<PaletteMapping, MappingError>)| (e.0.0.pair(), e.0.1.pair())) =~= ov.push(pair));
                }
            }
        } else {
            proof {
                assert(palette_pairs(recipes@.take(i as int + 1)) =~= before);
            }
        }
        i = i + 1;
    }
    proof {
        assert(recipes@.take(i as int) =~= recipes@);
    }
    out
}


/// A source image by identifier: what decoding it gave, or not found when it was not read.
pub open spec fn source_of(sources: Map<IdKey, Result<Arc<RgbaImage>, TextureError>>, id: ResourceId) -> Result<Arc<RgbaImage>, TextureError> {
    if sources.contains_key(id.pair()) {
        sources[id.pair()]
    } else {
        Err(TextureError::NotFound(id))
    }
}

/// The first mapping made for a key and target palette.
pub open spec fn find_mapping(ms: Seq<((ResourceId, ResourceId), Result<PaletteMapping, MappingError>)>, key: IdKey, target: IdKey) -> Option<int>
    decreases ms.len(),
{
    if ms.len() == 0 {
        None
    } else {
        match find_mapping(ms.drop_last(), key, target) {
            Some(i) => Some(i),
            None => if ms.last().0.0.pair() == key && ms.last().0.1.pair() == target {
                Some(ms.len() - 1)
            } else {
                None
            },
        }
    }
}

proof fn lemma_find_mapping(ms: Seq<((ResourceId, ResourceId), Result<PaletteMapping, MappingError>)>, key: IdKey, target: IdKey, n: int)
    requires
        0 <= n <= ms.len(),
    ensures
        find_mapping(ms.take(n), key, target) matches Some(i) ==> find_mapping(ms, key, target) == Some(i) && 0 <= i < n,
        find_mapping(ms.take(n), key, target) is None && n < ms.len() && ms[n].0.0.pair() == key && ms[n].0.1.pair() == target
            ==> find_mapping(ms, key, target) == Some(n),
    decreases ms.len() - n,
{
    if n < ms.len() {
        let t = ms.take(n + 1);
        assert(t.drop_last() =~= ms.take(n));
        assert(t.last() == ms[n]);
        lemma_find_mapping(ms, key, target, n + 1);
    } else {
        assert(ms.take(n) =~= ms);
    }
    if find_mapping(ms.take(n), key, target) is Some {
        lemma_find_bound(ms.take(n), key, target);
    }
}

proof fn lemma_find_bound(ms: Seq<((ResourceId, ResourceId), Result<PaletteMapping, MappingError>)>, key: IdKey, target: IdKey)
    ensures
        find_mapping(ms, key, target) matches Some(i) ==> 0 <= i < ms.len() && ms[i].0.0.pair() == key && ms[i].0.1.pair() == target,
    decreases ms.len(),
{
    if ms.len() > 0 {
        lemma_find_bound(ms.drop_last(), key, target);
    }
}

/// Whether `out` is the region of `src` at `r`, clamped to the image.
pub open spec fn crop_of(src: ImageView, out: ImageView, r: (u32, u32, u32, u32)) -> bool {
    let (cx, cy, cw, ch) = clamped_rect(src.width as int, src.height as int, r.0 as int, r.1 as int, r.2 as int, r.3 as int);
    &&& out.width == cw
    &&& out.height == ch
    &&& forall|i: int, j: int| out.contains(i, j) ==> #[trigger] out.pixel(i, j) == src.pixel(cx + i, cy + j)
}

/// Whether `out` is `src` with its colours mapped by `m`.
pub open spec fn remap_of(m: Map<u32, Rgba>, src: ImageView, out: ImageView) -> bool {
    &&& out.width == src.width
    &&& out.height == src.height
    &&& forall|x: int, y: int| src.contains(x, y) ==> #[trigger] out.pixel(x, y) == remapped(m, src.pixel(x, y))
}

/// Whether `out` is the sprite made by a recipe, with the warning to record, if any: a plain
/// texture or a file is its source; a region is cropped from its sheet at the rectangle found
/// for it, and a rectangle that does not fit fails the sprite with a warning against it; a
/// palettized texture has its base's colours mapped, and a mapping refused for its size fails
/// the sprite with a warning against the target palette. A source that failed fails the sprite.
pub open spec fn sprite_outcome(
    sprite: ResourceId,
    recipe: Option<SpriteRecipe>,
    sources: Map<IdKey, Result<Arc<RgbaImage>, TextureError>>,
    mappings: Seq<((ResourceId, ResourceId), Result<PaletteMapping, MappingError>)>,
    region: Option<Result<(u32, u32, u32, u32), String>>,
    out: (Result<Arc<RgbaImage>, TextureError>, Option<(String, String)>),
) -> bool {
    match recipe {
        None => out.0 == source_of(sources, sprite) && out.1 is None,
        Some(SpriteRecipe::File(src)) => out.0 == source_of(sources, src) && out.1 is None,
        Some(SpriteRecipe::Region { base, .. }) => match source_of(sources, base) {
            Err(e) => out.0 == Err::<Arc<RgbaImage>, TextureError>(e) && out.1 is None,
            Ok(img) => match region {
                Some(Ok(r)) => out.1 is None && (out.0 matches Ok(o) && o.wf() && crop_of(img@, o@, r)),
                Some(Err(m)) => out.0 == Err::<Arc<RgbaImage>, TextureError>(TextureError::InvalidRegion { sprite, base })
                    && (out.1 matches Some(w) && w.0@ == sprite.text() && w.1@ == m@),
                None => false,
            },
        },
        Some(SpriteRecipe::Palettized { base, key, palette }) => match source_of(sources, base) {
            Err(e) => out.0 == Err::<Arc<RgbaImage>, TextureError>(e) && out.1 is None,
            Ok(img) => match find_mapping(mappings, key.pair(), palette.pair()) {
                None => out.0 == Err::<Arc<RgbaImage>, TextureError>(TextureError::NotFound(sprite)) && out.1 is None,
                Some(i) => match mappings[i].1 {
                    Ok(m) => out.1 is None && (out.0 matches Ok(o) && o.wf() && remap_of(m@, img@, o@)),
                    Err(MappingError::Size(e)) => out.0 == Err::<Arc<RgbaImage>, TextureError>(TextureError::Palette(sprite, e))
                        && (out.1 matches Some(w) && w.0@ == palette.text() && w.1@ == "Failed to create palette mapping"@),
                    Err(MappingError::Load(e)) => out.0 == Err::<Arc<RgbaImage>, TextureError>(e) && out.1 is None,
                },
            },
        },
    }
}

/// Every image that decoded is well formed.
pub open spec fn sources_wf(sources: Map<IdKey, Result<Arc<RgbaImage>, TextureError>>) -> bool {
    forall|k: IdKey| #[trigger] sources.contains_key(k) && sources[k] is Ok ==> sources[k]->Ok_0.wf()
}

/// Every mapping that was made is well formed.
pub open spec fn mappings_wf(ms: Seq<((ResourceId, ResourceId), Result<PaletteMapping, MappingError>)>) -> bool {
    forall|i: int| 0 <= i < ms.len() && (#[trigger] ms[i]).1 is Ok ==> ms[i].1->Ok_0.wf()
}

fn source(sources: &IdMap<Result<Arc<RgbaImage>, TextureError>>, id: &ResourceId) -> (r: Result<Arc<RgbaImage>, TextureError>)
    requires
        sources.wf(),
    ensures
        r == source_of(sources@, *id),
{
    match sources.get(id) {
        Some(Ok(img)) => Ok(share(img)),
        Some(Err(e)) => Err(e.duplicate()),
        None => Err(TextureError::NotFound(id.duplicate())),
    }
}

/// Makes a sprite from its recipe, the decoded sources and the mappings made, with the warning
/// to record, if any (see [`sprite_outcome`]). `region` is the rectangle found in a region's
/// sheet, or why none fits; it is read only for a region whose sheet decoded.
pub fn assemble_sprite(
    sprite: &ResourceId,
    recipe: &Option<SpriteRecipe>,
    sources: &IdMap<Result<Arc<RgbaImage>, TextureError>>,
    mappings: &Vec<((ResourceId, ResourceId), Result<PaletteMapping, MappingError>)>,
    region: Option<Result<(u32, u32, u32, u32), String>>,
) -> (out: (Result<Arc<RgbaImage>, TextureError>, Option<(String, String)>))
    requires
        sources.wf(),
        sources_wf(sources@),
        mappings_wf(mappings@),
        *recipe matches Some(SpriteRecipe::Region { base, .. }) && source_of(sources@, base) is Ok ==> region is Some,
    ensures
        sprite_outcome(*sprite, *recipe, sources@, mappings@, region, out),
{
    match recipe {
        None => (source(sources, sprite), None),
        Some(SpriteRecipe::File(src)) => (source(sources, src), None),
        Some(SpriteRecipe::Region { base, .. }) => match source(sources, base) {
            Err(e) => (Err(e), None),
            Ok(img) => {
                proof {
                    assert(sources@.contains_key(base.pair()));
                }
                match region {
                    Some(Ok(r)) => {
                        let cropped = crop(&*img, r.0, r.1, r.2, r.3);
                        (Ok(Arc::new(cropped)), None)
                    },
                    Some(Err(m)) => {
                        let warning = (sprite.to_string(), m);
                        (Err(TextureError::InvalidRegion { sprite: sprite.duplicate(), base: base.duplicate() }), Some(warning))
                    },
                    None => {
                        proof {
                            assert(false);
                        }
                        (Err(TextureError::NotFound(sprite.duplicate())), None)
                    },
                }
            },
        },
        Some(SpriteRecipe::Palettized { base, key, palette }) => match source(sources, base) {
            Err(e) => (Err(e), None),
            Ok(img) => {
                proof {
                    assert(sources@.contains_key(base.pair()));
                    assert(sources@[base.pair()] is Ok);
                }
                let mut j: usize = 0;
                while j < mappings.len()
                    invariant
                        j <= mappings@.len(),
                        find_mapping(mappings@.take(j as int), key.pair(), palette.pair()) is None,
                        mappings_wf(mappings@),
                        img.wf(),
                        source_of(sources@, *base) == Ok::<Arc<RgbaImage>, TextureError>(img),
                        *recipe == Some(SpriteRecipe::Palettized { base: *base, key: *key, palette: *palette }),
                    decreases mappings.len() - j,
                {
                    proof {
                        let t = mappings@.take(j as int + 1);
                        assert(t.drop_last() =~= mappings@.take(j as int));
                        assert(t.last() == mappings@[j as int]);
                    }
                    if mappings[j].0.0.same(key) && mappings[j].0.1.same(palette) {
                        proof {
                            lemma_find_mapping(mappings@, key.pair(), palette.pair(), j as int);
                        }
                        return match &mappings[j].1 {
                            Ok(m) => {
                                proof {
                                    assert(mappings@[j as int].1 is Ok);
                                }
                                let remapped_img = m.remap(&*img);
                                (Ok(Arc::new(remapped_img)), None)
                            },
                            Err(MappingError::Size(e)) => {
                                let warning = (palette.to_string(), "Failed to create palette mapping".to_owned());
                                (Err(TextureError::Palette(sprite.duplicate(), PaletteSizeMismatch { base: e.base, target: e.target })), Some(warning))
                            },
                            Err(MappingError::Load(e)) => (Err(e.duplicate()), None),
                        };
                    }
                    j = j + 1;
                }
                proof {
                    assert(mappings@.take(j as int) =~= mappings@);
                }
                (Err(TextureError::NotFound(sprite.duplicate())), None)
            },
        },
    }
}


/// Where a warning from making a sprite is reported.
pub open spec fn sprite_warning_site() -> SiteView {
    ("resource/texture/cache.rs"@, 142u32, 36u32)
}

/// What settling a sprite records: its warning, if any, then what finishing it records (see
/// [`finish_reports`]).
pub open spec fn settle_reports(d: DiagnosticsView, id: ResourceId, result: Result<Arc<RgbaImage>, TextureError>, warning: Option<(String, String)>, substitute: bool) -> DiagnosticsView {
    let warned = match warning {
        Some(w) => recorded(d, Severity::Warning, sprite_warning_site(), w.0@, Seq::empty(), w.1@),
        None => d,
    };
    finish_reports(warned, id, result, substitute)
}

/// Records the warning a sprite came with, then finishes the sprite (see [`finish`]).
pub fn settle_sprite(
    diag: &mut Diagnostics,
    id: &ResourceId,
    result: Result<Arc<RgbaImage>, TextureError>,
    warning: Option<(String, String)>,
    substitute_missing: bool,
) -> (r: Result<Arc<RgbaImage>, TextureError>)
    requires
        old(diag).wf(),
    ensures
        final(diag).wf(),
        final(diag)@ == settle_reports(old(diag)@, *id, result, warning, substitute_missing),
        match result {
            Err(e) => if names_missingno(e) || (substitute_missing && substitutable(e)) {
                r matches Ok(img) && is_checkerboard(*img)
            } else {
                r == result
            },
            Ok(_) => r == result,
        },
{
    if let Some((subject, message)) = warning {
        let site = Site::at("resource/texture/cache.rs", 142, 36);
        diag.warn(&site, subject.as_str(), message);
    }
    finish(diag, id, result, substitute_missing)
}


/// Whose metadata file a texture uses: its own when no atlas makes it, its file's when an
/// atlas names one, and none for a sprite an atlas makes otherwise.
pub fn meta_source(index: &SpriteIndex, id: &ResourceId) -> (src: Option<ResourceId>)
    requires
        index.sprites.wf(),
    ensures
        match src {
            Some(s) => if index.sprites@.contains_key(id.pair()) {
                index.sprites@[id.pair()] matches SpriteRecipe::File(f) && s == f
            } else {
                s == *id
            },
            None => index.sprites@.contains_key(id.pair()) && !(index.sprites@[id.pair()] is File),
        },
{
    match index.recipe(id) {
        Some(SpriteRecipe::File(f)) => Some(f.duplicate()),
        Some(_) => None,
        None => Some(id.duplicate()),
    }
}

} // verus!
