//! Building a block state from its definition: which models each variant or part applies,
//! with the definitions that cannot be used reported.

use vstd::prelude::*;
use crate::diagnostics::{Diagnostics, DiagnosticsView, Severity, Site, SiteView, recorded};
use crate::direction::Quadrant;
use crate::resource::blockstate::{BlockStateError, blockstate_error_text, BlockStateModel, Condition, ModelState, StateProperties, parse_properties};
use crate::resource::id::{IdMap, ResourceId};
use crate::text::{lemma_utf8_len, push_str};
use crate::resource::item::cache::keys_of;
use crate::resource::model::cache::{IdKey, pending, pending_batch};

verus! {

/// One variant as written: a model, its rotation, whether its textures stay put, and its
/// weight (never zero).
#[derive(Clone, Debug)]
pub struct RawVariant {
    pub model: ResourceId,
    pub x: Quadrant,
    pub y: Quadrant,
    pub z: Quadrant,
    pub uvlock: bool,
    pub weight: Option<u32>,
}

/// The models a variant or part applies as written: one, or a weighted list.
#[derive(Clone, Debug)]
pub enum RawVariants {
    One(RawVariant),
    Weighted(Vec<RawVariant>),
}

/// One part of a multipart block state as written.
#[derive(Debug)]
pub struct RawMultipart {
    pub apply: RawVariants,
    pub when: Option<Condition>,
}

/// A block state definition as written: variants by key, or parts.
#[derive(Debug)]
pub struct RawBlockState {
    pub variants: Option<Vec<(String, RawVariants)>>,
    pub multipart: Option<Vec<RawMultipart>>,
}

/// A model applied by a block state, found again by `model`, with how it is turned.
#[derive(Copy, Clone, Debug)]
pub struct ModelPart<P> {
    pub model: P,
    pub state: ModelState,
}

/// The variants of a definition, in order.
pub open spec fn variant_list(apply: RawVariants) -> Seq<RawVariant> {
    match apply {
        RawVariants::One(v) => seq![v],
        RawVariants::Weighted(vs) => vs@,
    }
}

/// How a variant is turned.
pub open spec fn variant_state(v: RawVariant) -> ModelState {
    ModelState { x: v.x, y: v.y, z: v.z, uv_lock: v.uvlock }
}

/// The models a list of variants applies, with their weights: each variant whose model is
/// loaded, weighted 1 when no weight is written.
pub open spec fn resolved_parts<P>(models: Map<(Seq<char>, Seq<char>), P>, vs: Seq<RawVariant>) -> Seq<(ModelPart<P>, u32)>
    decreases vs.len(),
{
    if vs.len() == 0 {
        Seq::empty()
    } else {
        let rest = resolved_parts(models, vs.drop_last());
        let v = vs.last();
        if models.contains_key(v.model.pair()) {
            rest.push((
                ModelPart { model: models[v.model.pair()], state: variant_state(v) },
                match v.weight {
                    Some(w) => w,
                    None => 1u32,
                },
            ))
        } else {
            rest
        }
    }
}

/// The position of the variant that part `i` of [`resolved_parts`] comes from.
pub open spec fn part_source<P>(models: Map<(Seq<char>, Seq<char>), P>, vs: Seq<RawVariant>, i: int) -> int
    decreases vs.len(),
{
    if vs.len() == 0 {
        0
    } else if i < resolved_parts(models, vs.drop_last()).len() {
        part_source(models, vs.drop_last(), i)
    } else {
        vs.len() - 1
    }
}

/// Every part a list of variants resolves to comes from one of the variants whose model is
/// loaded, the parts in the variants' order: it applies that model, turned by the variant's
/// own `x`, `y` and `z` rotations and uv-lock, weighted by the variant's weight or 1. When
/// every model is loaded there is one part per variant, at the variant's position.
pub proof fn lemma_resolved_parts<P>(models: Map<(Seq<char>, Seq<char>), P>, vs: Seq<RawVariant>, i: int)
    requires
        0 <= i < resolved_parts(models, vs).len(),
    ensures
        resolved_parts(models, vs).len() <= vs.len(),
        ({
            let k = part_source(models, vs, i);
            &&& 0 <= k < vs.len()
            &&& models.contains_key(vs[k].model.pair())
            &&& resolved_parts(models, vs)[i] == (
                ModelPart {
                    model: models[vs[k].model.pair()],
                    state: ModelState { x: vs[k].x, y: vs[k].y, z: vs[k].z, uv_lock: vs[k].uvlock },
                },
                if vs[k].weight is Some { vs[k].weight->0 } else { 1u32 },
            )
        }),
        forall|j: int| 0 <= j < i ==> part_source(models, vs, j) < #[trigger] part_source(models, vs, i),
        (forall|k: int| 0 <= k < vs.len() ==> models.contains_key(#[trigger] vs[k].model.pair())) ==> resolved_parts(models, vs).len()
            == vs.len() && part_source(models, vs, i) == i,
    decreases vs.len(),
{
    let front = vs.drop_last();
    let rest = resolved_parts(models, front);
    lemma_resolved_len(models, front);
    if i < rest.len() {
        lemma_resolved_parts(models, front, i);
        assert(vs[part_source(models, front, i)] == front[part_source(models, front, i)]);
        assert forall|j: int| 0 <= j < i implies part_source(models, vs, j) < #[trigger] part_source(models, vs, i) by {
            lemma_resolved_parts(models, front, j);
        }
        if forall|k: int| 0 <= k < vs.len() ==> models.contains_key(#[trigger] vs[k].model.pair()) {
            assert forall|k: int| 0 <= k < front.len() implies models.contains_key(#[trigger] front[k].model.pair()) by {
                assert(vs[k] == front[k]);
            }
            assert(models.contains_key(vs[vs.len() - 1].model.pair()));
        }
    } else {
        assert forall|j: int| 0 <= j < i implies part_source(models, vs, j) < #[trigger] part_source(models, vs, i) by {
            lemma_resolved_parts(models, front, j);
        }
        if forall|k: int| 0 <= k < vs.len() ==> models.contains_key(#[trigger] vs[k].model.pair()) {
            assert forall|k: int| 0 <= k < front.len() implies models.contains_key(#[trigger] front[k].model.pair()) by {
                assert(vs[k] == front[k]);
            }
            lemma_resolved_all(models, front);
        }
    }
}

proof fn lemma_resolved_len<P>(models: Map<(Seq<char>, Seq<char>), P>, vs: Seq<RawVariant>)
    ensures
        resolved_parts(models, vs).len() <= vs.len(),
    decreases vs.len(),
{
    if vs.len() > 0 {
        lemma_resolved_len(models, vs.drop_last());
    }
}

proof fn lemma_resolved_all<P>(models: Map<(Seq<char>, Seq<char>), P>, vs: Seq<RawVariant>)
    requires
        forall|k: int| 0 <= k < vs.len() ==> models.contains_key(#[trigger] vs[k].model.pair()),
    ensures
        resolved_parts(models, vs).len() == vs.len(),
    decreases vs.len(),
{
    if vs.len() > 0 {
        let front = vs.drop_last();
        assert forall|k: int| 0 <= k < front.len() implies models.contains_key(#[trigger] front[k].model.pair()) by {
            assert(vs[k] == front[k]);
        }
        lemma_resolved_all(models, front);
        assert(models.contains_key(vs[vs.len() - 1].model.pair()));
    }
}

/// Where a model that cannot be resolved is reported.
pub open spec fn resolve_site() -> SiteView {
    ("resource/blockstate/cache.rs"@, 157u32, 22u32)
}

/// What resolving a list of variants records: an error against each model that is not loaded.
pub open spec fn resolve_reports<P>(d: DiagnosticsView, models: Map<(Seq<char>, Seq<char>), P>, vs: Seq<RawVariant>) -> DiagnosticsView
    decreases vs.len(),
{
    if vs.len() == 0 {
        d
    } else {
        let before = resolve_reports(d, models, vs.drop_last());
        let v = vs.last();
        if models.contains_key(v.model.pair()) {
            before
        } else {
            recorded(before, Severity::Error, resolve_site(), v.model.text(), Seq::empty(), "Failed to resolve model"@)
        }
    }
}

/// The models a definition applies (see [`resolved_parts`]); each model that is not loaded is
/// reported (see [`resolve_reports`]).
pub fn resolve<P: Copy>(models: &IdMap<P>, apply: &RawVariants, diag: &mut Diagnostics) -> (out: Vec<(ModelPart<P>, u32)>)
    requires
        models.wf(),
        old(diag).wf(),
    ensures
        final(diag).wf(),
        out@ == resolved_parts(models@, variant_list(*apply)),
        final(diag)@ == resolve_reports(old(diag)@, models@, variant_list(*apply)),
{
    let list: Vec<RawVariant> = match apply {
        RawVariants::One(v) => vec![v.clone_variant()],
        RawVariants::Weighted(vs) => {
            let mut copy: Vec<RawVariant> = Vec::new();
            let mut i: usize = 0;
            while i < vs.len()
                invariant
                    i <= vs@.len(),
                    copy@ == vs@.take(i as int),
                decreases vs.len() - i,
            {
                copy.push(vs[i].clone_variant());
                proof {
                    assert(vs@.take(i as int + 1) =~= vs@.take(i as int).push(vs@[i as int]));
                }
                i = i + 1;
            }
            proof {
                assert(vs@.take(i as int) =~= vs@);
            }
            copy
        },
    };
    proof {
        assert(list@ =~= variant_list(*apply));
    }
    let ghost d0 = diag@;
    let mut out: Vec<(ModelPart<P>, u32)> = Vec::new();
    let mut i: usize = 0;
    while i < list.len()
        invariant
            i <= list@.len(),
            models.wf(),
            diag.wf(),
            out@ == resolved_parts(models@, list@.take(i as int)),
            diag@ == resolve_reports(d0, models@, list@.take(i as int)),
        decreases list.len() - i,
    {
        let v = &list[i];
        proof {
            assert(list@.take(i as int + 1).drop_last() =~= list@.take(i as int));
            assert(list@.take(i as int + 1).last() == list@[i as int]);
        }
        let weight: u32 = match v.weight {
            Some(w) => w,
            None => 1,
        };
        match models.get(&v.model) {
            Some(m) => {
                out.push((ModelPart { model: *m, state: ModelState { x: v.x, y: v.y, z: v.z, uv_lock: v.uvlock } }, weight));
            },
            None => {
                let site = Site::at("resource/blockstate/cache.rs", 157, 22);
                diag.error(&site, v.model.to_string().as_str(), "Failed to resolve model".to_owned());
            },
        }
        i = i + 1;
    }
    proof {
        assert(list@.take(i as int) =~= list@);
    }
    out
}

/// A variant key fits when its UTF-8 encoding is at most `u16::MAX` bytes long.
pub open spec fn key_fits(key: Seq<char>) -> bool {
    vstd::utf8::encode_utf8(key).len() <= u16::MAX
}

/// The variants a definition keeps: each whose key fits, with its key and the models it
/// applies, in order.
pub open spec fn variant_entries<P>(models: Map<(Seq<char>, Seq<char>), P>, vs: Seq<(String, RawVariants)>) -> Seq<(Seq<char>, Seq<(ModelPart<P>, u32)>)>
    decreases vs.len(),
{
    if vs.len() == 0 {
        Seq::empty()
    } else {
        let rest = variant_entries(models, vs.drop_last());
        let (key, apply) = vs.last();
        if key_fits(key@) {
            rest.push((key@, resolved_parts(models, variant_list(apply))))
        } else {
            rest
        }
    }
}

/// Where a state with both variants and parts is reported.
pub open spec fn both_site() -> SiteView {
    ("resource/blockstate/cache.rs"@, 111u32, 13u32)
}

/// Where a variant key that is too long is reported.
pub open spec fn key_site() -> SiteView {
    ("resource/blockstate/cache.rs"@, 122u32, 25u32)
}

/// What building the variants of a state records: an error against the state for each key
/// that is too long, and the reports of resolving the others.
pub open spec fn variant_reports<P>(d: DiagnosticsView, models: Map<(Seq<char>, Seq<char>), P>, id: Seq<char>, vs: Seq<(String, RawVariants)>) -> DiagnosticsView
    decreases vs.len(),
{
    if vs.len() == 0 {
        d
    } else {
        let before = variant_reports(d, models, id, vs.drop_last());
        let (key, apply) = vs.last();
        if key_fits(key@) {
            resolve_reports(before, models, variant_list(apply))
        } else {
            recorded(before, Severity::Error, key_site(), id, Seq::empty(), "variant key limit exceeds 2^16 − 1 bytes"@)
        }
    }
}

/// What building the parts of a state records: the reports of resolving each part.
pub open spec fn part_reports<P>(d: DiagnosticsView, models: Map<(Seq<char>, Seq<char>), P>, parts: Seq<RawMultipart>) -> DiagnosticsView
    decreases parts.len(),
{
    if parts.len() == 0 {
        d
    } else {
        resolve_reports(part_reports(d, models, parts.drop_last()), models, variant_list(parts.last().apply))
    }
}

/// The models each part applies, with its condition, in order.
pub open spec fn part_entries<P>(models: Map<(Seq<char>, Seq<char>), P>, parts: Seq<RawMultipart>) -> Seq<(Option<Condition>, Seq<(ModelPart<P>, u32)>)> {
    parts.map_values(|p: RawMultipart| (p.when, resolved_parts(models, variant_list(p.apply))))
}

/// The keys and models of a built variant list.
pub open spec fn built_variants<P>(v: Seq<(StateProperties, Vec<(ModelPart<P>, u32)>)>) -> Seq<(Seq<char>, Seq<(ModelPart<P>, u32)>)> {
    v.map_values(|e: (StateProperties, Vec<(ModelPart<P>, u32)>)| (e.0.key(), e.1@))
}

/// The conditions and models of a built part list.
pub open spec fn built_parts<P>(v: Seq<(Option<Condition>, Vec<(ModelPart<P>, u32)>)>) -> Seq<(Option<Condition>, Seq<(ModelPart<P>, u32)>)> {
    v.map_values(|e: (Option<Condition>, Vec<(ModelPart<P>, u32)>)| (e.0, e.1@))
}

/// What building a state records before its entries: a warning when it has both variants and
/// parts.
pub open spec fn both_reports(d: DiagnosticsView, id: Seq<char>, raw: RawBlockState) -> DiagnosticsView {
    if raw.variants is Some && raw.multipart is Some {
        recorded(d, Severity::Warning, both_site(), id, Seq::empty(), "Block state has both variants and multipart. Falling back to variants."@)
    } else {
        d
    }
}

/// Builds a block state from its definition. Variants win over parts. A variant whose key is
/// too long is reported and left out; a state that ends up with no entries, or has neither
/// variants nor parts, gives `None`.
pub fn build<P: Copy>(models: &IdMap<P>, id: &ResourceId, raw: RawBlockState, diag: &mut Diagnostics) -> (out: Option<BlockStateModel<ModelPart<P>>>)
    requires
        models.wf(),
        old(diag).wf(),
    ensures
        final(diag).wf(),
        match raw.variants {
            Some(vs) => {
                &&& final(diag)@ == variant_reports(both_reports(old(diag)@, id.text(), raw), models@, id.text(), vs@)
                &&& match out {
                    Some(BlockStateModel::Variants(v)) => {
                        &&& built_variants(v@) == variant_entries(models@, vs@)
                        &&& v@.len() > 0
                        &&& forall|i: int| 0 <= i < v@.len() ==> (#[trigger] v@[i]).0.wf()
                    },
                    Some(BlockStateModel::Multipart(_)) => false,
                    None => variant_entries(models@, vs@).len() == 0,
                }
            },
            None => match raw.multipart {
                Some(parts) => {
                    &&& final(diag)@ == part_reports(old(diag)@, models@, parts@)
                    &&& match out {
                        Some(BlockStateModel::Multipart(v)) => built_parts(v@) == part_entries(models@, parts@) && v@.len() > 0,
                        Some(BlockStateModel::Variants(_)) => false,
                        None => parts@.len() == 0,
                    }
                },
                None => out is None && final(diag)@ == old(diag)@,
            },
        },
{
    if raw.variants.is_some() && raw.multipart.is_some() {
        let site = Site::at("resource/blockstate/cache.rs", 111, 13);
        diag.warn(&site, id.to_string().as_str(), "Block state has both variants and multipart. Falling back to variants.".to_owned());
    }
    let ghost d1 = diag@;
    let ghost raw0 = raw;
    match raw.variants {
        Some(variants) => {
            let ghost vs = variants@;
            let mut out: Vec<(StateProperties, Vec<(ModelPart<P>, u32)>)> = Vec::new();
            let mut i: usize = 0;
            while i < variants.len()
                invariant
                    i <= vs.len(),
                    vs == variants@,
                    models.wf(),
                    diag.wf(),
                    built_variants(out@) == variant_entries(models@, vs.take(i as int)),
                    forall|j: int| 0 <= j < out@.len() ==> (#[trigger] out@[j]).0.wf(),
                    diag@ == variant_reports(d1, models@, id.text(), vs.take(i as int)),
                decreases variants.len() - i,
            {
                proof {
                    assert(vs.take(i as int + 1).drop_last() =~= vs.take(i as int));
                    assert(vs.take(i as int + 1).last() == vs[i as int]);
                }
                let entry = &variants[i];
                if entry.0.as_str().as_bytes().len() > 65535 {
                    let site = Site::at("resource/blockstate/cache.rs", 122, 25);
                    diag.error(&site, id.to_string().as_str(), "variant key limit exceeds 2^16 − 1 bytes".to_owned());
                } else {
                    let weighted = resolve(models, &entry.1, diag);
                    let key = entry.0.clone();
                    proof {
                        lemma_utf8_len(key@);
                    }
                    let props = parse_properties(key);
                    let ghost before = out@;
                    let ghost entry_view = (props.key(), weighted@);
                    out.push((props, weighted));
                    proof {
                        assert(built_variants(out@) =~= built_variants(before).push(entry_view));
                    }
                }
                i = i + 1;
            }
            proof {
                assert(vs.take(i as int) =~= vs);
            }
            if out.len() > 0 {
                Some(BlockStateModel::Variants(out))
            } else {
                None
            }
        },
        None => {
            match raw.multipart {
                Some(parts) => {
                    let ghost ps = parts@;
                    let mut out: Vec<(Option<Condition>, Vec<(ModelPart<P>, u32)>)> = Vec::new();
                    for part in it: parts.into_iter()
                        invariant
                            ps == it.seq(),
                            models.wf(),
                            diag.wf(),
                            built_parts(out@) == part_entries(models@, ps.take(it.index())),
                            diag@ == part_reports(d1, models@, ps.take(it.index())),
                    {
                        let ghost k = it.index();
                        proof {
                            assert(ps.take(k + 1).drop_last() =~= ps.take(k));
                            assert(ps.take(k + 1).last() == part);
                        }
                        let weighted = resolve(models, &part.apply, diag);
                        let ghost before = out@;
                        let ghost entry_view = (part.when, weighted@);
                        out.push((part.when, weighted));
                        proof {
                            assert(built_parts(out@) =~= built_parts(before).push(entry_view));
                            assert(part_entries(models@, ps.take(k + 1)) =~= part_entries(models@, ps.take(k)).push(entry_view));
                        }
                    }
                    proof {
                        assert(ps.take(ps.len() as int) =~= ps);
                    }
                    if out.len() > 0 {
                        Some(BlockStateModel::Multipart(out))
                    } else {
                        None
                    }
                },
                None => None,
            }
        },
    }
}

impl RawVariant {
    /// A copy of the variant.
    pub fn clone_variant(&self) -> (v: RawVariant)
        ensures
            v == *self,
    {
        RawVariant { model: self.model.duplicate(), x: self.x, y: self.y, z: self.z, uvlock: self.uvlock, weight: self.weight }
    }
}


/// The models a list of variants names, in order.
pub open spec fn variant_models(vs: Seq<RawVariant>) -> Seq<IdKey> {
    vs.map_values(|v: RawVariant| v.model.pair())
}

/// The models the parts of a state name, part by part.
pub open spec fn part_models(parts: Seq<RawMultipart>) -> Seq<IdKey>
    decreases parts.len(),
{
    if parts.len() == 0 {
        Seq::empty()
    } else {
        part_models(parts.drop_last()) + variant_models(variant_list(parts.last().apply))
    }
}

/// The models the variants of a state name, variant by variant.
pub open spec fn keyed_models(vs: Seq<(String, RawVariants)>) -> Seq<IdKey>
    decreases vs.len(),
{
    if vs.len() == 0 {
        Seq::empty()
    } else {
        keyed_models(vs.drop_last()) + variant_models(variant_list(vs.last().1))
    }
}

/// The models a state names: those of its parts, then those of its variants.
pub open spec fn state_models(raw: RawBlockState) -> Seq<IdKey> {
    (match raw.multipart {
        Some(parts) => part_models(parts@),
        None => Seq::empty(),
    }) + match raw.variants {
        Some(vs) => keyed_models(vs@),
        None => Seq::empty(),
    }
}

/// Appends the models a variant or part applies (see [`variant_models`]).
pub fn walk_variants(variants: &RawVariants, found: &mut Vec<ResourceId>)
    ensures
        keys_of(final(found)@) == keys_of(old(found)@) + variant_models(variant_list(*variants)),
{
    match variants {
        RawVariants::One(v) => {
            let ghost before = found@;
            found.push(v.model.duplicate());
            proof {
                assert(keys_of(found@) =~= keys_of(before) + variant_models(variant_list(*variants)));
            }
        },
        RawVariants::Weighted(vs) => {
            let ghost f0 = found@;
            let mut i: usize = 0;
            while i < vs.len()
                invariant
                    i <= vs@.len(),
                    keys_of(found@) == keys_of(f0) + variant_models(vs@.take(i as int)),
                decreases vs.len() - i,
            {
                let ghost before = found@;
                found.push(vs[i].model.duplicate());
                proof {
                    assert(variant_models(vs@.take(i as int + 1)) =~= variant_models(vs@.take(i as int)).push(vs@[i as int].model.pair()));
                    assert(keys_of(found@) =~= keys_of(before).push(vs@[i as int].model.pair()));
                }
                i = i + 1;
            }
            proof {
                assert(vs@.take(i as int) =~= vs@);
            }
        },
    }
}

/// Where a state with neither variants nor parts is reported.
pub open spec fn empty_site() -> SiteView {
    ("resource/blockstate/cache.rs"@, 53u32, 26u32)
}

/// Where a state that could not be read is reported.
pub open spec fn unread_site() -> SiteView {
    ("resource/blockstate/cache.rs"@, 68u32, 26u32)
}

/// The models the states read name, in order, before any is dropped as a repeat.
pub open spec fn named_models(parsed: Seq<(ResourceId, Result<RawBlockState, BlockStateError>)>) -> Seq<IdKey>
    decreases parsed.len(),
{
    if parsed.len() == 0 {
        Seq::empty()
    } else {
        named_models(parsed.drop_last()) + match parsed.last().1 {
            Ok(raw) => state_models(raw),
            Err(_) => Seq::empty(),
        }
    }
}

/// What reading the states records: each state with neither variants nor parts, and each that
/// could not be read, with why.
pub open spec fn parse_reports(d: DiagnosticsView, parsed: Seq<(ResourceId, Result<RawBlockState, BlockStateError>)>) -> DiagnosticsView
    decreases parsed.len(),
{
    if parsed.len() == 0 {
        d
    } else {
        let before = parse_reports(d, parsed.drop_last());
        let id = parsed.last().0.text();
        match parsed.last().1 {
            Ok(raw) => if raw.variants is None && raw.multipart is None {
                recorded(before, Severity::Error, empty_site(), id, Seq::empty(), "Block state has no variants or multipart"@)
            } else {
                before
            },
            Err(e) => recorded(before, Severity::Error, unread_site(), id, Seq::empty(), "Failed to parse block state: "@ + blockstate_error_text(e)),
        }
    }
}

/// The models to load for the states read: each model they name, once, in the order first
/// named (see [`named_models`]); each state that cannot be used is reported (see
/// [`parse_reports`]).
pub fn models_to_prime(parsed: &Vec<(ResourceId, Result<RawBlockState, BlockStateError>)>, diag: &mut Diagnostics) -> (ids: Vec<ResourceId>)
    requires
        old(diag).wf(),
    ensures
        final(diag).wf(),
        keys_of(ids@) == pending(named_models(parsed@), Set::empty(), Set::empty()),
        final(diag)@ == parse_reports(old(diag)@, parsed@),
{
    let ghost d0 = diag@;
    let mut found: Vec<ResourceId> = Vec::new();
    let mut i: usize = 0;
    while i < parsed.len()
        invariant
            i <= parsed@.len(),
            diag.wf(),
            keys_of(found@) == named_models(parsed@.take(i as int)),
            diag@ == parse_reports(d0, parsed@.take(i as int)),
        decreases parsed.len() - i,
    {
        proof {
            assert(parsed@.take(i as int + 1).drop_last() =~= parsed@.take(i as int));
            assert(parsed@.take(i as int + 1).last() == parsed@[i as int]);
        }
        let ghost f0 = keys_of(found@);
        match &parsed[i].1 {
            Ok(raw) => {
                if raw.variants.is_none() && raw.multipart.is_none() {
                    let site = Site::at("resource/blockstate/cache.rs", 53, 26);
                    diag.error(&site, parsed[i].0.to_string().as_str(), "Block state has no variants or multipart".to_owned());
                } else {
                    if let Some(parts) = &raw.multipart {
                        let mut j: usize = 0;
                        while j < parts.len()
                            invariant
                                j <= parts@.len(),
                                keys_of(found@) == f0 + part_models(parts@.take(j as int)),
                            decreases parts.len() - j,
                        {
                            proof {
                                assert(parts@.take(j as int + 1).drop_last() =~= parts@.take(j as int));
                            }
                            walk_variants(&parts[j].apply, &mut found);
                            j = j + 1;
                        }
                        proof {
                            assert(parts@.take(j as int) =~= parts@);
                        }
                    }
                    let ghost f1 = keys_of(found@);
                    if let Some(vs) = &raw.variants {
                        let mut j: usize = 0;
                        while j < vs.len()
                            invariant
                                j <= vs@.len(),
                                keys_of(found@) == f1 + keyed_models(vs@.take(j as int)),
                            decreases vs.len() - j,
                        {
                            proof {
                                assert(vs@.take(j as int + 1).drop_last() =~= vs@.take(j as int));
                            }
                            walk_variants(&vs[j].1, &mut found);
                            j = j + 1;
                        }
                        proof {
                            assert(vs@.take(j as int) =~= vs@);
                        }
                    }
                }
            },
            Err(e) => {
                let mut message = "Failed to parse block state: ".to_owned();
                push_str(&mut message, e.to_string().as_str());
                let site = Site::at("resource/blockstate/cache.rs", 68, 26);
                diag.error(&site, parsed[i].0.to_string().as_str(), message);
            },
        }
        proof {
            assert(keys_of(found@) =~= named_models(parsed@.take(i as int + 1)));
        }
        i = i + 1;
    }
    proof {
        assert(parsed@.take(i as int) =~= parsed@);
    }
    let mut seen: IdMap<()> = IdMap::new();
    let known: IdMap<()> = IdMap::new();
    pending_batch(found, &mut seen, &known)
}

} // verus!
