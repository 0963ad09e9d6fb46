//! Resolving an item definition: each model it names is looked up among the loaded models,
//! and what cannot be used is reported.

use vstd::prelude::*;
use crate::diagnostics::{Diagnostics, DiagnosticsView, Severity, Site, SiteView, recorded};
use crate::resource::id::{IdMap, ResourceId};
use crate::resource::item::{ConditionProperty, Item, ItemError, ItemModel, RangeProperty, SelectProperty, item_error_text};
use crate::resource::model::cache::{IdKey, pending, pending_batch};
use crate::resource::tint::TintSource;
use crate::text::push_str;

verus! {

/// An item model as written. Thresholds and scales keep the bits of their `f32` values; the
/// tints are already read.
pub enum RawItemModel {
    Empty,
    Model { model: ResourceId, tints: Vec<TintSource> },
    RangeDispatch {
        property: RangeProperty,
        scale: u32,
        entries: Vec<(u32, RawItemModel)>,
        fallback: Option<Box<RawItemModel>>,
    },
    Special { base: ResourceId },
    Composite { models: Vec<RawItemModel> },
    BundleSelectedItem,
    Select { property: SelectProperty, cases: Vec<(Vec<String>, RawItemModel)>, fallback: Option<Box<RawItemModel>> },
    Condition { property: ConditionProperty, on_true: Box<RawItemModel>, on_false: Box<RawItemModel> },
    Unknown,
}

/// An item definition as written: its model and whether it may draw past its GUI slot.
pub struct RawItem {
    pub model: RawItemModel,
    pub oversized_in_gui: bool,
}

/// Whether `out` is `raw` with each model it names looked up: a model that is not loaded, and
/// each kind that draws nothing here, gives an empty model; the rest keep their shape.
pub open spec fn resolves<M>(models: Map<(Seq<char>, Seq<char>), M>, raw: RawItemModel, out: ItemModel<M>) -> bool
    decreases raw,
{
    match raw {
        RawItemModel::Model { model, tints } => if models.contains_key(model.pair()) {
            out == (ItemModel::Model { model: models[model.pair()], tints })
        } else {
            out is Empty
        },
        RawItemModel::Special { base } => if models.contains_key(base.pair()) {
            out == (ItemModel::<M>::Special { base: models[base.pair()] })
        } else {
            out is Empty
        },
        RawItemModel::RangeDispatch { property, scale, entries, fallback } => match out {
            ItemModel::RangeDispatch { property: p, scale: s, entries: e, fallback: f } => {
                &&& p == property
                &&& s == scale
                &&& e@.len() == entries@.len()
                &&& forall|i: int| 0 <= i < entries@.len() ==> (#[trigger] e@[i]).0 == entries@[i].0 && resolves(models, entries@[i].1, e@[i].1)
                &&& match (fallback, f) {
                    (None, None) => true,
                    (Some(a), Some(b)) => resolves(models, *a, *b),
                    _ => false,
                }
            },
            _ => false,
        },
        RawItemModel::Composite { models: children } => match out {
            ItemModel::Composite(c) => {
                &&& c@.len() == children@.len()
                &&& forall|i: int| 0 <= i < children@.len() ==> resolves(models, children@[i], #[trigger] c@[i])
            },
            _ => false,
        },
        RawItemModel::Select { property, cases, fallback } => match out {
            ItemModel::Select { property: p, cases: c, fallback: f } => {
                &&& p == property
                &&& c@.len() == cases@.len()
                &&& forall|i: int| 0 <= i < cases@.len() ==> (#[trigger] c@[i]).0 == cases@[i].0 && resolves(models, cases@[i].1, c@[i].1)
                &&& match (fallback, f) {
                    (None, None) => true,
                    (Some(a), Some(b)) => resolves(models, *a, *b),
                    _ => false,
                }
            },
            _ => false,
        },
        RawItemModel::Condition { property, on_true, on_false } => match out {
            ItemModel::Condition { property: p, on_true: t, on_false: f } => {
                &&& p == property
                &&& resolves(models, *on_true, *t)
                &&& resolves(models, *on_false, *f)
            },
            _ => false,
        },
        _ => out is Empty,
    }
}

/// Where a model that is not loaded is reported.
pub open spec fn unprimed_site() -> SiteView {
    ("resource/item/cache.rs"@, 112u32, 17u32)
}

/// Where an item model of an unknown kind is reported.
pub open spec fn unknown_site() -> SiteView {
    ("resource/item/cache.rs"@, 170u32, 17u32)
}

/// What looking up one named model records: an error against the item when it is not loaded.
pub open spec fn lookup_reports<M>(d: DiagnosticsView, models: Map<(Seq<char>, Seq<char>), M>, id: Seq<char>, target: ResourceId) -> DiagnosticsView {
    if models.contains_key(target.pair()) {
        d
    } else {
        recorded(d, Severity::Error, unprimed_site(), id, Seq::empty(), "item references unprimed model "@ + target.text())
    }
}

/// What resolving an item model records, walking it in order: entries before the fallback,
/// cases before the fallback, the true branch before the false one.
pub open spec fn item_reports<M>(d: DiagnosticsView, models: Map<(Seq<char>, Seq<char>), M>, id: Seq<char>, raw: RawItemModel) -> DiagnosticsView
    decreases raw,
{
    match raw {
        RawItemModel::Model { model, .. } => lookup_reports(d, models, id, model),
        RawItemModel::Special { base } => lookup_reports(d, models, id, base),
        RawItemModel::RangeDispatch { entries, fallback, .. } => {
            let after = entry_reports(d, models, id, entries@);
            match fallback {
                Some(f) => item_reports(after, models, id, *f),
                None => after,
            }
        },
        RawItemModel::Composite { models: children } => list_reports(d, models, id, children@),
        RawItemModel::Select { cases, fallback, .. } => {
            let after = case_reports(d, models, id, cases@);
            match fallback {
                Some(f) => item_reports(after, models, id, *f),
                None => after,
            }
        },
        RawItemModel::Condition { on_true, on_false, .. } => item_reports(item_reports(d, models, id, *on_true), models, id, *on_false),
        RawItemModel::Unknown => recorded(d, Severity::Warning, unknown_site(), id, "unsupported-item-model"@, "unsupported item model type"@),
        _ => d,
    }
}

/// What resolving range entries records, in order.
pub open spec fn entry_reports<M>(d: DiagnosticsView, models: Map<(Seq<char>, Seq<char>), M>, id: Seq<char>, es: Seq<(u32, RawItemModel)>) -> DiagnosticsView
    decreases es,
{
    if es.len() == 0 {
        d
    } else {
        item_reports(entry_reports(d, models, id, es.drop_last()), models, id, es.last().1)
    }
}

/// What resolving select cases records, in order.
pub open spec fn case_reports<M>(d: DiagnosticsView, models: Map<(Seq<char>, Seq<char>), M>, id: Seq<char>, cs: Seq<(Vec<String>, RawItemModel)>) -> DiagnosticsView
    decreases cs,
{
    if cs.len() == 0 {
        d
    } else {
        item_reports(case_reports(d, models, id, cs.drop_last()), models, id, cs.last().1)
    }
}

/// What resolving a list of models records, in order.
pub open spec fn list_reports<M>(d: DiagnosticsView, models: Map<(Seq<char>, Seq<char>), M>, id: Seq<char>, ms: Seq<RawItemModel>) -> DiagnosticsView
    decreases ms,
{
    if ms.len() == 0 {
        d
    } else {
        item_reports(list_reports(d, models, id, ms.drop_last()), models, id, ms.last())
    }
}

/// Looks up a model an item names; one that is not loaded is reported against the item.
fn model_of<M: Copy>(models: &IdMap<M>, id: &ResourceId, target: &ResourceId, diag: &mut Diagnostics) -> (m: Option<M>)
    requires
        models.wf(),
        old(diag).wf(),
    ensures
        final(diag).wf(),
        final(diag)@ == lookup_reports(old(diag)@, models@, id.text(), *target),
        match m {
            Some(v) => models@.contains_key(target.pair()) && v == models@[target.pair()],
            None => !models@.contains_key(target.pair()),
        },
{
    match models.get(target) {
        Some(m) => Some(*m),
        None => {
            let mut message = "item references unprimed model ".to_owned();
            push_str(&mut message, target.to_string().as_str());
            let site = Site::at("resource/item/cache.rs", 112, 17);
            diag.error(&site, id.to_string().as_str(), message);
            None
        },
    }
}

/// Resolves an item model (see [`resolves`]), reporting what cannot be used (see
/// [`item_reports`]).
pub fn resolve<M: Copy>(models: &IdMap<M>, id: &ResourceId, raw: RawItemModel, diag: &mut Diagnostics) -> (out: ItemModel<M>)
    requires
        models.wf(),
        old(diag).wf(),
    ensures
        final(diag).wf(),
        resolves(models@, raw, out),
        final(diag)@ == item_reports(old(diag)@, models@, id.text(), raw),
    decreases raw,
{
    let ghost raw0 = raw;
    let ghost d0 = diag@;
    match raw {
        RawItemModel::Model { model, tints } => match model_of(models, id, &model, diag) {
            Some(m) => ItemModel::Model { model: m, tints },
            None => ItemModel::Empty,
        },
        RawItemModel::Special { base } => match model_of(models, id, &base, diag) {
            Some(m) => ItemModel::Special { base: m },
            None => ItemModel::Empty,
        },
        RawItemModel::RangeDispatch { property, scale, entries, fallback } => {
            let ghost es = entries@;
            proof {
                assert(decreases_to!(raw0 => raw0->entries));
                assert forall|i: int| 0 <= i < es.len() implies decreases_to!(raw0 => (#[trigger] es[i]).1) by {
                    assert(decreases_to!(raw0->entries => raw0->entries@[i]));
                    assert(decreases_to!(raw0->entries@[i] => raw0->entries@[i].1));
                }
            }
            let mut out_entries: Vec<(u32, ItemModel<M>)> = Vec::new();
            for entry in it: entries.into_iter()
                invariant
                    es == it.seq(),
                    models.wf(),
                    diag.wf(),
                    raw0 == raw,
                    forall|i: int| 0 <= i < es.len() ==> decreases_to!(raw0 => (#[trigger] es[i]).1),
                    out_entries@.len() == it.index(),
                    forall|i: int| 0 <= i < it.index() ==> (#[trigger] out_entries@[i]).0 == es[i].0 && resolves(models@, es[i].1, out_entries@[i].1),
                    diag@ == entry_reports(d0, models@, id.text(), es.take(it.index())),
            {
                let ghost k = it.index();
                proof {
                    assert(es.take(k + 1).drop_last() =~= es.take(k));
                    assert(es.take(k + 1).last() == entry);
                    assert(decreases_to!(raw0 => es[k].1));
                }
                let (threshold, child) = entry;
                let resolved = resolve(models, id, child, diag);
                out_entries.push((threshold, resolved));
            }
            proof {
                assert(es.take(es.len() as int) =~= es);
            }
            let out_fallback = match fallback {
                Some(f) => {
                    proof {
                        assert(decreases_to!(raw0 => raw0->RangeDispatch_fallback));
                    }
                    Some(Box::new(resolve(models, id, *f, diag)))
                },
                None => None,
            };
            ItemModel::RangeDispatch { property, scale, entries: out_entries, fallback: out_fallback }
        },
        RawItemModel::Composite { models: children } => {
            let ghost ms = children@;
            proof {
                assert(decreases_to!(raw0 => raw0->models));
                assert forall|i: int| 0 <= i < ms.len() implies decreases_to!(raw0 => #[trigger] ms[i]) by {
                    assert(decreases_to!(raw0->models => raw0->models@[i]));
                }
            }
            let mut out_models: Vec<ItemModel<M>> = Vec::new();
            for child in it: children.into_iter()
                invariant
                    ms == it.seq(),
                    models.wf(),
                    diag.wf(),
                    raw0 == raw,
                    forall|i: int| 0 <= i < ms.len() ==> decreases_to!(raw0 => #[trigger] ms[i]),
                    out_models@.len() == it.index(),
                    forall|i: int| 0 <= i < it.index() ==> resolves(models@, ms[i], #[trigger] out_models@[i]),
                    diag@ == list_reports(d0, models@, id.text(), ms.take(it.index())),
            {
                let ghost k = it.index();
                proof {
                    assert(ms.take(k + 1).drop_last() =~= ms.take(k));
                    assert(ms.take(k + 1).last() == child);
                    assert(decreases_to!(raw0 => ms[k]));
                }
                let resolved = resolve(models, id, child, diag);
                out_models.push(resolved);
            }
            proof {
                assert(ms.take(ms.len() as int) =~= ms);
            }
            ItemModel::Composite(out_models)
        },
        RawItemModel::Select { property, cases, fallback } => {
            let ghost cs = cases@;
            proof {
                assert(decreases_to!(raw0 => raw0->cases));
                assert forall|i: int| 0 <= i < cs.len() implies decreases_to!(raw0 => (#[trigger] cs[i]).1) by {
                    assert(decreases_to!(raw0->cases => raw0->cases@[i]));
                    assert(decreases_to!(raw0->cases@[i] => raw0->cases@[i].1));
                }
            }
            let mut out_cases: Vec<(Vec<String>, ItemModel<M>)> = Vec::new();
            for case in it: cases.into_iter()
                invariant
                    cs == it.seq(),
                    models.wf(),
                    diag.wf(),
                    raw0 == raw,
                    forall|i: int| 0 <= i < cs.len() ==> decreases_to!(raw0 => (#[trigger] cs[i]).1),
                    out_cases@.len() == it.index(),
                    forall|i: int| 0 <= i < it.index() ==> (#[trigger] out_cases@[i]).0 == cs[i].0 && resolves(models@, cs[i].1, out_cases@[i].1),
                    diag@ == case_reports(d0, models@, id.text(), cs.take(it.index())),
            {
                let ghost k = it.index();
                proof {
                    assert(cs.take(k + 1).drop_last() =~= cs.take(k));
                    assert(cs.take(k + 1).last() == case);
                    assert(decreases_to!(raw0 => cs[k].1));
                }
                let (when, child) = case;
                let resolved = resolve(models, id, child, diag);
                out_cases.push((when, resolved));
            }
            proof {
                assert(cs.take(cs.len() as int) =~= cs);
            }
            let out_fallback = match fallback {
                Some(f) => {
                    proof {
                        assert(decreases_to!(raw0 => raw0->Select_fallback));
                    }
                    Some(Box::new(resolve(models, id, *f, diag)))
                },
                None => None,
            };
            ItemModel::Select { property, cases: out_cases, fallback: out_fallback }
        },
        RawItemModel::Condition { property, on_true, on_false } => {
            let t = resolve(models, id, *on_true, diag);
            let f = resolve(models, id, *on_false, diag);
            ItemModel::Condition { property, on_true: Box::new(t), on_false: Box::new(f) }
        },
        RawItemModel::Unknown => {
            let site = Site::at("resource/item/cache.rs", 170, 17);
            diag.warn_keyed(&site, id.to_string().as_str(), "unsupported-item-model", "unsupported item model type".to_owned());
            ItemModel::Empty
        },
        RawItemModel::Empty => ItemModel::Empty,
        RawItemModel::BundleSelectedItem => ItemModel::Empty,
    }
}

/// An item with its model resolved (see [`resolve`]).
pub fn resolve_item<M: Copy>(models: &IdMap<M>, id: &ResourceId, raw: RawItem, diag: &mut Diagnostics) -> (item: Item<M>)
    requires
        models.wf(),
        old(diag).wf(),
    ensures
        final(diag).wf(),
        resolves(models@, raw.model, item.model),
        item.oversized_in_gui == raw.oversized_in_gui,
        final(diag)@ == item_reports(old(diag)@, models@, id.text(), raw.model),
{
    Item { model: resolve(models, id, raw.model, diag), oversized_in_gui: raw.oversized_in_gui }
}


/// The models an item model names, in the order it is walked: entries before the fallback,
/// cases before the fallback, the true branch before the false one.
pub open spec fn item_models(raw: RawItemModel) -> Seq<IdKey>
    decreases raw,
{
    match raw {
        RawItemModel::Model { model, .. } => seq![model.pair()],
        RawItemModel::Special { base } => seq![base.pair()],
        RawItemModel::RangeDispatch { entries, fallback, .. } => entry_models(entries@) + match fallback {
            Some(f) => item_models(*f),
            None => Seq::empty(),
        },
        RawItemModel::Composite { models } => list_models(models@),
        RawItemModel::Select { cases, fallback, .. } => case_models(cases@) + match fallback {
            Some(f) => item_models(*f),
            None => Seq::empty(),
        },
        RawItemModel::Condition { on_true, on_false, .. } => item_models(*on_true) + item_models(*on_false),
        _ => Seq::empty(),
    }
}

/// The models range entries name, in order.
pub open spec fn entry_models(es: Seq<(u32, RawItemModel)>) -> Seq<IdKey>
    decreases es,
{
    if es.len() == 0 {
        Seq::empty()
    } else {
        entry_models(es.drop_last()) + item_models(es.last().1)
    }
}

/// The models select cases name, in order.
pub open spec fn case_models(cs: Seq<(Vec<String>, RawItemModel)>) -> Seq<IdKey>
    decreases cs,
{
    if cs.len() == 0 {
        Seq::empty()
    } else {
        case_models(cs.drop_last()) + item_models(cs.last().1)
    }
}

/// The models a list of item models names, in order.
pub open spec fn list_models(ms: Seq<RawItemModel>) -> Seq<IdKey>
    decreases ms,
{
    if ms.len() == 0 {
        Seq::empty()
    } else {
        list_models(ms.drop_last()) + item_models(ms.last())
    }
}

/// The keys of a list of identifiers.
pub open spec fn keys_of(ids: Seq<ResourceId>) -> Seq<IdKey> {
    ids.map_values(|id: ResourceId| id.pair())
}

proof fn lemma_keys_push(ids: Seq<ResourceId>, id: ResourceId)
    ensures
        keys_of(ids.push(id)) == keys_of(ids).push(id.pair()),
{
    assert(keys_of(ids.push(id)) =~= keys_of(ids).push(id.pair()));
}

/// Appends the models an item model names (see [`item_models`]).
pub fn walk(model: &RawItemModel, found: &mut Vec<ResourceId>)
    ensures
        keys_of(final(found)@) == keys_of(old(found)@) + item_models(*model),
    decreases model,
{
    match model {
        RawItemModel::Model { model: m, .. } => {
            proof {
                lemma_keys_push(found@, *m);
            }
            found.push(m.duplicate());
        },
        RawItemModel::Special { base } => {
            proof {
                lemma_keys_push(found@, *base);
            }
            found.push(base.duplicate());
        },
        RawItemModel::RangeDispatch { property, scale, entries, fallback } => {
            let ghost f0 = keys_of(found@);
            let mut i: usize = 0;
            while i < entries.len()
                invariant
                    i <= entries@.len(),
                    *model == (RawItemModel::RangeDispatch { property: *property, scale: *scale, entries: *entries, fallback: *fallback }),
                    keys_of(found@) == f0 + entry_models(entries@.take(i as int)),
                decreases entries.len() - i,
            {
                proof {
                    assert(entries@.take(i as int + 1).drop_last() =~= entries@.take(i as int));
                    assert(decreases_to!(*model => model->entries));
                    assert(decreases_to!(model->entries => model->entries@[i as int]));
                }
                walk(&entries[i].1, found);
                i = i + 1;
            }
            proof {
                assert(entries@.take(i as int) =~= entries@);
            }
            if let Some(f) = fallback {
                walk(f, found);
            }
        },
        RawItemModel::Composite { models } => {
            let ghost f0 = keys_of(found@);
            let mut i: usize = 0;
            while i < models.len()
                invariant
                    i <= models@.len(),
                    *model == (RawItemModel::Composite { models: *models }),
                    keys_of(found@) == f0 + list_models(models@.take(i as int)),
                decreases models.len() - i,
            {
                proof {
                    assert(models@.take(i as int + 1).drop_last() =~= models@.take(i as int));
                    assert(decreases_to!(*model => model->models));
                    assert(decreases_to!(model->models => model->models@[i as int]));
                }
                walk(&models[i], found);
                i = i + 1;
            }
            proof {
                assert(models@.take(i as int) =~= models@);
            }
        },
        RawItemModel::Select { property, cases, fallback } => {
            let ghost f0 = keys_of(found@);
            let mut i: usize = 0;
            while i < cases.len()
                invariant
                    i <= cases@.len(),
                    *model == (RawItemModel::Select { property: *property, cases: *cases, fallback: *fallback }),
                    keys_of(found@) == f0 + case_models(cases@.take(i as int)),
                decreases cases.len() - i,
            {
                proof {
                    assert(cases@.take(i as int + 1).drop_last() =~= cases@.take(i as int));
                    assert(decreases_to!(*model => model->cases));
                    assert(decreases_to!(model->cases => model->cases@[i as int]));
                }
                walk(&cases[i].1, found);
                i = i + 1;
            }
            proof {
                assert(cases@.take(i as int) =~= cases@);
            }
            if let Some(f) = fallback {
                walk(f, found);
            }
        },
        RawItemModel::Condition { on_true, on_false, .. } => {
            walk(on_true, found);
            walk(on_false, found);
        },
        _ => {},
    }
}

/// Where an item that could not be read is reported.
pub open spec fn parse_site() -> SiteView {
    ("resource/item/cache.rs"@, 52u32, 27u32)
}

/// The models the items read name, in order, before any is dropped as a repeat.
pub open spec fn named_models(parsed: Seq<(ResourceId, Result<RawItem, ItemError>)>) -> Seq<IdKey>
    decreases parsed.len(),
{
    if parsed.len() == 0 {
        Seq::empty()
    } else {
        named_models(parsed.drop_last()) + match parsed.last().1 {
            Ok(item) => item_models(item.model),
            Err(_) => Seq::empty(),
        }
    }
}

/// What reading the items records: each item that could not be read, with why.
pub open spec fn parse_reports(d: DiagnosticsView, parsed: Seq<(ResourceId, Result<RawItem, ItemError>)>) -> DiagnosticsView
    decreases parsed.len(),
{
    if parsed.len() == 0 {
        d
    } else {
        let before = parse_reports(d, parsed.drop_last());
        match parsed.last().1 {
            Ok(_) => before,
            Err(e) => recorded(before, Severity::Error, parse_site(), parsed.last().0.text(), Seq::empty(), "Failed to parse item: "@ + item_error_text(e)),
        }
    }
}

/// The models to load for the items read: each model they name, once, in the order first
/// named (see [`named_models`]); each item that could not be read is reported (see
/// [`parse_reports`]).
pub fn models_to_prime(parsed: &Vec<(ResourceId, Result<RawItem, ItemError>)>, diag: &mut Diagnostics) -> (ids: Vec<ResourceId>)
    requires
        old(diag).wf(),
    ensures
        final(diag).wf(),
        keys_of(ids@) == pending(named_models(parsed@), Set::empty(), Set::empty()),
        final(diag)@ == parse_reports(old(diag)@, parsed@),
{
    let ghost d0 = diag@;
    let mut found: Vec<ResourceId> = Vec::new();
    let mut i: usize = 0;
    while i < parsed.len()
        invariant
            i <= parsed@.len(),
            diag.wf(),
            keys_of(found@) == named_models(parsed@.take(i as int)),
            diag@ == parse_reports(d0, parsed@.take(i as int)),
        decreases parsed.len() - i,
    {
        proof {
            assert(parsed@.take(i as int + 1).drop_last() =~= parsed@.take(i as int));
            assert(parsed@.take(i as int + 1).last() == parsed@[i as int]);
        }
        match &parsed[i].1 {
            Ok(item) => walk(&item.model, &mut found),
            Err(e) => {
                let mut message = "Failed to parse item: ".to_owned();
                push_str(&mut message, e.to_string().as_str());
                let site = Site::at("resource/item/cache.rs", 52, 27);
                diag.error(&site, parsed[i].0.to_string().as_str(), message);
            },
        }
        proof {
            assert(keys_of(found@) =~= named_models(parsed@.take(i as int + 1)));
        }
        i = i + 1;
    }
    proof {
        assert(parsed@.take(i as int) =~= parsed@);
    }
    let mut seen: IdMap<()> = IdMap::new();
    let known: IdMap<()> = IdMap::new();
    pending_batch(found, &mut seen, &known)
}

} // verus!
