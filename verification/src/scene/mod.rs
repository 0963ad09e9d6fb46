//! Rendering decisions: which models an item draws, the block tints, and how texture slots are
//! turned into sprite ids.

pub mod blockstate;
pub mod capture;
pub mod catalog;
pub mod layered;
pub mod rasterize;

use vstd::prelude::*;
use crate::diagnostics::{Diagnostics, DiagnosticsView, Severity, Site, SiteView, recorded};
use crate::resource::id::{ResourceId, InvalidResourceId, parse_id};
use crate::resource::item::ItemModel;
use crate::text::push_str;

verus! {

/// Why a rendering failed.
#[derive(Clone, Debug)]
pub enum RenderError {
    NoGeometry(ResourceId),
    NoVariant(ResourceId, String),
    NotPrimed(ResourceId),
}

/// The error as a sentence.
pub open spec fn render_error_text(e: RenderError) -> Seq<char> {
    match e {
        RenderError::NoGeometry(id) => id.text() + " has no geometry to render"@,
        RenderError::NoVariant(id, props) => "No blockstate variant of "@ + id.text() + " matches "@ + props@,
        RenderError::NotPrimed(id) => id.text() + " was not primed"@,
    }
}

impl RenderError {
    /// The error as a sentence (see [`render_error_text`]).
    pub fn to_string(&self) -> (out: String)
        ensures
            out@ == render_error_text(*self),
    {
        match self {
            RenderError::NoGeometry(id) => {
                let mut out = id.to_string();
                push_str(&mut out, " has no geometry to render");
                out
            },
            RenderError::NoVariant(id, props) => {
                let mut out = "No blockstate variant of ".to_owned();
                push_str(&mut out, id.to_string().as_str());
                push_str(&mut out, " matches ");
                push_str(&mut out, props.as_str());
                out
            },
            RenderError::NotPrimed(id) => {
                let mut out = id.to_string();
                push_str(&mut out, " was not primed");
                out
            },
        }
    }
}

/// The grass tint of blocks that use it.
pub const GRASS_TINT: u32 = 0xFF7CBD6B;

/// The fixed tints of a `minecraft` block, by tint index; other blocks have none.
pub open spec fn block_tints(namespace: Seq<char>, path: Seq<char>) -> Seq<u32> {
    if namespace != "minecraft"@ {
        Seq::empty()
    } else if path == "grass_block"@ || path == "short_grass"@ || path == "fern"@ || path == "potted_fern"@ || path == "bush"@
        || path == "tall_grass"@ || path == "large_fern"@ {
        seq![GRASS_TINT]
    } else if path == "pink_petals"@ || path == "wildflowers"@ {
        seq![0xFFFFFFFFu32, GRASS_TINT]
    } else if path == "spruce_leaves"@ {
        seq![0xFF619961u32]
    } else if path == "birch_leaves"@ {
        seq![0xFF80A755u32]
    } else if path == "oak_leaves"@ || path == "jungle_leaves"@ || path == "acacia_leaves"@ || path == "dark_oak_leaves"@
        || path == "mangrove_leaves"@ || path == "vines"@ {
        seq![0xFF48B518u32]
    } else if path == "leaf_litter"@ {
        seq![0xFF5C3C32u32]
    } else if path == "water"@ || path == "water_cauldron"@ || path == "bubble_column"@ || path == "sugar_cane"@ {
        seq![0xFFFFFFFFu32]
    } else if path == "redstone_wire"@ {
        seq![0xFF4C0000u32]
    } else if path == "attached_pumpkin_stem"@ || path == "attached_melon_stem"@ {
        seq![0xFFE0C71Cu32]
    } else if path == "pumpkin_stem"@ || path == "melon_stem"@ {
        seq![0xFF00FF00u32]
    } else if path == "lily_pad"@ {
        seq![0xFF71C35Cu32]
    } else {
        Seq::empty()
    }
}

fn named(s: &String, lit: &str) -> (b: bool)
    ensures
        b == (s@ == lit@),
{
    *s == lit.to_owned()
}

/// The fixed tints of a block (see [`block_tints`]).
pub fn tints_for_block(block: &ResourceId) -> (t: Vec<u32>)
    ensures
        t@ == block_tints(block.namespace@, block.path@),
{
    if !named(&block.namespace, "minecraft") {
        return Vec::new();
    }
    let p = &block.path;
    if named(p, "grass_block") || named(p, "short_grass") || named(p, "fern") || named(p, "potted_fern") || named(p, "bush") || named(p, "tall_grass")
        || named(p, "large_fern") {
        vec![GRASS_TINT]
    } else if named(p, "pink_petals") || named(p, "wildflowers") {
        vec![0xFFFFFFFF, GRASS_TINT]
    } else if named(p, "spruce_leaves") {
        vec![0xFF619961]
    } else if named(p, "birch_leaves") {
        vec![0xFF80A755]
    } else if named(p, "oak_leaves") || named(p, "jungle_leaves") || named(p, "acacia_leaves") || named(p, "dark_oak_leaves") || named(p, "mangrove_leaves") || named(p, "vines") {
        vec![0xFF48B518]
    } else if named(p, "leaf_litter") {
        vec![0xFF5C3C32]
    } else if named(p, "water") || named(p, "water_cauldron") || named(p, "bubble_column") || named(p, "sugar_cane") {
        vec![0xFFFFFFFF]
    } else if named(p, "redstone_wire") {
        vec![0xFF4C0000]
    } else if named(p, "attached_pumpkin_stem") || named(p, "attached_melon_stem") {
        vec![0xFFE0C71C]
    } else if named(p, "pumpkin_stem") || named(p, "melon_stem") {
        vec![0xFF00FF00]
    } else if named(p, "lily_pad") {
        vec![0xFF71C35C]
    } else {
        Vec::new()
    }
}

/// The models an item model draws, bottom first: a composite draws its layers in order, a
/// model or special model draws itself, and anything else draws nothing.
pub open spec fn draw_order_of<M>(node: ItemModel<M>) -> Seq<ItemModel<M>>
    decreases node,
{
    match node {
        ItemModel::Composite(layers) => layers_order(layers@),
        ItemModel::Model { .. } => seq![node],
        ItemModel::Special { .. } => seq![node],
        _ => Seq::empty(),
    }
}

/// The models a list of layers draws, in order.
pub open spec fn layers_order<M>(layers: Seq<ItemModel<M>>) -> Seq<ItemModel<M>>
    decreases layers,
{
    if layers.len() == 0 {
        Seq::empty()
    } else {
        layers_order(layers.drop_last()) + draw_order_of(layers.last())
    }
}

/// The models an item model draws (see [`draw_order_of`]).
pub fn draw_order<'a, M>(node: &'a ItemModel<M>, out: &mut Vec<&'a ItemModel<M>>)
    ensures
        final(out)@.map_values(|n: &ItemModel<M>| *n) == old(out)@.map_values(|n: &ItemModel<M>| *n) + draw_order_of(*node),
    decreases node,
{
    match node {
        ItemModel::Composite(layers) => {
            let ghost start = out@.map_values(|n: &ItemModel<M>| *n);
            let mut i: usize = 0;
            proof {
                assert(layers@.take(0) =~= Seq::<ItemModel<M>>::empty());
                assert(start + layers_order(layers@.take(0)) =~= start);
            }
            while i < layers.len()
                invariant
                    i <= layers@.len(),
                    *node == ItemModel::Composite(*layers),
                    out@.map_values(|n: &ItemModel<M>| *n) == start + layers_order(layers@.take(i as int)),
                decreases layers.len() - i,
            {
                proof {
                    assert(decreases_to!(*node => node->Composite_0));
                    assert(decreases_to!(node->Composite_0 => node->Composite_0[i as int]));
                }
                draw_order(&layers[i], out);
                proof {
                    assert(layers@.take(i as int + 1).drop_last() =~= layers@.take(i as int));
                    assert(layers@.take(i as int + 1).last() == layers@[i as int]);
                }
                i = i + 1;
            }
            proof {
                assert(layers@.take(i as int) =~= layers@);
            }
        },
        ItemModel::Model { .. } => {
            let ghost before = out@.map_values(|n: &ItemModel<M>| *n);
            out.push(node);
            assert(out@.map_values(|n: &ItemModel<M>| *n) =~= before.push(*node));
        },
        ItemModel::Special { .. } => {
            let ghost before = out@.map_values(|n: &ItemModel<M>| *n);
            out.push(node);
            assert(out@.map_values(|n: &ItemModel<M>| *n) =~= before.push(*node));
        },
        _ => {
            assert(out@.map_values(|n: &ItemModel<M>| *n) =~= old(out)@.map_values(|n: &ItemModel<M>| *n));
        },
    }
}

/// Where a slot whose sprite is not a valid id is reported.
pub open spec fn slot_site() -> SiteView {
    ("scene/mod.rs"@, 201u32, 40u32)
}

/// Where a slot whose sprite cannot be loaded is reported.
pub open spec fn slot_load_site() -> SiteView {
    ("scene/mod.rs"@, 216u32, 52u32)
}

/// The sprite id of a model's texture slot: its sprite parsed as an identifier. One that is
/// not an identifier is reported as an error against the subject, and the checkerboard is
/// drawn in its place.
pub fn slot_sprite_id(key: &String, sprite: &String, subject: &ResourceId, diag: &mut Diagnostics) -> (r: Option<ResourceId>)
    requires
        old(diag).wf(),
    ensures
        final(diag).wf(),
        match r {
            Some(id) => parse_id(sprite@) == Some((id.namespace@, id.path@)) && final(diag)@ == old(diag)@,
            None => parse_id(sprite@) is None && final(diag)@ == recorded(
                old(diag)@,
                Severity::Error,
                slot_site(),
                subject.text(),
                Seq::empty(),
                "Slot \""@ + key@ + "\" is not a valid resource id: "@ + sprite@,
            ),
        },
{
    match ResourceId::from_str(sprite.as_str()) {
        Ok(id) => Some(id),
        Err(_) => {
            let mut m = "Slot \"".to_owned();
            push_str(&mut m, key.as_str());
            push_str(&mut m, "\" is not a valid resource id: ");
            push_str(&mut m, sprite.as_str());
            let site = Site::at("scene/mod.rs", 201, 40);
            diag.error(&site, subject.to_string().as_str(), m);
            None
        },
    }
}

/// Reports a slot whose sprite could not be loaded, as an error against the subject.
pub fn report_slot_error(key: &String, error: &String, subject: &ResourceId, diag: &mut Diagnostics)
    requires
        old(diag).wf(),
    ensures
        final(diag).wf(),
        final(diag)@ == recorded(old(diag)@, Severity::Error, slot_load_site(), subject.text(), Seq::empty(), "Slot \""@ + key@ + "\": "@ + error@),
{
    let mut m = "Slot \"".to_owned();
    push_str(&mut m, key.as_str());
    push_str(&mut m, "\": ");
    push_str(&mut m, error.as_str());
    let site = Site::at("scene/mod.rs", 216, 52);
    diag.error(&site, subject.to_string().as_str(), m);
}

} // verus!
