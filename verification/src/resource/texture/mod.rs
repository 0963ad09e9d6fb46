pub mod atlas;
pub mod cache;
pub mod mcmeta;
pub mod palette;
pub mod sprite;

use vstd::prelude::*;
use crate::text::{chars_of, string_of_range};

verus! {

/// The abstract content of a texture slot.
pub struct SlotView {
    pub sprite: Seq<char>,
    pub force_translucent: bool,
}

/// A texture slot of a model: the id of a sprite, or a `#reference` to another slot until the
/// model's textures are resolved.
#[derive(Clone, Debug, PartialEq, Eq)]
pub struct TextureSlot {
    pub sprite: String,
    pub force_translucent: bool,
}

impl View for TextureSlot {
    type V = SlotView;

    open spec fn view(&self) -> SlotView {
        SlotView { sprite: self.sprite@, force_translucent: self.force_translucent }
    }
}

/// A table of slots, by view.
pub open spec fn slot_views(m: Map<Seq<char>, TextureSlot>) -> Map<Seq<char>, SlotView> {
    m.map_values(|s: TextureSlot| s@)
}

/// The slot name that a sprite text refers to: what follows a leading `#`.
pub open spec fn reference_of(sprite: Seq<char>) -> Option<Seq<char>> {
    if sprite.len() > 0 && sprite[0] == '#' {
        Some(sprite.drop_first())
    } else {
        None
    }
}

impl TextureSlot {
    /// A slot naming a sprite directly, not forced translucent.
    pub fn new(sprite: String) -> (slot: TextureSlot)
        ensures
            slot@ == (SlotView { sprite: sprite@, force_translucent: false }),
    {
        TextureSlot { sprite, force_translucent: false }
    }

    /// A copy of the slot.
    pub fn duplicate(&self) -> (slot: TextureSlot)
        ensures
            slot@ == self@,
    {
        TextureSlot { sprite: self.sprite.clone(), force_translucent: self.force_translucent }
    }

    /// The slot this one refers to, if its sprite is a `#reference`.
    pub fn reference_target(&self) -> (target: Option<String>)
        ensures
            match target {
                Some(t) => reference_of(self.sprite@) == Some(t@),
                None => reference_of(self.sprite@) is None,
            },
    {
        let chars = chars_of(self.sprite.as_str());
        if chars.len() > 0 && chars[0] == '#' {
            let t = string_of_range(chars.as_slice(), 1, chars.len());
            assert(t@ =~= self.sprite@.drop_first());
            Some(t)
        } else {
            None
        }
    }
}

} // verus!
