//! Block and item models: the parts of collapsing a parent chain into one model that do not
//! touch geometry.

pub mod cache;
pub mod element;
pub mod slots;

use vstd::prelude::*;
use crate::diagnostics::{Diagnostics, Severity, Site, SiteView, recorded};
use crate::resource::texture::{SlotView, TextureSlot, slot_views};
use crate::text::{join, joined, push_str, sorted_unique, strictly_sorted, views};
use crate::util::collections::StrMap;

verus! {

/// How a model is lit in GUI rendering.
#[derive(Copy, Clone, Debug, PartialEq, Eq, Structural)]
pub enum GuiLight {
    Front,
    Side,
}

/// The contexts a model can define a display transform for, in the order they are stored.
#[derive(Copy, Clone, Debug, PartialEq, Eq, Structural)]
pub enum DisplayContext {
    ThirdpersonLefthand,
    ThirdpersonRighthand,
    FirstpersonLefthand,
    FirstpersonRighthand,
    Head,
    Gui,
    Ground,
    Fixed,
    OnShelf,
}

/// How many display contexts there are.
pub const DISPLAY_CONTEXT_COUNT: usize = 9;

/// The storage index of a display context.
pub open spec fn context_index(c: DisplayContext) -> nat {
    match c {
        DisplayContext::ThirdpersonLefthand => 0,
        DisplayContext::ThirdpersonRighthand => 1,
        DisplayContext::FirstpersonLefthand => 2,
        DisplayContext::FirstpersonRighthand => 3,
        DisplayContext::Head => 4,
        DisplayContext::Gui => 5,
        DisplayContext::Ground => 6,
        DisplayContext::Fixed => 7,
        DisplayContext::OnShelf => 8,
    }
}

impl DisplayContext {
    /// The storage index of the context.
    pub fn index(self) -> (i: usize)
        ensures
            i == context_index(self),
            i < DISPLAY_CONTEXT_COUNT,
    {
        match self {
            DisplayContext::ThirdpersonLefthand => 0,
            DisplayContext::ThirdpersonRighthand => 1,
            DisplayContext::FirstpersonLefthand => 2,
            DisplayContext::FirstpersonRighthand => 3,
            DisplayContext::Head => 4,
            DisplayContext::Gui => 5,
            DisplayContext::Ground => 6,
            DisplayContext::Fixed => 7,
            DisplayContext::OnShelf => 8,
        }
    }
}

/// The display transforms of a model as written, one per context; a left-hand transform that
/// is missing falls back to the right-hand one.
pub open spec fn display_of<T>(written: Seq<Option<T>>) -> Seq<Option<T>> {
    Seq::new(9, |i: int| {
        if i == 0 && written[0] is None {
            written[1]
        } else if i == 2 && written[2] is None {
            written[3]
        } else {
            written[i]
        }
    })
}

/// The display transforms of a model as written, indexed by context (see [`display_of`]).
pub fn display_from<T: Copy>(written: [Option<T>; 9]) -> (out: [Option<T>; 9])
    ensures
        out@ == display_of(written@),
{
    let third_right = written[1];
    let first_right = written[3];
    let third_left = match written[0] {
        Some(t) => Some(t),
        None => third_right,
    };
    let first_left = match written[2] {
        Some(t) => Some(t),
        None => first_right,
    };
    let out = [third_left, third_right, first_left, first_right, written[4], written[5], written[6], written[7], written[8]];
    assert(out@ =~= display_of(written@));
    out
}

/// The first value a chain of models sets, child first.
pub open spec fn first_set<T>(chain: Seq<Option<T>>) -> Option<T>
    decreases chain.len(),
{
    if chain.len() == 0 {
        None
    } else if chain[0] is Some {
        chain[0]
    } else {
        first_set(chain.drop_first())
    }
}

/// The first value a chain of models sets, child first (see [`first_set`]).
pub fn find_first<T: Copy>(chain: &[Option<T>]) -> (out: Option<T>)
    ensures
        out == first_set(chain@),
{
    let mut i: usize = 0;
    proof {
        assert(chain@.skip(0) =~= chain@);
    }
    while i < chain.len()
        invariant
            i <= chain@.len(),
            first_set(chain@) == first_set(chain@.skip(i as int)),
        decreases chain.len() - i,
    {
        proof {
            assert(chain@.skip(i as int).drop_first() =~= chain@.skip(i as int + 1));
        }
        if chain[i].is_some() {
            return chain[i];
        }
        i = i + 1;
    }
    None
}

/// Whether a chain's models use ambient occlusion: the first setting, else on.
pub fn ambient_occlusion_of(chain: &[Option<bool>]) -> (b: bool)
    ensures
        b == match first_set(chain@) {
            Some(v) => v,
            None => true,
        },
{
    match find_first(chain) {
        Some(v) => v,
        None => true,
    }
}

/// How a chain's models are lit in the GUI: the first setting, else from the side.
pub fn gui_light_of(chain: &[Option<GuiLight>]) -> (l: GuiLight)
    ensures
        l == match first_set(chain@) {
            Some(v) => v,
            None => GuiLight::Side,
        },
{
    match find_first(chain) {
        Some(v) => v,
        None => GuiLight::Side,
    }
}

/// The slot names of the layers of a generated item model, in order.
pub open spec fn layer_name(i: int) -> Seq<char> {
    if i == 0 {
        "layer0"@
    } else if i == 1 {
        "layer1"@
    } else if i == 2 {
        "layer2"@
    } else if i == 3 {
        "layer3"@
    } else {
        "layer4"@
    }
}

/// How many layers a generated item model has: the leading layer slots that are set, at most
/// five.
pub open spec fn layer_count(textures: Map<Seq<char>, SlotView>) -> nat {
    if !textures.contains_key(layer_name(0)) {
        0
    } else if !textures.contains_key(layer_name(1)) {
        1
    } else if !textures.contains_key(layer_name(2)) {
        2
    } else if !textures.contains_key(layer_name(3)) {
        3
    } else if !textures.contains_key(layer_name(4)) {
        4
    } else {
        5
    }
}

/// The layers of a generated item model: the slots `layer0` to `layer4`, up to the first that
/// is not set.
pub fn item_layers(textures: &StrMap<TextureSlot>) -> (out: Vec<TextureSlot>)
    requires
        textures.wf(),
    ensures
        out@.len() == layer_count(slot_views(textures@)),
        forall|i: int| 0 <= i < out@.len() ==> (#[trigger] out@[i])@ == textures@[layer_name(i)]@,
{
    let names: [&str; 5] = ["layer0", "layer1", "layer2", "layer3", "layer4"];
    let ghost tv = slot_views(textures@);
    let mut out: Vec<TextureSlot> = Vec::new();
    let mut i: usize = 0;
    while i < 5
        invariant
            i <= 5,
            names@ == seq!["layer0", "layer1", "layer2", "layer3", "layer4"],
            tv == slot_views(textures@),
            textures.wf(),
            out@.len() == i,
            i <= layer_count(tv),
            forall|j: int| 0 <= j < i ==> (#[trigger] out@[j])@ == textures@[layer_name(j)]@,
        decreases 5 - i,
    {
        let name = names[i];
        assert(name@ == layer_name(i as int));
        match textures.get(name) {
            Some(s) => {
                out.push(s.duplicate());
            },
            None => {
                return out;
            },
        }
        i = i + 1;
    }
    out
}

/// Where collapsing a model reports face textures that name no slot.
pub open spec fn missing_site() -> SiteView {
    ("resource/model/mod.rs"@, 190u32, 18u32)
}

/// The face textures that name no resolved slot.
pub open spec fn missing_names(faces: Seq<Seq<char>>, textures: Map<Seq<char>, SlotView>) -> Set<Seq<char>> {
    Set::new(|t: Seq<char>| faces.contains(t) && !textures.contains_key(t))
}

/// The warning for face textures that name no slot, listed in the given order.
pub open spec fn missing_message(names: Seq<Seq<char>>) -> Seq<char> {
    "Missing texture references: "@ + joined(names, ", "@)
}

/// `names` lists the missing face textures once each, in lexicographic order.
pub open spec fn lists_missing(faces: Seq<Seq<char>>, textures: Map<Seq<char>, SlotView>, names: Seq<Seq<char>>) -> bool {
    strictly_sorted(names) && names.to_set() == missing_names(faces, textures)
}

/// Reports the face textures of a model's elements that name no resolved slot, once each and in
/// lexicographic order, in one warning.
pub fn report_missing_textures(faces: &Vec<String>, textures: &StrMap<TextureSlot>, subject: &str, diag: &mut Diagnostics)
    requires
        textures.wf(),
        old(diag).wf(),
    ensures
        final(diag).wf(),
        missing_names(views(faces@), slot_views(textures@)).len() == 0 ==> final(diag)@ == old(diag)@,
        missing_names(views(faces@), slot_views(textures@)).len() > 0 ==> exists|names: Seq<Seq<char>>|
            #[trigger] lists_missing(views(faces@), slot_views(textures@), names)
            && final(diag)@ == recorded(old(diag)@, Severity::Warning, missing_site(), subject@, Seq::empty(), missing_message(names)),
{
    let ghost fv = views(faces@);
    let ghost tv = slot_views(textures@);
    let mut missing: Vec<String> = Vec::new();
    let mut i: usize = 0;
    while i < faces.len()
        invariant
            i <= faces@.len(),
            fv == views(faces@),
            tv == slot_views(textures@),
            textures.wf(),
            forall|t: Seq<char>| #[trigger] views(missing@).contains(t) <==> (fv.take(i as int).contains(t) && !tv.contains_key(t)),
        decreases faces.len() - i,
    {
        let ghost mv = views(missing@);
        let absent = !textures.contains_key(faces[i].as_str());
        if absent {
            missing.push(faces[i].clone());
            proof {
                assert(views(missing@) =~= mv.push(fv[i as int]));
            }
        }
        proof {
            assert(absent == !tv.contains_key(fv[i as int]));
            assert(fv.take(i as int + 1) =~= fv.take(i as int).push(fv[i as int]));
            assert forall|t: Seq<char>| #[trigger] views(missing@).contains(t) <==> (fv.take(i as int + 1).contains(t) && !tv.contains_key(t)) by {
                if absent {
                    if views(missing@).contains(t) && t != fv[i as int] {
                        let j = choose|j: int| 0 <= j < views(missing@).len() && views(missing@)[j] == t;
                        assert(mv[j] == t);
                        assert(mv.contains(t));
                    }
                    if mv.contains(t) {
                        let j = choose|j: int| 0 <= j < mv.len() && mv[j] == t;
                        assert(views(missing@)[j] == t);
                    }
                    if t == fv[i as int] {
                        assert(views(missing@)[mv.len() as int] == t);
                    }
                }
                let t1 = fv.take(i as int + 1);
                let t0 = fv.take(i as int);
                assert(mv.contains(t) <==> (t0.contains(t) && !tv.contains_key(t)));
                assert(t1[i as int] == fv[i as int]);
                if !absent {
                    assert(views(missing@) == mv);
                }
                if t1.contains(t) && t != fv[i as int] {
                    let j = choose|j: int| 0 <= j < t1.len() && #[trigger] t1[j] == t;
                    assert(t0[j] == t);
                }
                if t0.contains(t) {
                    let j = choose|j: int| 0 <= j < t0.len() && #[trigger] t0[j] == t;
                    assert(t1[j] == t);
                }
            }
        }
        i = i + 1;
    }
    let ghost mset = views(missing@).to_set();
    proof {
        assert(fv.take(fv.len() as int) =~= fv);
        assert(mset =~= missing_names(fv, tv));
    }
    if missing.len() > 0 {
        let ghost first = views(missing@)[0];
        let names = sorted_unique(missing);
        proof {
            assert(mset.contains(first));
            assert(views(names@).to_set().contains(first));
            assert(views(names@).len() > 0);
        }
        let mut message = "Missing texture references: ".to_owned();
        let listed = join(&names, ", ");
        push_str(&mut message, listed.as_str());
        let site = Site::at("resource/model/mod.rs", 190, 18);
        diag.warn(&site, subject, message);
        proof {
            assert(lists_missing(fv, tv, views(names@)));
        }
    } else {
        proof {
            assert(views(missing@) =~= Seq::<Seq<char>>::empty());
            assert(mset =~= Set::<Seq<char>>::empty());
        }
    }
    proof {
        if missing_names(fv, tv).len() == 0 && mset.len() == 0 {
        }
    }
}

} // verus!
