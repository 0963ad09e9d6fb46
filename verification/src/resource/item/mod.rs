//! Item models: the kinds of item model definition, and which one a GUI rendering uses.

pub mod cache;

use vstd::prelude::*;
use crate::resource::id::ResourceId;
use crate::resource::tint::TintSource;
use crate::text::push_str;

verus! {

/// Why an item definition could not be loaded.
#[derive(Clone, Debug)]
pub enum ItemError {
    NotFound(ResourceId),
    Parse(ResourceId, String),
}

/// The sentence an item error reads as.
pub open spec fn item_error_text(e: ItemError) -> Seq<char> {
    match e {
        ItemError::NotFound(id) => "No known pack provides item "@ + id.text(),
        ItemError::Parse(id, m) => "Failed to parse item "@ + id.text() + ": "@ + m@,
    }
}

impl ItemError {
    /// The error as a sentence (see [`item_error_text`]).
    pub fn to_string(&self) -> (out: String)
        ensures
            out@ == item_error_text(*self),
    {
        match self {
            ItemError::NotFound(id) => {
                let mut out = "No known pack provides item ".to_owned();
                push_str(&mut out, id.to_string().as_str());
                out
            },
            ItemError::Parse(id, m) => {
                let mut out = "Failed to parse item ".to_owned();
                push_str(&mut out, id.to_string().as_str());
                push_str(&mut out, ": ");
                push_str(&mut out, m.as_str());
                out
            },
        }
    }
}

/// What a `select` item model chooses by.
#[derive(Clone, Debug)]
pub enum SelectProperty {
    CustomModelData { index: u32 },
    MainHand,
    ChargeType,
    TrimMaterial,
    BlockState { block_state_property: String },
    DisplayContext,
    LocalTime { pattern: String, locale: String, time_zone: Option<String> },
    ContextEntityType,
    ContextDimension,
    Component,
}

/// What a `condition` item model tests.
#[derive(Clone, Debug)]
pub enum ConditionProperty {
    CustomModelData { index: u32 },
    UsingItem,
    Broken,
    Damaged,
    FishingRodCast,
    HasComponent { component: ResourceId, ignore_default: bool },
    BundleHasSelectedItem,
    Selected,
    Carried,
    ExtendedView,
    KeybindDown { keybind: String },
    ViewEntity,
    Component,
}

/// What a `range_dispatch` item model measures. A use cycle's period is kept as the bits of
/// its `f32` value.
#[derive(Clone, Debug)]
pub enum RangeProperty {
    CustomModelData { index: u32 },
    BundleFullness,
    Damage { normalize: bool },
    Cooldown,
    Time { source: String, wobble: bool },
    Compass { target: String, wobble: bool },
    CrossbowPull,
    UseCycle { period: u32 },
    UseDuration { remaining: bool },
    Count { normalize: bool },
}

/// An item model, with resolved models of type `M`. Thresholds and scales keep the bits of
/// their `f32` values.
pub enum ItemModel<M> {
    Empty,
    Model { model: M, tints: Vec<TintSource> },
    RangeDispatch {
        property: RangeProperty,
        scale: u32,
        entries: Vec<(u32, ItemModel<M>)>,
        fallback: Option<Box<ItemModel<M>>>,
    },
    Special { base: M },
    Composite(Vec<ItemModel<M>>),
    Select { property: SelectProperty, cases: Vec<(Vec<String>, ItemModel<M>)>, fallback: Option<Box<ItemModel<M>>> },
    Condition { property: ConditionProperty, on_true: Box<ItemModel<M>>, on_false: Box<ItemModel<M>> },
}

/// An item: its model and whether it may draw past its GUI slot.
pub struct Item<M> {
    pub model: ItemModel<M>,
    pub oversized_in_gui: bool,
}

/// Whether a case's values include `gui`.
pub open spec fn names_gui(values: Seq<String>) -> bool {
    exists|i: int| 0 <= i < values.len() && (#[trigger] values[i])@ == "gui"@
}

/// The first case whose values include `gui`.
pub open spec fn first_gui_case<M>(cases: Seq<(Vec<String>, ItemModel<M>)>) -> Option<int>
    decreases cases.len(),
{
    if cases.len() == 0 {
        None
    } else if names_gui(cases[0].0@) {
        Some(0)
    } else {
        match first_gui_case(cases.drop_first()) {
            Some(i) => Some(i + 1),
            None => None,
        }
    }
}

/// The model a GUI rendering uses: a display-context select goes to its first `gui` case;
/// otherwise selects and range dispatches go to their fallback, a range dispatch without one to
/// its first entry, and a condition to its false branch; any other model is used as it is.
pub open spec fn gui_of<M>(m: ItemModel<M>) -> ItemModel<M>
    decreases m,
{
    match m {
        ItemModel::Select { property, cases, fallback } => {
            if property is DisplayContext && first_gui_case(cases@) is Some {
                let i = first_gui_case(cases@)->0;
                if 0 <= i < cases@.len() {
                    gui_of(cases@[i].1)
                } else {
                    m
                }
            } else {
                match fallback {
                    Some(f) => gui_of(*f),
                    None => m,
                }
            }
        },
        ItemModel::Condition { on_false, .. } => gui_of(*on_false),
        ItemModel::RangeDispatch { entries, fallback, .. } => match fallback {
            Some(f) => gui_of(*f),
            None => if entries@.len() > 0 {
                gui_of(entries@[0].1)
            } else {
                m
            },
        },
        _ => m,
    }
}

/// The first case has a `gui` value exactly when one is found, at that index.
proof fn lemma_first_gui_case<M>(cases: Seq<(Vec<String>, ItemModel<M>)>)
    ensures
        match first_gui_case(cases) {
            Some(i) => 0 <= i < cases.len() && names_gui(cases[i].0@) && forall|j: int| 0 <= j < i ==> !names_gui(#[trigger] cases[j].0@),
            None => forall|j: int| 0 <= j < cases.len() ==> !names_gui(#[trigger] cases[j].0@),
        },
    decreases cases.len(),
{
    if cases.len() > 0 {
        lemma_first_gui_case(cases.drop_first());
        assert forall|j: int| 1 <= j < cases.len() implies cases[j] == cases.drop_first()[j - 1] by {}
    }
}

/// Which model a GUI rendering draws: a range dispatch draws its fallback's GUI model, and its
/// first entry's only when it has no fallback; a condition draws its false branch's; a
/// display-context select draws that of its first case that lists `gui`; any other select
/// draws its fallback's; a leaf draws itself. Asking again of the model chosen changes nothing.
pub proof fn lemma_gui_choice<M>(m: ItemModel<M>)
    ensures
        m matches ItemModel::RangeDispatch { fallback: Some(f), .. } ==> gui_of(m) == gui_of(*f),
        m matches ItemModel::RangeDispatch { entries, fallback: None, .. } ==> gui_of(m) == if entries@.len() > 0 {
            gui_of(entries@[0].1)
        } else {
            m
        },
        m matches ItemModel::Condition { on_false, .. } ==> gui_of(m) == gui_of(*on_false),
        m matches ItemModel::Select { property: SelectProperty::DisplayContext, cases, .. } ==> forall|i: int|
            0 <= i < cases@.len() && names_gui(cases@[i].0@) && (forall|j: int| 0 <= j < i ==> !names_gui(#[trigger] cases@[j].0@))
                ==> gui_of(m) == gui_of(#[trigger] cases@[i].1),
        m matches ItemModel::Select { property, cases, fallback } ==> ((!(property is DisplayContext) || forall|i: int|
            0 <= i < cases@.len() ==> !names_gui(#[trigger] cases@[i].0@)) ==> gui_of(m) == match fallback {
            Some(f) => gui_of(*f),
            None => m,
        }),
        (m is Empty || m is Model || m is Special || m is Composite) ==> gui_of(m) == m,
{
    if let ItemModel::Select { property, cases, fallback } = m {
        lemma_first_gui_case(cases@);
        if property is DisplayContext {
            assert forall|i: int|
                0 <= i < cases@.len() && names_gui(cases@[i].0@) && (forall|j: int| 0 <= j < i ==> !names_gui(#[trigger] cases@[j].0@))
                    implies gui_of(m) == gui_of(#[trigger] cases@[i].1) by {
                let k = first_gui_case(cases@)->0;
                assert(first_gui_case(cases@) is Some) by {
                    if first_gui_case(cases@) is None {
                        assert(!names_gui(cases@[i].0@));
                    }
                }
                if k < i {
                    assert(!names_gui(cases@[k].0@));
                } else if k > i {
                    assert(!names_gui(cases@[i].0@));
                }
            }
        }
        if !(property is DisplayContext) || forall|i: int| 0 <= i < cases@.len() ==> !names_gui(#[trigger] cases@[i].0@) {
            if property is DisplayContext && first_gui_case(cases@) is Some {
                let k = first_gui_case(cases@)->0;
                assert(names_gui(cases@[k].0@));
            }
        }
    }
}

/// The GUI model is its own GUI model: choosing again gives the same model.
pub proof fn lemma_gui_settled<M>(m: ItemModel<M>)
    ensures
        gui_of(gui_of(m)) == gui_of(m),
    decreases m,
{
    match m {
        ItemModel::Select { property, cases, fallback } => {
            lemma_first_gui_case(cases@);
            if property is DisplayContext && first_gui_case(cases@) is Some {
                let i = first_gui_case(cases@)->0;
                assert(decreases_to!(m => cases));
                assert(decreases_to!(cases => cases@[i]));
                lemma_gui_settled(cases@[i].1);
            } else {
                match fallback {
                    Some(f) => {
                        lemma_gui_settled(*f);
                    },
                    None => {},
                }
            }
        },
        ItemModel::Condition { on_false, .. } => {
            lemma_gui_settled(*on_false);
        },
        ItemModel::RangeDispatch { entries, fallback, .. } => {
            match fallback {
                Some(f) => {
                    lemma_gui_settled(*f);
                },
                None => {
                    if entries@.len() > 0 {
                        assert(decreases_to!(m => entries));
                        assert(decreases_to!(entries => entries@[0]));
                        lemma_gui_settled(entries@[0].1);
                    }
                },
            }
        },
        _ => {},
    }
}

fn case_names_gui(values: &Vec<String>) -> (b: bool)
    ensures
        b == names_gui(values@),
{
    let gui = "gui".to_owned();
    let mut i: usize = 0;
    while i < values.len()
        invariant
            i <= values@.len(),
            gui@ == "gui"@,
            forall|j: int| 0 <= j < i ==> (#[trigger] values@[j])@ != "gui"@,
        decreases values.len() - i,
    {
        if values[i] == gui {
            return true;
        }
        i = i + 1;
    }
    false
}

impl<M> ItemModel<M> {
    /// The model a GUI rendering uses (see [`gui_of`]).
    pub fn gui(&self) -> (g: &ItemModel<M>)
        ensures
            *g == gui_of(*self),
        decreases self,
    {
        match self {
            ItemModel::Select { property, cases, fallback } => {
                if let SelectProperty::DisplayContext = property {
                    let mut i: usize = 0;
                    proof {
                        lemma_first_gui_case(cases@);
                    }
                    while i < cases.len()
                        invariant
                            i <= cases@.len(),
                            *self == (ItemModel::Select { property: *property, cases: *cases, fallback: *fallback }),
                            *property is DisplayContext,
                            forall|j: int| 0 <= j < i ==> !names_gui(#[trigger] cases@[j].0@),
                        decreases cases.len() - i,
                    {
                        if case_names_gui(&cases[i].0) {
                            proof {
                                lemma_first_gui_case(cases@);
                                assert(first_gui_case(cases@) == Some(i as int));
                                assert(decreases_to!(*self => self->cases));
                                assert(decreases_to!(self->cases => self->cases[i as int]));
                            }
                            return cases[i].1.gui();
                        }
                        i = i + 1;
                    }
                }
                match fallback {
                    Some(f) => f.gui(),
                    None => self,
                }
            },
            ItemModel::Condition { on_false, .. } => on_false.gui(),
            ItemModel::RangeDispatch { entries, fallback, .. } => match fallback {
                Some(f) => f.gui(),
                None => if entries.len() > 0 {
                    proof {
                        assert(decreases_to!(*self => self->entries));
                        assert(decreases_to!(self->entries => self->entries[0]));
                    }
                    entries[0].1.gui()
                } else {
                    self
                },
            },
            _ => self,
        }
    }
}

} // verus!
