use tessera::diagnostics::{Diagnostics, Severity};
use tessera::resource::id::IdMap;
use tessera::resource::item::cache::{models_to_prime, resolve, resolve_item, walk, RawItem, RawItemModel};
use tessera::resource::item::{ConditionProperty, ItemError, ItemModel, RangeProperty, SelectProperty};
use tessera::resource::tint::TintSource;
use tessera::resource::ResourceId;
use tessera::scene::{draw_order, RenderError};

fn id(s: &str) -> ResourceId {
    ResourceId::from_str(s).unwrap()
}

fn model(name: &str) -> RawItemModel {
    RawItemModel::Model { model: id(name), tints: vec![TintSource::Constant(0xFF00FF)] }
}

fn loaded(names: &[&str]) -> IdMap<u32> {
    let mut m = IdMap::new();
    for (i, n) in names.iter().enumerate() {
        m.insert(id(n), 100 + i as u32);
    }
    m
}

#[test]
fn a_model_is_looked_up() {
    let models = loaded(&["item/apple"]);
    let mut d = Diagnostics::new();
    match resolve(&models, &id("apple"), model("item/apple"), &mut d) {
        ItemModel::Model { model, tints } => {
            assert_eq!(model, 100);
            assert_eq!(tints.len(), 1);
        }
        _ => panic!("expected a model"),
    }
    assert!(d.is_empty());
}

#[test]
fn a_model_not_loaded_is_empty_and_reported() {
    let models = loaded(&[]);
    let mut d = Diagnostics::new();
    let out = resolve(&models, &id("apple"), RawItemModel::Special { base: id("item/chest") }, &mut d);
    assert!(matches!(out, ItemModel::Empty));
    let r = d.snapshot();
    assert_eq!(r.len(), 1);
    assert_eq!(r[0].severity, Severity::Error);
    assert_eq!(r[0].subject, "minecraft:apple");
    assert_eq!(r[0].message, "item references unprimed model minecraft:item/chest");
}

#[test]
fn unknown_kinds_are_warned_about_once_per_item() {
    let models = loaded(&[]);
    let mut d = Diagnostics::new();
    let raw = RawItemModel::Composite { models: vec![RawItemModel::Unknown, RawItemModel::Unknown, RawItemModel::BundleSelectedItem] };
    match resolve(&models, &id("bundle"), raw, &mut d) {
        ItemModel::Composite(children) => {
            assert_eq!(children.len(), 3);
            assert!(children.iter().all(|c| matches!(c, ItemModel::Empty)));
        }
        _ => panic!("expected a composite"),
    }
    let r = d.snapshot();
    assert_eq!(r.len(), 1);
    assert_eq!(r[0].severity, Severity::Warning);
    assert_eq!(r[0].message, "unsupported item model type");
}

#[test]
fn nested_models_keep_their_shape() {
    let models = loaded(&["item/a", "item/b"]);
    let mut d = Diagnostics::new();
    let raw = RawItemModel::Select {
        property: SelectProperty::DisplayContext,
        cases: vec![(vec![String::from("gui")], model("item/b"))],
        fallback: Some(Box::new(RawItemModel::RangeDispatch {
            property: RangeProperty::Damage { normalize: true },
            scale: 1.0f32.to_bits(),
            entries: vec![(0.5f32.to_bits(), model("item/a")), (0.9f32.to_bits(), model("item/missing"))],
            fallback: None,
        })),
    };
    let out = resolve(&models, &id("tool"), raw, &mut d);
    match &out {
        ItemModel::Select { cases, fallback: Some(f), .. } => {
            assert!(matches!(cases[0].1, ItemModel::Model { model: 101, .. }));
            match f.as_ref() {
                ItemModel::RangeDispatch { entries, scale, .. } => {
                    assert_eq!(*scale, 1.0f32.to_bits());
                    assert_eq!(entries[0].0, 0.5f32.to_bits());
                    assert!(matches!(entries[0].1, ItemModel::Model { model: 100, .. }));
                    assert!(matches!(entries[1].1, ItemModel::Empty));
                }
                _ => panic!("expected a range dispatch"),
            }
        }
        _ => panic!("expected a select"),
    }
    assert!(matches!(out.gui(), ItemModel::Model { model: 101, .. }));
    assert_eq!(d.snapshot().len(), 1);
}

#[test]
fn the_gui_model_of_conditions_and_ranges() {
    let models = loaded(&["item/t", "item/f", "item/first"]);
    let mut d = Diagnostics::new();
    let cond = resolve(
        &models,
        &id("x"),
        RawItemModel::Condition {
            property: ConditionProperty::UsingItem,
            on_true: Box::new(model("item/t")),
            on_false: Box::new(model("item/f")),
        },
        &mut d,
    );
    assert!(matches!(cond.gui(), ItemModel::Model { model: 101, .. }));
    let range = resolve(
        &models,
        &id("x"),
        RawItemModel::RangeDispatch {
            property: RangeProperty::Cooldown,
            scale: 0,
            entries: vec![(0, model("item/first")), (1, model("item/t"))],
            fallback: None,
        },
        &mut d,
    );
    assert!(matches!(range.gui(), ItemModel::Model { model: 102, .. }));
    let other = resolve(
        &models,
        &id("x"),
        RawItemModel::Select {
            property: SelectProperty::MainHand,
            cases: vec![(vec![String::from("gui")], model("item/t"))],
            fallback: None,
        },
        &mut d,
    );
    assert!(matches!(other.gui(), ItemModel::Select { .. }));
}

#[test]
fn resolving_an_item_keeps_its_gui_flag() {
    let models = loaded(&["item/a"]);
    let mut d = Diagnostics::new();
    let item = resolve_item(&models, &id("a"), RawItem { model: model("item/a"), oversized_in_gui: true }, &mut d);
    assert!(item.oversized_in_gui);
    assert!(matches!(item.model, ItemModel::Model { model: 100, .. }));
}

#[test]
fn walking_lists_models_in_order() {
    let raw = RawItemModel::Condition {
        property: ConditionProperty::Broken,
        on_true: Box::new(RawItemModel::Composite { models: vec![model("m/1"), RawItemModel::Special { base: id("m/2") }] }),
        on_false: Box::new(model("m/1")),
    };
    let mut found = Vec::new();
    walk(&raw, &mut found);
    let names: Vec<String> = found.iter().map(|i| i.to_string()).collect();
    assert_eq!(names, vec!["minecraft:m/1", "minecraft:m/2", "minecraft:m/1"]);
}

#[test]
fn the_models_to_prime_for_items() {
    let mut d = Diagnostics::new();
    let parsed = vec![
        (id("a"), Ok(RawItem { model: model("m/1"), oversized_in_gui: false })),
        (id("b"), Err(ItemError::Parse(id("b"), String::from("expected value")))),
        (id("c"), Ok(RawItem { model: RawItemModel::Composite { models: vec![model("m/2"), model("m/1")] }, oversized_in_gui: false })),
    ];
    let ids: Vec<String> = models_to_prime(&parsed, &mut d).iter().map(|i| i.to_string()).collect();
    assert_eq!(ids, vec!["minecraft:m/1", "minecraft:m/2"]);
    let r = d.snapshot();
    assert_eq!(r.len(), 1);
    assert_eq!(r[0].message, "Failed to parse item: Failed to parse item minecraft:b: expected value");
}

#[test]
fn item_errors_read_as_sentences() {
    assert_eq!(ItemError::NotFound(id("x")).to_string(), "No known pack provides item minecraft:x");
}

#[test]
fn composite_layers_are_drawn_in_order() {
    let models = loaded(&["a", "b"]);
    let mut d = Diagnostics::new();
    let m = resolve(
        &models,
        &id("x"),
        RawItemModel::Composite {
            models: vec![model("a"), RawItemModel::Empty, RawItemModel::Composite { models: vec![RawItemModel::Special { base: id("b") }] }],
        },
        &mut d,
    );
    let mut out = Vec::new();
    draw_order(&m, &mut out);
    assert_eq!(out.len(), 2);
    assert!(matches!(out[0], ItemModel::Model { model: 100, .. }));
    assert!(matches!(out[1], ItemModel::Special { base: 101 }));
}

#[test]
fn render_errors_read_as_sentences() {
    assert_eq!(RenderError::NoGeometry(id("x")).to_string(), "minecraft:x has no geometry to render");
    assert_eq!(
        RenderError::NoVariant(id("x"), String::from("a=b")).to_string(),
        "No blockstate variant of minecraft:x matches a=b"
    );
    assert_eq!(RenderError::NotPrimed(id("x")).to_string(), "minecraft:x was not primed");
}
