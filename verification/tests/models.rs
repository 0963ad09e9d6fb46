use tessera::diagnostics::{Diagnostics, Severity};
use tessera::resource::id::IdMap;
use tessera::resource::model::cache::{
    absorb_round, chain_cached, chain_next, chain_usable, fetch_failed, pending_batch, texture_ids,
    ChainAction, ChainStop, MAX_DEPTH,
};
use tessera::resource::model::slots::{resolve_slots, SlotContents};
use tessera::resource::model::{
    ambient_occlusion_of, display_from, find_first, gui_light_of, item_layers, report_missing_textures, DisplayContext,
    GuiLight,
};
use tessera::resource::texture::TextureSlot;
use tessera::resource::ResourceId;
use tessera::util::collections::StrMap;

fn id(s: &str) -> ResourceId {
    ResourceId::from_str(s).unwrap()
}

fn slots(entries: &[(&str, &str)]) -> StrMap<SlotContents> {
    let mut m = StrMap::new();
    for (k, v) in entries {
        m.insert(k.to_string(), SlotContents::from(TextureSlot::new(v.to_string())));
    }
    m
}

fn sprite_of(m: &StrMap<TextureSlot>, key: &str) -> Option<String> {
    m.get(key).map(|s| s.sprite.clone())
}

fn parents(links: &[(&str, Option<&str>)]) -> IdMap<Option<ResourceId>> {
    let mut m = IdMap::new();
    for (child, parent) in links {
        m.insert(id(child), parent.map(id));
    }
    m
}

#[test]
fn a_child_slot_overrides_its_parent() {
    let child = slots(&[("all", "minecraft:block/oak")]);
    let parent = slots(&[("all", "minecraft:block/stone"), ("side", "minecraft:block/side")]);
    let mut d = Diagnostics::new();
    let out = resolve_slots(&[&child, &parent], "test", &mut d);
    assert_eq!(sprite_of(&out, "all").as_deref(), Some("minecraft:block/oak"));
    assert_eq!(sprite_of(&out, "side").as_deref(), Some("minecraft:block/side"));
    assert!(d.is_empty());
}

#[test]
fn references_lead_to_the_sprite() {
    let child = slots(&[("particle", "#side"), ("side", "#all")]);
    let parent = slots(&[("all", "minecraft:block/dirt")]);
    let mut d = Diagnostics::new();
    let out = resolve_slots(&[&child, &parent], "test", &mut d);
    assert_eq!(sprite_of(&out, "particle").as_deref(), Some("minecraft:block/dirt"));
    assert_eq!(sprite_of(&out, "side").as_deref(), Some("minecraft:block/dirt"));
    assert_eq!(out.len(), 3);
    assert!(d.is_empty());
}

#[test]
fn references_that_lead_nowhere_are_reported_sorted() {
    let layer = slots(&[("z", "#nothing"), ("a", "#b"), ("b", "#a"), ("ok", "minecraft:x")]);
    let mut d = Diagnostics::new();
    let out = resolve_slots(&[&layer], "minecraft:block/bad", &mut d);
    assert_eq!(out.len(), 1);
    let reports = d.snapshot();
    assert_eq!(reports.len(), 1);
    assert_eq!(reports[0].severity, Severity::Warning);
    assert_eq!(reports[0].subject, "minecraft:block/bad");
    assert_eq!(reports[0].message, "Unresolved texture references: #a -> #b, #b -> #a, #z -> #nothing");
}

#[test]
fn a_reference_in_the_child_hides_a_value_in_the_parent() {
    let child = slots(&[("all", "#top")]);
    let parent = slots(&[("all", "minecraft:block/old"), ("top", "minecraft:block/top")]);
    let mut d = Diagnostics::new();
    let out = resolve_slots(&[&child, &parent], "s", &mut d);
    assert_eq!(sprite_of(&out, "all").as_deref(), Some("minecraft:block/top"));
}

#[test]
fn display_left_hands_fall_back_to_right_hands() {
    let written = [None, Some(1), Some(2), Some(3), Some(4), None, None, None, Some(8)];
    assert_eq!(display_from(written), [Some(1), Some(1), Some(2), Some(3), Some(4), None, None, None, Some(8)]);
    assert_eq!(DisplayContext::Gui.index(), 5);
    assert_eq!(DisplayContext::OnShelf.index(), 8);
}

#[test]
fn the_child_first_setting_wins() {
    assert_eq!(find_first(&[None, Some(2), Some(3)]), Some(2));
    assert_eq!(find_first::<u8>(&[None, None]), None);
    assert!(ambient_occlusion_of(&[]));
    assert!(!ambient_occlusion_of(&[None, Some(false), Some(true)]));
    assert_eq!(gui_light_of(&[]), GuiLight::Side);
    assert_eq!(gui_light_of(&[None, Some(GuiLight::Front)]), GuiLight::Front);
}

#[test]
fn item_layers_stop_at_the_first_gap() {
    let mut t = StrMap::new();
    t.insert(String::from("layer0"), TextureSlot::new(String::from("a")));
    t.insert(String::from("layer1"), TextureSlot::new(String::from("b")));
    t.insert(String::from("layer3"), TextureSlot::new(String::from("d")));
    let layers = item_layers(&t);
    assert_eq!(layers.len(), 2);
    assert_eq!(layers[0].sprite, "a");
    assert_eq!(layers[1].sprite, "b");
    assert!(item_layers(&StrMap::new()).is_empty());
}

#[test]
fn missing_face_textures_are_listed_once_in_order() {
    let mut t = StrMap::new();
    t.insert(String::from("side"), TextureSlot::new(String::from("x")));
    let faces: Vec<String> = ["top", "side", "bottom", "top"].iter().map(|s| s.to_string()).collect();
    let mut d = Diagnostics::new();
    report_missing_textures(&faces, &t, "m", &mut d);
    let reports = d.snapshot();
    assert_eq!(reports.len(), 1);
    assert_eq!(reports[0].message, "Missing texture references: bottom, top");
    let mut quiet = Diagnostics::new();
    report_missing_textures(&vec![String::from("side")], &t, "m", &mut quiet);
    assert!(quiet.is_empty());
}

#[test]
fn walking_a_chain_to_its_root() {
    let p = parents(&[("a", Some("b")), ("b", Some("c")), ("c", None)]);
    let mut chain = Vec::new();
    let mut seen = IdMap::new();
    let stop = chain_cached(id("a"), &mut chain, &mut seen, &p);
    assert!(matches!(stop, ChainStop::Complete));
    let names: Vec<String> = chain.iter().map(|i| i.to_string()).collect();
    assert_eq!(names, vec!["minecraft:a", "minecraft:b", "minecraft:c"]);
    assert_eq!(seen.len(), 3);
}

#[test]
fn walking_stops_at_a_missing_model_or_a_cycle() {
    let p = parents(&[("a", Some("b")), ("b", Some("gone"))]);
    let mut chain = Vec::new();
    let mut seen = IdMap::new();
    match chain_cached(id("a"), &mut chain, &mut seen, &p) {
        ChainStop::Missing(at) => assert_eq!(at.to_string(), "minecraft:gone"),
        other => panic!("unexpected {other:?}"),
    }
    assert_eq!(chain.len(), 2);
    let p = parents(&[("a", Some("b")), ("b", Some("a"))]);
    let mut chain = Vec::new();
    let mut seen = IdMap::new();
    match chain_cached(id("a"), &mut chain, &mut seen, &p) {
        ChainStop::Cyclic(at) => assert_eq!(at.to_string(), "minecraft:a"),
        other => panic!("unexpected {other:?}"),
    }
    assert_eq!(chain.len(), 2);
}

#[test]
fn walking_stops_at_the_depth_limit() {
    let names: Vec<String> = (0..=MAX_DEPTH).map(|i| format!("m{i}")).collect();
    let mut m = IdMap::new();
    for i in 0..MAX_DEPTH {
        m.insert(id(&names[i]), Some(id(&names[i + 1])));
    }
    m.insert(id(&names[MAX_DEPTH]), None);
    let mut chain = Vec::new();
    let mut seen = IdMap::new();
    assert!(matches!(chain_cached(id("m0"), &mut chain, &mut seen, &m), ChainStop::TooDeep));
    assert_eq!(chain.len(), MAX_DEPTH);
}

#[test]
fn stops_are_reported_against_the_model() {
    let mut d = Diagnostics::new();
    assert!(matches!(chain_next(ChainStop::Cyclic(id("x")), &id("a"), &mut d), ChainAction::Done));
    assert!(matches!(chain_next(ChainStop::TooDeep, &id("a"), &mut d), ChainAction::Done));
    assert!(matches!(chain_next(ChainStop::Complete, &id("a"), &mut d), ChainAction::Done));
    let r = d.snapshot();
    assert_eq!(r.len(), 2);
    assert_eq!(r[0].message, "cyclic model parent at minecraft:x");
    assert_eq!(r[1].message, "model parent chain too deep");
    assert_eq!(r[0].subject, "minecraft:a");
    assert!(chain_usable(&ChainStop::TooDeep, 1, &id("a"), &mut d));
    assert_eq!(d.snapshot().len(), 3);
}

#[test]
fn a_round_reads_each_model_once() {
    let mut seen = IdMap::new();
    let mut known: IdMap<()> = IdMap::new();
    known.insert(id("loaded"), ());
    let batch = vec![id("a"), id("loaded"), id("b"), id("a")];
    let first = pending_batch(batch, &mut seen, &known);
    let names: Vec<String> = first.iter().map(|i| i.to_string()).collect();
    assert_eq!(names, vec!["minecraft:a", "minecraft:b"]);
    assert!(seen.contains_key(&id("loaded")));
    let again = pending_batch(vec![id("b"), id("c")], &mut seen, &known);
    let names: Vec<String> = again.iter().map(|i| i.to_string()).collect();
    assert_eq!(names, vec!["minecraft:c"]);
}

#[test]
fn a_round_gives_the_parents_to_read_next() {
    let mut d = Diagnostics::new();
    let results = vec![
        (id("a"), Ok(Some(id("parent")))),
        (id("b"), Ok(None)),
        (id("c"), Err(String::from("No known pack provides model minecraft:c"))),
    ];
    let next: Vec<String> = absorb_round(&results, &mut d).iter().map(|i| i.to_string()).collect();
    assert_eq!(next, vec!["minecraft:parent"]);
    let r = d.snapshot();
    assert_eq!(r.len(), 1);
    assert_eq!(r[0].severity, Severity::Error);
    assert_eq!(r[0].subject, "minecraft:c");
    assert_eq!(r[0].message, "No known pack provides model minecraft:c");
}

#[test]
fn chain_decisions() {
    let mut d = Diagnostics::new();
    match chain_next(ChainStop::Missing(id("p")), &id("a"), &mut d) {
        ChainAction::Fetch(at) => assert_eq!(at.to_string(), "minecraft:p"),
        ChainAction::Done => panic!("expected a fetch"),
    }
    assert!(matches!(chain_next(ChainStop::Complete, &id("a"), &mut d), ChainAction::Done));
    assert!(matches!(chain_next(ChainStop::TooDeep, &id("a"), &mut d), ChainAction::Done));
    assert_eq!(d.snapshot().len(), 1);
    let mut d = Diagnostics::new();
    assert!(!chain_usable(&ChainStop::Missing(id("p")), 3, &id("a"), &mut d));
    assert!(chain_usable(&ChainStop::Complete, 1, &id("a"), &mut d));
    assert!(!chain_usable(&ChainStop::Complete, 0, &id("a"), &mut d));
    assert!(chain_usable(&ChainStop::Cyclic(id("a")), 2, &id("a"), &mut d));
    assert_eq!(d.snapshot().len(), 1);
    let mut d = Diagnostics::new();
    assert!(fetch_failed(String::from("bad"), 2, &id("a"), &mut d));
    assert!(!fetch_failed(String::from("bad"), 0, &id("b"), &mut d));
    assert_eq!(d.snapshot().len(), 2);
    assert_eq!(d.snapshot()[0].message, "bad");
}

#[test]
fn texture_references_become_ids_once() {
    let refs: Vec<String> = ["block/a", "minecraft:block/a", "block/a", "Bad Id", "mod:b"].iter().map(|s| s.to_string()).collect();
    let ids: Vec<String> = texture_ids(&refs).iter().map(|i| i.to_string()).collect();
    assert_eq!(ids, vec!["minecraft:block/a", "minecraft:block/a", "mod:b"]);
}
