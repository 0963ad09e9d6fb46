use tessera::diagnostics::{Diagnostics, Severity};
use tessera::direction::Quadrant;
use tessera::resource::blockstate::cache::{
    build, models_to_prime, resolve, walk_variants, ModelPart, RawBlockState, RawMultipart, RawVariant, RawVariants,
};
use tessera::resource::blockstate::{
    parse_properties, scan_pairs, BlockStateError, BlockStateModel, Condition, ModelState, Term,
};
use tessera::resource::id::IdMap;
use tessera::resource::ResourceId;
use tessera::scene::blockstate::{parts, term_matches, StateQuery};
use tessera::text::chars_of;

fn id(s: &str) -> ResourceId {
    ResourceId::from_str(s).unwrap()
}

fn variant(model: &str) -> RawVariant {
    RawVariant { model: id(model), x: Quadrant::R0, y: Quadrant::R90, z: Quadrant::R0, uvlock: true, weight: None }
}

fn term(property: &str, alternatives: &str) -> Term {
    Term { property: property.to_string(), alternatives: alternatives.to_string() }
}

fn loaded(names: &[&str]) -> IdMap<u32> {
    let mut m = IdMap::new();
    for (i, n) in names.iter().enumerate() {
        m.insert(id(n), i as u32);
    }
    m
}

#[test]
fn variant_keys_are_split_into_pairs() {
    let p = parse_properties(String::from("facing=north,half=top"));
    let pairs = p.iter();
    assert_eq!(pairs, vec![("facing".to_string(), "north".to_string()), ("half".to_string(), "top".to_string())]);
    let r = scan_pairs(&chars_of("a=1,,junk,b=x=y"));
    assert_eq!(r.len(), 2);
    assert_eq!((r[0].name_start, r[0].name_end, r[0].value_start, r[0].value_end), (0, 1, 2, 3));
    assert_eq!((r[1].name_start, r[1].name_end, r[1].value_start, r[1].value_end), (10, 11, 12, 15));
    assert!(parse_properties(String::new()).iter().is_empty());
}

#[test]
fn queries_are_read_from_brackets() {
    let q = StateQuery::parse("  minecraft:oak_stairs[facing = east, half=top, junk, ] ");
    assert_eq!(q.get("facing").map(|s| s.as_str()), Some("east"));
    assert_eq!(q.get("half").map(|s| s.as_str()), Some("top"));
    assert_eq!(q.get("junk"), None);
    let q = StateQuery::parse("a=1,a=2");
    assert_eq!(q.get("a").map(|s| s.as_str()), Some("2"));
}

#[test]
fn terms_accept_alternatives_and_negations() {
    let q = StateQuery::parse("[north=true,south=false]");
    assert!(term_matches(&term("north", "true"), &q));
    assert!(term_matches(&term("south", "none|false"), &q));
    assert!(term_matches(&term("south", "!true"), &q));
    assert!(!term_matches(&term("north", "!true"), &q));
    assert!(!term_matches(&term("east", "true"), &q));
}

#[test]
fn conditions_combine() {
    let q = StateQuery::parse("[north=true,up=false]");
    let yes = Condition::Terms(vec![term("north", "true"), term("up", "false")]);
    let no = Condition::Terms(vec![term("north", "true"), term("up", "true")]);
    assert!(yes.matches(&q));
    assert!(!no.matches(&q));
    assert!(Condition::Or(vec![Condition::Terms(vec![term("up", "true")]), Condition::Terms(vec![term("north", "true")])]).matches(&q));
    assert!(!Condition::And(vec![Condition::Terms(vec![term("up", "false")]), Condition::Terms(vec![term("north", "false")])]).matches(&q));
    assert!(Condition::And(vec![]).matches(&q));
    assert!(!Condition::Or(vec![]).matches(&q));
    assert!(Condition::Terms(vec![]).matches(&q));
}

#[test]
fn the_first_matching_variant_applies() {
    let model: BlockStateModel<u32> = BlockStateModel::Variants(vec![
        (parse_properties(String::from("half=top")), vec![(1, 1), (2, 1)]),
        (parse_properties(String::from("")), vec![(3, 1)]),
    ]);
    let top: Vec<u32> = parts(&model, &StateQuery::parse("half=top,facing=east")).into_iter().copied().collect();
    assert_eq!(top, vec![1]);
    let other: Vec<u32> = parts(&model, &StateQuery::parse("half=bottom")).into_iter().copied().collect();
    assert_eq!(other, vec![3]);
}

#[test]
fn every_applying_part_contributes() {
    let model: BlockStateModel<u32> = BlockStateModel::Multipart(vec![
        (None, vec![(10, 1)]),
        (Some(Condition::Terms(vec![term("north", "true")])), vec![(11, 1)]),
        (Some(Condition::Terms(vec![term("south", "true")])), vec![(12, 1)]),
        (None, vec![]),
    ]);
    let got: Vec<u32> = parts(&model, &StateQuery::parse("north=true")).into_iter().copied().collect();
    assert_eq!(got, vec![10, 11]);
}

#[test]
fn resolving_variants_skips_models_not_loaded() {
    let models = loaded(&["block/a", "block/b"]);
    let mut d = Diagnostics::new();
    let mut b = variant("block/b");
    b.weight = Some(5);
    let out = resolve(&models, &RawVariants::Weighted(vec![variant("block/a"), variant("block/missing"), b]), &mut d);
    assert_eq!(out.len(), 2);
    assert_eq!(out[0].0.model, 0);
    assert_eq!(out[0].1, 1);
    assert_eq!(out[1].0.model, 1);
    assert_eq!(out[1].1, 5);
    assert_eq!(out[0].0.state, ModelState { x: Quadrant::R0, y: Quadrant::R90, z: Quadrant::R0, uv_lock: true });
    let reports = d.snapshot();
    assert_eq!(reports.len(), 1);
    assert_eq!(reports[0].subject, "minecraft:block/missing");
    assert_eq!(reports[0].message, "Failed to resolve model");
}

#[test]
fn building_prefers_variants() {
    let models = loaded(&["block/a"]);
    let mut d = Diagnostics::new();
    let raw = RawBlockState {
        variants: Some(vec![(String::from("facing=north"), RawVariants::One(variant("block/a")))]),
        multipart: Some(vec![RawMultipart { apply: RawVariants::One(variant("block/a")), when: None }]),
    };
    let built = build(&models, &id("stairs"), raw, &mut d);
    match built {
        Some(BlockStateModel::Variants(v)) => {
            assert_eq!(v.len(), 1);
            assert_eq!(v[0].0.iter(), vec![("facing".to_string(), "north".to_string())]);
            assert_eq!(v[0].1[0].0.model, 0);
        }
        _ => panic!("expected variants"),
    }
    let reports = d.snapshot();
    assert_eq!(reports.len(), 1);
    assert_eq!(reports[0].severity, Severity::Warning);
    assert_eq!(reports[0].message, "Block state has both variants and multipart. Falling back to variants.");
}

#[test]
fn building_drops_keys_that_are_too_long() {
    let models = loaded(&["block/a"]);
    let mut d = Diagnostics::new();
    let long = "a".repeat(65536);
    let raw = RawBlockState {
        variants: Some(vec![(long, RawVariants::One(variant("block/a")))]),
        multipart: None,
    };
    assert!(build(&models, &id("x"), raw, &mut d).is_none());
    let reports = d.snapshot();
    assert_eq!(reports.len(), 1);
    assert_eq!(reports[0].severity, Severity::Error);
    assert_eq!(reports[0].message, "variant key limit exceeds 2^16 − 1 bytes");
    let fits = "a".repeat(65535);
    let raw = RawBlockState { variants: Some(vec![(fits, RawVariants::One(variant("block/a")))]), multipart: None };
    assert!(build(&models, &id("x"), raw, &mut d).is_some());
}

#[test]
fn building_parts_and_empty_states() {
    let models = loaded(&["block/a"]);
    let mut d = Diagnostics::new();
    let raw = RawBlockState {
        variants: None,
        multipart: Some(vec![
            RawMultipart { apply: RawVariants::One(variant("block/a")), when: Some(Condition::Terms(vec![term("n", "true")])) },
            RawMultipart { apply: RawVariants::One(variant("block/gone")), when: None },
        ]),
    };
    match build(&models, &id("fence"), raw, &mut d) {
        Some(BlockStateModel::Multipart(p)) => {
            assert_eq!(p.len(), 2);
            assert_eq!(p[0].1.len(), 1);
            assert!(p[1].1.is_empty());
            assert!(p[1].0.is_none());
        }
        _ => panic!("expected parts"),
    }
    assert_eq!(d.snapshot().len(), 1);
    let none = RawBlockState { variants: None, multipart: None };
    assert!(build(&models, &id("fence"), none, &mut d).is_none());
    let empty = RawBlockState { variants: Some(vec![]), multipart: None };
    assert!(build(&models, &id("fence"), empty, &mut d).is_none());
}

#[test]
fn the_models_to_prime_are_each_named_once() {
    let mut d = Diagnostics::new();
    let parsed = vec![
        (
            id("a"),
            Ok(RawBlockState {
                variants: Some(vec![(String::new(), RawVariants::Weighted(vec![variant("block/x"), variant("block/y")]))]),
                multipart: Some(vec![RawMultipart { apply: RawVariants::One(variant("block/y")), when: None }]),
            }),
        ),
        (id("b"), Ok(RawBlockState { variants: None, multipart: None })),
        (id("c"), Err(BlockStateError::NotFound(id("c")))),
        (id("d"), Ok(RawBlockState { variants: Some(vec![(String::new(), RawVariants::One(variant("block/x")))]), multipart: None })),
    ];
    let ids: Vec<String> = models_to_prime(&parsed, &mut d).iter().map(|i| i.to_string()).collect();
    assert_eq!(ids, vec!["minecraft:block/y", "minecraft:block/x"]);
    let reports = d.snapshot();
    assert_eq!(reports.len(), 2);
    assert_eq!(reports[0].subject, "minecraft:b");
    assert_eq!(reports[0].message, "Block state has no variants or multipart");
    assert_eq!(reports[1].message, "Failed to parse block state: No known pack provides block state minecraft:c");
}

#[test]
fn walking_variants_lists_their_models() {
    let mut found = Vec::new();
    walk_variants(&RawVariants::Weighted(vec![variant("m/1"), variant("m/2"), variant("m/1")]), &mut found);
    walk_variants(&RawVariants::One(variant("m/3")), &mut found);
    let names: Vec<String> = found.iter().map(|i| i.to_string()).collect();
    assert_eq!(names, vec!["minecraft:m/1", "minecraft:m/2", "minecraft:m/1", "minecraft:m/3"]);
}

#[test]
fn block_state_errors_read_as_sentences() {
    assert_eq!(BlockStateError::NotFound(id("x")).to_string(), "No known pack provides block state minecraft:x");
    assert_eq!(
        BlockStateError::Parse(id("x"), String::from("eof")).to_string(),
        "Failed to parse block state minecraft:x: eof"
    );
    let part: ModelPart<u8> = ModelPart { model: 1, state: ModelState::default() };
    assert_eq!(part.state.x, Quadrant::R0);
}
