use std::io::Cursor;
use std::sync::Arc;
use tessera::diagnostics::{Diagnostics, Severity};
use tessera::resource::id::IdMap;
use tessera::resource::texture::atlas::{
    known_atlases, split_texture_path, RawIdentifierPattern, RawSpriteSource, SpriteIndex, SpriteRecipe, UnstitchRegion,
};
use tessera::resource::texture::cache::{
    assemble_sprite, build_mappings, decode_image, finish, frame_of, mapping_for, meta_source, plan_prime,
    settle_sprite, MappingError, TextureError,
};
use tessera::resource::texture::mcmeta::{frame_rect, AnimationFrame, AnimationSection};
use tessera::resource::texture::palette::{pack, Palette, PaletteMapping, PaletteSizeMismatch};
use tessera::resource::texture::sprite::missing_texture;
use tessera::resource::ResourceId;
use tessera::util::image::{Rgba, RgbaImage};

fn id(s: &str) -> ResourceId {
    ResourceId::from_str(s).unwrap()
}

fn px(r: u8, g: u8, b: u8, a: u8) -> Rgba {
    Rgba { r, g, b, a }
}

fn png(width: u32, height: u32, color: [u8; 4]) -> Vec<u8> {
    let img = image::RgbaImage::from_pixel(width, height, image::Rgba(color));
    let mut out = Cursor::new(Vec::new());
    img.write_to(&mut out, image::ImageFormat::Png).unwrap();
    out.into_inner()
}

fn solid(width: u32, height: u32, c: Rgba) -> RgbaImage {
    RgbaImage::from_pixels(width, height, vec![c; (width * height) as usize]).unwrap()
}

fn anim(frames: Option<Vec<u32>>, width: Option<u32>, height: Option<u32>) -> Option<AnimationSection> {
    Some(AnimationSection {
        frames: frames.map(|f| f.into_iter().map(AnimationFrame::Index).collect()),
        width,
        height,
        frametime: 1,
        interpolate: false,
    })
}

#[test]
fn decoding_a_png() {
    let bytes = png(2, 3, [10, 20, 30, 40]);
    let img = decode_image(&id("block/a"), Some(&bytes)).unwrap();
    assert_eq!(img.dimensions(), (2, 3));
    assert_eq!(img.get_pixel(1, 2), px(10, 20, 30, 40));
}

#[test]
fn decoding_errors_name_the_texture() {
    match decode_image(&id("block/a"), None) {
        Err(e) => assert_eq!(e.to_string(), "No known pack provides texture minecraft:block/a"),
        Ok(_) => panic!("expected not found"),
    }
    match decode_image(&id("block/a"), Some(&[1, 2, 3])) {
        Err(TextureError::Decode(who, message)) => {
            assert_eq!(who.to_string(), "minecraft:block/a");
            assert!(!message.is_empty());
        }
        _ => panic!("expected a decode error"),
    }
}

#[test]
fn texture_errors_read_as_sentences() {
    assert_eq!(TextureError::Empty(id("a")).to_string(), "Texture minecraft:a has a zero dimension");
    assert_eq!(
        TextureError::Palette(id("a"), PaletteSizeMismatch { base: 3, target: 4 }).to_string(),
        "Cannot build a palette mapping for minecraft:a: Palette size mismatch: base has 3 entries, target has 4"
    );
    assert_eq!(
        TextureError::InvalidRegion { sprite: id("s"), base: id("b") }.to_string(),
        "Unstitch region for minecraft:s does not fit inside minecraft:b"
    );
    assert_eq!(
        TextureError::InvalidFrameSize(id("a")).to_string(),
        "Animation frame size does not evenly divide texture minecraft:a"
    );
}

#[test]
fn the_missing_texture_is_a_checkerboard() {
    let img = missing_texture();
    assert_eq!(img.dimensions(), (16, 16));
    assert_eq!(img.get_pixel(0, 0), px(0, 0, 0, 255));
    assert_eq!(img.get_pixel(8, 0), px(0xF8, 0, 0xF8, 255));
    assert_eq!(img.get_pixel(0, 8), px(0xF8, 0, 0xF8, 255));
    assert_eq!(img.get_pixel(15, 15), px(0, 0, 0, 255));
}

#[test]
fn finishing_substitutes_missing_textures() {
    let mut d = Diagnostics::new();
    let r = finish(&mut d, &id("x"), Err(TextureError::NotFound(id("missingno"))), false);
    assert_eq!(r.unwrap().dimensions(), (16, 16));
    assert!(d.is_empty());
    let r = finish(&mut d, &id("x"), Err(TextureError::NotFound(id("block/x"))), false);
    assert!(matches!(r, Err(TextureError::NotFound(_))));
    let r = finish(&mut d, &id("x"), Err(TextureError::NotFound(id("block/x"))), true);
    assert!(r.is_ok());
    let reports = d.snapshot();
    assert_eq!(reports.len(), 1);
    assert_eq!(reports[0].severity, Severity::Error);
    assert_eq!(reports[0].message, "No known pack provides texture minecraft:block/x. Substituting");
    let r = finish(&mut d, &id("x"), Err(TextureError::Empty(id("block/x"))), true);
    assert!(matches!(r, Err(TextureError::Empty(_))));
}

#[test]
fn the_first_frame_of_a_strip() {
    assert_eq!(frame_rect(&None, 16, 32), Some((0, 0, 16, 32)));
    assert_eq!(frame_rect(&anim(None, None, None), 16, 48), Some((0, 0, 16, 16)));
    assert_eq!(frame_rect(&anim(Some(vec![2, 0]), None, None), 16, 48), Some((0, 32, 16, 16)));
    assert_eq!(frame_rect(&anim(Some(vec![1]), Some(8), None), 16, 16), Some((8, 0, 8, 16)));
    assert_eq!(frame_rect(&anim(None, Some(5), None), 16, 16), None);
}

#[test]
fn frames_of_images() {
    let img = solid(16, 32, px(1, 1, 1, 1));
    assert_eq!(frame_of(&img, &id("a"), &anim(None, None, None)).unwrap(), (0, 0, 16, 16));
    match frame_of(&img, &id("a"), &anim(None, Some(5), None)) {
        Err(TextureError::InvalidFrameSize(who)) => assert_eq!(who.to_string(), "minecraft:a"),
        _ => panic!("expected a frame size error"),
    }
    let empty = RgbaImage::new(0, 4);
    assert!(matches!(frame_of(&empty, &id("a"), &None), Err(TextureError::Empty(_))));
}

#[test]
fn palette_mappings_swap_colours() {
    let key = Palette::from_colors(vec![px(1, 1, 1, 255), px(2, 2, 2, 0), px(3, 3, 3, 255), px(1, 1, 1, 10)]);
    let target = Palette::from_colors(vec![px(9, 9, 9, 255), px(8, 8, 8, 255), px(7, 7, 7, 128), px(6, 6, 6, 255)]);
    let m = PaletteMapping::create(&key, &target).unwrap();
    assert!(!m.is_empty());
    assert_eq!(m.apply(px(1, 1, 1, 200)), px(6, 6, 6, 200));
    assert_eq!(m.apply(px(3, 3, 3, 255)), px(7, 7, 7, 128));
    assert_eq!(m.apply(px(3, 3, 3, 100)), px(7, 7, 7, 50));
    assert_eq!(m.apply(px(2, 2, 2, 255)), px(2, 2, 2, 255));
    assert_eq!(m.apply(px(1, 1, 1, 0)), px(1, 1, 1, 0));
    let img = RgbaImage::from_pixels(2, 1, vec![px(3, 3, 3, 255), px(5, 5, 5, 255)]).unwrap();
    let out = m.remap(&img);
    assert_eq!(out.pixels(), &vec![px(7, 7, 7, 128), px(5, 5, 5, 255)]);
    assert_eq!(pack(px(0x12, 0x34, 0x56, 0x78)), 0x123456);
}

#[test]
fn palettes_of_different_lengths_are_refused() {
    let key = Palette::from_colors(vec![px(1, 1, 1, 255)]);
    let target = Palette::from_colors(vec![]);
    match PaletteMapping::create(&key, &target) {
        Err(e) => {
            assert_eq!(e, PaletteSizeMismatch { base: 1, target: 0 });
            assert_eq!(e.to_string(), "Palette size mismatch: base has 1 entries, target has 0");
        }
        Ok(_) => panic!("expected a mismatch"),
    }
    let empty = PaletteMapping::create(&Palette::from_colors(vec![]), &Palette::from_colors(vec![])).unwrap();
    assert!(empty.is_empty());
    let transparent = Palette::from_colors(vec![px(1, 1, 1, 0)]);
    assert!(PaletteMapping::create(&transparent, &key).unwrap().is_empty());
}

fn index_with(entries: Vec<(ResourceId, SpriteRecipe)>) -> SpriteIndex {
    let mut s = SpriteIndex::new();
    let mut m = IdMap::new();
    for (k, v) in entries {
        m.insert(k, v);
    }
    s.absorb(m);
    s
}

#[test]
fn planning_a_request() {
    let index = index_with(vec![
        (id("item/file"), SpriteRecipe::File(id("item/src"))),
        (id("item/part"), SpriteRecipe::Region { base: id("sheet"), x: 0, y: 0, width: 0, height: 0, div_x: 0, div_y: 0 }),
        (id("item/dyed"), SpriteRecipe::Palettized { base: id("base"), key: id("key"), palette: id("red") }),
        (id("item/dyed2"), SpriteRecipe::Palettized { base: id("base"), key: id("key"), palette: id("blue") }),
    ]);
    let mut loaded: IdMap<()> = IdMap::new();
    loaded.insert(id("done"), ());
    let ids = vec![id("plain"), id("done"), id("item/file"), id("item/part"), id("item/dyed"), id("item/dyed2")];
    let plan = plan_prime(&ids, &loaded, &index);
    let names = |v: &Vec<ResourceId>| v.iter().map(|i| i.to_string()).collect::<Vec<_>>();
    assert_eq!(plan.recipes.len(), 5);
    assert!(plan.recipes[0].1.is_none());
    assert_eq!(names(&plan.meta), vec!["minecraft:plain", "minecraft:item/src"]);
    assert_eq!(names(&plan.images), vec!["minecraft:plain", "minecraft:item/src", "minecraft:sheet", "minecraft:base"]);
    assert_eq!(names(&plan.palettes), vec!["minecraft:key", "minecraft:red", "minecraft:blue"]);
    assert_eq!(meta_source(&index, &id("item/file")).map(|i| i.to_string()), Some(String::from("minecraft:item/src")));
    assert_eq!(meta_source(&index, &id("item/part")), None);
    assert_eq!(meta_source(&index, &id("plain")).map(|i| i.to_string()), Some(String::from("minecraft:plain")));
}

fn palettes() -> IdMap<Result<Palette, TextureError>> {
    let mut m = IdMap::new();
    m.insert(id("key"), Ok(Palette::from_colors(vec![px(1, 1, 1, 255)])));
    m.insert(id("red"), Ok(Palette::from_colors(vec![px(255, 0, 0, 255)])));
    m.insert(id("wide"), Ok(Palette::from_colors(vec![px(1, 1, 1, 255), px(2, 2, 2, 255)])));
    m.insert(id("broken"), Err(TextureError::Decode(id("broken"), String::from("bad"))));
    m
}

#[test]
fn mappings_follow_the_palettes_loaded() {
    let p = palettes();
    assert!(mapping_for(&id("key"), &id("red"), &p).is_ok());
    assert!(matches!(mapping_for(&id("key"), &id("wide"), &p), Err(MappingError::Size(PaletteSizeMismatch { base: 1, target: 2 }))));
    match mapping_for(&id("gone"), &id("broken"), &p) {
        Err(MappingError::Load(TextureError::Decode(who, _))) => assert_eq!(who.to_string(), "minecraft:broken"),
        _ => panic!("expected the target's load error"),
    }
    match mapping_for(&id("gone"), &id("red"), &p) {
        Err(MappingError::Load(TextureError::NotFound(who))) => assert_eq!(who.to_string(), "minecraft:gone"),
        _ => panic!("expected the key not found"),
    }
    match mapping_for(&id("key"), &id("gone"), &p) {
        Err(MappingError::Load(TextureError::NotFound(who))) => assert_eq!(who.to_string(), "minecraft:gone"),
        _ => panic!("expected the target not found"),
    }
}

#[test]
fn one_mapping_per_distinct_pair() {
    let recipes = vec![
        (id("a"), Some(SpriteRecipe::Palettized { base: id("b"), key: id("key"), palette: id("red") })),
        (id("c"), None),
        (id("d"), Some(SpriteRecipe::Palettized { base: id("e"), key: id("key"), palette: id("red") })),
        (id("f"), Some(SpriteRecipe::Palettized { base: id("e"), key: id("key"), palette: id("wide") })),
    ];
    let out = build_mappings(&recipes, &palettes());
    assert_eq!(out.len(), 2);
    assert_eq!(out[0].0 .1.to_string(), "minecraft:red");
    assert!(out[0].1.is_ok());
    assert!(matches!(out[1].1, Err(MappingError::Size(_))));
}

fn sources() -> IdMap<Result<Arc<RgbaImage>, TextureError>> {
    let mut m = IdMap::new();
    m.insert(id("plain"), Ok(Arc::new(solid(2, 2, px(1, 1, 1, 255)))));
    m.insert(id("sheet"), Ok(Arc::new(RgbaImage::from_pixels(2, 1, vec![px(1, 0, 0, 255), px(0, 1, 0, 255)]).unwrap())));
    m.insert(id("bad"), Err(TextureError::Empty(id("bad"))));
    m
}

#[test]
fn sprites_from_files_and_regions() {
    let s = sources();
    let none = Vec::new();
    let (r, w) = assemble_sprite(&id("plain"), &None, &s, &none, None);
    assert_eq!(r.unwrap().dimensions(), (2, 2));
    assert!(w.is_none());
    let (r, _) = assemble_sprite(&id("x"), &Some(SpriteRecipe::File(id("bad"))), &s, &none, None);
    assert!(matches!(r, Err(TextureError::Empty(_))));
    let (r, _) = assemble_sprite(&id("x"), &None, &s, &none, None);
    assert!(matches!(r, Err(TextureError::NotFound(_))));
    let region = SpriteRecipe::Region { base: id("sheet"), x: 0, y: 0, width: 0, height: 0, div_x: 0, div_y: 0 };
    let (r, w) = assemble_sprite(&id("part"), &Some(region.duplicate()), &s, &none, Some(Ok((1, 0, 1, 1))));
    let img = r.unwrap();
    assert_eq!(img.dimensions(), (1, 1));
    assert_eq!(img.get_pixel(0, 0), px(0, 1, 0, 255));
    assert!(w.is_none());
    let (r, w) = assemble_sprite(&id("part"), &Some(region), &s, &none, Some(Err(String::from("does not fit"))));
    assert!(matches!(r, Err(TextureError::InvalidRegion { .. })));
    assert_eq!(w, Some((String::from("minecraft:part"), String::from("does not fit"))));
}

#[test]
fn sprites_from_palettes() {
    let s = sources();
    let recipes = vec![
        (id("dyed"), Some(SpriteRecipe::Palettized { base: id("plain"), key: id("key"), palette: id("red") })),
        (id("wide"), Some(SpriteRecipe::Palettized { base: id("plain"), key: id("key"), palette: id("wide") })),
    ];
    let mappings = build_mappings(&recipes, &palettes());
    let (r, w) = assemble_sprite(&id("dyed"), &recipes[0].1, &s, &mappings, None);
    assert_eq!(r.unwrap().get_pixel(1, 1), px(255, 0, 0, 255));
    assert!(w.is_none());
    let (r, w) = assemble_sprite(&id("wide"), &recipes[1].1, &s, &mappings, None);
    assert!(matches!(r, Err(TextureError::Palette(_, PaletteSizeMismatch { base: 1, target: 2 }))));
    assert_eq!(w, Some((String::from("minecraft:wide"), String::from("Failed to create palette mapping"))));
    let unmapped = Some(SpriteRecipe::Palettized { base: id("plain"), key: id("key"), palette: id("other") });
    let (r, _) = assemble_sprite(&id("u"), &unmapped, &s, &mappings, None);
    match r {
        Err(TextureError::NotFound(who)) => assert_eq!(who.to_string(), "minecraft:u"),
        _ => panic!("expected not found"),
    }
}

#[test]
fn settling_records_the_warning_first() {
    let mut d = Diagnostics::new();
    let r = settle_sprite(
        &mut d,
        &id("part"),
        Err(TextureError::InvalidRegion { sprite: id("part"), base: id("sheet") }),
        Some((String::from("minecraft:part"), String::from("does not fit"))),
        true,
    );
    assert!(r.is_ok());
    let reports = d.snapshot();
    assert_eq!(reports.len(), 2);
    assert_eq!(reports[0].severity, Severity::Warning);
    assert_eq!(reports[0].message, "does not fit");
    assert_eq!(reports[1].message, "Unstitch region for minecraft:part does not fit inside minecraft:sheet. Substituting");
}

#[test]
fn atlas_sources_collect_sprites() {
    let mut sprites = IdMap::new();
    let mut d = Diagnostics::new();
    let all = vec![
        (String::from("minecraft"), String::from("block/stone")),
        (String::from("minecraft"), String::from("item/apple")),
        (String::from("mod"), String::from("block/x")),
    ];
    SpriteIndex::run(&mut sprites, "blocks", &mut d, &RawSpriteSource::Directory { source: String::from("block"), prefix: String::from("b/") }, &all);
    assert_eq!(sprites.len(), 2);
    assert!(matches!(sprites.get(&id("b/stone")), Some(SpriteRecipe::File(f)) if f.to_string() == "minecraft:block/stone"));
    assert!(sprites.contains_key(&id("mod:b/x")));
    SpriteIndex::run(
        &mut sprites,
        "blocks",
        &mut d,
        &RawSpriteSource::Single { resource: id("item/apple"), sprite: Some(id("fruit")) },
        &all,
    );
    assert!(matches!(sprites.get(&id("fruit")), Some(SpriteRecipe::File(f)) if f.to_string() == "minecraft:item/apple"));
    SpriteIndex::run(
        &mut sprites,
        "blocks",
        &mut d,
        &RawSpriteSource::Filter { pattern: RawIdentifierPattern { namespace: Some(String::from("^mod$")), path: None } },
        &all,
    );
    assert!(!sprites.contains_key(&id("mod:b/x")));
    assert_eq!(sprites.len(), 2);
    assert!(d.is_empty());
}

#[test]
fn atlas_permutations_and_regions() {
    let mut sprites = IdMap::new();
    let mut d = Diagnostics::new();
    let perms = RawSpriteSource::PalettedPermutations {
        textures: vec![id("trims/boots")],
        palette_key: id("trims/key"),
        permutations: vec![(String::from("gold"), id("trims/gold")), (String::from("iron"), id("trims/iron"))],
        separator: String::from("_"),
    };
    SpriteIndex::run(&mut sprites, "a", &mut d, &perms, &Vec::new());
    assert_eq!(sprites.len(), 2);
    assert!(matches!(sprites.get(&id("trims/boots_iron")), Some(SpriteRecipe::Palettized { palette, .. }) if palette.to_string() == "minecraft:trims/iron"));
    let unstitch = RawSpriteSource::Unstitch {
        resource: id("sheet"),
        regions: vec![UnstitchRegion { sprite: id("one"), x: 1, y: 2, width: 3, height: 4 }],
        div_x: 5,
        div_y: 6,
    };
    SpriteIndex::run(&mut sprites, "a", &mut d, &unstitch, &Vec::new());
    assert!(matches!(sprites.get(&id("one")), Some(SpriteRecipe::Region { x: 1, y: 2, width: 3, height: 4, div_x: 5, div_y: 6, .. })));
}

#[test]
fn a_filter_with_a_bad_pattern_is_reported_and_matches_nothing() {
    let mut d = Diagnostics::new();
    let pattern = RawIdentifierPattern { namespace: None, path: Some(String::from("(unclosed")) };
    let m = pattern.compile("atlas", &mut d);
    assert!(!m.matches(&id("anything")));
    let r = d.snapshot();
    assert_eq!(r.len(), 1);
    assert!(r[0].message.starts_with("invalid \"path\" filter pattern \"(unclosed\": "));
    let good = RawIdentifierPattern { namespace: None, path: Some(String::from("^block/")) };
    let m = good.compile("atlas", &mut d);
    assert!(m.matches(&id("block/stone")));
    assert!(!m.matches(&id("item/block/stone")));
}

#[test]
fn texture_paths_in_packs() {
    assert_eq!(
        split_texture_path("assets/minecraft/textures/block/stone.PNG"),
        Some((String::from("minecraft"), String::from("block/stone")))
    );
    assert_eq!(split_texture_path("assets/minecraft/models/block/stone.png"), None);
    assert_eq!(split_texture_path("minecraft/textures/block/stone.png"), None);
    assert_eq!(known_atlases()[1], "blocks");
    assert_eq!(known_atlases().len(), 12);
}

#[test]
fn substituted_textures_are_the_checkerboard() {
    let mut d = Diagnostics::new();
    let r = finish(&mut d, &id("x"), Err(TextureError::NotFound(id("block/x"))), true).unwrap();
    assert_eq!(r.dimensions(), (16, 16));
    assert_eq!(r.get_pixel(0, 0), px(0, 0, 0, 255));
    assert_eq!(r.get_pixel(8, 0), px(0xF8, 0, 0xF8, 255));
    assert_eq!(r.get_pixel(0, 8), px(0xF8, 0, 0xF8, 255));
    assert_eq!(r.get_pixel(15, 15), px(0, 0, 0, 255));
}

#[test]
fn colours_outside_the_table_pass_through() {
    let key = Palette::from_colors(vec![px(1, 1, 1, 0), px(2, 2, 2, 255)]);
    let target = Palette::from_colors(vec![px(9, 9, 9, 255), px(8, 8, 8, 255)]);
    let m = PaletteMapping::create(&key, &target).unwrap();
    assert_eq!(m.apply(px(1, 1, 1, 255)), px(1, 1, 1, 255));
    assert_eq!(m.apply(px(4, 4, 4, 7)), px(4, 4, 4, 7));
    let other = Palette::from_colors(vec![px(1, 1, 1, 0), px(2, 2, 2, 3)]);
    let n = PaletteMapping::create(&other, &target).unwrap();
    assert_eq!(m.apply(px(2, 2, 2, 255)), n.apply(px(2, 2, 2, 255)));
    let clear = Palette::from_colors(vec![px(1, 1, 1, 0), px(2, 2, 2, 0)]);
    let e = PaletteMapping::create(&clear, &target).unwrap();
    assert!(e.is_empty());
    assert_eq!(e.apply(px(2, 2, 2, 255)), px(2, 2, 2, 255));
}

#[test]
fn matchers_by_variant() {
    let mut d = Diagnostics::new();
    let all = RawIdentifierPattern { namespace: None, path: None }.compile("s", &mut d);
    assert!(all.matches(&id("any:thing")));
    let bad = RawIdentifierPattern { namespace: Some("(".to_owned()), path: None }.compile("s", &mut d);
    assert!(!bad.matches(&id("any:thing")));
    let path = RawIdentifierPattern { namespace: None, path: Some("^block/".to_owned()) }.compile("s", &mut d);
    assert!(path.matches(&id("block/stone")));
    assert!(!path.matches(&id("item/stone")));
}
