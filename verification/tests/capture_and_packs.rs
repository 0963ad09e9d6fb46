use std::io::Cursor;
use tessera::capture::lookup::{find, search_block, search_key, tint_of, BlockEntry};
use tessera::capture_gen::model::{Direction, RenderShape};
use tessera::capture_gen::pool::{
    block_states, finish_blocks, from_hex, local_material, relevant_properties, split_block_id, texture_of,
    tint_color_of, tint_index_of, Block, Draw, DrawGeometry, Pool, StateRecord,
};
use tessera::capture_gen::states::{collapse_states, StateGrid};
use tessera::capture_gen::{stale_discards, unexpected_discards};
use tessera::diagnostics::{Diagnostics, Severity};
use tessera::resource::pack::{classify_entry, normalize_dir, normalize_ext, normalize_root, path_matches, EntryDecision, EntryMethod};
use tessera::resource::resource_manager::merge_round;
use tessera::resource::tint::{color_map_from, color_map_sources, fill, ColorMap, ColorMaps};
use tessera::resource::ResourceId;
use tessera::scene::blockstate::StateQuery;
use tessera::text::chars_of;

fn s(v: &str) -> String {
    v.to_string()
}

fn strings(v: &[&str]) -> Vec<String> {
    v.iter().map(|x| x.to_string()).collect()
}

fn entry(ns: &str, path: &str, props: &[&str], keys: &[&str]) -> BlockEntry {
    BlockEntry { namespace: s(ns), path: s(path), properties: strings(props), state_keys: strings(keys) }
}

fn png(width: u32, height: u32, color: [u8; 4]) -> Vec<u8> {
    let img = image::RgbaImage::from_pixel(width, height, image::Rgba(color));
    let mut out = Cursor::new(Vec::new());
    img.write_to(&mut out, image::ImageFormat::Png).unwrap();
    out.into_inner()
}

#[test]
fn captured_states_are_found_by_key() {
    let blocks = vec![
        entry("minecraft", "oak_stairs", &["facing", "half"], &["facing=east,half=top", "facing=north,half=bottom"]),
        entry("minecraft", "stone", &[], &[""]),
        entry("mod", "a", &[], &[""]),
    ];
    assert_eq!(search_block(&blocks, "minecraft", "stone"), Some(1));
    assert_eq!(search_block(&blocks, "mod", "a"), Some(2));
    assert_eq!(search_block(&blocks, "mod", "b"), None);
    assert_eq!(search_key(&blocks[0].state_keys, &s("facing=north,half=bottom")), Some(1));
    assert_eq!(search_key(&blocks[0].state_keys, &s("facing=west,half=top")), None);
    let mut d = Diagnostics::new();
    let stairs = ResourceId::from_str("oak_stairs").unwrap();
    let q = StateQuery::parse("[half=top,facing=east,waterlogged=false]");
    assert_eq!(find(&blocks, &stairs, &q, &mut d), Some((0, 0)));
    let stone = ResourceId::from_str("stone").unwrap();
    assert_eq!(find(&blocks, &stone, &StateQuery::parse(""), &mut d), Some((1, 0)));
    assert!(d.is_empty());
    assert_eq!(find(&blocks, &stairs, &StateQuery::parse("facing=east"), &mut d), None);
    let r = d.snapshot();
    assert_eq!(r.len(), 1);
    assert_eq!(r[0].severity, Severity::Warning);
    assert_eq!(r[0].message, "State query doesn't have a property half");
    assert_eq!(find(&blocks, &ResourceId::from_str("dirt").unwrap(), &q, &mut d), None);
}

#[test]
fn material_tints() {
    assert_eq!(tint_of(Some(0x123456), Some(0), &[7]), 0x123456);
    assert_eq!(tint_of(None, Some(1), &[7, 8]), 8);
    assert_eq!(tint_of(None, Some(2), &[7, 8]), u32::MAX);
    assert_eq!(tint_of(None, None, &[7]), u32::MAX);
}

#[test]
fn material_fields() {
    assert_eq!(local_material(3, 2), Ok(2));
    assert_eq!(local_material(3, 3), Err(s("material index 3 is out of range (0..3)")));
    assert_eq!(local_material(1000, 300), Err(s("material index 300 is out of range (0..1000)")));
    assert_eq!(texture_of(&Some(s("minecraft:block/stone")), &None), Ok(s("minecraft:block/stone")));
    assert_eq!(texture_of(&None, &Some(s("textures/block/dirt.png"))), Ok(s("minecraft:block/dirt")));
    assert_eq!(texture_of(&None, &Some(s("mod:textures/x.png"))), Ok(s("mod:x")));
    assert_eq!(
        texture_of(&None, &Some(s("models/x.png"))),
        Err(s("invalid texture path: models/x.png (not in textures/**.png format)"))
    );
    assert_eq!(
        texture_of(&Some(s("a")), &Some(s("b"))),
        Err(s("a texture needs either a sprite or a path, but not both"))
    );
    assert_eq!(texture_of(&None, &None), Err(s("a texture needs either a sprite or a path, but not both")));
    assert_eq!(tint_color_of(&s("#7CBD6B")), Ok(0x7CBD6B));
    assert_eq!(tint_color_of(&s("#ffffffff")), Ok(0xFFFFFFFF));
    assert_eq!(tint_color_of(&s("7CBD6B")), Err(s("invalid tint color: 7CBD6B")));
    assert_eq!(tint_color_of(&s("#1ffffffff")), Err(s("invalid tint color: #1ffffffff")));
    assert_eq!(tint_color_of(&s("#")), Err(s("invalid tint color: #")));
    assert_eq!(from_hex(&chars_of("+a")), Some(10));
    assert_eq!(from_hex(&chars_of("-a")), None);
    assert_eq!(tint_index_of(255), Ok(255));
    assert_eq!(tint_index_of(256), Err(s("tint index 256 is out of range")));
    assert_eq!(tint_index_of(-1), Err(s("tint index -1 is out of range")));
    assert_eq!(Direction::West.to_string(), "west");
}

#[test]
fn pools_store_each_value_once() {
    let mut p: Pool<Vec<usize>> = Pool::new();
    assert_eq!(p.pool(vec![1, 2]), 0);
    assert_eq!(p.pool(vec![3]), 1);
    assert_eq!(p.pool(vec![1, 2]), 0);
    assert_eq!(p.items().len(), 2);
    let mut names: Pool<Vec<String>> = Pool::new();
    assert_eq!(names.pool(strings(&["a"])), 0);
    assert_eq!(names.pool(strings(&["a", "b"])), 1);
    assert_eq!(names.pool(strings(&["a"])), 0);
}

#[test]
fn blocks_are_sorted_and_duplicates_refused() {
    let b = |ns: &str, path: &str, n: usize| Block { namespace: s(ns), path: s(path), properties: n, states: n, materials: n };
    let (sorted, ok) = finish_blocks(vec![b("mod", "a", 0), b("minecraft", "stone", 1), b("minecraft", "dirt", 2)]);
    assert!(ok.is_ok());
    let ids: Vec<String> = sorted.iter().map(|x| format!("{}:{}", x.namespace, x.path)).collect();
    assert_eq!(ids, vec!["minecraft:dirt", "minecraft:stone", "mod:a"]);
    let (_, dup) = finish_blocks(vec![b("z", "z", 0), b("a", "b", 1), b("z", "z", 2), b("a", "b", 3)]);
    assert_eq!(dup, Err(s("a:b")));
}

#[test]
fn state_grids() {
    let keys = strings(&["facing=north,lit=false", "facing=north,lit=true", "facing=south,lit=false", "facing=south,lit=true"]);
    let grid = StateGrid::parse(&keys).unwrap();
    assert_eq!(grid.properties, strings(&["facing", "lit"]));
    let a = StateRecord { render_shape: RenderShape::Model, draws: 0 };
    let b = StateRecord { render_shape: RenderShape::Model, draws: 1 };
    let records = vec![a, a, b, b];
    let relevant = grid.relevant(&records);
    assert_eq!(relevant, vec![true, false]);
    let short = grid.keys(&relevant);
    assert_eq!(short, strings(&["facing=north", "facing=north", "facing=south", "facing=south"]));
    let collapsed = collapse_states(short, &records);
    assert_eq!(collapsed.len(), 2);
    assert_eq!(collapsed[0].0, "facing=north");
    assert_eq!(collapsed[1].1, b);
    assert_eq!(relevant_properties(&grid.properties, &relevant), strings(&["facing"]));
}

#[test]
fn state_grid_errors() {
    assert_eq!(
        StateGrid::parse(&strings(&["a=1,b"])).err(),
        Some(s("malformed state key a=1,b"))
    );
    assert_eq!(
        StateGrid::parse(&strings(&["a=1,b=2", "a=1,c=2"])).err(),
        Some(s("state key a=1,c=2 has unexpected property c at column 1"))
    );
    assert_eq!(
        StateGrid::parse(&strings(&["a=1,b=2", "a=2"])).err(),
        Some(s("state key a=2 has unexpected number of properties (expected 2, found 1)"))
    );
    let empty = StateGrid::parse(&strings(&[""])).unwrap();
    assert!(empty.properties.is_empty());
}

#[test]
fn later_keys_win_when_states_collapse() {
    let out = collapse_states(strings(&["b", "a", "b", "c"]), &vec![1, 2, 3, 4, 5]);
    assert_eq!(out, vec![(s("a"), 2), (s("b"), 3), (s("c"), 4)]);
    assert!(collapse_states(Vec::new(), &vec![1]).is_empty());
}

#[test]
fn states_drawn_by_the_pack_model_are_dropped() {
    let mut draws: Pool<Vec<Draw>> = Pool::new();
    let empty = draws.pool(Vec::new());
    let one = draws.pool(vec![Draw { order: 0, pose: 0, geometry: DrawGeometry::BlockModel { quads: 0 } }]);
    let collapsed = vec![
        (s("a=1"), StateRecord { render_shape: RenderShape::Model, draws: empty }),
        (s("a=2"), StateRecord { render_shape: RenderShape::Invisible, draws: empty }),
        (s("a=3"), StateRecord { render_shape: RenderShape::Model, draws: one }),
    ];
    let kept = block_states(collapsed, &draws);
    let keys: Vec<&str> = kept.iter().map(|st| st.key.as_str()).collect();
    assert_eq!(keys, vec!["a=2", "a=3"]);
    assert_eq!(split_block_id("mod:oak"), (s("mod"), s("oak")));
    assert_eq!(split_block_id("oak"), (s("minecraft"), s("oak")));
}

#[test]
fn discards_are_checked_against_the_expected_list() {
    let files = vec![
        (s("minecraft:a"), vec![(s("x=1"), strings(&["no model"])), (s("x=2"), strings(&["no model", "odd"]))]),
        (s("minecraft:b"), vec![(s(""), strings(&["odd"]))]),
    ];
    let expected = vec![(s("minecraft:a"), strings(&["no model", "gone"])), (s("minecraft:c"), strings(&["odd"]))];
    assert_eq!(unexpected_discards(&files, &expected), strings(&["  minecraft:a[x=2]: odd", "  minecraft:b[]: odd"]));
    assert_eq!(stale_discards(&files, &expected), strings(&["minecraft:a: gone", "minecraft:c: odd"]));
}

#[test]
fn pack_listings() {
    assert_eq!(normalize_dir(Some("/textures/block/")), Some(chars_of("textures/block")));
    assert_eq!(normalize_dir(Some("//")), None);
    assert_eq!(normalize_dir(None), None);
    assert_eq!(normalize_ext("..json"), Some(chars_of("json")));
    assert_eq!(normalize_ext("."), None);
    let dir = Some(chars_of("items"));
    let ext = Some(chars_of("json"));
    assert!(path_matches("assets/minecraft/items/apple.JSON", &dir, &ext));
    assert!(!path_matches("assets/minecraft/items/.json", &dir, &ext));
    assert!(!path_matches("assets/minecraft/itemsx/apple.json", &dir, &ext));
    assert!(!path_matches("assets/minecraft/items/", &dir, &ext));
    assert!(!path_matches("assets//items/apple.json", &dir, &ext));
    assert!(path_matches("assets/mod/anything", &None, &None));
    assert!(!path_matches("data/mod/anything", &None, &None));
}

#[test]
fn zip_entries_are_classified() {
    assert_eq!(normalize_root(Some(s("pack"))), Some(s("pack/")));
    assert_eq!(normalize_root(Some(s("pack/"))), Some(s("pack/")));
    assert_eq!(normalize_root(None), None);
    let root = Some(s("pack/"));
    assert!(matches!(classify_entry("pack/assets/x", EntryMethod::Deflate, &root), EntryDecision::Keep(p) if p == "assets/x"));
    assert!(matches!(classify_entry("other/assets/x", EntryMethod::Store, &root), EntryDecision::Skip));
    assert!(matches!(classify_entry("other/x", EntryMethod::Other(14), &root), EntryDecision::Unsupported(14, n) if n == "other/x"));
    assert!(matches!(classify_entry("a", EntryMethod::Store, &None), EntryDecision::Keep(p) if p == "a"));
}

#[test]
fn rounds_fill_the_missing_slots() {
    let mut out: Vec<Option<&str>> = vec![None, Some("x"), None, None];
    let still = merge_round(&mut out, &vec![0, 2, 3], vec![Some("a"), None, Some("c")]);
    assert_eq!(still, vec![2]);
    assert_eq!(out, vec![Some("a"), Some("x"), None, Some("c")]);
}

#[test]
fn color_maps_load_or_fall_back() {
    let grass = png(256, 256, [0x10, 0x20, 0x30, 0xFF]);
    let pixels = fill(Some(&grass)).unwrap();
    assert_eq!(pixels.len(), 65536);
    assert_eq!(pixels[0], 0xFF102030);
    assert_eq!(fill(None), Err(s("No known pack provided the color map")));
    assert_eq!(fill(Some(&png(2, 3, [0, 0, 0, 0]))), Err(s("Expected a 256x256 color map but it was 2x3")));
    let mut d = Diagnostics::new();
    let m = ColorMap::load("colormap/foliage", 0xFF48B518, None, &mut d);
    assert_eq!(m.pixel_at(5), 0xFF48B518);
    assert_eq!(m.pixel_at(70000), 0xFF48B518);
    let r = d.snapshot();
    assert_eq!(r.len(), 1);
    assert_eq!(r[0].subject, "colormap/foliage");
    assert_eq!(r[0].message, "Failed to load color map image: No known pack provided the color map (using default color)");
    let mut d = Diagnostics::new();
    let maps = ColorMaps::from_files(&vec![Some(grass), None, None], &mut d);
    assert_eq!(maps.grass.pixel_at(100), 0xFF102030);
    assert_eq!(maps.foliage.default, 0xFF48B518);
    assert_eq!(maps.dry_foliage.pixel_at(0), 0xFF5C3C32);
    assert_eq!(d.snapshot().len(), 2);
    assert_eq!(color_map_sources()[0], ("colormap/grass", 0xFFFF00FF));
}

#[test]
fn decoded_colour_maps_are_checked_and_packed() {
    let small = tessera::util::image::RgbaImage::new(2, 3);
    assert_eq!(color_map_from(&small).unwrap_err(), "Expected a 256x256 color map but it was 2x3");
    let full = tessera::util::image::RgbaImage::from_fn(256, 256, |x, y| tessera::util::image::Rgba {
        r: x as u8,
        g: y as u8,
        b: 3,
        a: 255,
    });
    let pixels = color_map_from(&full).unwrap();
    assert_eq!(pixels.len(), 256 * 256);
    assert_eq!(pixels[256 + 2], 0xFF02_0103);
}
