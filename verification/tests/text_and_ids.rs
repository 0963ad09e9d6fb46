use tessera::direction::{Direction, Quadrant};
use tessera::naming::{registry_id_ok, registry_names, registry_rename_ok, to_snake_case};
use tessera::resource::id::IdMap;
use tessera::resource::{InvalidResourceId, ResourceId};
use tessera::text::{
    chars_of, find_char, join, push_decimal, push_digits, rfind_char, sort_strings, sorted_unique, split_chars,
    str_le, string_of, string_of_range, trim_bounds,
};
use tessera::util::collections::StrMap;

fn strings(v: &[&str]) -> Vec<String> {
    v.iter().map(|s| s.to_string()).collect()
}

#[test]
fn digits_and_decimals() {
    let mut s = String::from("n=");
    push_digits(&mut s, 0);
    assert_eq!(s, "n=0");
    let mut s = String::new();
    push_digits(&mut s, 1234567890);
    assert_eq!(s, "1234567890");
    let mut s = String::new();
    push_decimal(&mut s, -42);
    assert_eq!(s, "-42");
    let mut s = String::new();
    push_decimal(&mut s, i64::MIN);
    assert_eq!(s, "-9223372036854775808");
    let mut s = String::new();
    push_digits(&mut s, u64::MAX);
    assert_eq!(s, "18446744073709551615");
}

#[test]
fn finding_characters() {
    let s = chars_of("a,b,c");
    assert_eq!(find_char(&s, ',', 0), Some(1));
    assert_eq!(find_char(&s, ',', 2), Some(3));
    assert_eq!(find_char(&s, ',', 4), None);
    assert_eq!(rfind_char(&s, ','), Some(3));
    assert_eq!(rfind_char(&s, 'x'), None);
    assert_eq!(string_of_range(&s, 2, 5), "b,c");
    assert_eq!(string_of(&s), "a,b,c");
}

#[test]
fn splitting_keeps_empty_pieces() {
    let pieces: Vec<String> = split_chars(&chars_of(",a,,b,"), ',').iter().map(|p| string_of(p)).collect();
    assert_eq!(pieces, strings(&["", "a", "", "b", ""]));
    let whole: Vec<String> = split_chars(&chars_of("abc"), ',').iter().map(|p| string_of(p)).collect();
    assert_eq!(whole, strings(&["abc"]));
}

#[test]
fn joining_then_splitting_gives_the_pieces_back() {
    let parts = strings(&["facing=north", "half=top", ""]);
    let text = join(&parts, ",");
    assert_eq!(text, "facing=north,half=top,");
    let back: Vec<String> = split_chars(&chars_of(&text), ',').iter().map(|p| string_of(p)).collect();
    assert_eq!(back, parts);
    assert_eq!(join(&Vec::new(), ","), "");
}

#[test]
fn trimming_whitespace() {
    let s = chars_of(" \t a b \u{3000}\n");
    let (a, b) = trim_bounds(&s);
    assert_eq!(string_of_range(&s, a, b), "a b");
    let blank = chars_of("   ");
    let (a, b) = trim_bounds(&blank);
    assert_eq!(a, b);
}

#[test]
fn lexicographic_order() {
    assert!(str_le("abc", "abd"));
    assert!(str_le("ab", "abc"));
    assert!(!str_le("b", "abc"));
    assert!(str_le("", ""));
    let sorted = sort_strings(strings(&["pear", "apple", "fig", "apple"]));
    assert_eq!(sorted, strings(&["apple", "apple", "fig", "pear"]));
    let unique = sorted_unique(strings(&["b", "a", "b", "c", "a"]));
    assert_eq!(unique, strings(&["a", "b", "c"]));
}

#[test]
fn snake_case_names() {
    assert_eq!(to_snake_case("CustomModelData"), "custom_model_data");
    assert_eq!(to_snake_case("BundleSelectedItem"), "bundle_selected_item");
    assert_eq!(to_snake_case("HTTPServer"), "http_server");
    assert_eq!(to_snake_case("ABC"), "abc");
    assert_eq!(to_snake_case("already_snake"), "already_snake");
    assert_eq!(to_snake_case("Fishing_Rod"), "fishing_rod");
    assert_eq!(to_snake_case(""), "");
}

#[test]
fn directions_and_quadrants() {
    let all = Direction::all();
    for (i, d) in all.iter().enumerate() {
        assert_eq!(d.index(), i);
        assert_eq!(Direction::from_index(i), *d);
    }
    assert_eq!(all[0], Direction::North);
    assert_eq!(all[5], Direction::Down);
    assert_eq!(Quadrant::try_from(0).unwrap().turns(), 0);
    assert_eq!(Quadrant::try_from(90).unwrap().turns(), 1);
    assert_eq!(Quadrant::try_from(270).unwrap().turns(), 3);
    assert_eq!(Quadrant::try_from(-90), Ok(Quadrant::R270));
    assert_eq!(Quadrant::try_from(450), Ok(Quadrant::R90));
    assert_eq!(Quadrant::try_from(45), Err(String::from("Invalid rotation 45. (only 0/90/180/270 allowed")));
    assert_eq!(Quadrant::try_from(-45), Err(String::from("Invalid rotation -45. (only 0/90/180/270 allowed")));
}

#[test]
fn resource_ids_parse() {
    let id = ResourceId::from_str("stone").unwrap();
    assert_eq!(id.namespace, "minecraft");
    assert_eq!(id.path, "stone");
    let id = ResourceId::from_str(":stone").unwrap();
    assert_eq!(id.namespace, "minecraft");
    let id = ResourceId::from_str("mod.a-b_c:block/oak_log").unwrap();
    assert_eq!(id.namespace, "mod.a-b_c");
    assert_eq!(id.path, "block/oak_log");
    assert_eq!(id.to_string(), "mod.a-b_c:block/oak_log");
}

#[test]
fn invalid_resource_ids_are_refused() {
    for text in ["Stone", "a:b:c", "..:x", "ns:../x", "ns:a/../b", "ns:..", "bad ns:x", "ns:x y"] {
        match ResourceId::from_str(text) {
            Err(InvalidResourceId { id }) => assert_eq!(id, text),
            Ok(id) => panic!("{text} parsed as {}", id.to_string()),
        }
    }
    assert!(ResourceId::from_str("ns:a..b").is_ok());
    assert!(ResourceId::from_str("ns:a/..b/c").is_ok());
}

#[test]
fn a_parsed_id_reads_back_from_its_text() {
    for text in ["stone", "minecraft:stone", ":stone", "mod:a/b.c"] {
        let id = ResourceId::from_str(text).unwrap();
        let again = ResourceId::from_str(&id.to_string()).unwrap();
        assert!(again.same(&id));
    }
}

#[test]
fn asset_paths() {
    let id = ResourceId::new_const("minecraft", "stone");
    assert_eq!(id.item_path(), "assets/minecraft/items/stone.json");
    assert_eq!(id.blockstate_path(), "assets/minecraft/blockstates/stone.json");
    assert_eq!(id.model_path(), "assets/minecraft/models/stone.json");
    assert_eq!(id.texture_path(), "assets/minecraft/textures/stone.png");
    assert_eq!(id.texture_mcmeta_path(), "assets/minecraft/textures/stone.png.mcmeta");
}

#[test]
fn an_asset_path_reads_back_as_its_id() {
    let id = ResourceId::new(String::from("mod"), String::from("block/oak.log"));
    for path in [id.item_path(), id.blockstate_path(), id.model_path(), id.texture_path()] {
        let back = ResourceId::from_path(&path).unwrap();
        assert!(back.same(&id), "{path}");
    }
}

#[test]
fn ids_from_file_paths() {
    let id = ResourceId::from_path("minecraft/items/diamond_sword.json").unwrap();
    assert_eq!(id.to_string(), "minecraft:diamond_sword");
    let id = ResourceId::from_path("assets/ns/blockstates/deep/one").unwrap();
    assert_eq!(id.to_string(), "ns:deep/one");
    assert!(ResourceId::from_path("minecraft/items").is_err());
    assert!(ResourceId::from_path("/items/x.json").is_err());
    assert!(ResourceId::from_path("ns/items/.json").is_err());
}

#[test]
fn id_maps_keep_first_order_and_replace_values() {
    let mut m: IdMap<u32> = IdMap::new();
    assert!(m.is_empty());
    m.insert(ResourceId::new_const("a", "x"), 1);
    m.insert(ResourceId::new_const("b", "y"), 2);
    m.insert(ResourceId::new_const("a", "x"), 3);
    assert_eq!(m.len(), 2);
    assert_eq!(m.get(&ResourceId::new_const("a", "x")), Some(&3));
    assert_eq!(m.key_at(0).to_string(), "a:x");
    assert_eq!(*m.value_at(1), 2);
    m.remove(&ResourceId::new_const("a", "x"));
    assert!(!m.contains_key(&ResourceId::new_const("a", "x")));
    assert_eq!(m.len(), 1);
}

#[test]
fn string_maps_keep_first_order_and_replace_values() {
    let mut m: StrMap<&str> = StrMap::new();
    m.insert(String::from("layer0"), "a");
    m.insert(String::from("layer1"), "b");
    m.insert(String::from("layer0"), "c");
    assert_eq!(m.len(), 2);
    assert_eq!(m.get("layer0"), Some(&"c"));
    assert_eq!(m.key_at(0), "layer0");
    m.remove("layer1");
    assert_eq!(m.get("layer1"), None);
    assert!(!m.is_empty());
}

#[test]
fn registry_names_of_variants() {
    assert_eq!(
        registry_names("RangeDispatch", None, None, "minecraft"),
        (String::from("minecraft:range_dispatch"), String::from("range_dispatch"))
    );
    assert_eq!(
        registry_names("BundleSelectedItem", Some(String::from("bundle/selected_item")), None, "minecraft"),
        (String::from("minecraft:bundle/selected_item"), String::from("bundle/selected_item"))
    );
    assert_eq!(
        registry_names("Thing", None, Some(String::from("mod:stuff")), "minecraft"),
        (String::from("mod:stuff"), String::from("stuff"))
    );
    assert!(registry_rename_ok("fishing_rod/cast"));
    assert!(!registry_rename_ok("a:b"));
    assert!(registry_id_ok("a:b"));
    assert!(!registry_id_ok(":b"));
    assert!(!registry_id_ok("a:"));
    assert!(!registry_id_ok("ab"));
}
