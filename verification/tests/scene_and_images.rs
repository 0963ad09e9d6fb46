use std::sync::Arc;
use tessera::diagnostics::Diagnostics;
use tessera::direction::Quadrant;
use tessera::resource::texture::sprite::{texel_bits, Blend, Sprite};
use tessera::resource::ResourceId;
use tessera::scene::catalog::catalog_ids;
use tessera::scene::layered::{composite, multiply, multiply_texel, overlay, Layer};
use tessera::scene::rasterize::{
    image_from_texels, modulate, needs_depth, over, unpack_texel, AlphaCutout, PassKind,
};
use tessera::scene::{report_slot_error, slot_sprite_id, tints_for_block, GRASS_TINT};
use tessera::util::image::{crop, scale, transform, window, Rgba, RgbaImage};

fn px(r: u8, g: u8, b: u8, a: u8) -> Rgba {
    Rgba { r, g, b, a }
}

fn id(s: &str) -> ResourceId {
    ResourceId::from_str(s).unwrap()
}

fn row(pixels: Vec<Rgba>) -> RgbaImage {
    let n = pixels.len() as u32;
    RgbaImage::from_pixels(n, 1, pixels).unwrap()
}

#[test]
fn images_from_pixels_check_their_size() {
    assert!(RgbaImage::from_pixels(2, 2, vec![px(0, 0, 0, 0); 3]).is_none());
    let img = RgbaImage::from_fn(3, 2, |x, y| px(x as u8, y as u8, 0, 255));
    assert_eq!(img.get_pixel(2, 1), px(2, 1, 0, 255));
    assert_eq!(RgbaImage::new(2, 3).get_pixel(1, 2), px(0, 0, 0, 0));
    assert_eq!(img.copy().pixels(), img.pixels());
}

#[test]
fn cropping_clamps_to_the_image() {
    let img = RgbaImage::from_fn(4, 4, |x, y| px(x as u8, y as u8, 0, 255));
    let c = crop(&img, 1, 2, 2, 1);
    assert_eq!(c.dimensions(), (2, 1));
    assert_eq!(c.get_pixel(1, 0), px(2, 2, 0, 255));
    let c = crop(&img, 3, 3, 5, 5);
    assert_eq!(c.dimensions(), (1, 1));
    assert_eq!(c.get_pixel(0, 0), px(3, 3, 0, 255));
    assert_eq!(crop(&img, 9, 0, 1, 1).dimensions(), (0, 1));
}

#[test]
fn transforms_crop_mirror_and_rotate() {
    let img = row(vec![px(1, 0, 0, 255), px(2, 0, 0, 255), px(3, 0, 0, 255)]);
    assert!(transform(&img, (0, 0), (0, 0), (3, 1), Quadrant::R0).is_none());
    let mirrored = transform(&img, (0, 0), (3, 0), (0, 1), Quadrant::R0).unwrap();
    assert_eq!(mirrored.pixels(), &vec![px(3, 0, 0, 255), px(2, 0, 0, 255), px(1, 0, 0, 255)]);
    assert!(transform(&img, (0, 0), (3, 1), (0, 0), Quadrant::R180).is_none());
    let turned = transform(&img, (0, 0), (0, 0), (3, 1), Quadrant::R90).unwrap();
    assert_eq!(turned.dimensions(), (1, 3));
    let cropped = transform(&img, (1, 0), (0, 0), (1, 1), Quadrant::R0).unwrap();
    assert_eq!(cropped.pixels(), &vec![px(2, 0, 0, 255)]);
    let empty = transform(&img, (0, 0), (1, 0), (1, 1), Quadrant::R0).unwrap();
    assert_eq!(empty.dimensions(), (1, 1));
    assert_eq!(empty.get_pixel(0, 0), px(0, 0, 0, 0));
    let w = window(&img, (2, 0), (0, 1), (4, 0));
    assert_eq!((w.x, w.y, w.width, w.height, w.flip_x, w.flip_y), (2, 0, 1, 1, false, true));
}

#[test]
fn scaling_up_by_whole_factors_repeats_pixels() {
    let img = row(vec![px(1, 0, 0, 255), px(2, 0, 0, 255)]);
    let big = scale(&img, 4, 2).unwrap();
    assert_eq!(big.dimensions(), (4, 2));
    assert_eq!(big.get_pixel(1, 1), px(1, 0, 0, 255));
    assert_eq!(big.get_pixel(2, 0), px(2, 0, 0, 255));
    assert!(scale(&img, 2, 1).is_none());
}

#[test]
fn scaling_down_resamples() {
    let img = RgbaImage::from_pixels(4, 4, vec![px(200, 10, 10, 255); 16]).unwrap();
    let small = scale(&img, 2, 2).unwrap();
    assert_eq!(small.dimensions(), (2, 2));
    for p in small.pixels() {
        assert_eq!(*p, px(200, 10, 10, 255));
    }
    let odd = scale(&RgbaImage::new(2, 2), 3, 3).unwrap();
    assert_eq!(odd.dimensions(), (3, 3));
}

#[test]
fn tints_multiply_channels() {
    assert_eq!(multiply_texel(px(200, 100, 50, 255), 0x80FF8000), px(200, 50, 0, 128));
    assert_eq!(multiply_texel(px(200, 100, 50, 255), u32::MAX), px(200, 100, 50, 255));
    let mut img = row(vec![px(255, 255, 255, 255)]);
    multiply(&mut img, 0xFF102030);
    assert_eq!(img.get_pixel(0, 0), px(0x10, 0x20, 0x30, 255));
}

#[test]
fn overlaying_blends_by_alpha() {
    assert_eq!(overlay(px(200, 0, 0, 128), px(0, 0, 200, 255)), px(100, 0, 99, 255));
    assert_eq!(overlay(px(1, 2, 3, 255), px(9, 9, 9, 9)), px(1, 2, 3, 255));
    assert_eq!(overlay(px(1, 2, 3, 0), px(9, 9, 9, 9)), px(9, 9, 9, 9));
    assert_eq!(overlay(px(1, 2, 3, 10), px(9, 9, 9, 0)), px(1, 2, 3, 10));
}

#[test]
fn layers_stack_in_order() {
    let base = Layer { sprite: Arc::new(row(vec![px(0, 0, 200, 255)])), tint: u32::MAX };
    let top = Layer { sprite: Arc::new(row(vec![px(200, 0, 0, 128)])), tint: u32::MAX };
    let out = composite(&[base, top], 1).unwrap();
    assert_eq!(out.get_pixel(0, 0), px(100, 0, 99, 255));
    assert!(composite(&[], 4).is_none());
    let tinted = Layer { sprite: Arc::new(row(vec![px(255, 255, 255, 255)])), tint: 0xFF00FF00 };
    let out = composite(&[tinted], 2).unwrap();
    assert_eq!(out.dimensions(), (2, 2));
    assert_eq!(out.get_pixel(1, 1), px(0, 255, 0, 255));
}

#[test]
fn rasterizer_texels() {
    let src = texel_bits(px(200, 0, 0, 128));
    let dst = texel_bits(px(0, 0, 200, 255));
    assert_eq!(src, 0x8000_00C8);
    assert_eq!(over(src, dst), texel_bits(px(100, 0, 99, 255)));
    assert_eq!(unpack_texel(0x4D32_64C8), px(0xC8, 0x64, 0x32, 0x4D));
    assert_eq!(modulate(0x4D32_64C8, [65536, 32768, 0]), 0x4D00_32C8);
    assert!(!PassKind::Cutout(AlphaCutout::Half).keep(0x7F00_0000));
    assert!(PassKind::Cutout(AlphaCutout::Half).keep(0x8000_0000));
    assert!(PassKind::Cutout(AlphaCutout::Visible).keep(0xFF00_0000));
    assert!(!PassKind::Cutout(AlphaCutout::Visible).keep(0xFEFF_FFFF));
    assert!(!PassKind::Cutout(AlphaCutout::Visible).keep(0x0100_0000));
    assert_eq!(AlphaCutout::Tenth.min_alpha(), 26);
    assert_eq!(PassKind::Opaque.compose(src, dst), src);
    assert_eq!(PassKind::Translucent.compose(src, dst), over(src, dst));
    assert!(!PassKind::Translucent.writes_depth());
    assert!(matches!(PassKind::from_blend(Blend::Translucent), PassKind::Translucent));
}

#[test]
fn depth_is_needed_for_several_parts_or_translucency() {
    assert!(!needs_depth(1, 1, &[Blend::Opaque, Blend::Cutout]));
    assert!(needs_depth(2, 1, &[]));
    assert!(needs_depth(1, 2, &[]));
    assert!(needs_depth(1, 1, &[Blend::Opaque, Blend::Translucent]));
}

#[test]
fn frames_become_images() {
    let img = image_from_texels(2, 1, &vec![0xFF00_00FF, 0x0000_FF00]).unwrap();
    assert_eq!(img.pixels(), &vec![px(255, 0, 0, 255), px(0, 255, 0, 0)]);
    assert!(image_from_texels(2, 2, &vec![0]).is_none());
}

#[test]
fn sprites_know_their_blend() {
    assert_eq!(Blend::scan(&row(vec![px(1, 1, 1, 255)])), Blend::Opaque);
    assert_eq!(Blend::scan(&row(vec![px(1, 1, 1, 255), px(0, 0, 0, 0)])), Blend::Cutout);
    assert_eq!(Blend::scan(&row(vec![px(0, 0, 0, 0), px(1, 1, 1, 7)])), Blend::Translucent);
    let s = Sprite::from_image(Arc::new(row(vec![px(1, 2, 3, 4), px(5, 6, 7, 255)])));
    assert_eq!((s.width, s.height), (2, 1));
    assert_eq!(s.blend, Blend::Translucent);
    assert_eq!(s.texel(1, 0), texel_bits(px(5, 6, 7, 255)));
}

#[test]
fn fixed_block_tints() {
    assert_eq!(tints_for_block(&id("grass_block")), vec![GRASS_TINT]);
    assert_eq!(tints_for_block(&id("pink_petals")), vec![0xFFFFFFFF, GRASS_TINT]);
    assert!(tints_for_block(&id("stone")).is_empty());
    assert!(tints_for_block(&id("mod:grass_block")).is_empty());
}

#[test]
fn slots_that_are_not_ids_are_reported() {
    let mut d = Diagnostics::new();
    let ok = slot_sprite_id(&String::from("all"), &String::from("block/stone"), &id("m"), &mut d);
    assert_eq!(ok.map(|i| i.to_string()), Some(String::from("minecraft:block/stone")));
    assert!(d.is_empty());
    assert!(slot_sprite_id(&String::from("all"), &String::from("Bad"), &id("m"), &mut d).is_none());
    report_slot_error(&String::from("top"), &String::from("gone"), &id("m"), &mut d);
    let r = d.snapshot();
    assert_eq!(r.len(), 2);
    assert_eq!(r[0].message, "Slot \"all\" is not a valid resource id: Bad");
    assert_eq!(r[1].message, "Slot \"top\": gone");
}

#[test]
fn catalogs_skip_hidden_entries() {
    let paths: Vec<String> = [
        "assets/minecraft/items/apple.json",
        "minecraft/items/_template.json",
        "minecraft/items",
        "mod/blockstates/sub/dir.json",
    ]
    .iter()
    .map(|s| s.to_string())
    .collect();
    let ids: Vec<String> = catalog_ids(&paths).iter().map(|i| i.to_string()).collect();
    assert_eq!(ids, vec!["minecraft:apple", "mod:sub/dir"]);
}

#[test]
fn composites_have_the_requested_size() {
    let a = Layer { sprite: Arc::new(RgbaImage::new(2, 4)), tint: u32::MAX };
    let b = Layer { sprite: Arc::new(RgbaImage::new(4, 2)), tint: u32::MAX };
    assert_eq!(composite(&[a, b], 3).unwrap().dimensions(), (3, 3));
}
