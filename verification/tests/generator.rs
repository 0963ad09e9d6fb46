use tessera::capture_gen::model::{Direction, FloatingBits, Layering, QuadKind, RenderShape};
use tessera::capture_gen::pool::DrawGeometry;
use tessera::capture_gen::pools::Pools;
use tessera::capture_gen::raw::{
    RawBlockFile, RawCube, RawMaterial, RawPart, RawQuad, RawState, RawSubmission, RawTexture,
};
use tessera::capture_gen::{read_block, unexpected_error, GenerateError, FORMAT};

fn s(v: &str) -> String {
    v.to_string()
}

fn bits(v: f32) -> FloatingBits {
    FloatingBits(v.to_bits())
}

fn pose() -> [FloatingBits; 12] {
    [1.0f32, 0.0, 0.0, 0.0, 0.0, 1.0, 0.0, 0.0, 0.0, 0.0, 1.0, 0.0].map(bits)
}

fn material(sprite: Option<&str>, path: Option<&str>) -> RawMaterial {
    RawMaterial {
        texture: RawTexture { sprite: sprite.map(s), path: path.map(s) },
        pipeline: s("solid"),
        cull: true,
        blend: false,
        alpha_cutout: None,
        depth_write: true,
        depth_bias: None,
        layering: Layering::Flat,
        tint_index: None,
        tint_color: None,
        shade: None,
        light_emission: 0,
    }
}

fn cube(uvs: usize) -> RawCube {
    RawCube {
        from: [bits(0.0); 3],
        to: [bits(1.0); 3],
        faces: vec![(Direction::Up, vec![[bits(0.0), bits(1.0)]; uvs])],
    }
}

fn model(material: u32, uvs: usize) -> RawSubmission {
    RawSubmission::Model { order: 0, material, pose: pose(), parts: vec![RawPart { pose: pose(), cubes: vec![cube(uvs)] }] }
}

fn state(shape: RenderShape, capture: Option<Vec<RawSubmission>>) -> RawState {
    RawState { render_shape: shape, capture, discarded: None }
}

fn file(states: Vec<(&str, RawState)>) -> RawBlockFile {
    RawBlockFile {
        format: FORMAT,
        minecraft_version: s("1.21"),
        block: s("minecraft:lamp"),
        materials: vec![material(Some("minecraft:block/lamp"), None)],
        states: states.into_iter().map(|(k, st)| (s(k), st)).collect(),
    }
}

#[test]
fn identical_values_are_pooled_once() {
    let mut pools = Pools::new();
    assert_eq!(pools.pose(&pose()), 0);
    assert_eq!(pools.pose(&pose()), 0);
    let parts = vec![RawPart { pose: pose(), cubes: vec![cube(4), cube(4)] }];
    let a = pools.model_parts(&parts).unwrap();
    let b = pools.model_parts(&parts).unwrap();
    assert_eq!(a, b);
    assert_eq!(pools.faces.items().len(), 1);
    assert_eq!(pools.cubes.items()[0].len(), 2);
}

#[test]
fn faces_need_four_uvs() {
    let mut pools = Pools::new();
    let parts = vec![RawPart { pose: pose(), cubes: vec![cube(4), cube(3)] }];
    assert_eq!(
        pools.model_parts(&parts),
        Err(s("cube face up has unexpected number of UVs (expected 4, found 3)"))
    );
}

#[test]
fn quads_need_their_corners_and_a_material() {
    let mut pools = Pools::new();
    let quad = |kind, n: usize, material| RawQuad {
        kind,
        material,
        positions: vec![[bits(0.0); 3]; n],
        uvs: vec![[bits(0.0); 2]; n],
    };
    assert_eq!(pools.block_model_quads(&vec![quad(QuadKind::Triangle, 3, 0)], 1), Ok(0));
    assert_eq!(
        pools.block_model_quads(&vec![quad(QuadKind::Parallelogram, 3, 0)], 1),
        Err(s("A Parallelogram needs 4 positions and uvs)"))
    );
    assert_eq!(
        pools.block_model_quads(&vec![quad(QuadKind::Triangle, 3, 2)], 2),
        Err(s("material index 2 is out of range (0..2)"))
    );
}

#[test]
fn draws_check_their_material_first() {
    let mut pools = Pools::new();
    assert_eq!(pools.draw(&model(5, 3), 1).err(), Some(s("material index 5 is out of range (0..1)")));
    let d = pools.draw(&model(0, 4), 1).unwrap();
    assert!(matches!(d.geometry, DrawGeometry::Model { material: 0, .. }));
}

#[test]
fn material_fields_are_checked_in_order() {
    let mut pools = Pools::new();
    assert_eq!(pools.material(&material(Some("a:b"), None)), Ok(0));
    assert_eq!(pools.material(&material(None, Some("mod:textures/block/x.png"))), Ok(1));
    assert_eq!(pools.material(&material(Some("a:b"), None)), Ok(0));
    assert_eq!(pools.materials.items()[1].texture, "mod:block/x");
    assert_eq!(
        pools.material(&material(None, None)),
        Err(s("a texture needs either a sprite or a path, but not both"))
    );
    let mut bad = material(Some("a:b"), None);
    bad.tint_color = Some(s("ff0000"));
    bad.tint_index = Some(300);
    assert_eq!(pools.material(&bad), Err(s("invalid tint color: ff0000")));
    bad.tint_color = Some(s("#ff0000"));
    assert_eq!(pools.material(&bad), Err(s("tint index 300 is out of range")));
    bad.tint_index = Some(1);
    let i = pools.material(&bad).unwrap();
    assert_eq!(pools.materials.items()[i].tint_color, Some(0xff0000));
}

#[test]
fn blocks_keep_relevant_properties_and_drawn_states() {
    let mut pools = Pools::new();
    let f = file(vec![
        ("lit=false,waterlogged=false", state(RenderShape::Model, Some(vec![model(0, 4)]))),
        ("lit=false,waterlogged=true", state(RenderShape::Model, Some(vec![model(0, 4)]))),
        ("lit=true,waterlogged=false", state(RenderShape::Model, None)),
        ("lit=true,waterlogged=true", state(RenderShape::Model, None)),
    ]);
    assert_eq!(pools.block(&f), Ok(()));
    assert_eq!(pools.blocks.len(), 1);
    let block = &pools.blocks[0];
    assert_eq!((block.namespace.as_str(), block.path.as_str()), ("minecraft", "lamp"));
    assert_eq!(pools.property_lists.items()[block.properties], vec![s("lit")]);
    let states = &pools.states.items()[block.states];
    assert_eq!(states.len(), 1);
    assert_eq!(states[0].key, "lit=false");
}

#[test]
fn blocks_without_drawn_states_add_nothing() {
    let mut pools = Pools::new();
    let f = file(vec![("", state(RenderShape::Model, None))]);
    assert_eq!(pools.block(&f), Ok(()));
    assert!(pools.blocks.is_empty());
    let invisible = file(vec![("", state(RenderShape::Invisible, None))]);
    assert_eq!(pools.block(&invisible), Ok(()));
    assert_eq!(pools.blocks.len(), 1);
}

#[test]
fn block_errors() {
    let mut pools = Pools::new();
    let f = file(vec![("a=1,b", state(RenderShape::Model, None))]);
    assert_eq!(pools.block(&f), Err(s("malformed state key a=1,b")));
    let g = file(vec![("", state(RenderShape::Model, Some(vec![model(0, 2)])))]);
    assert_eq!(pools.block(&g), Err(s("cube face up has unexpected number of UVs (expected 4, found 2)")));
}

#[test]
fn duplicate_blocks_are_refused() {
    let mut pools = Pools::new();
    let f = file(vec![("", state(RenderShape::Invisible, None))]);
    assert_eq!(pools.block(&f), Ok(()));
    assert_eq!(pools.block(&f), Ok(()));
    assert_eq!(pools.finish(), Err(s("minecraft:lamp")));
    let mut single = Pools::new();
    assert_eq!(single.block(&f), Ok(()));
    assert_eq!(single.finish(), Ok(()));
}

#[test]
fn files_of_another_format_or_version_are_refused() {
    let mut pools = Pools::new();
    let mut f = file(vec![("", state(RenderShape::Invisible, None))]);
    f.format = 2;
    let e = read_block(&mut pools, &f, &s("x.json"), &s("1.21")).unwrap_err();
    assert_eq!(e.to_string(), "x.json has wrong format number 2, expected 1");
    f.format = FORMAT;
    let e = read_block(&mut pools, &f, &s("x.json"), &s("1.20")).unwrap_err();
    assert_eq!(e.to_string(), "x.json has wrong minecraft version 1.21, expected 1.20");
    let bad = file(vec![("a", state(RenderShape::Invisible, None))]);
    let e = read_block(&mut pools, &bad, &s("y.json"), &s("1.21")).unwrap_err();
    assert_eq!(e.to_string(), "y.json is invalid: malformed state key a");
    assert!(read_block(&mut pools, &f, &s("x.json"), &s("1.21")).is_ok());
}

#[test]
fn generate_error_messages() {
    assert!(unexpected_error(&Vec::new()).is_none());
    let e = unexpected_error(&vec![s("  a[x]: r"), s("  b[]: q")]).unwrap();
    assert_eq!(e.to_string(), "Unexpected discards:\n  a[x]: r\n  b[]: q");
    assert_eq!(GenerateError::DuplicateBlock { id: s("m:x") }.to_string(), "block m:x has duplicate entries");
    assert_eq!(
        GenerateError::Io { path: s("out/capture.rs"), source: s("denied") }.to_string(),
        "Failed to read or write out/capture.rs: denied"
    );
}
