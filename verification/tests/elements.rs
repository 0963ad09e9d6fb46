use std::sync::Arc;
use tessera::capture_gen::model::Direction as CapturedDirection;
use tessera::direction::{Direction, Quadrant};
use tessera::resource::model::element::{element_fields, rotation_kind, ElementError, RotationKind, ShadeDirection};
use tessera::resource::texture::cache::TextureOptions;
use tessera::resource::texture::sprite::missing_sprite;
use tessera::resource::ResourceId;
use tessera::scene::capture::CapturedMaterial;
use tessera::scene::rasterize::{AlphaCutout, PassKind};
use tessera::util::collections::{CompactList, NonEmptyVec};

#[test]
fn elements_need_a_face_and_a_light_level() {
    let none = [false; 6];
    let one = [false, false, true, false, false, false];
    assert_eq!(element_fields(&none, 0, None), Err(ElementError::NoFaces));
    assert_eq!(element_fields(&one, 16, None), Err(ElementError::LightEmission(16)));
    assert_eq!(element_fields(&one, -1, None), Err(ElementError::LightEmission(-1)));
    assert_eq!(element_fields(&one, 15, None), Ok((15, ShadeDirection::Actual)));
    assert_eq!(
        element_fields(&one, 0, Some(Direction::Up)),
        Ok((0, ShadeDirection::Override(Direction::Up)))
    );
    assert_eq!(ElementError::LightEmission(-3).to_string(), "Invalid light emission: -3 (outside 0..=15)");
    assert_eq!(ElementError::NoFaces.to_string(), "Element has no faces");
}

#[test]
fn rotations_need_axis_and_angle_or_euler_angles() {
    assert_eq!(rotation_kind(true, true, false), Ok(RotationKind::SingleAxis));
    assert_eq!(rotation_kind(false, false, true), Ok(RotationKind::Euler));
    assert_eq!(rotation_kind(false, false, false), Err(ElementError::MissingRotationValue));
    assert_eq!(rotation_kind(false, true, true), Err(ElementError::MissingAxis));
    assert_eq!(rotation_kind(true, false, true), Err(ElementError::MissingAngle));
    assert_eq!(ElementError::MissingAngle.to_string(), "Rotation has axis but no angle");
}

#[test]
fn non_empty_lists() {
    assert!(NonEmptyVec::<u8>::new(Vec::new()).is_none());
    let v = NonEmptyVec::new(vec![1, 2]).unwrap();
    assert_eq!(v.as_slice(), &[1, 2]);
    assert_eq!(v.into_vec(), vec![1, 2]);
    assert!(CompactList::<u8>::from_vec(Vec::new()).is_none());
    assert_eq!(&*CompactList::single(7u8).into_boxed(), &[7]);
    assert_eq!(&*CompactList::from_vec(vec![1u8, 2]).unwrap().into_boxed(), &[1, 2]);
}

#[test]
fn texture_options_and_captured_materials() {
    let id = ResourceId::new_const("minecraft", "block/stone");
    let a = TextureOptions::new(id.clone(), Quadrant::R90, [0, 0, 1, 1]);
    let b = TextureOptions::new(id, Quadrant::R90, [0, 0, 1, 1]);
    assert_eq!(a, b);
    let m = CapturedMaterial::new(missing_sprite(), false, Some(AlphaCutout::Half), true, 7, 3, Some(CapturedDirection::West));
    assert_eq!(m.pass, PassKind::Cutout(AlphaCutout::Half));
    assert_eq!(m.shade, Some(Direction::West));
    let t = CapturedMaterial::new(missing_sprite(), true, Some(AlphaCutout::Half), false, 0, 0, None);
    assert_eq!(t.pass, PassKind::Translucent);
    let o = CapturedMaterial::new(Arc::clone(&t.sprite), false, None, false, 0, 0, None);
    assert_eq!(o.pass, PassKind::Opaque);
}
