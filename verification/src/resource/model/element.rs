//! The checks on a model element's own fields that do not touch its geometry.

use vstd::prelude::*;
use crate::direction::Direction;
use crate::text::{decimal, push_decimal, push_str};

verus! {

/// Which direction an element's faces are shaded as: their own, or one set for the element.
#[derive(Copy, Clone, Debug, PartialEq, Eq, Structural)]
pub enum ShadeDirection {
    Actual,
    Override(Direction),
}

/// How an element rotation is written: one axis and an angle, or angles about x, y and z.
#[derive(Copy, Clone, Debug, PartialEq, Eq, Structural)]
pub enum RotationKind {
    SingleAxis,
    Euler,
}

/// What is wrong with an element, apart from its extent.
#[derive(Copy, Clone, Debug, PartialEq, Eq, Structural)]
pub enum ElementError {
    NoFaces,
    LightEmission(i32),
    MissingAxis,
    MissingAngle,
    MissingRotationValue,
}

/// The message of an element error.
pub open spec fn element_error_text(e: ElementError) -> Seq<char> {
    match e {
        ElementError::NoFaces => "Element has no faces"@,
        ElementError::LightEmission(v) => "Invalid light emission: "@ + decimal(v as int) + " (outside 0..=15)"@,
        ElementError::MissingAxis => "Rotation has angle but no axis"@,
        ElementError::MissingAngle => "Rotation has axis but no angle"@,
        ElementError::MissingRotationValue => "Rotation needs either axis + angle or at least one of x, y, z"@,
    }
}

impl ElementError {
    /// The message of the error (see [`element_error_text`]).
    pub fn to_string(&self) -> (s: String)
        ensures
            s@ == element_error_text(*self),
    {
        match self {
            ElementError::NoFaces => "Element has no faces".to_owned(),
            ElementError::LightEmission(v) => {
                let mut s = "Invalid light emission: ".to_owned();
                push_decimal(&mut s, *v as i64);
                push_str(&mut s, " (outside 0..=15)");
                s
            },
            ElementError::MissingAxis => "Rotation has angle but no axis".to_owned(),
            ElementError::MissingAngle => "Rotation has axis but no angle".to_owned(),
            ElementError::MissingRotationValue => "Rotation needs either axis + angle or at least one of x, y, z".to_owned(),
        }
    }
}

/// An element's checked fields: it needs a face, and a light emission in 0..=15; its shade
/// direction is the one set for it, else its faces' own.
pub open spec fn element_fields_of(faces: Seq<bool>, light_emission: i32, shade_override: Option<Direction>) -> Result<(u8, ShadeDirection), ElementError> {
    if !faces.contains(true) {
        Err(ElementError::NoFaces)
    } else if !(0 <= light_emission <= 15) {
        Err(ElementError::LightEmission(light_emission))
    } else {
        Ok(
            (
                light_emission as u8,
                match shade_override {
                    Some(d) => ShadeDirection::Override(d),
                    None => ShadeDirection::Actual,
                },
            ),
        )
    }
}

/// Checks an element's faces (which of them are present) and light emission, and picks its
/// shade direction (see [`element_fields_of`]).
pub fn element_fields(faces: &[bool], light_emission: i32, shade_override: Option<Direction>) -> (r: Result<(u8, ShadeDirection), ElementError>)
    ensures
        r == element_fields_of(faces@, light_emission, shade_override),
{
    let mut any = false;
    let mut i: usize = 0;
    while i < faces.len()
        invariant
            i <= faces@.len(),
            any == (exists|k: int| 0 <= k < i && #[trigger] faces@[k]),
        decreases faces.len() - i,
    {
        any = any || faces[i];
        i = i + 1;
    }
    proof {
        if any {
            let k = choose|k: int| 0 <= k < i && #[trigger] faces@[k];
            assert(faces@[k] == true);
        }
    }
    if !any {
        return Err(ElementError::NoFaces);
    }
    if !(0 <= light_emission && light_emission <= 15) {
        return Err(ElementError::LightEmission(light_emission));
    }
    let shade = match shade_override {
        Some(d) => ShadeDirection::Override(d),
        None => ShadeDirection::Actual,
    };
    Ok((light_emission as u8, shade))
}

/// How a rotation is written: with neither axis nor angle it needs one of x, y, z; otherwise
/// it needs both an axis and an angle.
pub open spec fn rotation_kind_of(has_axis: bool, has_angle: bool, has_euler: bool) -> Result<RotationKind, ElementError> {
    if !has_axis && !has_angle {
        if has_euler { Ok(RotationKind::Euler) } else { Err(ElementError::MissingRotationValue) }
    } else if !has_axis {
        Err(ElementError::MissingAxis)
    } else if !has_angle {
        Err(ElementError::MissingAngle)
    } else {
        Ok(RotationKind::SingleAxis)
    }
}

/// How a rotation is written, from which of its values are present (see [`rotation_kind_of`]).
pub fn rotation_kind(has_axis: bool, has_angle: bool, has_euler: bool) -> (r: Result<RotationKind, ElementError>)
    ensures
        r == rotation_kind_of(has_axis, has_angle, has_euler),
{
    if !has_axis && !has_angle {
        if has_euler {
            Ok(RotationKind::Euler)
        } else {
            Err(ElementError::MissingRotationValue)
        }
    } else if !has_axis {
        Err(ElementError::MissingAxis)
    } else if !has_angle {
        Err(ElementError::MissingAngle)
    } else {
        Ok(RotationKind::SingleAxis)
    }
}

} // verus!
