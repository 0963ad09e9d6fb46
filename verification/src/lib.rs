//! Resource-pack model, texture and sprite processing, and GUI rendering logic for block and
//! item previews, with contracts checked by Verus.

pub mod capture;
pub mod capture_gen;
pub mod text;
pub mod diagnostics;
pub mod direction;
pub mod naming;
pub mod util;
pub mod resource;
pub mod scene;
