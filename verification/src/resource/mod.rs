pub mod blockstate;
pub mod id;
pub mod item;
pub mod model;
pub mod pack;
pub mod resource_manager;
pub mod tint;
pub mod texture;

pub use id::{InvalidResourceId, ResourceId};
