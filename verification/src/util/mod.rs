pub mod collections;
pub mod image;
