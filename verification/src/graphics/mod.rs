//! What the renderer's data is made of.

pub mod bindings;
pub mod geometry;
