//! Meshes: vertices and the indices that join them.

use vstd::prelude::*;

verus! {

/// A type whose values can be laid out as vertex data.
pub trait Vertex {

}

/// A mesh.
pub struct Geometry<V: Vertex> {
    pub vertices: Vec<V>,
    pub indices: Vec<u16>,
}

} // verus!
