use vstd::prelude::*;

verus! {

/// A mesh: vertices, and triangles as indices into them.
#[derive(Clone)]
pub struct Mesh<V> {
    pub vertices: Vec<V>,
    pub indices: Vec<u32>,
}

} // verus!
