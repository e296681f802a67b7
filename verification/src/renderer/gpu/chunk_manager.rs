use vstd::prelude::*;

verus! {

/// The limits a chunk manager is created with.
pub struct ChunkManagerConfig {
    pub max_chunks: usize,
    pub max_write_count: usize,
    pub max_face_count: usize,
}

} // verus!
