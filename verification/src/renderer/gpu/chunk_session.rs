use vstd::prelude::*;

verus! {

/// The limits a chunk session is created with.
#[derive(Debug, Clone, Copy)]
pub struct GpuChunkSessionConfig {
    pub max_indirect_count: u32,
    pub max_workgroup_size_1d: u32,
    pub max_workgroup_size_2d: u32,
    pub max_chunks: usize,
    pub max_write_count: usize,
    pub max_face_count: usize,
    pub chunk_render_distance: usize,
}

} // verus!
