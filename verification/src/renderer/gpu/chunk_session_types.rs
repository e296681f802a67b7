use crate::renderer::gpu::chunk_session_shader_types::GPUChunkMeshEntry;
use vstd::prelude::*;

verus! {

/// What the CPU keeps of a chunk's mesh: its GPU entry, whether the chunk has
/// no faces at all, and whether it is in view.
#[derive(Debug, Clone)]
pub struct ChunkMeshEntry {
    gpu_entry: GPUChunkMeshEntry,
    empty: bool,
    visible: bool,
}

impl ChunkMeshEntry {
    /// The entry as the GPU sees it.
    pub closed spec fn entry(self) -> GPUChunkMeshEntry {
        self.gpu_entry
    }

    /// Whether the chunk has no faces.
    pub closed spec fn empty_flag(self) -> bool {
        self.empty
    }

    /// Whether the chunk is in view.
    pub closed spec fn visible_flag(self) -> bool {
        self.visible
    }

    pub fn new(index: u32, face_alloc: u32) -> (r: Self)
        ensures
            r.entry() == (GPUChunkMeshEntry { index, face_alloc }),
            !r.empty_flag(),
            !r.visible_flag(),
    {
        Self { gpu_entry: GPUChunkMeshEntry { index, face_alloc }, empty: false, visible: false }
    }

    pub fn new_empty(index: u32) -> (r: Self)
        ensures
            r.entry() == (GPUChunkMeshEntry { index, face_alloc: 0 }),
            r.empty_flag(),
            !r.visible_flag(),
    {
        Self { gpu_entry: GPUChunkMeshEntry { index, face_alloc: 0 }, empty: true, visible: false }
    }

    pub fn index(&self) -> (r: u32)
        ensures
            r == self.entry().index,
    {
        self.gpu_entry.index
    }

    pub fn face_alloc(&self) -> (r: u32)
        ensures
            r == self.entry().face_alloc,
    {
        self.gpu_entry.face_alloc
    }

    pub fn set_visible(&mut self, visible: bool)
        ensures
            final(self).visible_flag() == visible,
            final(self).entry() == old(self).entry(),
            final(self).empty_flag() == old(self).empty_flag(),
    {
        self.visible = visible;
    }

    pub fn is_visible(&self) -> (r: bool)
        ensures
            r == self.visible_flag(),
    {
        self.visible
    }

    pub fn is_empty(&self) -> (r: bool)
        ensures
            r == self.empty_flag(),
    {
        self.empty
    }

    pub fn gpu_entry(&self) -> (r: GPUChunkMeshEntry)
        ensures
            r == self.entry(),
    {
        self.gpu_entry
    }
}

} // verus!
