use crate::math::U16Vec3;
use crate::renderer::gpu::chunk_entry::GPUChunkMeshEntry;
use crate::renderer::gpu::chunk_session_mesh_data::VoxelChunkMeshMeta;
use vstd::prelude::*;

verus! {

#[derive(Debug, Clone, Copy, PartialEq, Eq, Structural)]
pub enum MeshStateError {
    Missing,
    Empty,
    FailedAllocation,
}

/// A chunk's mesh: on the GPU, or only counted.
#[derive(Debug, Clone)]
pub enum ChunkMeshState {
    Meshed(GPUChunkMeshEntry),
    Unmeshed(ChunkMeshUnmeshedEntry),
}

/// The face counts of a chunk that has no mesh yet, packed as the GPU wants
/// them.
#[derive(Debug, Clone, Copy)]
pub struct ChunkMeshUnmeshedEntry {
    negative_faces: u32,
    positive_faces: u32,
    pub total_faces: u32,
}

/// Three face counts in one word: x in bits 0.., y from bit 10, z from bit 20
/// (bits that do not fit are dropped).
pub open spec fn pack_face_counts(v: U16Vec3) -> u32 {
    (v.x as u32) | ((v.y as u32) << 10u32) | ((v.z as u32) << 20u32)
}

/// The bit of `negative_face_count` that asks the GPU to mesh the chunk.
pub const MESH_REQUEST_FLAG: u32 = 0x8000_0000;

impl ChunkMeshUnmeshedEntry {
    /// The packed counts of the faces towards the negative sides.
    pub closed spec fn packed_negative(self) -> u32 {
        self.negative_faces
    }

    /// The packed counts of the faces towards the positive sides.
    pub closed spec fn packed_positive(self) -> u32 {
        self.positive_faces
    }

    /// The number of faces, all directions together.
    pub closed spec fn total_count(self) -> u32 {
        self.total_faces
    }

    pub fn has_faces(&self) -> (r: bool)
        ensures
            r == (self.total_count() > 0),
    {
        self.total_faces > 0
    }
}

impl ChunkMeshState {
    /// The state of a chunk whose faces are counted by `mesh_meta`.
    pub fn new_unmeshed(mesh_meta: VoxelChunkMeshMeta) -> (r: Self)
        ensures
            r matches ChunkMeshState::Unmeshed(e) && {
                &&& e.packed_negative() == pack_face_counts(mesh_meta.negative_faces)
                &&& e.packed_positive() == pack_face_counts(mesh_meta.positive_faces)
                &&& e.total_count() == mesh_meta.negative_faces.x + mesh_meta.negative_faces.y
                    + mesh_meta.negative_faces.z + mesh_meta.positive_faces.x
                    + mesh_meta.positive_faces.y + mesh_meta.positive_faces.z
            },
    {
        let negative_uvec3 = mesh_meta.negative_faces.as_uvec3();
        let positive_uvec3 = mesh_meta.positive_faces.as_uvec3();

        let total_faces = negative_uvec3.element_sum() + positive_uvec3.element_sum();

        let negative_faces: u32 = negative_uvec3.x | negative_uvec3.y << 10u32
            | negative_uvec3.z << 20u32;

        let positive_faces: u32 = positive_uvec3.x | positive_uvec3.y << 10u32
            | positive_uvec3.z << 20u32;

        let unmeshed_entry = ChunkMeshUnmeshedEntry { negative_faces, positive_faces, total_faces };
        Self::Unmeshed(unmeshed_entry)
    }

    /// Records that the chunk got a mesh: the entry at `index`, its faces at
    /// `allocation`.
    pub fn set_as_meshed(&mut self, index: u32, allocation: u32)
        requires
            *old(self) is Unmeshed,
        ensures
            *final(self) == ChunkMeshState::Meshed(
                GPUChunkMeshEntry {
                    index,
                    negative_face_count: (*old(self))->Unmeshed_0.packed_negative(),
                    positive_face_count: (*old(self))->Unmeshed_0.packed_positive(),
                    face_alloc: allocation,
                },
            ),
    {
        if let ChunkMeshState::Unmeshed(unmeshed_entry) = *self {
            let mesh_entry = GPUChunkMeshEntry::new(
                index,
                unmeshed_entry.negative_faces,
                unmeshed_entry.positive_faces,
                allocation,
            );
            *self = ChunkMeshState::Meshed(mesh_entry);
        }
    }

    /// The mesh entry, with the flag that asks the GPU to mesh it again.
    pub fn entry_flagged_to_mesh(&self) -> (r: GPUChunkMeshEntry)
        requires
            *self is Meshed,
        ensures
            r == (GPUChunkMeshEntry {
                negative_face_count: (*self)->Meshed_0.negative_face_count | MESH_REQUEST_FLAG,
                ..(*self)->Meshed_0
            }),
    {
        let mut entry = match self {
            Self::Meshed(entry) => *entry,
            Self::Unmeshed(_) => GPUChunkMeshEntry::new(0, 0, 0, 0),
        };
        entry.negative_face_count = entry.negative_face_count | (1u32 << 31u32);
        proof {
            assert(1u32 << 31u32 == MESH_REQUEST_FLAG) by (bit_vector);
        }
        entry
    }
}

} // verus!
