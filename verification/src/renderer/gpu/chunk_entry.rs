use crate::math::IVec3;
use crate::renderer::gpu::chunk_session_mesh_data::{VoxelBlock, VoxelChunkAdjBlocks, VoxelChunkBlocks};
use vstd::prelude::*;

verus! {

pub const CHUNK_DIM: usize = 16;

pub const CHUNK_DIM_HALF: usize = 8;

#[derive(Clone, Copy, Debug)]
pub struct GPU4Bytes {
    pub data: u32,
}

/// The draw count and the meshing dispatch arguments, packed into one buffer.
#[derive(Clone, Copy, Debug)]
pub struct GPUPackedIndirectArgsAtomic {
    pub draw: u32,
    pub _padding: u32,
    pub _padding1: u32,
    pub _padding2: u32,
    pub dispatch: GPUDispatchIndirectArgsAtomic,
}

impl GPUPackedIndirectArgsAtomic {
    pub fn new(draw: u32, dispatch: GPUDispatchIndirectArgsAtomic) -> (r: Self)
        ensures
            r == (GPUPackedIndirectArgsAtomic { draw, _padding: 0, _padding1: 0, _padding2: 0, dispatch }),
    {
        Self { draw, _padding: 0, _padding1: 0, _padding2: 0, dispatch }
    }
}

#[derive(Clone, Copy, Debug)]
pub struct GPUDispatchIndirectArgsAtomic {
    pub x: u32,
    pub y: u32,
    pub z: u32,
}

impl GPUDispatchIndirectArgsAtomic {
    pub fn new(x: u32, y: u32, z: u32) -> (r: Self)
        ensures
            r == (GPUDispatchIndirectArgsAtomic { x, y, z }),
    {
        Self { x, y, z }
    }
}

#[derive(Clone, Copy, Debug)]
pub struct GPUDrawIndirectArgs {
    pub vertex_count: u32,
    pub instance_count: u32,
    pub first_vertex: u32,
    pub first_instance: u32,
}

/// A chunk's mesh entry. The face counts pack x, y and z in 10 bits each; bit
/// 31 of the negative count is the meshing flag.
#[derive(Clone, Copy, Debug)]
pub struct GPUChunkMeshEntry {
    pub index: u32,
    pub negative_face_count: u32,
    pub positive_face_count: u32,
    pub face_alloc: u32,
}

impl GPUChunkMeshEntry {
    pub fn new(index: u32, negative_face_count: u32, positive_face_count: u32, face_alloc: u32) -> (r: Self)
        ensures
            r == (GPUChunkMeshEntry { index, negative_face_count, positive_face_count, face_alloc }),
    {
        Self { index, negative_face_count, positive_face_count, face_alloc }
    }
}

/// The blocks of a chunk, two per word.
#[derive(Clone, Copy, Debug)]
pub struct GPUVoxelChunkContent {
    pub blocks: [[[u32; CHUNK_DIM_HALF]; CHUNK_DIM]; CHUNK_DIM],
}

/// The layers of the neighbouring chunks that touch a chunk.
#[derive(Clone, Copy, Debug)]
pub struct GPUVoxelChunkAdjContent {
    pub next_blocks: [[[u32; CHUNK_DIM_HALF]; CHUNK_DIM]; 3],
    pub prev_blocks: [[[u32; CHUNK_DIM_HALF]; CHUNK_DIM]; 3],
}

#[derive(Clone, Copy, Debug)]
pub struct GPUVoxelChunkHeader {
    pub index: u32,
    pub chunk_x: i32,
    pub chunk_y: i32,
    pub chunk_z: i32,
}

impl GPUVoxelChunkHeader {
    pub fn new(chunk_index: u32, chunk_position: IVec3) -> (r: Self)
        ensures
            r == (GPUVoxelChunkHeader {
                index: chunk_index,
                chunk_x: chunk_position.x,
                chunk_y: chunk_position.y,
                chunk_z: chunk_position.z,
            }),
    {
        Self { index: chunk_index, chunk_x: chunk_position.x, chunk_y: chunk_position.y, chunk_z: chunk_position.z }
    }
}

#[derive(Clone, Copy, Debug)]
pub struct GPUVoxelChunk {
    pub header: GPUVoxelChunkHeader,
    pub adj_content: GPUVoxelChunkAdjContent,
    pub content: GPUVoxelChunkContent,
}

/// Two blocks in one word, the first in the low half, as little-endian memory
/// lays out a pair of `u16`.
pub open spec fn block_pair(lo: VoxelBlock, hi: VoxelBlock) -> u32 {
    (lo.value as u32) | ((hi.value as u32) << 16u32)
}

/// The words of a row of blocks, two blocks each.
pub open spec fn packs_pairs(words: [u32; CHUNK_DIM_HALF], row: [VoxelBlock; CHUNK_DIM]) -> bool {
    forall|k: int| 0 <= k < CHUNK_DIM_HALF ==> #[trigger] words[k] == block_pair(row[2 * k], row[2 * k + 1])
}

fn pack_block_pairs(row: &[VoxelBlock; CHUNK_DIM]) -> (words: [u32; CHUNK_DIM_HALF])
    ensures
        packs_pairs(words, *row),
{
    let mut words = [0u32; CHUNK_DIM_HALF];
    for k in 0..CHUNK_DIM_HALF
        invariant
            forall|j: int| 0 <= j < k ==> #[trigger] words[j] == block_pair(row[2 * j], row[2 * j + 1]),
    {
        words[k] = (row[2 * k].value as u32) | ((row[2 * k + 1].value as u32) << 16u32);
    }
    words
}

/// The layers `layers`, two blocks per word.
fn pack_layers(layers: &[[[VoxelBlock; CHUNK_DIM]; CHUNK_DIM]], out: &mut [[[u32; CHUNK_DIM_HALF]; CHUNK_DIM]], from: usize)
    requires
        from + old(out)@.len() <= layers.len(),
    ensures
        final(out)@.len() == old(out)@.len(),
        forall|l: int, y: int|
            0 <= l < old(out)@.len() && 0 <= y < CHUNK_DIM ==> #[trigger] packs_pairs(
                final(out)@[l][y],
                layers@[from + l][y],
            ),
{
    let n = out.len();
    for l in 0..n
        invariant
            n == out@.len(),
            n == old(out)@.len(),
            from + n <= layers.len(),
            forall|l1: int, y: int|
                0 <= l1 < l && 0 <= y < CHUNK_DIM ==> #[trigger] packs_pairs(out@[l1][y], layers@[from + l1][y]),
    {
        for y in 0..CHUNK_DIM
            invariant
                n == out@.len(),
                from + n <= layers.len(),
                l < n,
                forall|l1: int, y1: int|
                    0 <= l1 < l && 0 <= y1 < CHUNK_DIM ==> #[trigger] packs_pairs(
                        out@[l1][y1],
                        layers@[from + l1][y1],
                    ),
                forall|y1: int| 0 <= y1 < y ==> #[trigger] packs_pairs(out@[l as int][y1], layers@[from + l][y1]),
        {
            let words = pack_block_pairs(&layers[from + l][y]);
            out[l][y] = words;
        }
    }
}

impl GPUVoxelChunk {
    /// A chunk for the GPU: its header, the layers of its six neighbours (the
    /// first three as `next_blocks`, the others as `prev_blocks`) and its
    /// blocks, two blocks per word.
    pub fn new(header: GPUVoxelChunkHeader, adj: &VoxelChunkAdjBlocks, blocks: &VoxelChunkBlocks) -> (r: Self)
        ensures
            r.header == header,
            forall|l: int, y: int|
                0 <= l < 3 && 0 <= y < CHUNK_DIM ==> {
                    &&& #[trigger] packs_pairs(r.adj_content.next_blocks[l][y], adj[l][y])
                    &&& packs_pairs(r.adj_content.prev_blocks[l][y], adj[l + 3][y])
                },
            forall|x: int, y: int|
                0 <= x < CHUNK_DIM && 0 <= y < CHUNK_DIM ==> #[trigger] packs_pairs(
                    r.content.blocks[x][y],
                    blocks[x][y],
                ),
    {
        let mut content_blocks = [[[0u32; CHUNK_DIM_HALF]; CHUNK_DIM]; CHUNK_DIM];
        let mut next_blocks = [[[0u32; CHUNK_DIM_HALF]; CHUNK_DIM]; 3];
        let mut prev_blocks = [[[0u32; CHUNK_DIM_HALF]; CHUNK_DIM]; 3];
        pack_layers(blocks.as_slice(), &mut content_blocks, 0);
        pack_layers(adj.as_slice(), &mut next_blocks, 0);
        pack_layers(adj.as_slice(), &mut prev_blocks, 3);
        proof {
            assert forall|x: int, y: int| 0 <= x < CHUNK_DIM && 0 <= y < CHUNK_DIM implies #[trigger] packs_pairs(
                content_blocks[x][y],
                blocks[x][y],
            ) by {
                assert(packs_pairs(content_blocks@[0 + x][y], blocks@[0 + x][y]));
            }
            assert forall|l: int, y: int| 0 <= l < 3 && 0 <= y < CHUNK_DIM implies #[trigger] packs_pairs(
                next_blocks[l][y],
                adj[l][y],
            ) && packs_pairs(prev_blocks[l][y], adj[l + 3][y]) by {
                assert(packs_pairs(next_blocks@[l][y], adj@[0 + l][y]));
                assert(packs_pairs(prev_blocks@[l][y], adj@[3 + l][y]));
            }
        }
        Self {
            header,
            adj_content: GPUVoxelChunkAdjContent { next_blocks, prev_blocks },
            content: GPUVoxelChunkContent { blocks: content_blocks },
        }
    }
}

/// One face of the meshed voxels, in five packed words.
pub struct GPUVoxelFaceData {
    pub word_a: u32,
    pub word_b: u32,
    pub word_c: u32,
    pub word_d: u32,
    pub word_e: u32,
}

} // verus!
