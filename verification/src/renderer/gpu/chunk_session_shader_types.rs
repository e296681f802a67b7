use crate::math::{IVec3, UVec3};
use crate::renderer::gpu::chunk_entry::{CHUNK_DIM, CHUNK_DIM_HALF};
use crate::renderer::gpu::chunk_session_mesh_data::{VoxelBlock, VoxelChunkAdjBlocks, VoxelChunkBlocks};
use crate::renderer::gpu::vx_gpu_delta_vec::{placed, GpuIndexedItem};
use vstd::prelude::*;

verus! {

/// The draw count and the meshing dispatch arguments, packed into one buffer.
#[derive(Clone, Copy, Debug)]
pub struct GPUPackedIndirectArgsAtomic {
    pub draw: u32,
    pub _padding0: u32,
    pub _padding1: u32,
    pub _padding2: u32,
    pub dispatch: GPUDispatchIndirectArgsAtomic,
}

impl GPUPackedIndirectArgsAtomic {
    pub fn new(draw: u32, dispatch: GPUDispatchIndirectArgsAtomic) -> (r: Self)
        ensures
            r == (GPUPackedIndirectArgsAtomic { draw, _padding0: 0, _padding1: 0, _padding2: 0, dispatch }),
    {
        Self { draw, _padding0: 0, _padding1: 0, _padding2: 0, dispatch }
    }
}

#[derive(Clone, Copy, Debug)]
pub struct GPUDispatchIndirectArgsAtomic {
    pub x: u32,
    pub y: u32,
    pub z: u32,
}

impl GPUDispatchIndirectArgsAtomic {
    pub fn new(x: u32, y: u32, z: u32) -> (r: Self)
        ensures
            r == (GPUDispatchIndirectArgsAtomic { x, y, z }),
    {
        Self { x, y, z }
    }
}

#[derive(Clone, Copy, Debug)]
pub struct GPUDrawIndirectArgs {
    pub vertex_count: u32,
    pub instance_count: u32,
    pub first_vertex: u32,
    pub first_instance: u32,
}

/// The bit of `face_alloc` that asks the GPU to mesh the chunk.
pub const MESHING_FLAG: u32 = 0x8000_0000;

/// A chunk's mesh entry: its index and the start of its face allocation, whose
/// top bit is the meshing flag.
#[derive(Clone, Copy, Debug)]
pub struct GPUChunkMeshEntry {
    pub index: u32,
    pub face_alloc: u32,
}

impl GpuIndexedItem for GPUChunkMeshEntry {
    type WriteEntry = GPUChunkMeshEntryWrite;

    open spec fn item_id(&self) -> usize {
        self.index as usize
    }

    open spec fn init_spec(self) -> Self {
        GPUChunkMeshEntry { index: self.index, face_alloc: self.face_alloc | MESHING_FLAG }
    }

    open spec fn reused_spec(self) -> Self {
        GPUChunkMeshEntry { index: self.index, face_alloc: self.face_alloc & !MESHING_FLAG }
    }

    open spec fn write_spec(self, index: usize) -> GPUChunkMeshEntryWrite {
        GPUChunkMeshEntryWrite { entry: self, index: index as u32 }
    }

    fn index(&self) -> (r: usize) {
        self.index as usize
    }

    /// Sets the meshing flag.
    fn init(self) -> (r: Self) {
        let mut entry = self;
        entry.face_alloc = entry.face_alloc | (1u32 << 31u32);
        assert(1u32 << 31u32 == MESHING_FLAG) by (bit_vector);
        entry
    }

    /// Clears the meshing flag.
    fn reused(self) -> (r: Self) {
        let mut entry = self;
        entry.face_alloc = entry.face_alloc & !(1u32 << 31u32);
        assert(1u32 << 31u32 == MESHING_FLAG) by (bit_vector);
        entry
    }

    fn write(self, index: usize) -> (r: GPUChunkMeshEntryWrite) {
        GPUChunkMeshEntryWrite { entry: self, index: index as u32 }
    }
}

/// `reused` keeps an entry's index and the low bits of its face allocation,
/// and clears the meshing flag, whatever it was: reusing an entry twice is
/// reusing it once.
pub proof fn lemma_reused_clears_meshing_flag(e: GPUChunkMeshEntry)
    ensures
        e.reused_spec().index == e.index,
        e.reused_spec().face_alloc & MESHING_FLAG == 0,
        e.reused_spec().face_alloc & !MESHING_FLAG == e.face_alloc & !MESHING_FLAG,
        e.reused_spec().reused_spec() == e.reused_spec(),
{
    let f = e.face_alloc;
    assert((f & !0x8000_0000u32) & 0x8000_0000u32 == 0) by (bit_vector);
    assert((f & !0x8000_0000u32) & !0x8000_0000u32 == f & !0x8000_0000u32) by (bit_vector);
}

/// `init` keeps an entry's index and the low bits of its face allocation, and
/// sets the meshing flag, whatever it was.
pub proof fn lemma_init_sets_meshing_flag(e: GPUChunkMeshEntry)
    ensures
        e.init_spec().index == e.index,
        e.init_spec().face_alloc & MESHING_FLAG == MESHING_FLAG,
        e.init_spec().face_alloc & !MESHING_FLAG == e.face_alloc & !MESHING_FLAG,
        e.init_spec().init_spec() == e.init_spec(),
{
    let f = e.face_alloc;
    assert((f | 0x8000_0000u32) & 0x8000_0000u32 == 0x8000_0000u32) by (bit_vector);
    assert((f | 0x8000_0000u32) & !0x8000_0000u32 == f & !0x8000_0000u32) by (bit_vector);
    assert((f | 0x8000_0000u32) | 0x8000_0000u32 == f | 0x8000_0000u32) by (bit_vector);
}

/// After a sync of chunk mesh entries, an entry pushed in that batch carries
/// the meshing flag, and an entry that was already in the array carries it
/// cleared if it was moved, or is unchanged if it stayed in its slot.
pub proof fn lemma_synced_meshing_flags(
    old_items: Seq<GPUChunkMeshEntry>,
    old_slots: Seq<Option<usize>>,
    pushes: Seq<GPUChunkMeshEntry>,
    items: Seq<GPUChunkMeshEntry>,
    slots: Seq<Option<usize>>,
)
    requires
        placed(old_items, old_slots, pushes, items, slots),
    ensures
        forall|k: int|
            0 <= k < pushes.len() ==> {
                let e = items[slots[(#[trigger] pushes[k]).index as int]->0 as int];
                &&& e.index == pushes[k].index
                &&& e.face_alloc & MESHING_FLAG == MESHING_FLAG
                &&& e.face_alloc & !MESHING_FLAG == pushes[k].face_alloc & !MESHING_FLAG
            },
        forall|d: int|
            0 <= d < old_slots.len() && (#[trigger] old_slots[d]) is Some && slots[d] != old_slots[d] ==> {
                let e = items[slots[d]->0 as int];
                let o = old_items[old_slots[d]->0 as int];
                &&& e.index == o.index
                &&& e.face_alloc & MESHING_FLAG == 0
                &&& e.face_alloc & !MESHING_FLAG == o.face_alloc & !MESHING_FLAG
            },
        forall|d: int|
            0 <= d < old_slots.len() && (#[trigger] old_slots[d]) is Some && slots[d] == old_slots[d] ==> items[slots[d]->0 as int]
                == old_items[old_slots[d]->0 as int],
{
    assert forall|k: int| 0 <= k < pushes.len() implies {
        let e = items[slots[(#[trigger] pushes[k]).index as int]->0 as int];
        &&& e.index == pushes[k].index
        &&& e.face_alloc & MESHING_FLAG == MESHING_FLAG
        &&& e.face_alloc & !MESHING_FLAG == pushes[k].face_alloc & !MESHING_FLAG
    } by {
        assert(pushes[k].item_id() as int == pushes[k].index as int);
        lemma_init_sets_meshing_flag(pushes[k]);
    }
    assert forall|d: int|
        0 <= d < old_slots.len() && (#[trigger] old_slots[d]) is Some && slots[d] != old_slots[d] implies {
            let e = items[slots[d]->0 as int];
            let o = old_items[old_slots[d]->0 as int];
            &&& e.index == o.index
            &&& e.face_alloc & MESHING_FLAG == 0
            &&& e.face_alloc & !MESHING_FLAG == o.face_alloc & !MESHING_FLAG
        } by {
        lemma_reused_clears_meshing_flag(old_items[old_slots[d]->0 as int]);
    }
}

/// A mesh entry to be written at slot `index` of the GPU array.
#[derive(Clone, Copy, Debug)]
pub struct GPUChunkMeshEntryWrite {
    pub entry: GPUChunkMeshEntry,
    pub index: u32,
}

/// The blocks of a chunk, two per word.
#[derive(Clone, Copy, Debug)]
pub struct GPUVoxelChunkContent {
    pub blocks: [[[u32; CHUNK_DIM_HALF]; CHUNK_DIM]; CHUNK_DIM],
}

/// The layers of the neighbouring chunks that touch a chunk.
#[derive(Clone, Copy, Debug)]
pub struct GPUVoxelChunkAdjContent {
    pub next_blocks: [[[u32; CHUNK_DIM_HALF]; CHUNK_DIM]; 3],
    pub prev_blocks: [[[u32; CHUNK_DIM_HALF]; CHUNK_DIM]; 3],
}

/// A chunk's header, with its face counts (zero until meshed) and position.
#[derive(Clone, Copy, Debug)]
pub struct GPUVoxelChunkHeader {
    pub index: u32,
    pub _cpu_padding0: [u32; 3],
    pub faces_positive: UVec3,
    pub _cpu_padding1: u32,
    pub faces_negative: UVec3,
    pub _cpu_padding2: u32,
    pub position: IVec3,
    pub _cpu_padding3: u32,
}

impl GPUVoxelChunkHeader {
    pub fn new(index: u32, position: IVec3) -> (r: Self)
        ensures
            r.index == index,
            r.position == position,
            r.faces_positive == (UVec3 { x: 0, y: 0, z: 0 }),
            r.faces_negative == (UVec3 { x: 0, y: 0, z: 0 }),
            r._cpu_padding0@ == seq![0u32, 0u32, 0u32],
            r._cpu_padding1 == 0 && r._cpu_padding2 == 0 && r._cpu_padding3 == 0,
    {
        let r = Self {
            index,
            _cpu_padding0: [0, 0, 0],
            faces_positive: UVec3 { x: 0, y: 0, z: 0 },
            _cpu_padding1: 0,
            faces_negative: UVec3 { x: 0, y: 0, z: 0 },
            _cpu_padding2: 0,
            position,
            _cpu_padding3: 0,
        };
        assert(r._cpu_padding0@ =~= seq![0u32, 0u32, 0u32]);
        r
    }
}

#[derive(Clone, Copy, Debug)]
pub struct GPUVoxelChunk {
    pub header: GPUVoxelChunkHeader,
    pub adj_content: GPUVoxelChunkAdjContent,
    pub content: GPUVoxelChunkContent,
}

/// One face of the meshed voxels, in four packed words.
pub struct GPUVoxelFaceData {
    pub word_a: u32,
    pub word_b: u32,
    pub word_c: u32,
    pub word_d: u32,
}

/// A chunk as the CPU keeps it for upload: the layers of its neighbours, its
/// blocks and its header.
#[derive(Clone, Copy, Debug)]
pub struct CPUVoxelChunk {
    pub adj_content: VoxelChunkAdjBlocks,
    pub content: VoxelChunkBlocks,
    pub header: GPUVoxelChunkHeader,
}

impl CPUVoxelChunk {
    /// A chunk of `blocks` whose neighbour layers are filled in later; until
    /// then they are air.
    pub fn new(header: GPUVoxelChunkHeader, blocks: VoxelChunkBlocks) -> (r: Self)
        ensures
            r.header == header,
            r.content == blocks,
            forall|l: int, y: int, z: int|
                0 <= l < 6 && 0 <= y < CHUNK_DIM && 0 <= z < CHUNK_DIM ==> #[trigger] r.adj_content[l][y][z].value
                    == 0,
    {
        let adj_content: VoxelChunkAdjBlocks = [[[VoxelBlock { value: 0 }; CHUNK_DIM]; CHUNK_DIM]; 6];
        Self { adj_content, content: blocks, header }
    }
}

} // verus!
