use std::collections::hash_map::DefaultHasher;
use std::hash::{Hash, Hasher};
use voxer::render::renderer::chunk_loader::update_loaded_chunks;
use voxer::renderer::gpu::chunk_session_shader_types as session;
use voxer::math::{IVec3, U16Vec3, UVec3};
use voxer::render::renderer::resources::chunk::post_swap_remove_indices;
use voxer::render::types::global::meshes::Meshes;
use voxer::render::types::mesh::Mesh;
use voxer::renderer::gpu::chunk_session_mesh_data::VoxelBlock;
use voxer::renderer::gpu::chunk_entry::{
    GPUChunkMeshEntry, GPUVoxelChunk, GPUDispatchIndirectArgsAtomic, GPUPackedIndirectArgsAtomic,
    GPUVoxelChunkHeader,
};
use voxer::renderer::gpu::malloc::common::VirtualMemSlotKey;

#[test]
fn swap_remove_of_the_first_moves_the_last() {
    assert_eq!(post_swap_remove_indices(5, &[0]), vec![(0, 4)]);
}

#[test]
fn swap_remove_of_the_last_moves_nothing() {
    assert_eq!(post_swap_remove_indices(5, &[4]), vec![]);
}

#[test]
fn swap_removes_in_sequence() {
    // [0,1,2,3,4,5] -> remove 1 -> [0,5,2,3,4] -> remove 0 -> [4,5,2,3]
    assert_eq!(post_swap_remove_indices(6, &[1, 0]), vec![(0, 4), (1, 5)]);
    assert_eq!(post_swap_remove_indices(3, &[]), vec![]);
}

#[test]
fn meshes_offset_the_indices_of_later_meshes() {
    let mut meshes: Meshes<[f32; 3]> = Meshes::new();
    let a = Mesh { vertices: vec![[0.0; 3], [1.0; 3], [2.0; 3]], indices: vec![0, 1, 2] };
    let b = Mesh { vertices: vec![[5.0; 3], [6.0; 3]], indices: vec![1, 0, 1] };
    meshes.extend_with_offset(&a);
    meshes.extend_with_offset(&b);
    assert_eq!(meshes.vertices.len(), 5);
    assert_eq!(meshes.vertices[3], [5.0; 3]);
    assert_eq!(meshes.indices, vec![0, 1, 2, 4, 3, 4]);
}

#[test]
fn slot_keys_are_equal_by_offset_and_ordered_by_size() {
    let q = VirtualMemSlotKey::query(64);
    let s = VirtualMemSlotKey::store(64, 16);
    assert_eq!((q.offset, q.size), (64, 0));
    assert_eq!((s.offset, s.size), (64, 16));
    assert!(q == s);
    assert!(q < s);
    assert!(VirtualMemSlotKey::store(0, 100) > VirtualMemSlotKey::store(500, 1));
}

#[test]
fn vectors() {
    let v = U16Vec3::new(1, 2, 3).as_uvec3();
    assert_eq!(v, UVec3::new(1, 2, 3));
    assert_eq!(v.element_sum(), 6);
    assert_eq!(IVec3::new(-1, 0, 1).x, -1);
}

#[test]
fn gpu_entries() {
    let e = GPUChunkMeshEntry::new(1, 2, 3, 4);
    assert_eq!((e.index, e.negative_face_count, e.positive_face_count, e.face_alloc), (1, 2, 3, 4));
    let d = GPUDispatchIndirectArgsAtomic::new(7, 1, 1);
    let p = GPUPackedIndirectArgsAtomic::new(9, d);
    assert_eq!((p.draw, p._padding, p._padding1, p._padding2, p.dispatch.x), (9, 0, 0, 0, 7));
    let h = GPUVoxelChunkHeader::new(3, IVec3::new(4, -5, 6));
    assert_eq!((h.index, h.chunk_x, h.chunk_y, h.chunk_z), (3, 4, -5, 6));
}

#[test]
fn gpu_chunk_packs_two_blocks_per_word() {
    let air = VoxelBlock { value: 0 };
    let mut blocks = [[[air; 16]; 16]; 16];
    blocks[0][0][0] = VoxelBlock { value: 1 };
    blocks[0][0][1] = VoxelBlock { value: 2 };
    blocks[15][15][15] = VoxelBlock { value: 0xffff };
    let mut adj = [[[air; 16]; 16]; 6];
    adj[4][1][5] = VoxelBlock { value: 7 };
    adj[0][2][0] = VoxelBlock { value: 9 };
    let header = GPUVoxelChunkHeader::new(1, IVec3::new(0, 0, 0));
    let chunk = GPUVoxelChunk::new(header, &adj, &blocks);
    assert_eq!(chunk.header.index, 1);
    assert_eq!(chunk.content.blocks[0][0][0], 1 | 2 << 16);
    assert_eq!(chunk.content.blocks[15][15][7], 0xffff_0000);
    assert_eq!(chunk.content.blocks[3][3][3], 0);
    assert_eq!(chunk.adj_content.prev_blocks[1][1][2], 7 << 16);
    assert_eq!(chunk.adj_content.next_blocks[0][2][0], 9);
}

#[test]
fn loaded_chunks_follow_the_relevant_ones() {
    let p = |x: i32| IVec3::new(x, 0, 0);
    let mut loaded = vec![p(0), p(1), p(2), p(3)];
    let relevant = [p(3), p(5), p(1), p(6)];
    let (removed, added) = update_loaded_chunks(&mut loaded, &relevant);
    assert_eq!(removed, vec![2, 0]);
    assert_eq!(added, vec![p(5), p(6)]);
    assert_eq!(loaded, vec![p(1), p(3), p(5), p(6)]);
}

#[test]
fn nothing_changes_when_all_are_relevant() {
    let mut loaded = vec![IVec3::new(1, 2, 3)];
    let (removed, added) = update_loaded_chunks(&mut loaded, &[IVec3::new(1, 2, 3)]);
    assert!(removed.is_empty() && added.is_empty());
    assert_eq!(loaded, vec![IVec3::new(1, 2, 3)]);
}

#[test]
fn cpu_chunk_starts_with_air_neighbours() {
    let stone = VoxelBlock { value: 4 };
    let blocks = [[[stone; 16]; 16]; 16];
    let c = session::CPUVoxelChunk::new(session::GPUVoxelChunkHeader::new(2, IVec3::new(1, 1, 1)), blocks);
    assert_eq!(c.header.index, 2);
    assert_eq!(c.content[3][4][5].value, 4);
    assert!(c.adj_content.iter().all(|l| l.iter().all(|r| r.iter().all(|b| b.value == 0))));
}

fn hash_of(k: &VirtualMemSlotKey) -> u64 {
    let mut h = DefaultHasher::new();
    k.hash(&mut h);
    h.finish()
}

#[test]
fn slot_keys_hash_by_offset() {
    let q = VirtualMemSlotKey::query(64);
    let s = VirtualMemSlotKey::store(64, 16);
    assert_eq!(hash_of(&q), hash_of(&s));
    let mut set = std::collections::HashSet::new();
    set.insert(s);
    assert!(set.contains(&q));
}
