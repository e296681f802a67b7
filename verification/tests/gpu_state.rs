use voxer::math::U16Vec3;
use voxer::renderer::gpu::chunk_entry::GPUChunkMeshEntry;
use voxer::renderer::gpu::chunk_session_mesh_data::VoxelChunkMeshMeta;
use voxer::renderer::gpu::chunk_session_shader_types as session;
use voxer::renderer::gpu::chunk_session_types::ChunkMeshEntry;
use voxer::renderer::gpu::gpu_state_types::{ChunkMeshState, MeshStateError};

fn meta(neg: (u16, u16, u16), pos: (u16, u16, u16)) -> VoxelChunkMeshMeta {
    VoxelChunkMeshMeta {
        negative_faces: U16Vec3::new(neg.0, neg.1, neg.2),
        positive_faces: U16Vec3::new(pos.0, pos.1, pos.2),
    }
}

fn meshed(state: &ChunkMeshState) -> GPUChunkMeshEntry {
    match state {
        ChunkMeshState::Meshed(e) => *e,
        ChunkMeshState::Unmeshed(_) => panic!("not meshed"),
    }
}

#[test]
fn unmeshed_state_counts_all_faces() {
    let state = ChunkMeshState::new_unmeshed(meta((1, 2, 3), (4, 5, 6)));
    match state {
        ChunkMeshState::Unmeshed(e) => {
            assert_eq!(e.total_faces, 21);
            assert!(e.has_faces());
        }
        ChunkMeshState::Meshed(_) => panic!("expected an unmeshed state"),
    }
}

#[test]
fn chunk_without_faces_has_none() {
    let state = ChunkMeshState::new_unmeshed(meta((0, 0, 0), (0, 0, 0)));
    match state {
        ChunkMeshState::Unmeshed(e) => {
            assert_eq!(e.total_faces, 0);
            assert!(!e.has_faces());
        }
        ChunkMeshState::Meshed(_) => panic!("expected an unmeshed state"),
    }
}

#[test]
fn meshing_packs_the_face_counts() {
    let mut state = ChunkMeshState::new_unmeshed(meta((1, 2, 3), (4, 5, 6)));
    state.set_as_meshed(7, 100);
    let e = meshed(&state);
    assert_eq!(e.index, 7);
    assert_eq!(e.negative_face_count, 1 | 2 << 10 | 3 << 20);
    assert_eq!(e.negative_face_count, 3147777);
    assert_eq!(e.positive_face_count, 6296580);
    assert_eq!(e.face_alloc, 100);
}

#[test]
fn large_counts_overlap_when_packed() {
    let mut state = ChunkMeshState::new_unmeshed(meta((1024, 0, 4095), (0, 0, 0)));
    state.set_as_meshed(0, 0);
    let e = meshed(&state);
    assert_eq!(e.negative_face_count, 1024u32 | (4095u32 << 20));
}

#[test]
fn flagged_entry_sets_the_top_bit() {
    let mut state = ChunkMeshState::new_unmeshed(meta((1, 2, 3), (4, 5, 6)));
    state.set_as_meshed(7, 100);
    let flagged = state.entry_flagged_to_mesh();
    assert_eq!(flagged.negative_face_count, 3147777 | 0x8000_0000);
    assert_eq!(flagged.negative_face_count, 2150631425);
    assert_eq!(flagged.positive_face_count, 6296580);
    assert_eq!(flagged.index, 7);
    assert_eq!(flagged.face_alloc, 100);
    // the state itself keeps its entry
    assert_eq!(meshed(&state).negative_face_count, 3147777);
}

#[test]
fn mesh_state_errors_compare() {
    assert_eq!(MeshStateError::Missing, MeshStateError::Missing);
    assert_ne!(MeshStateError::Empty, MeshStateError::FailedAllocation);
}

#[test]
fn chunk_mesh_entry_accessors() {
    let mut e = ChunkMeshEntry::new(3, 40);
    assert_eq!(e.index(), 3);
    assert_eq!(e.face_alloc(), 40);
    assert!(!e.is_empty());
    assert!(!e.is_visible());
    e.set_visible(true);
    assert!(e.is_visible());
    assert_eq!(e.index(), 3);
    let g = e.gpu_entry();
    assert_eq!((g.index, g.face_alloc), (3, 40));
    e.set_visible(false);
    assert!(!e.is_visible());
}

#[test]
fn empty_chunk_mesh_entry() {
    let e = ChunkMeshEntry::new_empty(9);
    assert_eq!(e.index(), 9);
    assert_eq!(e.face_alloc(), 0);
    assert!(e.is_empty());
    assert!(!e.is_visible());
}

#[test]
fn session_entry_constructors() {
    let d = session::GPUDispatchIndirectArgsAtomic::new(0, 1, 1);
    assert_eq!((d.x, d.y, d.z), (0, 1, 1));
    let p = session::GPUPackedIndirectArgsAtomic::new(5, d);
    assert_eq!(p.draw, 5);
    assert_eq!(p.dispatch.y, 1);
}
