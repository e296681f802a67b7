use voxer::renderer::gpu::chunk_session_shader_types::{GPUChunkMeshEntry, GPUChunkMeshEntryWrite};
use voxer::renderer::gpu::vx_gpu_delta_vec::VxGpuSyncVec;

const FLAG: u32 = 0x8000_0000;

fn entry(index: u32, face_alloc: u32) -> GPUChunkMeshEntry {
    GPUChunkMeshEntry { index, face_alloc }
}

fn writes(w: &[GPUChunkMeshEntryWrite]) -> Vec<(u32, u32, u32)> {
    w.iter().map(|w| (w.index, w.entry.index, w.entry.face_alloc)).collect()
}

#[test]
fn new_vector_is_empty_and_clean() {
    let v: VxGpuSyncVec<GPUChunkMeshEntry> = VxGpuSyncVec::new(8, 4);
    assert_eq!(v.cpu_len(), 0);
    assert!(v.cpu_empty());
    assert!(!v.cpu_dirty());
}

#[test]
fn pushes_are_appended_with_the_meshing_flag() {
    let mut v = VxGpuSyncVec::new(8, 4);
    v.push(entry(0, 10));
    v.push(entry(1, 20));
    v.push(entry(2, 30));
    assert!(v.cpu_dirty());
    assert_eq!(v.cpu_len(), 0);
    let w = writes(v.sync_delta());
    assert_eq!(w, vec![(0, 0, 10 | FLAG), (1, 1, 20 | FLAG), (2, 2, 30 | FLAG)]);
    assert_eq!(v.cpu_len(), 3);
    assert!(!v.cpu_dirty());
}

#[test]
fn removal_moves_the_last_item_down() {
    let mut v = VxGpuSyncVec::new(8, 4);
    v.push(entry(0, 10));
    v.push(entry(1, 20));
    v.push(entry(2, 30));
    v.sync_delta();
    v.remove(0);
    assert!(v.cpu_dirty());
    let w = writes(v.sync_delta());
    // the item of id 2 moves to slot 0, without the meshing flag
    assert_eq!(w, vec![(0, 2, 30)]);
    assert_eq!(v.cpu_len(), 2);
}

#[test]
fn a_push_fills_a_removed_slot() {
    let mut v = VxGpuSyncVec::new(8, 4);
    v.push(entry(0, 10));
    v.push(entry(1, 20));
    v.sync_delta();
    v.remove(0);
    v.push(entry(5, 50));
    let w = writes(v.sync_delta());
    assert_eq!(w, vec![(0, 5, 50 | FLAG)]);
    assert_eq!(v.cpu_len(), 2);
}

#[test]
fn removing_the_tail_writes_nothing() {
    let mut v = VxGpuSyncVec::new(8, 4);
    v.push(entry(3, 1));
    v.push(entry(4, 2));
    v.sync_delta();
    v.remove(4);
    v.remove(3);
    let w = writes(v.sync_delta());
    assert!(w.is_empty());
    assert!(v.cpu_empty());
}

#[test]
fn removals_in_any_order_keep_the_array_dense() {
    let mut v = VxGpuSyncVec::new(8, 8);
    for i in 0..5 {
        v.push(entry(i, 100 + i));
    }
    v.sync_delta();
    v.remove(3);
    v.remove(0);
    let w = writes(v.sync_delta());
    // slot 0 gets the last item (id 4); slot 3 is then the last slot
    assert_eq!(w, vec![(0, 4, 104)]);
    assert_eq!(v.cpu_len(), 3);
    // ids 1, 2 and 4 remain: removing them all empties the array
    v.remove(1);
    v.remove(2);
    v.remove(4);
    v.sync_delta();
    assert!(v.cpu_empty());
}

/// Patches a GPU-side copy with the writes of a sync and cuts it to `len`.
fn patch(gpu: &mut Vec<(u32, u32)>, w: &[GPUChunkMeshEntryWrite], len: usize) {
    let mut seen = Vec::new();
    for w in w {
        let i = w.index as usize;
        assert!(i < len);
        assert!(!seen.contains(&i));
        seen.push(i);
        if i < gpu.len() {
            gpu[i] = (w.entry.index, w.entry.face_alloc);
        } else {
            assert_eq!(i, gpu.len());
            gpu.push((w.entry.index, w.entry.face_alloc));
        }
    }
    gpu.truncate(len);
}

#[test]
fn writes_patch_the_gpu_copy_into_the_cpu_array() {
    let mut v = VxGpuSyncVec::new(16, 8);
    let mut gpu: Vec<(u32, u32)> = Vec::new();
    for i in 0..6 {
        v.push(entry(i, i));
    }
    let w = v.sync_delta().to_vec();
    patch(&mut gpu, &w, v.cpu_len());
    // remove three, push two: one removed slot is refilled by a push, the
    // other by the last item, and the removed tail slot is cut off
    v.remove(1);
    v.remove(5);
    v.remove(2);
    v.push(entry(9, 9));
    v.push(entry(7, 7));
    let w = v.sync_delta().to_vec();
    patch(&mut gpu, &w, v.cpu_len());
    assert_eq!(v.cpu_len(), 5);
    assert_eq!(
        gpu,
        vec![(0, FLAG), (9, 9 | FLAG), (7, 7 | FLAG), (3, 3 | FLAG), (4, 4 | FLAG)]
    );
    // each id held is held once, and every held id can be removed again
    for id in [0, 9, 7, 3, 4] {
        v.remove(id);
    }
    v.sync_delta();
    assert!(v.cpu_empty());
}
