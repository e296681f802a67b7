use voxer::render::renderer::allocator::MemoryAllocator;
use voxer::renderer::gpu::malloc::bf_malloc::bf_malloc::VMallocBestFit;
use voxer::renderer::gpu::malloc::bf_malloc::types::MemSlotKey;
use voxer::renderer::gpu::malloc::ff_malloc::VMallocFirstFit;
use voxer::renderer::gpu::malloc::mesh_malloc::MeshVMalloc;
use voxer::renderer::gpu::malloc::mesh_malloc_multi_buffer::{
    MeshVMallocMultiBuffer, MultiBufferMeshAllocationRequest,
};
use voxer::renderer::gpu::malloc::virtual_malloc::{MallocError, VirtualMalloc};
use voxer::renderer::gpu::virtual_alloc::VirtualMemAlloc;

// ---------------------------------------------------------------- first fit

#[test]
fn first_fit_starts_with_one_free_block() {
    let m = VMallocFirstFit::new(100, 0);
    assert_eq!(m.total_size(), 100);
    assert_eq!(m.available_size(), 100);
    assert_eq!(m.available_count(), 1);
    assert_eq!(m.used_size(), 0);
    assert_eq!(m.used_count(), 0);
}

#[test]
fn first_fit_allocates_from_the_front() {
    let mut m = VMallocFirstFit::new(100, 0);
    assert_eq!(m.allocate(30), Ok(0));
    assert_eq!(m.allocate(30), Ok(30));
    assert_eq!(m.used_size(), 60);
    assert_eq!(m.available_size(), 40);
    assert_eq!(m.used_count(), 2);
}

#[test]
fn first_fit_out_of_memory_changes_nothing() {
    let mut m = VMallocFirstFit::new(100, 10);
    assert_eq!(m.allocate(60), Ok(10));
    assert_eq!(m.allocate(41), Err(MallocError::OutOfMemory));
    assert_eq!(m.used_size(), 60);
    assert_eq!(m.available_size(), 40);
}

#[test]
fn first_fit_free_of_unknown_offset_is_invalid() {
    let mut m = VMallocFirstFit::new(100, 0);
    assert_eq!(m.free(5), Err(MallocError::InvalidAllocation));
    assert_eq!(m.available_size(), 100);
}

#[test]
fn first_fit_free_then_allocate_again() {
    let mut m = VMallocFirstFit::new(100, 0);
    assert_eq!(m.allocate(100), Ok(0));
    assert_eq!(m.available_count(), 0);
    assert_eq!(m.free(0), Ok(()));
    assert_eq!(m.used_size(), 0);
    assert_eq!(m.available_size(), 100);
    assert_eq!(m.allocate(100), Ok(0));
}

#[test]
fn first_fit_used_and_free_sizes_add_up() {
    let mut m = VMallocFirstFit::new(64, 0);
    let a = m.allocate(10).unwrap();
    let _b = m.allocate(20).unwrap();
    m.free(a).unwrap();
    let _c = m.allocate(5).unwrap();
    assert_eq!(m.used_size() + m.available_size(), 64);
}

#[test]
fn first_fit_clear_resets() {
    let mut m = VMallocFirstFit::new(50, 0);
    m.allocate(20).unwrap();
    m.clear();
    assert_eq!(m.used_count(), 0);
    assert_eq!(m.available_size(), 50);
    assert_eq!(m.allocate(50), Ok(0));
}

#[test]
fn first_fit_counters_on_struct() {
    let mut m = VMallocFirstFit::new(50, 0);
    m.allocate(20).unwrap();
    assert_eq!(m.total_used(), 20);
    assert_eq!(m.total_free(), 30);
    assert_eq!(m.free_count(), 1);
}

// ---------------------------------------------------------------- best fit

#[test]
fn best_fit_picks_the_smallest_block_that_fits() {
    let mut m = VMallocBestFit::new(100, 0);
    let a = m.allocate(10).unwrap();
    assert_eq!(a.offset, 0);
    let b = m.allocate(30).unwrap();
    assert_eq!(b.offset, 10);
    // free the 10-unit block: free blocks are now 10 at 0 and 60 at 40
    m.free(MemSlotKey { size: 10, id: 2 }, None).unwrap();
    let c = m.allocate(8).unwrap();
    assert_eq!(c.offset, 0);
    let d = m.allocate(20).unwrap();
    assert_eq!(d.offset, 40);
}

#[test]
fn best_fit_out_of_memory() {
    let mut m = VMallocBestFit::new(100, 0);
    assert!(m.allocate(100).is_ok());
    assert_eq!(m.allocate(1).unwrap_err(), MallocError::OutOfMemory);
}

#[test]
fn best_fit_counts_blocks() {
    let mut m = VMallocBestFit::new(100, 20);
    assert_eq!(m.total_free(), 80);
    m.allocate(30).unwrap();
    assert_eq!(m.total_free(), 50);
    assert_eq!(m.total_used(), 30);
    assert_eq!(m.free_count(), 1);
    assert_eq!(m.used_count(), 1);
}

#[test]
fn best_fit_ids_count_up() {
    let mut m = VMallocBestFit::new(10, 0);
    assert_eq!(m.next_id(), 1);
    assert_eq!(m.next_id(), 2);
}

#[test]
fn best_fit_free_records_the_owner() {
    let mut m = VMallocBestFit::new(10, 0);
    m.allocate(10).unwrap();
    assert_eq!(m.free(MemSlotKey { size: 10, id: 2 }, Some(4)), Ok(()));
    assert_eq!(m.free_count(), 1);
    assert_eq!(m.free_blocks.get(&(10, 2)).unwrap().owner_index, Some(4));
}

#[test]
fn best_fit_offset_index_follows_the_free_blocks() {
    let mut m = VMallocBestFit::new(100, 0);
    assert_eq!(m.allocate(10).unwrap().offset, 0);
    assert_eq!(m.allocate(30).unwrap().offset, 10);
    let offsets: Vec<usize> = m.free_blocks_by_offset.keys().copied().collect();
    assert_eq!(offsets, vec![40]);
    m.free(MemSlotKey { size: 10, id: 2 }, Some(3)).unwrap();
    let offsets: Vec<usize> = m.free_blocks_by_offset.keys().copied().collect();
    assert_eq!(offsets, vec![0, 40]);
    assert_eq!(m.free_blocks_by_offset.get(&0).unwrap().owner_index, Some(3));
    assert_eq!(m.free_blocks.get(&(60, 3)).unwrap().offset, 40);
}

// ---------------------------------------------------------------- meshes

#[test]
fn mesh_malloc_sizes_its_arenas_by_type() {
    let m = MeshVMalloc::new::<[f32; 3]>(1200, 0);
    assert_eq!(m.vertex_malloc.total_size(), 100);
    assert_eq!(m.index_malloc.total_size(), 300);
}

#[test]
fn mesh_malloc_allocates_both_parts() {
    let mut m = MeshVMalloc::with_counts(100, 300, 0);
    assert_eq!(m.allocate((10, 30)), Ok((0, 0)));
    assert_eq!(m.allocate((10, 30)), Ok((10, 30)));
}

#[test]
fn mesh_malloc_gives_back_vertices_when_indices_do_not_fit() {
    let mut m = MeshVMalloc::with_counts(100, 50, 0);
    assert_eq!(m.allocate((40, 60)), Err(MallocError::OutOfMemory));
    assert_eq!(m.vertex_malloc.used_size(), 0);
    assert_eq!(m.vertex_malloc.available_size(), 100);
    // the freed vertices stay a block of their own: only the rest holds 50
    assert_eq!(m.allocate((50, 50)), Ok((40, 0)));
}

#[test]
fn mesh_malloc_free_releases_both() {
    let mut m = MeshVMalloc::with_counts(100, 100, 0);
    let (v, i) = m.allocate((100, 100)).unwrap();
    assert_eq!(m.free((v, i)), Ok(()));
    assert_eq!(m.vertex_malloc.used_size(), 0);
    assert_eq!(m.index_malloc.used_size(), 0);
}

#[test]
fn multi_buffer_allocates_in_the_named_buffer() {
    let mut m: MeshVMallocMultiBuffer<2> = MeshVMallocMultiBuffer::new(10, 20, 0);
    let request = MultiBufferMeshAllocationRequest { buffer_index: 1, vertex_size: 4, index_size: 6 };
    let a = m.allocate(request).unwrap();
    assert_eq!((a.vertex_offset, a.vertex_size, a.index_offset, a.index_size), (0, 4, 0, 6));
    let request = MultiBufferMeshAllocationRequest { buffer_index: 1, vertex_size: 4, index_size: 6 };
    let b = m.allocate(request).unwrap();
    assert_eq!((b.vertex_offset, b.index_offset), (4, 6));
    let request = MultiBufferMeshAllocationRequest { buffer_index: 0, vertex_size: 10, index_size: 20 };
    let c = m.allocate(request).unwrap();
    assert_eq!((c.vertex_offset, c.index_offset), (0, 0));
    assert_eq!(m.free((1, a)), Ok(()));
}

#[test]
fn multi_buffer_reports_failures_as_out_of_memory() {
    let mut m: MeshVMallocMultiBuffer<1> = MeshVMallocMultiBuffer::new(10, 20, 0);
    let request = MultiBufferMeshAllocationRequest { buffer_index: 0, vertex_size: 11, index_size: 1 };
    assert_eq!(m.allocate(request).unwrap_err(), MallocError::OutOfMemory);
}

// ---------------------------------------------------------------- virtual memory

#[test]
fn virtual_alloc_takes_from_the_front() {
    let mut m = VirtualMemAlloc::new(100);
    assert_eq!(m.allocate(30), Ok(0));
    assert_eq!(m.allocate(30), Ok(30));
    assert_eq!(m.allocate(50), Err("No free space"));
    assert_eq!(m.allocate(40), Ok(60));
}

#[test]
fn virtual_alloc_free_joins_the_next_free_block() {
    let mut m = VirtualMemAlloc::new(100);
    assert_eq!(m.allocate(30), Ok(0));
    m.free(0);
    assert_eq!(m.allocate(100), Ok(0));
}

#[test]
fn virtual_alloc_round_trip_joins_the_following_free_block() {
    let mut m = VirtualMemAlloc::new(100);
    assert_eq!(m.allocate(70), Ok(0));
    assert_eq!(m.allocate(30), Ok(70));
    m.free(0);
    m.free(70);
    // free blocks: 0 (70 units) and 70 (30 units); only the first fits 70
    assert_eq!(m.allocate(70), Ok(0));
    m.free(0);
    // the two free blocks are now one, at 0
    assert_eq!(m.free_count(), 1);
    assert_eq!(m.allocate(100), Ok(0));
}

#[test]
fn virtual_alloc_reports_no_free_space() {
    let mut m = VirtualMemAlloc::new(10);
    assert_eq!(m.allocate(11), Err("No free space"));
    assert_eq!(m.alloc_slot(None, 1), Err("No free space"));
}

// ---------------------------------------------------------------- simple allocator

#[test]
fn memory_allocator_shrinks_the_block_it_uses() {
    let mut m = MemoryAllocator::new(100);
    assert_eq!(m.alloc_ff(40), Ok(0));
    assert_eq!(m.free_blocks.get(&0), Some(&60));
    assert_eq!(m.alloc_ff(61), Err("No free space"));
}

#[test]
fn memory_allocator_hands_out_the_whole_arena() {
    let mut m = MemoryAllocator::new(100);
    assert_eq!(m.alloc_ff(100), Ok(0));
    assert_eq!(m.free_blocks.values().sum::<usize>(), 0);
    assert_eq!(m.alloc_ff(1), Err("No free space"));
}

#[test]
fn memory_allocator_free_joins_the_following_block() {
    let mut m = MemoryAllocator::new(100);
    m.free_blocks.clear();
    m.free_blocks.insert(50, 50);
    m.free(20, 30);
    assert_eq!(m.free_blocks.get(&20), Some(&80));
    assert_eq!(m.free_blocks.get(&50), None);
    m.free(0, 10);
    assert_eq!(m.free_blocks.get(&0), Some(&10));
}
