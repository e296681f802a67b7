use voxer::renderer::gpu::malloc::bf_malloc::bf_malloc::VMallocBestFit;
use voxer::renderer::gpu::malloc::ff_malloc::VMallocFirstFit;
use voxer::renderer::gpu::malloc::mesh_malloc_multi_buffer::{
    MeshVMallocMultiBuffer, MultiBufferMeshAllocationRequest,
};
use voxer::renderer::gpu::malloc::virtual_malloc::VirtualMalloc;
use voxer::renderer::gpu::virtual_alloc::VirtualMemAlloc;

/// A bar of `runs`, broken into rows of `row` characters.
fn bar(runs: &[(char, usize)], row: usize) -> String {
    let mut s = String::new();
    let mut pos = 0;
    for &(c, n) in runs {
        for _ in 0..n {
            if pos % row == 0 {
                s.push('\n');
            }
            s.push(c);
            pos += 1;
        }
    }
    s
}

#[test]
fn first_fit_debug_text() {
    let mut m = VMallocFirstFit::new(1024, 0);
    assert_eq!(m.allocate(200), Ok(0));
    let expected = format!(
        "~used:    200 /   1024\nalloc:      1 ~avg:    200\nfree:       1 ~avg:   1024\n{}",
        bar(&[('#', 100), ('-', 412)], 51)
    );
    assert_eq!(m.debug_text(), Some(expected));
}

#[test]
fn first_fit_debug_text_refuses_what_it_cannot_draw() {
    // the free sizes exceed `arena_size - arena_offset`
    let m = VMallocFirstFit::new(1000, 24);
    assert_eq!(m.debug_text(), None);
    // an arena below half a kibibyte
    let m = VMallocFirstFit::new(100, 0);
    assert_eq!(m.debug_text(), None);
}

#[test]
fn best_fit_debug_text() {
    let mut m = VMallocBestFit::new(1024, 0);
    assert_eq!(m.allocate(100).unwrap().offset, 0);
    let expected = format!(
        "~used:    100 /   1024\nalloc:      1 ~avg:    100\nfree:       1 ~avg:   1024\n{}",
        bar(&[('#', 50), ('-', 462)], 51)
    );
    assert_eq!(m.debug_text(), Some(expected));
}

#[test]
fn best_fit_debug_text_of_offset_before_end() {
    let m = VMallocBestFit::new(10, 20);
    assert_eq!(m.debug_text(), None);
}

#[test]
fn virtual_alloc_memory_bar() {
    let mut m = VirtualMemAlloc::new(1024);
    assert_eq!(m.allocate(100), Ok(0));
    assert_eq!(m.memory_bar(), Some(bar(&[('#', 50), ('_', 462)], 51)));
    assert_eq!(m.used_bytes(), Some(100));
    assert_eq!((m.used_count(), m.free_count()), (1, 1));
}

#[test]
fn virtual_alloc_memory_bar_fills_the_rest_with_stars() {
    let mut m = VirtualMemAlloc::new(1024);
    assert_eq!(m.allocate(1024), Ok(0));
    assert_eq!(m.memory_bar(), Some("*".repeat(512)));
    assert_eq!(m.free_count(), 0);
    let small = VirtualMemAlloc::new(100);
    assert_eq!(small.memory_bar(), None);
}

#[test]
fn multi_buffer_gauges() {
    let mut m: MeshVMallocMultiBuffer<2> = MeshVMallocMultiBuffer::new(60, 90, 0);
    let request = MultiBufferMeshAllocationRequest { buffer_index: 1, vertex_size: 20, index_size: 30 };
    m.allocate(request).unwrap();
    let empty = " ".repeat(30);
    let partly = format!("{}{}", "#".repeat(10), " ".repeat(20));
    let expected = format!(
        "vertex  0: [{e}]\nindex   0: [{e}]\n\nvertex  1: [{p}]\nindex   1: [{p}]\n\n",
        e = empty,
        p = partly
    );
    assert_eq!(m.debug_text(), Some(expected));
}

#[test]
fn multi_buffer_gauges_need_thirty_units() {
    let m: MeshVMallocMultiBuffer<1> = MeshVMallocMultiBuffer::new(10, 90, 0);
    assert_eq!(m.debug_text(), None);
}

#[test]
fn virtual_alloc_allocate_then_free_restores_the_arena() {
    let mut m = VirtualMemAlloc::new(1024);
    assert_eq!(m.allocate(300), Ok(0));
    let before = m.memory_bar();
    let o = m.allocate(100).unwrap();
    assert_eq!(o, 300);
    assert_ne!(m.memory_bar(), before);
    m.free(o);
    assert_eq!(m.memory_bar(), before);
    assert_eq!(m.used_bytes(), Some(300));
    assert_eq!((m.used_count(), m.free_count()), (1, 1));
}

#[test]
fn first_fit_debug_text_sorts_free_blocks_by_offset() {
    let mut m = VMallocFirstFit::new(1024, 0);
    assert_eq!(m.allocate(100), Ok(0));
    assert_eq!(m.allocate(100), Ok(100));
    assert_eq!(m.free(0), Ok(()));
    let expected = format!(
        "~used:    100 /   1024\nalloc:      1 ~avg:    100\nfree:       2 ~avg:    512\n{}",
        bar(&[('-', 50), ('#', 50), ('-', 412)], 51)
    );
    assert_eq!(m.debug_text(), Some(expected));
}

#[test]
fn best_fit_debug_text_sorts_free_blocks_by_offset() {
    let mut m = VMallocBestFit::new(1024, 0);
    assert_eq!(m.allocate(900).unwrap().offset, 0);
    assert_eq!(m.allocate(24).unwrap().offset, 900);
    // the block of size 900 (id 2) is freed: in key order the free block of
    // size 100 at offset 924 comes first
    m.free(voxer::renderer::gpu::malloc::bf_malloc::types::MemSlotKey { size: 900, id: 2 }, None)
        .unwrap();
    let expected = format!(
        "~used:     24 /   1024\nalloc:      1 ~avg:     24\nfree:       2 ~avg:    512\n{}",
        bar(&[('-', 450), ('#', 12), ('-', 50)], 51)
    );
    assert_eq!(m.debug_text(), Some(expected));
}

#[test]
fn virtual_alloc_memory_bar_with_two_free_blocks() {
    let mut m = VirtualMemAlloc::new(1024);
    assert_eq!(m.allocate(100), Ok(0));
    assert_eq!(m.allocate(100), Ok(100));
    m.free(0);
    assert_eq!(m.memory_bar(), Some(bar(&[('_', 50), ('#', 50), ('_', 412)], 51)));
    assert_eq!((m.used_count(), m.free_count()), (1, 2));
}

#[test]
fn virtual_alloc_debug_text() {
    let mut m = VirtualMemAlloc::new(1024);
    assert_eq!(m.allocate(100), Ok(0));
    assert_eq!(m.allocate(200), Ok(100));
    let expected = format!(
        "~used:    300 /   1024\nalloc:      2 ~avg:    150\nfree:       1 ~avg:    724\n{}",
        bar(&[('#', 150), ('_', 362)], 51)
    );
    assert_eq!(m.debug_text(), Some(expected));
}

#[test]
fn virtual_alloc_debug_text_of_a_full_arena() {
    let mut m = VirtualMemAlloc::new(1024);
    assert_eq!(m.allocate(1024), Ok(0));
    let expected = format!(
        "~used:   1024 /   1024\nalloc:      1 ~avg:   1024\nfree:       0 ~avg:      0\n{}",
        "*".repeat(512)
    );
    assert_eq!(m.debug_text(), Some(expected));
    assert_eq!(VirtualMemAlloc::new(100).debug_text(), None);
}
