use crate::renderer::gpu::malloc::virtual_malloc::{
    MallocError, SimpleAllocation, SimpleAllocationRequest, VirtualMalloc,
};
use vstd::prelude::*;

verus! {

#[derive(Debug, Copy, Clone)]
pub struct MultiBufferAllocationRequest {
    pub buffer_index: usize,
    pub size: usize,
}

#[derive(Debug, Copy, Clone)]
pub struct MultiBufferAllocation {
    pub buffer_index: usize,
    pub offset: usize,
}

/// The answer of buffer `i`'s allocator, tagged with `i`.
pub open spec fn tag_allocation(i: usize, inner: Result<SimpleAllocation, MallocError>) -> Result<
    MultiBufferAllocation,
    MallocError,
> {
    match inner {
        Ok(a) => Ok(MultiBufferAllocation { buffer_index: i, offset: a.offset }),
        Err(e) => Err(e),
    }
}

/// `N` buffers, each with an allocator of its own; a request names its buffer.
pub struct VMallocMultiBuffer<M: VirtualMalloc, const N: usize> {
    virtual_buffers: Vec<M>,
}

impl<M: VirtualMalloc, const N: usize> VMallocMultiBuffer<M, N> {
    /// The allocators of the buffers.
    pub closed spec fn buffers(&self) -> Seq<M> {
        self.virtual_buffers@
    }
}

impl<M, const N: usize> VirtualMalloc for VMallocMultiBuffer<M, N> where
    M: VirtualMalloc<AllocationRequest = SimpleAllocationRequest, Allocation = SimpleAllocation>,
 {
    type AllocationRequest = MultiBufferAllocationRequest;

    type Allocation = MultiBufferAllocation;

    open spec fn wf(&self) -> bool {
        &&& self.buffers().len() == N
        &&& forall|i: int| 0 <= i < N ==> (#[trigger] self.buffers()[i]).wf()
    }

    open spec fn arena_fits(arena_size: usize, arena_offset: usize) -> bool {
        M::arena_fits(arena_size, arena_offset)
    }

    open spec fn fresh(&self, arena_size: usize, arena_offset: usize) -> bool {
        &&& self.buffers().len() == N
        &&& forall|i: int| 0 <= i < N ==> (#[trigger] self.buffers()[i]).fresh(arena_size, arena_offset)
    }

    open spec fn alloc_requires(&self, request: MultiBufferAllocationRequest) -> bool {
        &&& request.buffer_index < N
        &&& self.buffers()[request.buffer_index as int].alloc_requires(
            SimpleAllocationRequest { size: request.size },
        )
    }

    open spec fn free_requires(&self, allocation: MultiBufferAllocation) -> bool {
        &&& allocation.buffer_index < N
        &&& self.buffers()[allocation.buffer_index as int].free_requires(
            SimpleAllocation { offset: allocation.offset },
        )
    }

    open spec fn reports_sizes(&self) -> bool {
        false
    }

    open spec fn alloc_outcome(
        &self,
        request: MultiBufferAllocationRequest,
        result: Result<MultiBufferAllocation, MallocError>,
        after: Self,
    ) -> bool {
        let i = request.buffer_index as int;
        &&& after.buffers().len() == self.buffers().len()
        &&& forall|j: int|
            0 <= j < self.buffers().len() && j != i ==> #[trigger] after.buffers()[j] == self.buffers()[j]
        &&& exists|inner: Result<SimpleAllocation, MallocError>|
            {
                &&& #[trigger] self.buffers()[i].alloc_outcome(
                    SimpleAllocationRequest { size: request.size },
                    inner,
                    after.buffers()[i],
                )
                &&& result == tag_allocation(request.buffer_index, inner)
            }
    }

    open spec fn free_outcome(
        &self,
        allocation: MultiBufferAllocation,
        result: Result<(), MallocError>,
        after: Self,
    ) -> bool {
        let i = allocation.buffer_index as int;
        &&& after.buffers().len() == self.buffers().len()
        &&& forall|j: int|
            0 <= j < self.buffers().len() && j != i ==> #[trigger] after.buffers()[j] == self.buffers()[j]
        &&& self.buffers()[i].free_outcome(
            SimpleAllocation { offset: allocation.offset },
            result,
            after.buffers()[i],
        )
    }

    open spec fn clear_outcome(&self, after: Self) -> bool {
        &&& after.buffers().len() == self.buffers().len()
        &&& forall|i: int|
            0 <= i < self.buffers().len() ==> (#[trigger] self.buffers()[i]).clear_outcome(
                after.buffers()[i],
            )
    }

    open spec fn spec_total_size(&self) -> nat {
        0
    }

    open spec fn spec_available_size(&self) -> nat {
        0
    }

    open spec fn spec_available_count(&self) -> nat {
        0
    }

    open spec fn spec_used_size(&self) -> nat {
        0
    }

    open spec fn spec_used_count(&self) -> nat {
        0
    }

    /// Every buffer gets an allocator for `[buffer_offset, buffer_offset + buffer_size)`.
    fn new(buffer_size: usize, buffer_offset: usize) -> (r: Self) {
        let mut virtual_buffers: Vec<M> = Vec::with_capacity(N);
        let mut i: usize = 0;
        while i < N
            invariant
                i <= N,
                M::arena_fits(buffer_size, buffer_offset),
                virtual_buffers@.len() == i,
                forall|j: int|
                    0 <= j < i ==> (#[trigger] virtual_buffers@[j]).wf() && virtual_buffers@[j].fresh(
                        buffer_size,
                        buffer_offset,
                    ),
            decreases N - i,
        {
            virtual_buffers.push(M::new(buffer_size, buffer_offset));
            i = i + 1;
        }
        Self { virtual_buffers }
    }

    /// Asks the allocator of the named buffer.
    fn allocate(&mut self, allocation_request: MultiBufferAllocationRequest) -> (r: Result<
        MultiBufferAllocation,
        MallocError,
    >) {
        let ghost i = allocation_request.buffer_index as int;
        let inner_request = SimpleAllocationRequest { size: allocation_request.size };
        let inner = self.virtual_buffers[allocation_request.buffer_index].allocate(inner_request);
        proof {
            assert(old(self).buffers()[i].alloc_outcome(inner_request, inner, self.buffers()[i]));
        }
        let inner_allocation = match inner {
            Ok(a) => a,
            Err(e) => {
                return Err(e);
            },
        };
        Ok(
            MultiBufferAllocation {
                buffer_index: allocation_request.buffer_index,
                offset: inner_allocation.offset,
            },
        )
    }

    /// Hands the allocation back to the allocator of its buffer.
    fn free(&mut self, allocation: MultiBufferAllocation) -> (r: Result<(), MallocError>) {
        let inner_allocation = SimpleAllocation { offset: allocation.offset };
        let inner = self.virtual_buffers[allocation.buffer_index].free(inner_allocation);
        proof {
            let i = allocation.buffer_index as int;
            assert(old(self).buffers()[i].free_outcome(inner_allocation, inner, self.buffers()[i]));
            assert forall|j: int| 0 <= j < N && j != i implies #[trigger] self.buffers()[j] == old(self).buffers()[j] by {}
        }
        inner
    }

    fn clear(&mut self) {
        let n = self.virtual_buffers.len();
        let mut i: usize = 0;
        while i < n
            invariant
                i <= n,
                n == N,
                self.buffers().len() == N,
                forall|j: int| 0 <= j < N ==> (#[trigger] self.buffers()[j]).wf(),
                forall|j: int| 0 <= j < i ==> (#[trigger] old(self).buffers()[j]).clear_outcome(self.buffers()[j]),
                forall|j: int| i <= j < N ==> #[trigger] self.buffers()[j] == old(self).buffers()[j],
            decreases n - i,
        {
            self.virtual_buffers[i].clear();
            i = i + 1;
        }
    }

    fn total_size(&self) -> (r: usize) {
        0
    }

    fn available_size(&self) -> (r: usize) {
        0
    }

    fn available_count(&self) -> (r: usize) {
        0
    }

    fn used_size(&self) -> (r: usize) {
        0
    }

    fn used_count(&self) -> (r: usize) {
        0
    }
}

} // verus!
