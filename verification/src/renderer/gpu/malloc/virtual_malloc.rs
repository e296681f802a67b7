use vstd::prelude::*;

verus! {

#[derive(Debug, Clone, Copy, PartialEq, Eq, Structural)]
pub enum MallocError {
    OutOfMemory,
    InvalidAllocation,
}

#[derive(Debug, Copy, Clone)]
pub struct SimpleAllocationRequest {
    pub size: usize,
}

#[derive(Debug, Copy, Clone)]
pub struct SimpleAllocation {
    pub offset: usize,
}

/// An allocator of ranges of a virtual arena (offsets into a GPU buffer); it
/// hands out offsets and takes them back, and never touches memory itself.
pub trait VirtualMalloc: Sized {
    type AllocationRequest: Copy;

    type Allocation: Copy;

    /// The allocator's own bookkeeping is consistent.
    spec fn wf(&self) -> bool;

    /// An arena of `arena_size` units at `arena_offset` can be managed.
    spec fn arena_fits(arena_size: usize, arena_offset: usize) -> bool;

    /// The state of a new allocator for that arena, with everything free.
    spec fn fresh(&self, arena_size: usize, arena_offset: usize) -> bool;

    /// Whether `allocate` accepts `request` (it would panic on the others).
    spec fn alloc_requires(&self, request: Self::AllocationRequest) -> bool;

    /// Whether `free` accepts `allocation` (it would panic on the others).
    spec fn free_requires(&self, allocation: Self::Allocation) -> bool;

    /// Whether the allocator reports its sizes and counts (the size queries
    /// panic on those that do not).
    spec fn reports_sizes(&self) -> bool;

    /// What `alloc` may do: from `self`, serving `request`, return `result` and
    /// leave `after`.
    spec fn alloc_outcome(
        &self,
        request: Self::AllocationRequest,
        result: Result<Self::Allocation, MallocError>,
        after: Self,
    ) -> bool;

    /// What `free` may do.
    spec fn free_outcome(
        &self,
        allocation: Self::Allocation,
        result: Result<(), MallocError>,
        after: Self,
    ) -> bool;

    /// What `clear` may do.
    spec fn clear_outcome(&self, after: Self) -> bool;

    spec fn spec_total_size(&self) -> nat;

    spec fn spec_available_size(&self) -> nat;

    spec fn spec_available_count(&self) -> nat;

    spec fn spec_used_size(&self) -> nat;

    spec fn spec_used_count(&self) -> nat;

    fn new(arena_size: usize, arena_offset: usize) -> (r: Self)
        requires
            Self::arena_fits(arena_size, arena_offset),
        ensures
            r.wf(),
            r.fresh(arena_size, arena_offset),
    ;

    fn allocate(&mut self, alloc_request: Self::AllocationRequest) -> (r: Result<
        Self::Allocation,
        MallocError,
    >)
        requires
            old(self).wf(),
            old(self).alloc_requires(alloc_request),
        ensures
            final(self).wf(),
            old(self).alloc_outcome(alloc_request, r, *final(self)),
    ;

    fn free(&mut self, allocation: Self::Allocation) -> (r: Result<(), MallocError>)
        requires
            old(self).wf(),
            old(self).free_requires(allocation),
        ensures
            final(self).wf(),
            old(self).free_outcome(allocation, r, *final(self)),
    ;

    /// Frees everything.
    fn clear(&mut self)
        requires
            old(self).wf(),
        ensures
            final(self).wf(),
            old(self).clear_outcome(*final(self)),
    ;

    fn total_size(&self) -> (r: usize)
        requires
            self.wf(),
            self.reports_sizes(),
        ensures
            r == self.spec_total_size(),
    ;

    fn available_size(&self) -> (r: usize)
        requires
            self.wf(),
            self.reports_sizes(),
            self.spec_available_size() <= usize::MAX,
        ensures
            r == self.spec_available_size(),
    ;

    fn available_count(&self) -> (r: usize)
        requires
            self.wf(),
            self.reports_sizes(),
        ensures
            r == self.spec_available_count(),
    ;

    fn used_size(&self) -> (r: usize)
        requires
            self.wf(),
            self.reports_sizes(),
            self.spec_used_size() <= usize::MAX,
        ensures
            r == self.spec_used_size(),
    ;

    fn used_count(&self) -> (r: usize)
        requires
            self.wf(),
            self.reports_sizes(),
        ensures
            r == self.spec_used_count(),
    ;
}

} // verus!
