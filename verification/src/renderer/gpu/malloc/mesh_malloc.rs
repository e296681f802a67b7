use crate::renderer::gpu::malloc::ff_malloc::{
    ff_claim_used, ff_has_fit, ff_release_free, ff_release_used, ff_split_free, VMallocFirstFit,
};
use crate::renderer::gpu::malloc::virtual_malloc::{MallocError, VirtualMalloc};
use vstd::prelude::*;

verus! {

/// Two first-fit arenas, one for the vertices and one for the indices of the
/// meshes kept in one GPU buffer.
pub struct MeshVMalloc {
    pub vertex_malloc: VMallocFirstFit,
    pub index_malloc: VMallocFirstFit,
}

impl MeshVMalloc {
    pub open spec fn wf(&self) -> bool {
        self.vertex_malloc.wf() && self.index_malloc.wf()
    }

    /// What `allocate` may do: from `self`, serving `requested_allocation`,
    /// return `r` and leave `after`.
    pub open spec fn alloc_outcome(
        &self,
        requested_allocation: (usize, usize),
        r: Result<(usize, usize), MallocError>,
        after: Self,
    ) -> bool {
        let (vs, is) = requested_allocation;
        &&& (r is Err <==> (!ff_has_fit(self.vertex_malloc.free_blocks@, vs) || !ff_has_fit(
            self.index_malloc.free_blocks@,
            is,
        )))
        &&& (r matches Err(e) ==> e == MallocError::OutOfMemory)
        &&& (r matches Ok((v, i)) ==> {
            &&& self.vertex_malloc.alloc_outcome(vs, Ok(v), after.vertex_malloc)
            &&& self.index_malloc.alloc_outcome(is, Ok(i), after.index_malloc)
        })
        &&& (r is Err ==> after.index_malloc.same_blocks(self.index_malloc))
        &&& (r is Err && !ff_has_fit(self.vertex_malloc.free_blocks@, vs)
            ==> after.vertex_malloc.same_blocks(self.vertex_malloc))
        &&& (r is Err && ff_has_fit(self.vertex_malloc.free_blocks@, vs) ==> exists|o: usize|
            #![trigger self.vertex_malloc.free_blocks@.contains_key(o)]
            {
                let v0 = self.vertex_malloc;
                let f1 = ff_split_free(v0.free_blocks@, o, vs);
                let u1 = ff_claim_used(v0.used_blocks@, v0.free_blocks@, o, vs);
                &&& v0.free_blocks@.contains_key(o)
                &&& v0.free_blocks@[o].size >= vs
                &&& after.vertex_malloc.free_blocks@ == ff_release_free(f1, u1, o)
                &&& after.vertex_malloc.used_blocks@ == ff_release_used(u1, o)
                &&& after.vertex_malloc.arena_size == v0.arena_size
                &&& after.vertex_malloc.arena_offset == v0.arena_offset
            })
    }

    /// What `free` may do: from `self`, freeing `allocation`, return `r` and
    /// leave `after`.
    pub open spec fn free_outcome(&self, allocation: (usize, usize), r: Result<(), MallocError>, after: Self) -> bool {
        let (v, i) = allocation;
        &&& (r is Err <==> (!self.vertex_malloc.used_blocks@.contains_key(v)
            || !self.index_malloc.used_blocks@.contains_key(i)))
        &&& (r matches Err(e) ==> e == MallocError::InvalidAllocation)
        &&& (!self.vertex_malloc.used_blocks@.contains_key(v) ==> {
            &&& after.vertex_malloc.same_blocks(self.vertex_malloc)
            &&& after.index_malloc.same_blocks(self.index_malloc)
        })
        &&& (self.vertex_malloc.used_blocks@.contains_key(v) ==> {
            &&& self.vertex_malloc.free_outcome(v, Ok(()), after.vertex_malloc)
            &&& self.index_malloc.free_outcome(
                i,
                if self.index_malloc.used_blocks@.contains_key(i) {
                    Ok(())
                } else {
                    Err(MallocError::InvalidAllocation)
                },
                after.index_malloc,
            )
        })
    }

    /// Arenas of `vertex_count` vertices and `index_count` indices, both at
    /// `offset`.
    pub fn with_counts(vertex_count: usize, index_count: usize, offset: usize) -> (r: Self)
        requires
            offset + vertex_count <= usize::MAX,
            offset + index_count <= usize::MAX,
        ensures
            r.wf(),
            r.vertex_malloc.fresh(vertex_count, offset),
            r.index_malloc.fresh(index_count, offset),
    {
        Self {
            vertex_malloc: VMallocFirstFit::new(vertex_count, offset),
            index_malloc: VMallocFirstFit::new(index_count, offset),
        }
    }

    /// Arenas for a buffer of `size` bytes at `offset`: as many vertices of type
    /// `V`, and as many `u32` indices, as fit in it.
    pub fn new<V>(size: usize, offset: usize) -> (r: Self)
        requires
            vstd::layout::size_of::<V>() > 0,
            offset + (size as int) / (vstd::layout::size_of::<V>() as int) <= usize::MAX,
            offset + size / 4 <= usize::MAX,
        ensures
            r.wf(),
            r.vertex_malloc.fresh(((size as int) / (vstd::layout::size_of::<V>() as int)) as usize, offset),
            r.index_malloc.fresh(size / 4, offset),
    {
        let vertex_size = core::mem::size_of::<V>();
        let index_size = core::mem::size_of::<u32>();
        assert(index_size == 4);
        Self::with_counts(size / vertex_size, size / index_size, offset)
    }

    /// Allocates `requested_allocation.0` vertices and `requested_allocation.1`
    /// indices; when the indices do not fit, the vertices are freed again.
    pub fn allocate(&mut self, requested_allocation: (usize, usize)) -> (r: Result<
        (usize, usize),
        MallocError,
    >)
        requires
            old(self).wf(),
        ensures
            final(self).wf(),
            old(self).alloc_outcome(requested_allocation, r, *final(self)),
            // a failed allocation hands back all the vertex space it took
            old(self).vertex_malloc.tiles() && requested_allocation.0 > 0 && r is Err ==> {
                &&& final(self).vertex_malloc.tiles()
                &&& final(self).vertex_malloc.spec_used_size() == old(self).vertex_malloc.spec_used_size()
            },
            old(self).vertex_malloc.tiles() && requested_allocation.0 > 0 ==> final(self).vertex_malloc.tiles(),
            old(self).index_malloc.tiles() && requested_allocation.1 > 0 ==> final(self).index_malloc.tiles(),
    {
        let v_alloc = match self.vertex_malloc.allocate(requested_allocation.0) {
            Ok(v) => v,
            Err(e) => {
                return Err(e);
            },
        };
        let ghost v_mid = self.vertex_malloc;
        match self.index_malloc.allocate(requested_allocation.1) {
            Err(e) => {
                let freed = self.vertex_malloc.free(v_alloc);
                assert(freed is Ok);
                assert(v_mid.used_blocks@.contains_key(v_alloc));
                Err(e)
            },
            Ok(i_alloc) => Ok((v_alloc, i_alloc)),
        }
    }

    /// Frees a vertex and an index allocation; stops at the first that is not
    /// one.
    pub fn free(&mut self, allocation: (usize, usize)) -> (r: Result<(), MallocError>)
        requires
            old(self).wf(),
        ensures
            final(self).wf(),
            old(self).free_outcome(allocation, r, *final(self)),
            old(self).vertex_malloc.tiles() ==> final(self).vertex_malloc.tiles(),
            old(self).index_malloc.tiles() ==> final(self).index_malloc.tiles(),
    {
        match self.vertex_malloc.free(allocation.0) {
            Ok(()) => {},
            Err(e) => {
                return Err(e);
            },
        }
        match self.index_malloc.free(allocation.1) {
            Ok(()) => {},
            Err(e) => {
                return Err(e);
            },
        }
        Ok(())
    }
}

} // verus!
