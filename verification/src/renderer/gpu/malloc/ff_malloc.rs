use crate::renderer::gpu::malloc::common::{
    block_sizes, free_block_listing, lemma_map_weight_insert, lemma_map_weight_remove,
    lists_sizes, malloc_fmt_accepts, malloc_fmt_checked, malloc_text, slot_size_sum, slot_weight,
    sum_slot_sizes, DebugFmtMemSlot, VirtualMemSlot,
};
use crate::renderer::gpu::malloc::virtual_malloc::{MallocError, VirtualMalloc};
use std::collections::HashMap;
use vstd::prelude::*;
use vstd::std_specs::iter::IteratorSpec;

verus! {

/// Some block of `free` holds at least `size` units.
pub open spec fn ff_has_fit(free: Map<usize, VirtualMemSlot>, size: usize) -> bool {
    exists|o: usize| #[trigger] free.contains_key(o) && free[o].size >= size
}

/// The free blocks after `size` units are taken from the front of the free
/// block at `o`: what is left of it, if anything, stays free.
pub open spec fn ff_split_free(free: Map<usize, VirtualMemSlot>, o: usize, size: usize) -> Map<
    usize,
    VirtualMemSlot,
> {
    let left = (free[o].size - size) as usize;
    if left != 0 {
        free.remove(o).insert((o + size) as usize, VirtualMemSlot { size: left, prev_free: 0 })
    } else {
        free.remove(o)
    }
}

/// The used blocks after `size` units are taken from the front of the free
/// block at `o`: the new used block, and the used block right after the free
/// block, if any, learns the size of the free space now before it.
pub open spec fn ff_claim_used(
    used: Map<usize, VirtualMemSlot>,
    free: Map<usize, VirtualMemSlot>,
    o: usize,
    size: usize,
) -> Map<usize, VirtualMemSlot> {
    let s = free[o];
    let next = (o + s.size) as usize;
    let used1 = if used.contains_key(next) {
        used.insert(next, VirtualMemSlot { size: used[next].size, prev_free: (s.size - size) as usize })
    } else {
        used
    };
    used1.insert(o, VirtualMemSlot { size, prev_free: s.prev_free })
}

/// The free blocks after the used block at `a` is freed: it joins the free block
/// recorded just before it.
pub open spec fn ff_release_free(
    free: Map<usize, VirtualMemSlot>,
    used: Map<usize, VirtualMemSlot>,
    a: usize,
) -> Map<usize, VirtualMemSlot> {
    let s = used[a];
    free.insert(
        (a - s.prev_free) as usize,
        VirtualMemSlot { size: (s.size + s.prev_free) as usize, prev_free: 0 },
    )
}

/// The used blocks after the used block at `a` is freed: the used block right
/// after it, if any, learns the size of the free space now before it.
pub open spec fn ff_release_used(used: Map<usize, VirtualMemSlot>, a: usize) -> Map<
    usize,
    VirtualMemSlot,
> {
    let s = used[a];
    let u = used.remove(a);
    let next = (a + s.size) as usize;
    if u.contains_key(next) {
        u.insert(next, VirtualMemSlot { size: u[next].size, prev_free: (s.size + s.prev_free) as usize })
    } else {
        u
    }
}

pub open spec fn ranges_disjoint(a: int, sa: int, b: int, sb: int) -> bool {
    a + sa <= b || b + sb <= a
}

/// Every block lies in the arena `[lo, lo + size)`; a used block's recorded free
/// predecessor lies there too.
pub open spec fn ff_in_arena(
    free: Map<usize, VirtualMemSlot>,
    used: Map<usize, VirtualMemSlot>,
    lo: int,
    size: int,
) -> bool {
    &&& 0 <= lo
    &&& lo + size <= usize::MAX
    &&& free.dom().finite()
    &&& used.dom().finite()
    &&& forall|k: usize|
        #[trigger] free.contains_key(k) ==> lo <= k && k + free[k].size <= lo + size && free[k].prev_free
            == 0
    &&& forall|k: usize| #[trigger]
        used.contains_key(k) ==> lo + used[k].prev_free <= k && k + used[k].size <= lo + size
}

/// The blocks tile the arena: they are non-empty and pairwise disjoint, their
/// sizes add up to the arena's size, and a used block's recorded free
/// predecessor is exactly the free block that ends where it starts.
pub open spec fn ff_tiles(
    free: Map<usize, VirtualMemSlot>,
    used: Map<usize, VirtualMemSlot>,
    lo: int,
    size: int,
) -> bool {
    &&& ff_in_arena(free, used, lo, size)
    &&& forall|k: usize| #[trigger] free.contains_key(k) ==> free[k].size > 0
    &&& forall|k: usize| #[trigger] used.contains_key(k) ==> used[k].size > 0
    &&& forall|a: usize, b: usize|
        #![trigger free.contains_key(a), free.contains_key(b)]
        free.contains_key(a) && free.contains_key(b) && a != b ==> ranges_disjoint(
            a as int,
            free[a].size as int,
            b as int,
            free[b].size as int,
        )
    &&& forall|a: usize, b: usize|
        #![trigger used.contains_key(a), used.contains_key(b)]
        used.contains_key(a) && used.contains_key(b) && a != b ==> ranges_disjoint(
            a as int,
            used[a].size as int,
            b as int,
            used[b].size as int,
        )
    &&& forall|a: usize, b: usize|
        #![trigger free.contains_key(a), used.contains_key(b)]
        free.contains_key(a) && used.contains_key(b) ==> ranges_disjoint(
            a as int,
            free[a].size as int,
            b as int,
            used[b].size as int,
        )
    &&& forall|b: usize|
        #[trigger] used.contains_key(b) && used[b].prev_free > 0 ==> free.contains_key(
            (b - used[b].prev_free) as usize,
        ) && free[(b - used[b].prev_free) as usize].size == used[b].prev_free
    &&& slot_size_sum(free) + slot_size_sum(used) == size
}

/// A first-fit allocator: free and used blocks are kept by offset; an
/// allocation takes the front of some free block large enough, and a freed
/// block joins the free block recorded just before it.
pub struct VMallocFirstFit {
    pub arena_size: usize,
    pub arena_offset: usize,
    pub free_blocks: HashMap<usize, VirtualMemSlot>,
    pub used_blocks: HashMap<usize, VirtualMemSlot>,
}

impl VMallocFirstFit {
    /// Same arena and same blocks.
    pub open spec fn same_blocks(&self, other: Self) -> bool {
        &&& self.arena_size == other.arena_size
        &&& self.arena_offset == other.arena_offset
        &&& self.free_blocks@ == other.free_blocks@
        &&& self.used_blocks@ == other.used_blocks@
    }

    /// The blocks tile the arena (see `ff_tiles`).
    pub open spec fn tiles(&self) -> bool {
        ff_tiles(self.free_blocks@, self.used_blocks@, self.arena_offset as int, self.arena_size as int)
    }

    pub fn total_free(&self) -> (r: usize)
        requires
            slot_size_sum(self.free_blocks@) <= usize::MAX,
        ensures
            r == slot_size_sum(self.free_blocks@),
    {
        sum_slot_sizes(&self.free_blocks)
    }

    pub fn free_count(&self) -> (r: usize)
        ensures
            r == self.free_blocks@.len(),
    {
        self.free_blocks.len()
    }

    pub fn total_used(&self) -> (r: usize)
        requires
            slot_size_sum(self.used_blocks@) <= usize::MAX,
        ensures
            r == slot_size_sum(self.used_blocks@),
    {
        sum_slot_sizes(&self.used_blocks)
    }

    pub fn used_count(&self) -> (r: usize)
        ensures
            r == self.used_blocks@.len(),
    {
        self.used_blocks.len()
    }

    /// Some free block that holds at least `size` units, if any.
    fn find_fit(&self, size: usize) -> (r: Option<usize>)
        ensures
            r is None <==> !ff_has_fit(self.free_blocks@, size),
            r matches Some(o) ==> self.free_blocks@.contains_key(o) && self.free_blocks@[o].size >= size,
    {
        let iter = self.free_blocks.iter();
        let ghost s = iter.remaining();
        let mut found: Option<usize> = None;
        let ghost mut scanned: int = 0;
        for kv in it: iter
            invariant
                it.seq() == s,
                s == self.free_blocks.iter().remaining(),
                scanned == it.index(),
                found is None ==> forall|i: int| 0 <= i < scanned ==> (#[trigger] s[i]).1.size < size,
                found matches Some(o) ==> self.free_blocks@.contains_key(o) && self.free_blocks@[o].size
                    >= size,
        {
            if found.is_none() && kv.1.size >= size {
                found = Some(*kv.0);
            }
            proof {
                scanned = scanned + 1;
            }
        }
        proof {
            if found is None {
                assert forall|o: usize| #[trigger]
                    self.free_blocks@.contains_key(o) implies !(self.free_blocks@[o].size >= size) by {
                    assert(s.contains((&o, &self.free_blocks@[o])));
                    let i = choose|i: int| 0 <= i < s.len() && s[i] == (&o, &self.free_blocks@[o]);
                    assert(s[i].1.size < size);
                }
            } else {
                let o = found->0;
                assert(self.free_blocks@.contains_key(o));
            }
        }
        found
    }
}

impl VMallocFirstFit {
    /// The usage summary and memory bar of the arena (see `malloc_fmt`): the
    /// free blocks listed by offset, the arena's size taken as `arena_size -
    /// arena_offset`. `None` where that cannot be drawn.
    pub fn debug_text(&self) -> (r: Option<String>)
        ensures
            self.arena_size < self.arena_offset ==> r is None,
            self.arena_offset <= self.arena_size ==> exists|slots: Seq<DebugFmtMemSlot>|
                {
                    let total = (self.arena_size - self.arena_offset) as usize;
                    &&& #[trigger] lists_sizes(slots, block_sizes(self.free_blocks@))
                    &&& (r is Some <==> malloc_fmt_accepts(total, slots))
                    &&& (r matches Some(t) ==> t@ == malloc_text(
                        total,
                        self.used_blocks@.len() as usize,
                        self.free_blocks@.len() as usize,
                        slots,
                    ))
                },
    {
        if self.arena_size < self.arena_offset {
            return None;
        }
        let slots = free_block_listing(&self.free_blocks);
        let r = malloc_fmt_checked(
            self.arena_size - self.arena_offset,
            self.used_blocks.len(),
            self.free_blocks.len(),
            &slots,
        );
        proof {
            assert(lists_sizes(slots@, block_sizes(self.free_blocks@)));
        }
        r
    }
}

/// When the blocks tile the arena, the free and the used sizes add up to the
/// arena's size.
pub proof fn lemma_ff_sizes_add_up(m: &VMallocFirstFit)
    requires
        m.tiles(),
    ensures
        m.spec_available_size() + m.spec_used_size() == m.arena_size,
{
}

/// Freeing a used block joins it to the free space recorded before it, and
/// the used block that starts right where it ends learns that whole free
/// block: so freeing two adjacent used blocks in address order leaves one free
/// block that covers both, and the space recorded before the first.
pub proof fn lemma_ff_free_adjacent_blocks_join(
    m0: VMallocFirstFit,
    m1: VMallocFirstFit,
    m2: VMallocFirstFit,
    a: usize,
    r1: Result<(), MallocError>,
    r2: Result<(), MallocError>,
)
    requires
        m0.tiles(),
        m0.used_blocks@.contains_key(a),
        m0.used_blocks@.contains_key((a + m0.used_blocks@[a].size) as usize),
        m0.free_outcome(a, r1, m1),
        m1.free_outcome((a + m0.used_blocks@[a].size) as usize, r2, m2),
    ensures
        ({
            let sa = m0.used_blocks@[a].size;
            let b = (a + sa) as usize;
            let sb = m0.used_blocks@[b].size;
            let before = m0.used_blocks@[a].prev_free;
            let g = (a - before) as usize;
            &&& r1 is Ok
            &&& r2 is Ok
            &&& m1.free_blocks@.contains_key(g)
            &&& g + m1.free_blocks@[g].size == b
            &&& m1.used_blocks@.contains_key(b)
            &&& m1.used_blocks@[b].prev_free == m1.free_blocks@[g].size
            &&& m2.free_blocks@.contains_key(g)
            &&& g <= a
            &&& m2.free_blocks@[g].size == before + sa + sb
            &&& g + m2.free_blocks@[g].size == b + sb
            &&& !m2.used_blocks@.contains_key(a)
            &&& !m2.used_blocks@.contains_key(b)
        }),
{
    let free0 = m0.free_blocks@;
    let used0 = m0.used_blocks@;
    let sa = used0[a].size;
    let b = (a + sa) as usize;
    assert(used0[a].size > 0);
    assert(b != a);
    assert(m1.used_blocks@ == ff_release_used(used0, a));
    assert(m1.used_blocks@.contains_key(b));
}

impl VirtualMalloc for VMallocFirstFit {
    type Allocation = usize;

    type AllocationRequest = usize;

    open spec fn wf(&self) -> bool {
        ff_in_arena(self.free_blocks@, self.used_blocks@, self.arena_offset as int, self.arena_size as int)
    }

    open spec fn arena_fits(arena_size: usize, arena_offset: usize) -> bool {
        arena_offset + arena_size <= usize::MAX
    }

    open spec fn alloc_requires(&self, size: usize) -> bool {
        true
    }

    open spec fn free_requires(&self, a: usize) -> bool {
        true
    }

    open spec fn reports_sizes(&self) -> bool {
        true
    }

    open spec fn fresh(&self, arena_size: usize, arena_offset: usize) -> bool {
        &&& self.arena_size == arena_size
        &&& self.arena_offset == arena_offset
        &&& self.free_blocks@ == map![arena_offset => VirtualMemSlot { size: arena_size, prev_free: 0 }]
        &&& self.used_blocks@ == Map::<usize, VirtualMemSlot>::empty()
    }

    open spec fn alloc_outcome(&self, size: usize, result: Result<usize, MallocError>, after: Self) -> bool {
        &&& after.arena_size == self.arena_size
        &&& after.arena_offset == self.arena_offset
        &&& (result is Err <==> !ff_has_fit(self.free_blocks@, size))
        &&& (result matches Err(e) ==> {
            &&& e == MallocError::OutOfMemory
            &&& after.free_blocks@ == self.free_blocks@
            &&& after.used_blocks@ == self.used_blocks@
        })
        &&& (result matches Ok(o) ==> {
            &&& self.free_blocks@.contains_key(o)
            &&& self.free_blocks@[o].size >= size
            &&& after.free_blocks@ == ff_split_free(self.free_blocks@, o, size)
            &&& after.used_blocks@ == ff_claim_used(self.used_blocks@, self.free_blocks@, o, size)
        })
    }

    open spec fn free_outcome(&self, a: usize, result: Result<(), MallocError>, after: Self) -> bool {
        &&& after.arena_size == self.arena_size
        &&& after.arena_offset == self.arena_offset
        &&& (result is Err <==> !self.used_blocks@.contains_key(a))
        &&& (result matches Err(e) ==> {
            &&& e == MallocError::InvalidAllocation
            &&& after.free_blocks@ == self.free_blocks@
            &&& after.used_blocks@ == self.used_blocks@
        })
        &&& (result is Ok ==> {
            &&& after.free_blocks@ == ff_release_free(self.free_blocks@, self.used_blocks@, a)
            &&& after.used_blocks@ == ff_release_used(self.used_blocks@, a)
        })
    }

    open spec fn clear_outcome(&self, after: Self) -> bool {
        after.fresh(self.arena_size, self.arena_offset)
    }

    open spec fn spec_total_size(&self) -> nat {
        self.arena_size as nat
    }

    open spec fn spec_available_size(&self) -> nat {
        slot_size_sum(self.free_blocks@)
    }

    open spec fn spec_available_count(&self) -> nat {
        self.free_blocks@.len()
    }

    open spec fn spec_used_size(&self) -> nat {
        slot_size_sum(self.used_blocks@)
    }

    open spec fn spec_used_count(&self) -> nat {
        self.used_blocks@.len()
    }

    /// The whole arena `[arena_offset, arena_offset + arena_size)` starts as one
    /// free block.
    fn new(arena_size: usize, arena_offset: usize) -> (r: Self)
        ensures
            arena_size > 0 ==> r.tiles(),
    {
        let initial_slot = VirtualMemSlot { size: arena_size, prev_free: 0 };
        let mut free_blocks = HashMap::new();
        free_blocks.insert(arena_offset, initial_slot);
        let r = Self { arena_size, arena_offset, free_blocks, used_blocks: HashMap::new() };
        proof {
            assert(r.free_blocks@ == map![arena_offset => initial_slot]);
            if arena_size > 0 {
                lemma_map_weight_insert(Map::<usize, VirtualMemSlot>::empty(), arena_offset, initial_slot, slot_weight::<usize>());
                assert(Map::<usize, VirtualMemSlot>::empty().remove(arena_offset) =~= Map::<usize, VirtualMemSlot>::empty());
                assert(Map::<usize, VirtualMemSlot>::empty().insert(arena_offset, initial_slot) =~= r.free_blocks@);
                assert(slot_size_sum(r.used_blocks@) == 0);
            }
        }
        r
    }

    /// Takes `size` units from the front of some free block large enough.
    fn allocate(&mut self, size: usize) -> (r: Result<usize, MallocError>)
        ensures
            old(self).tiles() && size > 0 ==> final(self).tiles(),
            old(self).tiles() && size > 0 && r is Ok ==> final(self).spec_used_size()
                == old(self).spec_used_size() + size,
            r matches Ok(o) ==> old(self).arena_offset <= o && o + size <= old(self).arena_offset
                + old(self).arena_size,
    {
        let available_slot = self.find_fit(size);
        let slot_offset = match available_slot {
            Some(o) => o,
            None => {
                return Err(MallocError::OutOfMemory);
            },
        };
        let ghost free0 = self.free_blocks@;
        let ghost used0 = self.used_blocks@;
        let mut slot = self.free_blocks.remove(&slot_offset).unwrap();
        let leftover_size = slot.size - size;
        if leftover_size != 0 {
            let leftover_free = VirtualMemSlot { size: leftover_size, prev_free: 0 };
            self.free_blocks.insert(slot_offset + size, leftover_free);
        }
        let next_index = slot_offset + slot.size;
        match self.used_blocks.get(&next_index) {
            Some(next_slot) => {
                let mut next_slot = *next_slot;
                next_slot.prev_free = leftover_size;
                self.used_blocks.insert(next_index, next_slot);
            },
            None => {},
        }
        slot.size = size;
        self.used_blocks.insert(slot_offset, slot);
        proof {
            assert(self.free_blocks@ =~= ff_split_free(free0, slot_offset, size));
            assert(self.used_blocks@ =~= ff_claim_used(used0, free0, slot_offset, size));
            lemma_ff_alloc_in_arena(free0, used0, self.arena_offset as int, self.arena_size as int, slot_offset, size);
            if ff_tiles(free0, used0, self.arena_offset as int, self.arena_size as int) && size > 0 {
                lemma_ff_alloc_tiles(free0, used0, self.arena_offset as int, self.arena_size as int, slot_offset, size);
            }
        }
        Ok(slot_offset)
    }

    /// Frees the used block at `alloc_index`, joining it to the free block
    /// recorded just before it.
    fn free(&mut self, alloc_index: usize) -> (r: Result<(), MallocError>)
        ensures
            old(self).tiles() ==> final(self).tiles(),
            old(self).tiles() && r is Ok ==> final(self).spec_used_size() + old(
                self,
            ).used_blocks@[alloc_index].size == old(self).spec_used_size(),
    {
        let ghost free0 = self.free_blocks@;
        let ghost used0 = self.used_blocks@;
        let slot_opt = self.used_blocks.remove(&alloc_index);
        let mut slot = match slot_opt {
            Some(s) => s,
            None => {
                assert(self.used_blocks@ =~= used0);
                return Err(MallocError::InvalidAllocation);
            },
        };
        let next_index = alloc_index + slot.size;
        slot.size = slot.size + slot.prev_free;
        let greedy_index = alloc_index - slot.prev_free;
        self.free_blocks.remove(&greedy_index);
        slot.prev_free = 0;
        self.free_blocks.insert(greedy_index, slot);
        match self.used_blocks.get(&next_index) {
            Some(s) => {
                let mut s = *s;
                s.prev_free = slot.size;
                self.used_blocks.insert(next_index, s);
            },
            None => {},
        }
        proof {
            assert(self.free_blocks@ =~= ff_release_free(free0, used0, alloc_index));
            assert(self.used_blocks@ =~= ff_release_used(used0, alloc_index));
            lemma_ff_free_in_arena(free0, used0, self.arena_offset as int, self.arena_size as int, alloc_index);
            if ff_tiles(free0, used0, self.arena_offset as int, self.arena_size as int) {
                lemma_ff_free_tiles(free0, used0, self.arena_offset as int, self.arena_size as int, alloc_index);
            }
        }
        Ok(())
    }

    /// Makes the whole arena one free block again.
    fn clear(&mut self) {
        let initial_slot = VirtualMemSlot { size: self.arena_size, prev_free: 0 };
        let mut free_blocks = HashMap::new();
        free_blocks.insert(self.arena_offset, initial_slot);
        self.free_blocks = free_blocks;
        self.used_blocks = HashMap::new();
        assert(self.free_blocks@ =~= map![self.arena_offset => initial_slot]);
    }

    fn total_size(&self) -> (r: usize) {
        self.arena_size
    }

    fn available_size(&self) -> (r: usize) {
        self.total_free()
    }

    fn available_count(&self) -> (r: usize) {
        self.free_count()
    }

    fn used_size(&self) -> (r: usize) {
        self.total_used()
    }

    fn used_count(&self) -> (r: usize) {
        self.used_blocks.len()
    }
}

proof fn lemma_ff_alloc_in_arena(
    free: Map<usize, VirtualMemSlot>,
    used: Map<usize, VirtualMemSlot>,
    lo: int,
    size: int,
    o: usize,
    req: usize,
)
    requires
        ff_in_arena(free, used, lo, size),
        free.contains_key(o),
        free[o].size >= req,
    ensures
        ff_in_arena(ff_split_free(free, o, req), ff_claim_used(used, free, o, req), lo, size),
{
    let f2 = ff_split_free(free, o, req);
    let u2 = ff_claim_used(used, free, o, req);
    assert forall|k: usize| #[trigger] f2.contains_key(k) implies lo <= k && k + f2[k].size <= lo + size
        && f2[k].prev_free == 0 by {
        if k != (o + req) as usize || free[o].size - req == 0 {
            assert(free.contains_key(k));
        }
    }
    assert forall|k: usize| #[trigger] u2.contains_key(k) implies lo + u2[k].prev_free <= k && k
        + u2[k].size <= lo + size by {
        if k != o {
            assert(used.contains_key(k));
        }
    }
}

proof fn lemma_ff_free_in_arena(
    free: Map<usize, VirtualMemSlot>,
    used: Map<usize, VirtualMemSlot>,
    lo: int,
    size: int,
    a: usize,
)
    requires
        ff_in_arena(free, used, lo, size),
        used.contains_key(a),
    ensures
        ff_in_arena(ff_release_free(free, used, a), ff_release_used(used, a), lo, size),
{
    let f2 = ff_release_free(free, used, a);
    let u2 = ff_release_used(used, a);
    assert forall|k: usize| #[trigger] f2.contains_key(k) implies lo <= k && k + f2[k].size <= lo + size
        && f2[k].prev_free == 0 by {
        let g = (a - used[a].prev_free) as usize;
        assert(lo + used[a].prev_free <= a);
        if k != g {
            assert(free.contains_key(k));
        } else {
            assert(f2[k].size == used[a].size + used[a].prev_free);
        }
    }
    assert forall|k: usize| #[trigger] u2.contains_key(k) implies lo + u2[k].prev_free <= k && k
        + u2[k].size <= lo + size by {
        assert(used.contains_key(k));
    }
}

proof fn lemma_ff_alloc_tiles(
    free: Map<usize, VirtualMemSlot>,
    used: Map<usize, VirtualMemSlot>,
    lo: int,
    size: int,
    o: usize,
    req: usize,
)
    requires
        ff_tiles(free, used, lo, size),
        free.contains_key(o),
        free[o].size >= req,
        req > 0,
    ensures
        ff_tiles(ff_split_free(free, o, req), ff_claim_used(used, free, o, req), lo, size),
        slot_size_sum(ff_claim_used(used, free, o, req)) == slot_size_sum(used) + req,
{
    lemma_ff_alloc_in_arena(free, used, lo, size, o, req);
    let f2 = ff_split_free(free, o, req);
    let u2 = ff_claim_used(used, free, o, req);
    let s = free[o].size;
    let left = (s - req) as usize;
    let n1 = (o + req) as usize;
    let nx = (o + s) as usize;
    assert(!used.contains_key(o)) by {
        if used.contains_key(o) {
            assert(ranges_disjoint(o as int, s as int, o as int, used[o].size as int));
        }
    }
    assert(left != 0 ==> !free.contains_key(n1) || n1 == o) by {
        if left != 0 && free.contains_key(n1) && n1 != o {
            assert(ranges_disjoint(o as int, s as int, n1 as int, free[n1].size as int));
        }
    }
    // every free block other than `o` lies outside `[o, o + s)`
    assert forall|k: usize| #[trigger] free.contains_key(k) && k != o implies k + free[k].size <= o || o + s
        <= k by {
        assert(ranges_disjoint(o as int, s as int, k as int, free[k].size as int));
    }
    assert forall|b: usize| #[trigger] used.contains_key(b) implies b + used[b].size <= o || o + s <= b by {
        assert(ranges_disjoint(o as int, s as int, b as int, used[b].size as int));
    }
    assert forall|k: usize| #[trigger] f2.contains_key(k) implies f2[k].size > 0 by {
        if !(left != 0 && k == n1) {
            assert(free.contains_key(k));
        }
    }
    assert forall|k: usize| #[trigger] u2.contains_key(k) implies u2[k].size > 0 by {
        if k != o {
            assert(used.contains_key(k));
        }
    }
    assert forall|a: usize, b: usize|
        #![trigger f2.contains_key(a), f2.contains_key(b)]
        f2.contains_key(a) && f2.contains_key(b) && a != b implies ranges_disjoint(
        a as int,
        f2[a].size as int,
        b as int,
        f2[b].size as int,
    ) by {
        let na = left != 0 && a == n1;
        let nb = left != 0 && b == n1;
        if !na {
            assert(free.contains_key(a));
        }
        if !nb {
            assert(free.contains_key(b));
        }
    }
    assert forall|a: usize, b: usize|
        #![trigger u2.contains_key(a), u2.contains_key(b)]
        u2.contains_key(a) && u2.contains_key(b) && a != b implies ranges_disjoint(
        a as int,
        u2[a].size as int,
        b as int,
        u2[b].size as int,
    ) by {
        if a != o {
            assert(used.contains_key(a));
        }
        if b != o {
            assert(used.contains_key(b));
        }
    }
    assert forall|a: usize, b: usize|
        #![trigger f2.contains_key(a), u2.contains_key(b)]
        f2.contains_key(a) && u2.contains_key(b) implies ranges_disjoint(
        a as int,
        f2[a].size as int,
        b as int,
        u2[b].size as int,
    ) by {
        let na = left != 0 && a == n1;
        if !na {
            assert(free.contains_key(a));
        }
        if b != o {
            assert(used.contains_key(b));
        }
    }
    assert forall|b: usize| #[trigger] u2.contains_key(b) && u2[b].prev_free > 0 implies f2.contains_key(
        (b - u2[b].prev_free) as usize,
    ) && f2[(b - u2[b].prev_free) as usize].size == u2[b].prev_free by {
        if b == o {
        } else if b == nx {
        } else {
            assert(used.contains_key(b));
            let q = used[b].prev_free;
            let k = (b - q) as usize;
            assert(free.contains_key(k));
            if k == o {
                assert(b == nx);
            }
            assert(f2[k] == free[k]);
        }
    }
    // sizes
    let w = slot_weight::<usize>();
    lemma_map_weight_remove(free, o, w);
    if left != 0 {
        lemma_map_weight_insert(free.remove(o), n1, VirtualMemSlot { size: left, prev_free: 0 }, w);
    }
    let used1 = if used.contains_key(nx) {
        used.insert(nx, VirtualMemSlot { size: used[nx].size, prev_free: left })
    } else {
        used
    };
    if used.contains_key(nx) {
        lemma_map_weight_remove(used, nx, w);
        lemma_map_weight_insert(used, nx, VirtualMemSlot { size: used[nx].size, prev_free: left }, w);
    }
    assert(!used1.contains_key(o));
    lemma_map_weight_insert(used1, o, VirtualMemSlot { size: req, prev_free: free[o].prev_free }, w);
}

proof fn lemma_ff_free_tiles(
    free: Map<usize, VirtualMemSlot>,
    used: Map<usize, VirtualMemSlot>,
    lo: int,
    size: int,
    a: usize,
)
    requires
        ff_tiles(free, used, lo, size),
        used.contains_key(a),
    ensures
        ff_tiles(ff_release_free(free, used, a), ff_release_used(used, a), lo, size),
        slot_size_sum(ff_release_used(used, a)) + used[a].size == slot_size_sum(used),
{
    lemma_ff_free_in_arena(free, used, lo, size, a);
    let f2 = ff_release_free(free, used, a);
    let u2 = ff_release_used(used, a);
    let s = used[a].size;
    let p = used[a].prev_free;
    let g = (a - p) as usize;
    let m = (s + p) as usize;
    let nx = (a + s) as usize;
    assert(lo + p <= a && a + s <= lo + size);
    assert(g == a - p && m == s + p && nx == a + s);
    assert(f2[g].size == m);
    assert(!free.contains_key(a)) by {
        if free.contains_key(a) {
            assert(ranges_disjoint(a as int, free[a].size as int, a as int, s as int));
        }
    }
    assert(p > 0 ==> free.contains_key(g) && free[g].size == p);
    // every other block lies outside `[g, a + s)`
    assert forall|k: usize| #[trigger] free.contains_key(k) && k != g implies k + free[k].size <= g || a + s
        <= k by {
        assert(ranges_disjoint(k as int, free[k].size as int, a as int, s as int));
        if p > 0 {
            assert(ranges_disjoint(k as int, free[k].size as int, g as int, p as int));
        }
    }
    assert forall|b: usize| #[trigger] used.contains_key(b) && b != a implies b + used[b].size <= g || a + s
        <= b by {
        assert(ranges_disjoint(b as int, used[b].size as int, a as int, s as int));
        if p > 0 {
            assert(ranges_disjoint(g as int, p as int, b as int, used[b].size as int));
        }
    }
    assert forall|k: usize| #[trigger] f2.contains_key(k) implies f2[k].size > 0 by {
        if k != g {
            assert(free.contains_key(k));
        }
    }
    assert forall|k: usize| #[trigger] u2.contains_key(k) implies u2[k].size > 0 by {
        assert(used.contains_key(k));
    }
    assert forall|x: usize, y: usize|
        #![trigger f2.contains_key(x), f2.contains_key(y)]
        f2.contains_key(x) && f2.contains_key(y) && x != y implies ranges_disjoint(
        x as int,
        f2[x].size as int,
        y as int,
        f2[y].size as int,
    ) by {
        if x != g {
            assert(free.contains_key(x));
        }
        if y != g {
            assert(free.contains_key(y));
        }
    }
    assert forall|x: usize, y: usize|
        #![trigger u2.contains_key(x), u2.contains_key(y)]
        u2.contains_key(x) && u2.contains_key(y) && x != y implies ranges_disjoint(
        x as int,
        u2[x].size as int,
        y as int,
        u2[y].size as int,
    ) by {
        assert(used.contains_key(x));
        assert(used.contains_key(y));
    }
    assert forall|x: usize, y: usize|
        #![trigger f2.contains_key(x), u2.contains_key(y)]
        f2.contains_key(x) && u2.contains_key(y) implies ranges_disjoint(
        x as int,
        f2[x].size as int,
        y as int,
        u2[y].size as int,
    ) by {
        if x != g {
            assert(free.contains_key(x));
        }
        assert(used.contains_key(y));
    }
    assert forall|b: usize| #[trigger] u2.contains_key(b) && u2[b].prev_free > 0 implies f2.contains_key(
        (b - u2[b].prev_free) as usize,
    ) && f2[(b - u2[b].prev_free) as usize].size == u2[b].prev_free by {
        if b != nx {
            assert(used.contains_key(b));
            let q = used[b].prev_free;
            let k = (b - q) as usize;
            assert(free.contains_key(k));
            assert(free[k].size == q);
            if k == g {
                if p == 0 {
                    assert(k == a);
                } else {
                    assert(b == a);
                }
            }
            assert(f2[k] == free[k]);
        }
    }
    let w = slot_weight::<usize>();
    lemma_map_weight_insert(free, g, VirtualMemSlot { size: m, prev_free: 0 }, w);
    if p > 0 {
        lemma_map_weight_remove(free, g, w);
    }
    lemma_map_weight_remove(used, a, w);
    let u = used.remove(a);
    if u.contains_key(nx) {
        lemma_map_weight_remove(u, nx, w);
        lemma_map_weight_insert(u, nx, VirtualMemSlot { size: u[nx].size, prev_free: m }, w);
    }
}

} // verus!
