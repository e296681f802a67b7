use crate::renderer::gpu::malloc::common::{
    bar_chars, bar_end, bar_reach, bar_resolution, bar_row_size, bar_walk_ok, block_sizes,
    block_weight, checked_block_sizes, draw_bar, free_block_listing, lemma_map_weight_insert,
    lemma_map_weight_remove,
    lists_sizes, map_weight, num6, push_num6, push_str, slots_in_range, string_from_chars, DebugFmtMemSlot, MemBlock, KIB,
    ROWS,
};
use std::collections::HashMap;
use vstd::prelude::*;
use vstd::std_specs::iter::IteratorSpec;

verus! {

/// A block of the arena: its size and, for a used block, the offset of a free
/// block recorded just before it (set only for blocks of size zero).
#[derive(Debug, Clone, Copy)]
pub struct VirtualMemSlot {
    pub size: usize,
    pub prev_free: Option<usize>,
}

/// A block weighs its size.
pub open spec fn vm_weight() -> spec_fn(usize, VirtualMemSlot) -> nat {
    |k: usize, s: VirtualMemSlot| s.size as nat
}

pub open spec fn vm_size_sum(m: Map<usize, VirtualMemSlot>) -> nat {
    map_weight(m, vm_weight())
}

/// Some free block holds at least `size` units.
pub open spec fn vm_has_fit(free: Map<usize, VirtualMemSlot>, size: usize) -> bool {
    exists|o: usize| #[trigger] free.contains_key(o) && free[o].size >= size
}

/// The free blocks after `size` units are taken from the front of the free
/// block at `o`.
pub open spec fn vm_split_free(free: Map<usize, VirtualMemSlot>, o: usize, size: usize) -> Map<usize, VirtualMemSlot> {
    let left = (free[o].size - size) as usize;
    if left != 0 {
        free.remove(o).insert((o + size) as usize, VirtualMemSlot { size: left, prev_free: None })
    } else {
        free.remove(o)
    }
}

/// The used blocks after `size` units are taken from the front of the free
/// block at `o`; the used block that starts where the new one ends, if any,
/// records where the free rest begins, if there is a rest.
pub open spec fn vm_claim_used(
    used: Map<usize, VirtualMemSlot>,
    free: Map<usize, VirtualMemSlot>,
    o: usize,
    size: usize,
) -> Map<usize, VirtualMemSlot> {
    let left = (free[o].size - size) as usize;
    let nx = (o + size) as usize;
    let used1 = used.insert(o, VirtualMemSlot { size, prev_free: free[o].prev_free });
    if used1.contains_key(nx) {
        used1.insert(nx, VirtualMemSlot { size: used1[nx].size, prev_free: if left != 0 { Some(nx) } else { None } })
    } else {
        used1
    }
}

/// The free blocks after the used block at `a` is freed: it absorbs the free
/// block that starts where it ends, if any, and is kept at its recorded
/// `prev_free` offset, or else at its own.
pub open spec fn vm_release_free(free: Map<usize, VirtualMemSlot>, used: Map<usize, VirtualMemSlot>, a: usize) -> Map<usize, VirtualMemSlot> {
    let s = used[a];
    let nx = (a + s.size) as usize;
    let merged = if free.contains_key(nx) { (s.size + free[nx].size) as usize } else { s.size };
    let at = match s.prev_free {
        Some(p) => p,
        None => a,
    };
    free.remove(nx).insert(at, VirtualMemSlot { size: merged, prev_free: None })
}

pub open spec fn vm_disjoint(a: int, sa: int, b: int, sb: int) -> bool {
    a + sa <= b || b + sb <= a
}

/// Every block ends inside the address space; free blocks record nothing before
/// them, and a used block records only its own offset.
pub open spec fn vm_in_bounds(free: Map<usize, VirtualMemSlot>, used: Map<usize, VirtualMemSlot>) -> bool {
    &&& free.dom().finite()
    &&& used.dom().finite()
    &&& forall|k: usize| #[trigger] free.contains_key(k) ==> k + free[k].size <= usize::MAX && free[k].prev_free is None
    &&& forall|k: usize| #[trigger] used.contains_key(k) ==> k + used[k].size <= usize::MAX && (used[k].prev_free is None || used[k].prev_free == Some(k))
}

/// The blocks tile `[0, size)`: non-empty, pairwise disjoint, inside it, with
/// sizes adding up to it, and nothing recorded before any block.
pub open spec fn vm_tiles(free: Map<usize, VirtualMemSlot>, used: Map<usize, VirtualMemSlot>, size: int) -> bool {
    &&& vm_in_bounds(free, used)
    &&& forall|k: usize| #[trigger] free.contains_key(k) ==> free[k].size > 0 && k + free[k].size <= size
    &&& forall|k: usize| #[trigger] used.contains_key(k) ==> used[k].size > 0 && k + used[k].size <= size && used[k].prev_free is None
    &&& forall|a: usize, b: usize|
        #![trigger free.contains_key(a), free.contains_key(b)]
        free.contains_key(a) && free.contains_key(b) && a != b ==> vm_disjoint(a as int, free[a].size as int, b as int, free[b].size as int)
    &&& forall|a: usize, b: usize|
        #![trigger used.contains_key(a), used.contains_key(b)]
        used.contains_key(a) && used.contains_key(b) && a != b ==> vm_disjoint(a as int, used[a].size as int, b as int, used[b].size as int)
    &&& forall|a: usize, b: usize|
        #![trigger free.contains_key(a), used.contains_key(b)]
        free.contains_key(a) && used.contains_key(b) ==> vm_disjoint(a as int, free[a].size as int, b as int, used[b].size as int)
    &&& vm_size_sum(free) + vm_size_sum(used) == size
}

/// Some free block of `free` covers the address `a`.
pub open spec fn vm_free_covers(free: Map<usize, VirtualMemSlot>, a: int) -> bool {
    exists|k: usize| #[trigger] free.contains_key(k) && k <= a < k + free[k].size
}

/// Freeing what was just allocated gives the arena back: from blocks that tile
/// the arena, taking `size > 0` units from the free block at `o` and then
/// freeing the used block at `o` leaves the used blocks as they were and the
/// free blocks covering the same addresses. The free blocks are unchanged,
/// unless the free block was taken whole and another free block starts right
/// after it: then the free joins the two into one block at `o`.
pub proof fn lemma_allocate_free_round_trip(
    free: Map<usize, VirtualMemSlot>,
    used: Map<usize, VirtualMemSlot>,
    arena_size: int,
    o: usize,
    size: usize,
)
    requires
        vm_tiles(free, used, arena_size),
        size > 0,
        free.contains_key(o),
        free[o].size >= size,
    ensures
        ({
            let free1 = vm_split_free(free, o, size);
            let used1 = vm_claim_used(used, free, o, size);
            let nx = (o + size) as usize;
            let back = vm_release_free(free1, used1, o);
            &&& used1.contains_key(o)
            &&& used1.remove(o) == used
            &&& back == if free[o].size == size && free.contains_key(nx) {
                free.remove(nx).insert(o, VirtualMemSlot { size: (size + free[nx].size) as usize, prev_free: None })
            } else {
                free
            }
            &&& forall|a: int| vm_free_covers(back, a) <==> vm_free_covers(free, a)
        }),
{
    let free1 = vm_split_free(free, o, size);
    let used1 = vm_claim_used(used, free, o, size);
    let nx = (o + size) as usize;
    let left = (free[o].size - size) as usize;
    let back = vm_release_free(free1, used1, o);
    assert(!used.contains_key(o)) by {
        if used.contains_key(o) {
            assert(vm_disjoint(o as int, free[o].size as int, o as int, used[o].size as int));
        }
    }
    if left != 0 {
        assert(!used.contains_key(nx)) by {
            if used.contains_key(nx) {
                assert(vm_disjoint(o as int, free[o].size as int, nx as int, used[nx].size as int));
            }
        }
        assert(!free.contains_key(nx)) by {
            if free.contains_key(nx) {
                assert(vm_disjoint(o as int, free[o].size as int, nx as int, free[nx].size as int));
            }
        }
    } else if used.contains_key(nx) {
        assert(used[nx].prev_free is None);
    }
    assert(used1.remove(o) =~= used);
    if left == 0 && free.contains_key(nx) {
        assert(!used.contains_key(nx)) by {
            if used.contains_key(nx) {
                assert(vm_disjoint(nx as int, free[nx].size as int, nx as int, used[nx].size as int));
            }
        }
        let merged = VirtualMemSlot { size: (size + free[nx].size) as usize, prev_free: None };
        assert(free[o].prev_free is None);
        assert(back =~= free.remove(nx).insert(o, merged));
        assert forall|a: int| vm_free_covers(back, a) <==> vm_free_covers(free, a) by {
            if vm_free_covers(back, a) {
                let k = choose|k: usize| #[trigger] back.contains_key(k) && k <= a < k + back[k].size;
                if k == o {
                    if a < o + size {
                        assert(free.contains_key(o) && o <= a < o + free[o].size);
                    } else {
                        assert(free.contains_key(nx) && nx <= a < nx + free[nx].size);
                    }
                } else {
                    assert(free.contains_key(k) && k <= a < k + free[k].size);
                }
            }
            if vm_free_covers(free, a) {
                let k = choose|k: usize| #[trigger] free.contains_key(k) && k <= a < k + free[k].size;
                if k == o || k == nx {
                    assert(back.contains_key(o) && o <= a < o + back[o].size);
                } else {
                    assert(back.contains_key(k) && k <= a < k + back[k].size);
                }
            }
        }
    } else {
        assert(back =~= free);
    }
}

/// A first-fit allocator of `[0, size)` that, on free, absorbs the free block
/// that follows the freed one.
pub struct VirtualMemAlloc {
    pub size: usize,
    free_blocks: HashMap<usize, VirtualMemSlot>,
    allocated_blocks: HashMap<usize, VirtualMemSlot>,
}

impl VirtualMemAlloc {
    pub closed spec fn free_map(&self) -> Map<usize, VirtualMemSlot> {
        self.free_blocks@
    }

    pub closed spec fn used_map(&self) -> Map<usize, VirtualMemSlot> {
        self.allocated_blocks@
    }

    /// The arena's size.
    pub closed spec fn arena_size(&self) -> usize {
        self.size
    }

    pub open spec fn wf(&self) -> bool {
        vm_in_bounds(self.free_map(), self.used_map())
    }

    pub open spec fn tiles(&self) -> bool {
        vm_tiles(self.free_map(), self.used_map(), self.arena_size() as int)
    }

    pub fn new(size: usize) -> (r: Self)
        ensures
            r.wf(),
            r.arena_size() == size,
            r.free_map() == map![0usize => VirtualMemSlot { size, prev_free: None }],
            r.used_map() == Map::<usize, VirtualMemSlot>::empty(),
            size > 0 ==> r.tiles(),
    {
        let initial_slot = VirtualMemSlot { size: size, prev_free: None };
        let mut free_blocks = HashMap::new();
        free_blocks.insert(0, initial_slot);
        let r = Self { size, free_blocks, allocated_blocks: HashMap::new() };
        proof {
            assert(r.free_blocks@ =~= map![0usize => initial_slot]);
            lemma_map_weight_insert(Map::<usize, VirtualMemSlot>::empty(), 0usize, initial_slot, vm_weight());
            assert(Map::<usize, VirtualMemSlot>::empty().remove(0usize) =~= Map::<usize, VirtualMemSlot>::empty());
            assert(Map::<usize, VirtualMemSlot>::empty().insert(0usize, initial_slot) =~= r.free_blocks@);
        }
        r
    }

    /// Some free block that holds at least `size` units, if any.
    fn find_fit(&self, size: usize) -> (r: Option<usize>)
        ensures
            r is None <==> !vm_has_fit(self.free_map(), size),
            r matches Some(o) ==> self.free_map().contains_key(o) && self.free_map()[o].size >= size,
    {
        let iter = self.free_blocks.iter();
        let ghost s = iter.remaining();
        let mut found: Option<usize> = None;
        let ghost mut scanned: int = 0;
        for kv in it: iter
            invariant
                it.seq() == s,
                s == self.free_blocks.iter().remaining(),
                scanned == it.index(),
                found is None ==> forall|i: int| 0 <= i < scanned ==> (#[trigger] s[i]).1.size < size,
                found matches Some(o) ==> self.free_blocks@.contains_key(o) && self.free_blocks@[o].size >= size,
        {
            if found.is_none() && kv.1.size >= size {
                found = Some(*kv.0);
            }
            proof {
                scanned = scanned + 1;
            }
        }
        proof {
            if found is None {
                assert forall|o: usize| #[trigger] self.free_blocks@.contains_key(o) implies !(self.free_blocks@[o].size >= size) by {
                    assert(s.contains((&o, &self.free_blocks@[o])));
                    let i = choose|i: int| 0 <= i < s.len() && s[i] == (&o, &self.free_blocks@[o]);
                    assert(s[i].1.size < size);
                }
            } else {
                let o = found->0;
                assert(self.free_blocks@.contains_key(o));
            }
        }
        found
    }

    /// Takes `size` units from the front of some free block large enough.
    pub fn allocate(&mut self, size: usize) -> (r: Result<usize, &'static str>)
        requires
            old(self).wf(),
        ensures
            final(self).wf(),
            final(self).arena_size() == old(self).arena_size(),
            r is Err <==> !vm_has_fit(old(self).free_map(), size),
            r is Err ==> r == Err::<usize, &'static str>("No free space"),
            r is Err ==> final(self).free_map() == old(self).free_map() && final(self).used_map() == old(self).used_map(),
            r matches Ok(o) ==> {
                &&& old(self).free_map().contains_key(o)
                &&& old(self).free_map()[o].size >= size
                &&& final(self).free_map() == vm_split_free(old(self).free_map(), o, size)
                &&& final(self).used_map() == vm_claim_used(old(self).used_map(), old(self).free_map(), o, size)
            },
            old(self).tiles() && size > 0 ==> final(self).tiles(),
    {
        let available_slot = self.find_fit(size);
        let offset = self.alloc_slot(available_slot, size)?;
        Ok(offset)
    }

    /// Takes `size` units from the front of the free block at `available_slot`.
    pub fn alloc_slot(&mut self, available_slot: Option<usize>, size: usize) -> (r: Result<usize, &'static str>)
        requires
            old(self).wf(),
            available_slot matches Some(o) ==> old(self).free_map().contains_key(o) && old(self).free_map()[o].size >= size,
        ensures
            final(self).wf(),
            final(self).arena_size() == old(self).arena_size(),
            r is Err <==> available_slot is None,
            r is Err ==> r == Err::<usize, &'static str>("No free space"),
            r is Err ==> final(self).free_map() == old(self).free_map() && final(self).used_map() == old(self).used_map(),
            r matches Ok(o) ==> {
                &&& available_slot == Some(o)
                &&& final(self).free_map() == vm_split_free(old(self).free_map(), o, size)
                &&& final(self).used_map() == vm_claim_used(old(self).used_map(), old(self).free_map(), o, size)
            },
            old(self).tiles() && size > 0 && available_slot is Some ==> final(self).tiles(),
    {
        let offset = match available_slot {
            Some(o) => o,
            None => {
                return Err("No free space");
            },
        };
        let ghost free0 = self.free_blocks@;
        let ghost used0 = self.allocated_blocks@;
        let mut slot = self.free_blocks.remove(&offset).unwrap();

        let leftover = slot.size - size;
        slot.size = size;
        self.allocated_blocks.insert(offset, slot);

        let next_slot_prev_free = if leftover != 0 {
            let next_free = VirtualMemSlot { size: leftover, prev_free: None };
            self.free_blocks.insert(offset + size, next_free);
            Some(offset + size)
        } else {
            None
        };

        match self.allocated_blocks.get(&(offset + size)) {
            Some(next_free) => {
                let mut next_free = *next_free;
                next_free.prev_free = next_slot_prev_free;
                self.allocated_blocks.insert(offset + size, next_free);
            },
            None => {},
        }
        proof {
            assert(self.free_blocks@ =~= vm_split_free(free0, offset, size));
            assert(self.allocated_blocks@ =~= vm_claim_used(used0, free0, offset, size));
            lemma_vm_claim_bounds(free0, used0, offset, size);
            if vm_tiles(free0, used0, self.size as int) && size > 0 {
                lemma_vm_claim_tiles(free0, used0, self.size as int, offset, size);
            }
        }
        Ok(offset)
    }

    /// Frees the used block at `offset`; it absorbs the free block that follows
    /// it, if any.
    pub fn free(&mut self, offset: usize)
        requires
            old(self).wf(),
            old(self).used_map().contains_key(offset),
        ensures
            final(self).wf(),
            final(self).arena_size() == old(self).arena_size(),
            final(self).free_map() == vm_release_free(old(self).free_map(), old(self).used_map(), offset),
            final(self).used_map() == old(self).used_map().remove(offset),
            old(self).tiles() ==> final(self).tiles(),
    {
        let ghost free0 = self.free_blocks@;
        let ghost used0 = self.allocated_blocks@;
        let mut slot = self.allocated_blocks.remove(&offset).unwrap();
        let next_slot = self.free_blocks.remove(&(offset + slot.size));
        let next_size = match next_slot {
            Some(s) => s.size,
            None => 0,
        };
        slot.size = slot.size + next_size;
        let prev_free = match slot.prev_free.take() {
            Some(p) => p,
            None => offset,
        };
        self.free_blocks.insert(prev_free, slot);
        proof {
            assert(self.free_blocks@ =~= vm_release_free(free0, used0, offset));
            lemma_vm_release_bounds(free0, used0, offset);
            if vm_tiles(free0, used0, self.size as int) {
                lemma_vm_release_tiles(free0, used0, self.size as int, offset);
            }
        }
    }
}

proof fn lemma_vm_claim_bounds(free: Map<usize, VirtualMemSlot>, used: Map<usize, VirtualMemSlot>, o: usize, req: usize)
    requires
        vm_in_bounds(free, used),
        free.contains_key(o),
        free[o].size >= req,
    ensures
        vm_in_bounds(vm_split_free(free, o, req), vm_claim_used(used, free, o, req)),
{
    let f2 = vm_split_free(free, o, req);
    let u2 = vm_claim_used(used, free, o, req);
    let nx = (o + req) as usize;
    assert forall|k: usize| #[trigger] f2.contains_key(k) implies k + f2[k].size <= usize::MAX && f2[k].prev_free is None by {
        if !(k == nx && free[o].size - req != 0) {
            assert(free.contains_key(k));
        }
    }
    assert forall|k: usize| #[trigger] u2.contains_key(k) implies k + u2[k].size <= usize::MAX && (u2[k].prev_free is None || u2[k].prev_free == Some(k)) by {
        if k != o {
            assert(used.contains_key(k));
        }
    }
}

proof fn lemma_vm_release_bounds(free: Map<usize, VirtualMemSlot>, used: Map<usize, VirtualMemSlot>, a: usize)
    requires
        vm_in_bounds(free, used),
        used.contains_key(a),
    ensures
        vm_in_bounds(vm_release_free(free, used, a), used.remove(a)),
{
    let f2 = vm_release_free(free, used, a);
    let s = used[a];
    let nx = (a + s.size) as usize;
    assert forall|k: usize| #[trigger] f2.contains_key(k) implies k + f2[k].size <= usize::MAX && f2[k].prev_free is None by {
        if k != a {
            assert(free.contains_key(k));
        }
    }
}

proof fn lemma_vm_claim_tiles(free: Map<usize, VirtualMemSlot>, used: Map<usize, VirtualMemSlot>, size: int, o: usize, req: usize)
    requires
        vm_tiles(free, used, size),
        free.contains_key(o),
        free[o].size >= req,
        req > 0,
    ensures
        vm_tiles(vm_split_free(free, o, req), vm_claim_used(used, free, o, req), size),
{
    lemma_vm_claim_bounds(free, used, o, req);
    let f2 = vm_split_free(free, o, req);
    let u2 = vm_claim_used(used, free, o, req);
    let s = free[o].size;
    let left = (s - req) as usize;
    let nx = (o + req) as usize;
    let used1 = used.insert(o, VirtualMemSlot { size: req, prev_free: free[o].prev_free });
    assert(!used.contains_key(o)) by {
        if used.contains_key(o) {
            assert(vm_disjoint(o as int, s as int, o as int, used[o].size as int));
        }
    }
    // the used block that would follow the new one is only there when the free block is used up
    assert(left != 0 ==> !used1.contains_key(nx)) by {
        if left != 0 && used1.contains_key(nx) {
            assert(used.contains_key(nx));
            assert(vm_disjoint(o as int, s as int, nx as int, used[nx].size as int));
        }
    }
    assert(left != 0 ==> !free.contains_key(nx) || nx == o) by {
        if left != 0 && free.contains_key(nx) && nx != o {
            assert(vm_disjoint(o as int, s as int, nx as int, free[nx].size as int));
        }
    }
    assert forall|k: usize| #[trigger] free.contains_key(k) && k != o implies k + free[k].size <= o || o + s <= k by {
        assert(vm_disjoint(o as int, s as int, k as int, free[k].size as int));
    }
    assert forall|b: usize| #[trigger] used.contains_key(b) implies b + used[b].size <= o || o + s <= b by {
        assert(vm_disjoint(o as int, s as int, b as int, used[b].size as int));
    }
    assert forall|k: usize| #[trigger] f2.contains_key(k) implies f2[k].size > 0 && k + f2[k].size <= size by {
        if !(left != 0 && k == nx) {
            assert(free.contains_key(k));
        }
    }
    assert forall|k: usize| #[trigger] u2.contains_key(k) implies u2[k].size > 0 && k + u2[k].size <= size && u2[k].prev_free is None by {
        if k != o {
            assert(used.contains_key(k));
        }
    }
    assert forall|x: usize, y: usize|
        #![trigger f2.contains_key(x), f2.contains_key(y)]
        f2.contains_key(x) && f2.contains_key(y) && x != y implies vm_disjoint(x as int, f2[x].size as int, y as int, f2[y].size as int) by {
        if !(left != 0 && x == nx) {
            assert(free.contains_key(x));
        }
        if !(left != 0 && y == nx) {
            assert(free.contains_key(y));
        }
    }
    assert forall|x: usize, y: usize|
        #![trigger u2.contains_key(x), u2.contains_key(y)]
        u2.contains_key(x) && u2.contains_key(y) && x != y implies vm_disjoint(x as int, u2[x].size as int, y as int, u2[y].size as int) by {
        if x != o {
            assert(used.contains_key(x));
        }
        if y != o {
            assert(used.contains_key(y));
        }
    }
    assert forall|x: usize, y: usize|
        #![trigger f2.contains_key(x), u2.contains_key(y)]
        f2.contains_key(x) && u2.contains_key(y) implies vm_disjoint(x as int, f2[x].size as int, y as int, u2[y].size as int) by {
        if !(left != 0 && x == nx) {
            assert(free.contains_key(x));
        }
        if y != o {
            assert(used.contains_key(y));
        }
    }
    let w = vm_weight();
    lemma_map_weight_remove(free, o, w);
    if left != 0 {
        lemma_map_weight_insert(free.remove(o), nx, VirtualMemSlot { size: left, prev_free: None }, w);
    }
    lemma_map_weight_insert(used, o, VirtualMemSlot { size: req, prev_free: free[o].prev_free }, w);
    assert(used.remove(o) =~= used);
    if used1.contains_key(nx) {
        lemma_map_weight_remove(used1, nx, w);
        lemma_map_weight_insert(used1, nx, VirtualMemSlot { size: used1[nx].size, prev_free: None }, w);
    }
}

proof fn lemma_vm_release_tiles(free: Map<usize, VirtualMemSlot>, used: Map<usize, VirtualMemSlot>, size: int, a: usize)
    requires
        vm_tiles(free, used, size),
        used.contains_key(a),
    ensures
        vm_tiles(vm_release_free(free, used, a), used.remove(a), size),
{
    lemma_vm_release_bounds(free, used, a);
    let f2 = vm_release_free(free, used, a);
    let u2 = used.remove(a);
    let s = used[a].size;
    let nx = (a + s) as usize;
    let has_next = free.contains_key(nx);
    let m = if has_next { (s + free[nx].size) as usize } else { s };
    assert(!free.contains_key(a)) by {
        if free.contains_key(a) {
            assert(vm_disjoint(a as int, free[a].size as int, a as int, s as int));
        }
    }
    assert(nx != a);
    assert(f2[a].size == m);
    assert forall|k: usize| #[trigger] free.contains_key(k) && k != nx implies k + free[k].size <= a || a + m <= k by {
        assert(vm_disjoint(k as int, free[k].size as int, a as int, s as int));
        if has_next {
            assert(vm_disjoint(k as int, free[k].size as int, nx as int, free[nx].size as int));
        }
    }
    assert forall|b: usize| #[trigger] used.contains_key(b) && b != a implies b + used[b].size <= a || a + m <= b by {
        assert(vm_disjoint(b as int, used[b].size as int, a as int, s as int));
        if has_next {
            assert(vm_disjoint(nx as int, free[nx].size as int, b as int, used[b].size as int));
        }
    }
    assert forall|k: usize| #[trigger] f2.contains_key(k) implies f2[k].size > 0 && k + f2[k].size <= size by {
        if k != a {
            assert(free.contains_key(k));
        }
    }
    assert forall|x: usize, y: usize|
        #![trigger f2.contains_key(x), f2.contains_key(y)]
        f2.contains_key(x) && f2.contains_key(y) && x != y implies vm_disjoint(x as int, f2[x].size as int, y as int, f2[y].size as int) by {
        if x != a {
            assert(free.contains_key(x));
        }
        if y != a {
            assert(free.contains_key(y));
        }
    }
    assert forall|x: usize, y: usize|
        #![trigger f2.contains_key(x), u2.contains_key(y)]
        f2.contains_key(x) && u2.contains_key(y) implies vm_disjoint(x as int, f2[x].size as int, y as int, u2[y].size as int) by {
        if x != a {
            assert(free.contains_key(x));
        }
        assert(used.contains_key(y));
    }
    let w = vm_weight();
    lemma_map_weight_remove(used, a, w);
    if has_next {
        lemma_map_weight_remove(free, nx, w);
    } else {
        assert(free.remove(nx) =~= free);
    }
    lemma_map_weight_insert(free.remove(nx), a, VirtualMemSlot { size: m, prev_free: None }, w);
    assert(free.remove(nx).remove(a) =~= free.remove(nx));
}

impl MemBlock for VirtualMemSlot {
    open spec fn block_size(&self) -> usize {
        self.size
    }

    fn size_of_block(&self) -> (r: usize) {
        self.size
    }
}

/// Whether the memory bar of an arena of `size` can be drawn for the free
/// blocks `slots`: the arena is at least half a kibibyte, the blocks come in
/// order, end within the address space, and the bar does not run past the
/// arena.
pub open spec fn vm_bar_accepts(size: usize, slots: Seq<DebugFmtMemSlot>) -> bool {
    let res = bar_resolution(size);
    &&& size >= KIB / 2
    &&& bar_walk_ok(slots, res)
    &&& slots_in_range(slots)
    &&& bar_end(slots, res) <= size as nat / res
}

/// The memory bar of an arena of `size`: `#` for the space before each free
/// block, `_` over it, in rows, then `*` up to the end of the arena.
pub open spec fn vm_bar_text(size: usize, slots: Seq<DebugFmtMemSlot>) -> Seq<char> {
    let res = bar_resolution(size);
    bar_chars(slots, res, bar_row_size(size), '_') + Seq::new(
        (size as nat / res - bar_end(slots, res)) as nat,
        |i: int| '*',
    )
}

/// The usage summary of an arena of `size` units with `used` units in
/// `n_used` used blocks and `n_free` free blocks: each count right-aligned on
/// six characters, with the average size of a used and of a free block,
/// then the memory bar `bar`.
pub open spec fn vm_summary_text(size: usize, used: nat, n_used: nat, n_free: nat, bar: Seq<char>) -> Seq<char> {
    let used_div = if n_used > 1 { n_used } else { 1 };
    let free_div = if n_free > 1 { n_free } else { 1 };
    "~used: "@ + num6(used) + " / "@ + num6(size as nat) + "\nalloc: "@ + num6(n_used) + " ~avg: "@
        + num6(used / used_div) + "\nfree:  "@ + num6(n_free) + " ~avg: "@ + num6(
        (size - used) as nat / free_div,
    ) + "\n"@ + bar
}

impl VirtualMemAlloc {
    pub fn used_count(&self) -> (r: usize)
        ensures
            r == self.used_map().len(),
    {
        self.allocated_blocks.len()
    }

    pub fn free_count(&self) -> (r: usize)
        ensures
            r == self.free_map().len(),
    {
        self.free_blocks.len()
    }

    /// The bytes in use, or `None` where their sum does not fit a `usize`.
    pub fn used_bytes(&self) -> (r: Option<usize>)
        ensures
            r is Some <==> vm_size_sum(self.used_map()) <= usize::MAX,
            r matches Some(n) ==> n == vm_size_sum(self.used_map()),
    {
        proof {
            assert(vm_weight() =~= block_weight::<VirtualMemSlot>());
        }
        checked_block_sizes(&self.allocated_blocks)
    }

    /// The characters of the memory bar of the arena, the free blocks taken by
    /// offset; `None` where it cannot be drawn.
    fn bar_text(&self) -> (r: Option<Vec<char>>)
        ensures
            exists|slots: Seq<DebugFmtMemSlot>|
                {
                    &&& #[trigger] lists_sizes(slots, block_sizes(self.free_map()))
                    &&& (r is Some <==> vm_bar_accepts(self.arena_size(), slots))
                    &&& (r matches Some(t) ==> t@ == vm_bar_text(self.arena_size(), slots))
                },
    {
        let slots = free_block_listing(&self.free_blocks);
        proof {
            assert(lists_sizes(slots@, block_sizes(self.free_map())));
        }
        if self.size < KIB / 2 {
            return None;
        }
        let resolution = self.size / (KIB / 2);
        proof {
            assert(self.size / resolution >= 512) by (nonlinear_arith)
                requires
                    resolution == self.size / 512,
                    self.size >= 512,
            ;
        }
        let row_size = (self.size / resolution) / ROWS;
        let end = match bar_reach(slots.as_slice(), resolution) {
            Some(e) => e,
            None => {
                return None;
            },
        };
        let bar_len = self.size / resolution;
        if end > bar_len {
            return None;
        }
        let (mut mem_bar, _reached) = draw_bar(slots.as_slice(), resolution, row_size, '_');
        let ghost head = mem_bar@;
        let mut i = end;
        while i < bar_len
            invariant
                end <= i <= bar_len,
                mem_bar@ == head + Seq::new((i - end) as nat, |j: int| '*'),
            decreases bar_len - i,
        {
            mem_bar.push('*');
            i += 1;
            proof {
                assert(Seq::new((i - end) as nat, |j: int| '*') =~= Seq::new(
                    (i - 1 - end) as nat,
                    |j: int| '*',
                ).push('*'));
            }
        }
        proof {
            assert(mem_bar@ =~= vm_bar_text(self.size, slots@));
        }
        Some(mem_bar)
    }

    /// The memory bar of the arena, the free blocks taken by offset; `None`
    /// where it cannot be drawn.
    pub fn memory_bar(&self) -> (r: Option<String>)
        ensures
            exists|slots: Seq<DebugFmtMemSlot>|
                {
                    &&& #[trigger] lists_sizes(slots, block_sizes(self.free_map()))
                    &&& (r is Some <==> vm_bar_accepts(self.arena_size(), slots))
                    &&& (r matches Some(t) ==> t@ == vm_bar_text(self.arena_size(), slots))
                },
    {
        match self.bar_text() {
            Some(bar) => Some(string_from_chars(&bar)),
            None => None,
        }
    }

    /// The usage summary of the arena, byte counts as plain numbers, followed
    /// by its memory bar; `None` where the bar cannot be drawn or the used
    /// bytes add up to more than the arena.
    pub fn debug_text(&self) -> (r: Option<String>)
        ensures
            exists|slots: Seq<DebugFmtMemSlot>|
                {
                    &&& #[trigger] lists_sizes(slots, block_sizes(self.free_map()))
                    &&& (r is Some <==> vm_bar_accepts(self.arena_size(), slots) && vm_size_sum(
                        self.used_map(),
                    ) <= self.arena_size())
                    &&& (r matches Some(t) ==> t@ == vm_summary_text(
                        self.arena_size(),
                        vm_size_sum(self.used_map()),
                        self.used_map().len(),
                        self.free_map().len(),
                        vm_bar_text(self.arena_size(), slots),
                    ))
                },
    {
        let bar = self.bar_text();
        let ghost slots = choose|slots: Seq<DebugFmtMemSlot>|
            {
                &&& #[trigger] lists_sizes(slots, block_sizes(self.free_map()))
                &&& (bar is Some <==> vm_bar_accepts(self.arena_size(), slots))
                &&& (bar matches Some(t) ==> t@ == vm_bar_text(self.arena_size(), slots))
            };
        let bar = match bar {
            Some(b) => b,
            None => {
                return None;
            },
        };
        let used = match self.used_bytes() {
            Some(u) => u,
            None => {
                return None;
            },
        };
        if used > self.size {
            return None;
        }
        let allocated = self.used_count();
        let free = self.free_count();
        let alloc_div = if allocated > 1 {
            allocated
        } else {
            1
        };
        let free_div = if free > 1 {
            free
        } else {
            1
        };
        let mut out: Vec<char> = Vec::new();
        push_str(&mut out, "~used: ");
        push_num6(&mut out, used);
        push_str(&mut out, " / ");
        push_num6(&mut out, self.size);
        push_str(&mut out, "\nalloc: ");
        push_num6(&mut out, allocated);
        push_str(&mut out, " ~avg: ");
        push_num6(&mut out, used / alloc_div);
        push_str(&mut out, "\nfree:  ");
        push_num6(&mut out, free);
        push_str(&mut out, " ~avg: ");
        push_num6(&mut out, (self.size - used) / free_div);
        push_str(&mut out, "\n");
        let ghost head = out@;
        for i in 0..bar.len()
            invariant
                out@ == head + bar@.take(i as int),
        {
            out.push(bar[i]);
            proof {
                assert(bar@.take(i + 1) =~= bar@.take(i as int).push(bar@[i as int]));
            }
        }
        proof {
            assert(bar@.take(bar.len() as int) =~= bar@);
            assert(out@ =~= vm_summary_text(
                self.arena_size(),
                vm_size_sum(self.used_map()),
                self.used_map().len(),
                self.free_map().len(),
                vm_bar_text(self.arena_size(), slots),
            ));
        }
        Some(string_from_chars(&out))
    }
}

} // verus!
