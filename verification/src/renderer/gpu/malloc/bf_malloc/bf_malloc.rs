use crate::renderer::gpu::malloc::bf_malloc::types::{MemSlot, MemSlotKey};
use crate::renderer::gpu::malloc::common::{
    lemma_map_weight_insert, lemma_map_weight_remove, lemma_map_weight_submap, malloc_fmt_accepts,
    malloc_fmt_checked, malloc_text, map_weight, DebugFmtMemSlot,
};
use crate::renderer::gpu::malloc::common::sort_by_offset;
use crate::renderer::gpu::malloc::virtual_malloc::MallocError;
use std::collections::BTreeMap;
use vstd::prelude::*;
use vstd::std_specs::iter::IteratorSpec;

verus! {

/// `a` comes before `b` in the order of keys: by size, then by id.
pub open spec fn key_before(a: (usize, usize), b: (usize, usize)) -> bool {
    a.0 < b.0 || (a.0 == b.0 && a.1 < b.1)
}

/// `k` is the first key of `free` whose block holds at least `size` units.
pub open spec fn best_fit_key(free: Map<(usize, usize), MemSlot>, size: usize, k: (usize, usize)) -> bool {
    &&& free.contains_key(k)
    &&& k.0 >= size
    &&& forall|k2: (usize, usize)| #[trigger] free.contains_key(k2) && k2.0 >= size ==> !key_before(k2, k)
}

/// Some block of `free` holds at least `size` units.
pub open spec fn bf_has_fit(free: Map<(usize, usize), MemSlot>, size: usize) -> bool {
    exists|k: (usize, usize)| #[trigger] free.contains_key(k) && k.0 >= size
}

/// A key weighs the size it names.
pub open spec fn key_weight() -> spec_fn((usize, usize), MemSlot) -> nat {
    |k: (usize, usize), s: MemSlot| k.0 as nat
}

/// The sum of the sizes named by the keys of `m`.
pub open spec fn key_size_sum(m: Map<(usize, usize), MemSlot>) -> nat {
    map_weight(m, key_weight())
}

/// The blocks of the keys `ka` and `kb`, `[offset, offset + size)`, start at
/// different offsets and do not overlap.
pub open spec fn bf_apart(ka: (usize, usize), a: MemSlot, kb: (usize, usize), b: MemSlot) -> bool {
    &&& a.offset != b.offset
    &&& a.offset + ka.0 <= b.offset || b.offset + kb.0 <= a.offset
}

/// No two blocks, free or used, start at the same offset or overlap.
pub open spec fn bf_separated(free: Map<(usize, usize), MemSlot>, used: Map<(usize, usize), MemSlot>) -> bool {
    &&& forall|a: (usize, usize), b: (usize, usize)|
        #![trigger free.contains_key(a), free.contains_key(b)]
        free.contains_key(a) && free.contains_key(b) && a != b ==> bf_apart(a, free[a], b, free[b])
    &&& forall|a: (usize, usize), b: (usize, usize)|
        #![trigger used.contains_key(a), used.contains_key(b)]
        used.contains_key(a) && used.contains_key(b) && a != b ==> bf_apart(a, used[a], b, used[b])
    &&& forall|a: (usize, usize), b: (usize, usize)|
        #![trigger free.contains_key(a), used.contains_key(b)]
        free.contains_key(a) && used.contains_key(b) ==> bf_apart(a, free[a], b, used[b])
}

/// `by_offset` holds each free block under its offset, and nothing else.
pub open spec fn bf_mirrored(free: Map<(usize, usize), MemSlot>, by_offset: Map<usize, MemSlot>) -> bool {
    &&& forall|k: (usize, usize)|
        #[trigger] free.contains_key(k) ==> by_offset.contains_key(free[k].offset) && by_offset[free[k].offset]
            == free[k]
    &&& forall|o: usize|
        #[trigger] by_offset.contains_key(o) ==> exists|k: (usize, usize)|
            #[trigger] free.contains_key(k) && free[k].offset == o
}

/// Taking `size > 0` units from the front of the free block `k` keeps the
/// blocks apart and the offset index in step with the free blocks.
proof fn lemma_bf_take_layout(
    free: Map<(usize, usize), MemSlot>,
    used: Map<(usize, usize), MemSlot>,
    by_offset: Map<usize, MemSlot>,
    k: (usize, usize),
    size: usize,
    rest_key: (usize, usize),
    used_key: (usize, usize),
)
    requires
        bf_separated(free, used),
        bf_mirrored(free, by_offset),
        free.contains_key(k),
        k.0 >= size,
        size > 0,
        free[k].offset + k.0 <= usize::MAX,
        rest_key.0 == k.0 - size,
        used_key.0 == size,
        rest_key != used_key,
        !free.contains_key(rest_key),
        !used.contains_key(rest_key),
        !free.contains_key(used_key),
        !used.contains_key(used_key),
    ensures
        ({
            let slot = free[k];
            let rest = MemSlot { offset: (slot.offset + size) as usize, owner_index: None };
            let free1 = if k.0 - size > 0 {
                free.remove(k).insert(rest_key, rest)
            } else {
                free.remove(k)
            };
            let by1 = if k.0 - size > 0 {
                by_offset.remove(slot.offset).insert(rest.offset, rest)
            } else {
                by_offset.remove(slot.offset)
            };
            let used1 = used.insert(used_key, slot);
            bf_separated(free1, used1) && bf_mirrored(free1, by1)
        }),
{
    let slot = free[k];
    let left = k.0 - size;
    let rest = MemSlot { offset: (slot.offset + size) as usize, owner_index: None };
    let free1 = if left > 0 {
        free.remove(k).insert(rest_key, rest)
    } else {
        free.remove(k)
    };
    let by1 = if left > 0 {
        by_offset.remove(slot.offset).insert(rest.offset, rest)
    } else {
        by_offset.remove(slot.offset)
    };
    let used1 = used.insert(used_key, slot);
    // every block but `k` lies outside `[slot.offset, slot.offset + k.0)`
    assert forall|a: (usize, usize)| #[trigger] free1.contains_key(a) implies a == rest_key && left > 0 || (
    free.contains_key(a) && a != k && bf_apart(a, free[a], k, slot)) by {
        if !(a == rest_key && left > 0) {
            assert(free.contains_key(a) && a != k);
        }
    }
    assert forall|a: (usize, usize)| #[trigger] used1.contains_key(a) implies a == used_key || (used.contains_key(
        a,
    ) && bf_apart(k, slot, a, used[a])) by {
    }
    assert forall|a: (usize, usize), b: (usize, usize)|
        #![trigger free1.contains_key(a), free1.contains_key(b)]
        free1.contains_key(a) && free1.contains_key(b) && a != b implies bf_apart(a, free1[a], b, free1[b]) by {
        if free.contains_key(a) && a != k && free.contains_key(b) && b != k {
            assert(bf_apart(a, free[a], b, free[b]));
        }
    }
    assert forall|a: (usize, usize), b: (usize, usize)|
        #![trigger used1.contains_key(a), used1.contains_key(b)]
        used1.contains_key(a) && used1.contains_key(b) && a != b implies bf_apart(a, used1[a], b, used1[b]) by {
        if used.contains_key(a) && used.contains_key(b) {
            assert(bf_apart(a, used[a], b, used[b]));
        }
    }
    assert forall|a: (usize, usize), b: (usize, usize)|
        #![trigger free1.contains_key(a), used1.contains_key(b)]
        free1.contains_key(a) && used1.contains_key(b) implies bf_apart(a, free1[a], b, used1[b]) by {
        if free.contains_key(a) && a != k && used.contains_key(b) {
            assert(bf_apart(a, free[a], b, used[b]));
        }
    }
    assert forall|a: (usize, usize)| #[trigger] free1.contains_key(a) implies by1.contains_key(free1[a].offset)
        && by1[free1[a].offset] == free1[a] by {
        if free.contains_key(a) && a != k {
            assert(by_offset.contains_key(free[a].offset));
        }
    }
    assert forall|o: usize| #[trigger] by1.contains_key(o) implies exists|a: (usize, usize)|
        #[trigger] free1.contains_key(a) && free1[a].offset == o by {
        if !(left > 0 && o == rest.offset) {
            assert(by_offset.contains_key(o) && o != slot.offset);
            let a = choose|a: (usize, usize)| #[trigger] free.contains_key(a) && free[a].offset == o;
            assert(a != k);
            assert(free1.contains_key(a));
        } else {
            assert(free1.contains_key(rest_key));
        }
    }
}

/// Freeing the used block `key` keeps the blocks apart and the offset index
/// in step with the free blocks.
proof fn lemma_bf_release_layout(
    free: Map<(usize, usize), MemSlot>,
    used: Map<(usize, usize), MemSlot>,
    by_offset: Map<usize, MemSlot>,
    key: (usize, usize),
    owner: Option<usize>,
)
    requires
        bf_separated(free, used),
        bf_mirrored(free, by_offset),
        used.contains_key(key),
        !free.contains_key(key),
    ensures
        ({
            let slot = MemSlot { owner_index: owner, ..used[key] };
            bf_separated(free.insert(key, slot), used.remove(key)) && bf_mirrored(
                free.insert(key, slot),
                by_offset.insert(slot.offset, slot),
            )
        }),
{
    let slot = MemSlot { owner_index: owner, ..used[key] };
    let free1 = free.insert(key, slot);
    let used1 = used.remove(key);
    let by1 = by_offset.insert(slot.offset, slot);
    assert forall|a: (usize, usize), b: (usize, usize)|
        #![trigger free1.contains_key(a), free1.contains_key(b)]
        free1.contains_key(a) && free1.contains_key(b) && a != b implies bf_apart(a, free1[a], b, free1[b]) by {
        if a == key {
            assert(bf_apart(b, free[b], key, used[key]));
        } else if b == key {
            assert(bf_apart(a, free[a], key, used[key]));
        } else {
            assert(bf_apart(a, free[a], b, free[b]));
        }
    }
    assert forall|a: (usize, usize), b: (usize, usize)|
        #![trigger used1.contains_key(a), used1.contains_key(b)]
        used1.contains_key(a) && used1.contains_key(b) && a != b implies bf_apart(a, used1[a], b, used1[b]) by {
        assert(used.contains_key(a) && used.contains_key(b));
    }
    assert forall|a: (usize, usize), b: (usize, usize)|
        #![trigger free1.contains_key(a), used1.contains_key(b)]
        free1.contains_key(a) && used1.contains_key(b) implies bf_apart(a, free1[a], b, used1[b]) by {
        assert(used.contains_key(b) && b != key);
        if a == key {
            assert(bf_apart(key, used[key], b, used[b]));
        } else {
            assert(bf_apart(a, free[a], b, used[b]));
        }
    }
    assert forall|a: (usize, usize)| #[trigger] free1.contains_key(a) implies by1.contains_key(free1[a].offset)
        && by1[free1[a].offset] == free1[a] by {
        if a != key {
            assert(bf_apart(a, free[a], key, used[key]));
            assert(by_offset.contains_key(free[a].offset));
        }
    }
    assert forall|o: usize| #[trigger] by1.contains_key(o) implies exists|a: (usize, usize)|
        #[trigger] free1.contains_key(a) && free1[a].offset == o by {
        if o != slot.offset {
            let a = choose|a: (usize, usize)| #[trigger] free.contains_key(a) && free[a].offset == o;
            assert(free1.contains_key(a) && a != key);
        } else {
            assert(free1.contains_key(key));
        }
    }
}

/// A best-fit allocator: free blocks are ordered by (size, id), and an
/// allocation takes the front of the first free block large enough, that is of
/// the smallest one. Freed blocks are not merged.
pub struct VMallocBestFit {
    pub arena_size: usize,
    pub arena_offset: usize,
    pub free_blocks: BTreeMap<(usize, usize), MemSlot>,
    pub free_blocks_by_offset: BTreeMap<usize, MemSlot>,
    pub used_blocks: BTreeMap<(usize, usize), MemSlot>,
    pub id_counter: usize,
}

impl VMallocBestFit {
    /// The next id to hand out.
    pub open spec fn next_id_view(&self) -> usize {
        self.id_counter
    }

    /// Every block ends inside the address space, every id was handed out, and
    /// no key is both free and used.
    pub open spec fn wf(&self) -> bool {
        &&& forall|k: (usize, usize)|
            #[trigger] self.free_blocks@.contains_key(k) ==> self.free_blocks@[k].offset + k.0 <= usize::MAX
                && k.1 < self.next_id_view()
        &&& forall|k: (usize, usize)|
            #[trigger] self.used_blocks@.contains_key(k) ==> self.used_blocks@[k].offset + k.0 <= usize::MAX
                && k.1 < self.next_id_view()
        &&& forall|k: (usize, usize)|
            !(#[trigger] self.free_blocks@.contains_key(k) && self.used_blocks@.contains_key(k))
        &&& self.free_blocks@.dom().finite()
        &&& self.used_blocks@.dom().finite()
    }

    /// No two blocks start at the same offset or overlap, and
    /// `free_blocks_by_offset` holds each free block under its offset, and
    /// nothing else.
    pub open spec fn laid_out(&self) -> bool {
        &&& bf_separated(self.free_blocks@, self.used_blocks@)
        &&& bf_mirrored(self.free_blocks@, self.free_blocks_by_offset@)
    }

    /// The sizes of the free and the used blocks add up to the arena's.
    pub open spec fn conserves(&self) -> bool {
        key_size_sum(self.free_blocks@) + key_size_sum(self.used_blocks@) == self.arena_size - self.arena_offset
    }

    /// The arena `[arena_offset, arena_size)` (here `arena_size` is its end) starts
    /// as one free block of id 0.
    pub fn new(arena_size: usize, arena_offset: usize) -> (r: Self)
        requires
            arena_offset <= arena_size,
        ensures
            r.wf(),
            r.conserves(),
            r.laid_out(),
            r.arena_size == arena_size,
            r.arena_offset == arena_offset,
            r.next_id_view() == 1,
            r.free_blocks@ == map![((arena_size - arena_offset) as usize, 0usize) => MemSlot { offset: arena_offset, owner_index: None }],
            r.free_blocks_by_offset@ == map![arena_offset => MemSlot { offset: arena_offset, owner_index: None }],
            r.used_blocks@ == Map::<(usize, usize), MemSlot>::empty(),
    {
        let initial_slot_key = MemSlotKey { size: arena_size - arena_offset, id: 0 };
        let initial_slot = MemSlot { offset: arena_offset, owner_index: None };
        let mut free_blocks = BTreeMap::new();
        free_blocks.insert((initial_slot_key.size, initial_slot_key.id), initial_slot.clone());
        let mut free_blocks_by_offset = BTreeMap::new();
        free_blocks_by_offset.insert(arena_offset, initial_slot);
        let r = Self {
            arena_size,
            arena_offset,
            free_blocks,
            free_blocks_by_offset,
            used_blocks: BTreeMap::new(),
            id_counter: 1,
        };
        proof {
            let k0 = (initial_slot_key.size, initial_slot_key.id);
            assert(r.free_blocks@ =~= map![k0 => initial_slot]);
            assert(r.free_blocks_by_offset@ =~= map![arena_offset => initial_slot]);
            lemma_map_weight_insert(Map::<(usize, usize), MemSlot>::empty(), k0, initial_slot, key_weight());
            assert(Map::<(usize, usize), MemSlot>::empty().remove(k0) =~= Map::<(usize, usize), MemSlot>::empty());
            assert(Map::<(usize, usize), MemSlot>::empty().insert(k0, initial_slot) =~= r.free_blocks@);
            assert(r.free_blocks@.contains_key(k0) && r.free_blocks@[k0].offset == arena_offset);
            assert(bf_mirrored(r.free_blocks@, r.free_blocks_by_offset@));
        }
        r
    }

    /// Hands out the next id.
    pub fn next_id(&mut self) -> (r: usize)
        requires
            old(self).next_id_view() < usize::MAX,
        ensures
            r == old(self).next_id_view(),
            final(self).next_id_view() == old(self).next_id_view() + 1,
            final(self).arena_size == old(self).arena_size,
            final(self).arena_offset == old(self).arena_offset,
            final(self).free_blocks@ == old(self).free_blocks@,
            final(self).free_blocks_by_offset@ == old(self).free_blocks_by_offset@,
            final(self).used_blocks@ == old(self).used_blocks@,
    {
        let id = self.id_counter;
        self.id_counter = self.id_counter + 1;
        id
    }

    /// The first key, in key order, of a free block holding at least `size`.
    fn first_fit_key(&self, size: usize) -> (r: Option<(usize, usize)>)
        ensures
            r is None <==> !bf_has_fit(self.free_blocks@, size),
            r matches Some(k) ==> best_fit_key(self.free_blocks@, size, k),
    {
        let iter = self.free_blocks.keys();
        let ghost s = iter.remaining();
        let mut best: Option<(usize, usize)> = None;
        let ghost mut scanned: int = 0;
        for k in it: iter
            invariant
                it.seq() == s,
                s.unref().to_set() == self.free_blocks@.dom(),
                scanned == it.index(),
                best matches Some(b) ==> self.free_blocks@.contains_key(b) && b.0 >= size,
                forall|i: int| 0 <= i < scanned && (#[trigger] s[i]).0 >= size ==> (best matches Some(b) && !key_before(*s[i], b)),
        {
            if k.0 >= size {
                match best {
                    None => {
                        best = Some(*k);
                    },
                    Some(b) => {
                        if k.0 < b.0 || (k.0 == b.0 && k.1 < b.1) {
                            best = Some(*k);
                        }
                    },
                }
            }
            proof {
                assert(s.unref()[scanned] == *s[scanned]);
                assert(s.unref().to_set().contains(*s[scanned]));
                scanned = scanned + 1;
            }
        }
        proof {
            assert forall|k2: (usize, usize)| #[trigger] self.free_blocks@.contains_key(k2) && k2.0 >= size implies (
            best matches Some(b) && !key_before(k2, b)) by {
                assert(s.unref().to_set().contains(k2));
                let i = choose|i: int| 0 <= i < s.len() && s.unref()[i] == k2;
                assert(*s[i] == k2);
            }
            if let Some(b) = best {
                assert(self.free_blocks@.contains_key(b));
            }
        }
        best
    }

    /// Takes `size` units from the front of the smallest free block that holds
    /// them (the first in key order); the rest of that block stays free under a
    /// new id, and the taken part is recorded as used under another new id.
    pub fn allocate(&mut self, size: usize) -> (r: Result<MemSlot, MallocError>)
        requires
            old(self).wf(),
            bf_has_fit(old(self).free_blocks@, size) ==> old(self).next_id_view() + 2 <= usize::MAX,
        ensures
            final(self).wf(),
            final(self).arena_size == old(self).arena_size,
            final(self).arena_offset == old(self).arena_offset,
            r is Err <==> !bf_has_fit(old(self).free_blocks@, size),
            r matches Err(e) ==> {
                &&& e == MallocError::OutOfMemory
                &&& final(self).free_blocks@ == old(self).free_blocks@
                &&& final(self).free_blocks_by_offset@ == old(self).free_blocks_by_offset@
                &&& final(self).used_blocks@ == old(self).used_blocks@
                &&& final(self).next_id_view() == old(self).next_id_view()
            },
            r matches Ok(slot) ==> exists|k: (usize, usize)| {
                let id = old(self).next_id_view();
                let left = (k.0 - size) as usize;
                let rest = MemSlot { offset: (slot.offset + size) as usize, owner_index: None };
                &&& #[trigger] best_fit_key(old(self).free_blocks@, size, k)
                &&& slot == old(self).free_blocks@[k]
                &&& final(self).next_id_view() == id + 2
                &&& final(self).free_blocks@ == if left > 0 {
                    old(self).free_blocks@.remove(k).insert((left, id), rest)
                } else {
                    old(self).free_blocks@.remove(k)
                }
                &&& final(self).free_blocks_by_offset@ == if left > 0 {
                    old(self).free_blocks_by_offset@.remove(slot.offset).insert(rest.offset, rest)
                } else {
                    old(self).free_blocks_by_offset@.remove(slot.offset)
                }
                &&& final(self).used_blocks@ == old(self).used_blocks@.insert((size, (id + 1) as usize), slot)
            },
            old(self).conserves() ==> final(self).conserves(),
            old(self).laid_out() && size > 0 ==> final(self).laid_out(),
    {
        let available_slot_opt = self.first_fit_key(size);
        let slot_key = match available_slot_opt {
            Some(k) => k,
            None => {
                return Err(MallocError::OutOfMemory);
            },
        };
        let ghost free0 = self.free_blocks@;
        let ghost used0 = self.used_blocks@;
        let ghost by0 = self.free_blocks_by_offset@;
        let ghost id0 = self.id_counter;
        let slot = self.free_blocks.remove(&slot_key).unwrap();
        let _ = self.free_blocks_by_offset.remove(&slot.offset);
        let leftover_key = MemSlotKey { size: slot_key.0 - size, id: self.next_id() };
        let leftover_slot = MemSlot { offset: slot.offset + size, owner_index: None };
        if leftover_key.size > 0 {
            self.free_blocks.insert((leftover_key.size, leftover_key.id), leftover_slot);
            self.free_blocks_by_offset.insert(leftover_slot.offset, leftover_slot);
        }
        let slot_key = MemSlotKey { size, id: self.next_id() };
        self.used_blocks.insert((slot_key.size, slot_key.id), slot);
        proof {
            let k = available_slot_opt->0;
            let left = (k.0 - size) as usize;
            let w = key_weight();
            assert(!used0.contains_key((size, (id0 + 1) as usize)));
            lemma_map_weight_remove(free0, k, w);
            if left > 0 {
                assert(!free0.remove(k).contains_key((left, id0)));
                lemma_map_weight_insert(free0.remove(k), (left, id0), leftover_slot, w);
                assert(free0.remove(k).remove((left, id0)) =~= free0.remove(k));
            }
            lemma_map_weight_insert(used0, (size, (id0 + 1) as usize), slot, w);
            assert(used0.remove((size, (id0 + 1) as usize)) =~= used0);
            assert(best_fit_key(free0, size, k));
            if bf_separated(free0, used0) && bf_mirrored(free0, by0) && size > 0 {
                lemma_bf_take_layout(free0, used0, by0, k, size, (left, id0), (size, (id0 + 1) as usize));
            }
        }
        Ok(slot)
    }

    /// Records the used block `slot_key` as free again, owned by `owner`.
    pub fn free(&mut self, slot_key: MemSlotKey, owner: Option<usize>) -> (r: Result<(), MallocError>)
        requires
            old(self).wf(),
            old(self).used_blocks@.contains_key(slot_key.pair()),
        ensures
            final(self).wf(),
            r is Ok,
            final(self).arena_size == old(self).arena_size,
            final(self).arena_offset == old(self).arena_offset,
            final(self).next_id_view() == old(self).next_id_view(),
            ({
                let slot = MemSlot { owner_index: owner, ..old(self).used_blocks@[slot_key.pair()] };
                &&& final(self).used_blocks@ == old(self).used_blocks@.remove(slot_key.pair())
                &&& final(self).free_blocks@ == old(self).free_blocks@.insert(slot_key.pair(), slot)
                &&& final(self).free_blocks_by_offset@ == old(self).free_blocks_by_offset@.insert(slot.offset, slot)
            }),
            old(self).conserves() ==> final(self).conserves(),
            old(self).laid_out() ==> final(self).laid_out(),
    {
        let ghost free0 = self.free_blocks@;
        let ghost used0 = self.used_blocks@;
        let ghost by0 = self.free_blocks_by_offset@;
        let key = (slot_key.size, slot_key.id);
        let mut slot = self.used_blocks.remove(&key).unwrap();
        slot.owner_index = owner;
        self.free_blocks.insert(key, slot);
        self.free_blocks_by_offset.insert(slot.offset, slot);
        proof {
            let w = key_weight();
            lemma_map_weight_remove(used0, key, w);
            lemma_map_weight_insert(free0, key, slot, w);
            assert(free0.remove(key) =~= free0);
            if bf_separated(free0, used0) && bf_mirrored(free0, by0) {
                lemma_bf_release_layout(free0, used0, by0, key, owner);
            }
        }
        Ok(())
    }

    pub fn total_free(&self) -> (r: usize)
        requires
            self.wf(),
            key_size_sum(self.free_blocks@) <= usize::MAX,
        ensures
            r == key_size_sum(self.free_blocks@),
    {
        sum_key_sizes(&self.free_blocks)
    }

    pub fn free_count(&self) -> (r: usize)
        ensures
            r == self.free_blocks@.len(),
    {
        self.free_blocks.len()
    }

    pub fn total_used(&self) -> (r: usize)
        requires
            self.wf(),
            key_size_sum(self.used_blocks@) <= usize::MAX,
        ensures
            r == key_size_sum(self.used_blocks@),
    {
        sum_key_sizes(&self.used_blocks)
    }

    pub fn used_count(&self) -> (r: usize)
        ensures
            r == self.used_blocks@.len(),
    {
        self.used_blocks.len()
    }
}

/// Sums the sizes named by the keys of `m`.
fn sum_key_sizes(m: &BTreeMap<(usize, usize), MemSlot>) -> (r: usize)
    requires
        m@.dom().finite(),
        key_size_sum(m@) <= usize::MAX,
    ensures
        r == key_size_sum(m@),
{
    let ghost w = key_weight();
    let iter = m.iter();
    let ghost s = iter.remaining();
    let ghost mut seen: Map<(usize, usize), MemSlot> = Map::empty();
    let mut total: usize = 0;
    for kv in it: iter
        invariant
            it.seq() == s,
            s.no_duplicates(),
            s.len() == m@.dom().len(),
            forall|i: int| 0 <= i < s.len() ==> m@.contains_key(*(#[trigger] s[i]).0) && m@[*s[i].0] == *s[i].1,
            forall|k: (usize, usize)| #[trigger] m@.contains_key(k) ==> s.contains((&k, &m@[k])),
            w == key_weight(),
            m@.dom().finite(),
            seen.dom().finite(),
            seen.submap_of(m@),
            seen.dom() == Set::new(|k: (usize, usize)| exists|j: int| 0 <= j < it.index() && *s[j].0 == k),
            total == map_weight(seen, w),
            key_size_sum(m@) <= usize::MAX,
    {
        let ghost k = *kv.0;
        proof {
            assert(!seen.contains_key(k)) by {
                if seen.contains_key(k) {
                    let j = choose|j: int| 0 <= j < it.index() && *s[j].0 == k;
                    assert(s[j] != s[it.index()]);
                }
            }
            lemma_map_weight_insert(seen, k, *kv.1, w);
            lemma_map_weight_submap(seen.insert(k, *kv.1), m@, w);
            assert(w(k, *kv.1) == kv.0.0 as nat);
            seen = seen.insert(k, *kv.1);
        }
        total = total + kv.0.0;
    }
    proof {
        assert(seen.dom() =~= m@.dom()) by {
            assert forall|k: (usize, usize)| m@.contains_key(k) implies seen.contains_key(k) by {
                assert(s.contains((&k, &m@[k])));
            }
        }
        assert(seen =~= m@);
    }
    total
}

/// The free block of key `k` (its size, then its id) in `m`, as the debug view
/// shows it.
pub open spec fn bf_debug_slot(m: Map<(usize, usize), MemSlot>, k: (usize, usize)) -> DebugFmtMemSlot {
    DebugFmtMemSlot { offset: m[k].offset, size: k.0 }
}

/// `slots` holds the blocks of `m`, each once, sorted by offset.
pub open spec fn bf_lists(slots: Seq<DebugFmtMemSlot>, m: Map<(usize, usize), MemSlot>) -> bool {
    &&& exists|ks: Seq<(usize, usize)>|
        {
            &&& ks.no_duplicates()
            &&& ks.to_set() == m.dom()
            &&& #[trigger] slots.to_multiset() == ks.map_values(|k: (usize, usize)| bf_debug_slot(m, k)).to_multiset()
        }
    &&& forall|i: int, j: int| 0 <= i <= j < slots.len() ==> slots[i].offset <= slots[j].offset
}

impl VMallocBestFit {
    /// The usage summary and memory bar of the arena (see `malloc_fmt`): the
    /// free blocks listed by offset, the arena's size taken as `arena_size -
    /// arena_offset`. `None` where that cannot be drawn.
    pub fn debug_text(&self) -> (r: Option<String>)
        ensures
            self.arena_size < self.arena_offset ==> r is None,
            self.arena_offset <= self.arena_size ==> exists|slots: Seq<DebugFmtMemSlot>|
                {
                    let total = (self.arena_size - self.arena_offset) as usize;
                    &&& #[trigger] bf_lists(slots, self.free_blocks@)
                    &&& (r is Some <==> malloc_fmt_accepts(total, slots))
                    &&& (r matches Some(t) ==> t@ == malloc_text(
                        total,
                        self.used_blocks@.len() as usize,
                        self.free_blocks@.len() as usize,
                        slots,
                    ))
                },
    {
        if self.arena_size < self.arena_offset {
            return None;
        }
        let ghost m = self.free_blocks@;
        let iter = self.free_blocks.iter();
        let ghost s = iter.remaining();
        let mut slots: Vec<DebugFmtMemSlot> = Vec::new();
        for kv in it: iter
            invariant
                it.seq() == s,
                s == self.free_blocks.iter().remaining(),
                m == self.free_blocks@,
                slots@.len() == it.index(),
                forall|i: int|
                    0 <= i < it.index() ==> #[trigger] slots@[i] == (DebugFmtMemSlot {
                        offset: s[i].1.offset,
                        size: s[i].0.0,
                    }),
        {
            slots.push(DebugFmtMemSlot { offset: kv.1.offset, size: kv.0.0 });
        }
        let ghost ks = s.map_values(|kv: (&(usize, usize), &MemSlot)| *kv.0);
        proof {
            assert(s.no_duplicates());
            assert forall|i: int, j: int| 0 <= i < ks.len() && 0 <= j < ks.len() && i != j implies ks[i]
                != ks[j] by {
                assert(m.contains_key(*s[i].0) && m[*s[i].0] == *s[i].1);
                assert(m.contains_key(*s[j].0) && m[*s[j].0] == *s[j].1);
                if ks[i] == ks[j] {
                    assert(s[i] == s[j]);
                }
            }
            assert(ks.no_duplicates());
            assert forall|k: (usize, usize)| ks.to_set().contains(k) <==> m.dom().contains(k) by {
                if m.dom().contains(k) {
                    assert(s.contains((&k, &m[k])));
                    let i = choose|i: int| 0 <= i < s.len() && s[i] == (&k, &m[k]);
                    assert(ks[i] == k);
                }
                if ks.to_set().contains(k) {
                    let i = choose|i: int| 0 <= i < ks.len() && ks[i] == k;
                    assert(m.contains_key(*s[i].0));
                }
            }
            assert(ks.to_set() =~= m.dom());
            assert(slots@ =~= ks.map_values(|k: (usize, usize)| bf_debug_slot(m, k))) by {
                assert forall|i: int| 0 <= i < slots@.len() implies slots@[i] == bf_debug_slot(m, ks[i]) by {
                    assert(m.contains_key(*s[i].0) && m[*s[i].0] == *s[i].1);
                }
            }
        }
        let ghost before = slots@;
        sort_by_offset(&mut slots);
        let r = malloc_fmt_checked(
            self.arena_size - self.arena_offset,
            self.used_blocks.len(),
            self.free_blocks.len(),
            &slots,
        );
        proof {
            assert(bf_lists(slots@, m));
        }
        r
    }
}

} // verus!
