mod debug_fmt;

pub(crate) use debug_fmt::{
    bar_reach, draw_bar, push_num6, push_padded, push_str, sort_by_offset, string_from_chars,
};
pub use debug_fmt::{
    bar_chars, bar_end, bar_resolution, bar_row_size, bar_walk_ok, decimal, num6, padded_decimal,
    slots_in_range, KIB, ROWS,
    DebugFmtMemSlot, lists_sizes, malloc_fmt, malloc_fmt_accepts, malloc_fmt_checked, malloc_text,
};
use core::cmp::Ordering;
use vstd::prelude::*;
use vstd::std_specs::cmp::{PartialEqSpecImpl, PartialOrdSpecImpl};
use vstd::std_specs::iter::IteratorSpec;

verus! {

/// A key for a block of an arena: equal by offset, ordered by size.
#[derive(Debug, Clone, Copy)]
pub struct VirtualMemSlotKey {
    pub offset: usize,
    pub size: usize,
}

impl PartialEq for VirtualMemSlotKey {
    fn eq(&self, other: &Self) -> (r: bool) {
        self.offset == other.offset
    }
}

impl PartialEqSpecImpl for VirtualMemSlotKey {
    open spec fn obeys_eq_spec() -> bool {
        true
    }

    open spec fn eq_spec(&self, other: &Self) -> bool {
        self.offset == other.offset
    }
}

impl Eq for VirtualMemSlotKey {

}

/// `Hash::hash` of `usize` feeds the value to the hasher. Trusted, with no
/// contract: nothing is claimed of the hasher's state afterwards.
pub assume_specification<H: core::hash::Hasher>[ <usize as core::hash::Hash>::hash::<H> ](
    data: &usize,
    state: &mut H,
);

/// Keys hash by offset alone, as they compare.
impl core::hash::Hash for VirtualMemSlotKey {
    fn hash<H: core::hash::Hasher>(&self, state: &mut H) {
        self.offset.hash(state);
    }
}

impl PartialOrd for VirtualMemSlotKey {
    fn partial_cmp(&self, other: &Self) -> (r: Option<Ordering>) {
        if self.size < other.size {
            Some(Ordering::Less)
        } else if self.size == other.size {
            Some(Ordering::Equal)
        } else {
            Some(Ordering::Greater)
        }
    }
}

impl PartialOrdSpecImpl for VirtualMemSlotKey {
    open spec fn obeys_partial_cmp_spec() -> bool {
        true
    }

    open spec fn partial_cmp_spec(&self, other: &Self) -> Option<Ordering> {
        if self.size < other.size {
            Some(Ordering::Less)
        } else if self.size == other.size {
            Some(Ordering::Equal)
        } else {
            Some(Ordering::Greater)
        }
    }
}

impl VirtualMemSlotKey {
    /// A key to look a block up by its offset; the size plays no part then.
    pub fn query(offset: usize) -> (r: Self)
        ensures
            r == (VirtualMemSlotKey { offset, size: 0 }),
    {
        Self { offset, size: 0 }
    }

    /// The key of a block to store.
    pub fn store(offset: usize, size: usize) -> (r: Self)
        ensures
            r == (VirtualMemSlotKey { offset, size }),
    {
        Self { offset, size }
    }
}

/// A block of an arena, as kept by the first-fit allocator: its size, and for a
/// used block the size of the free block that ends where it starts (0 when there
/// is none, or when it is not known).
#[derive(Debug, Clone, Copy)]
pub struct VirtualMemSlot {
    pub size: usize,
    pub prev_free: usize,
}

/// The sum of `w` over the entries of `m`.
pub open spec fn map_weight<K, V>(m: Map<K, V>, w: spec_fn(K, V) -> nat) -> nat
    decreases m.dom().len(),
{
    if m.dom().finite() && m.dom().len() > 0 {
        let k = m.dom().choose();
        w(k, m[k]) + map_weight(m.remove(k), w)
    } else {
        0
    }
}

/// A block weighs its size.
pub open spec fn slot_weight<K>() -> spec_fn(K, VirtualMemSlot) -> nat {
    |k: K, s: VirtualMemSlot| s.size as nat
}

/// The sum of the block sizes in `m`.
pub open spec fn slot_size_sum<K>(m: Map<K, VirtualMemSlot>) -> nat {
    map_weight(m, slot_weight())
}

pub proof fn lemma_map_weight_remove<K, V>(m: Map<K, V>, k: K, w: spec_fn(K, V) -> nat)
    requires
        m.dom().finite(),
        m.contains_key(k),
    ensures
        map_weight(m, w) == w(k, m[k]) + map_weight(m.remove(k), w),
    decreases m.dom().len(),
{
    let c = m.dom().choose();
    if c != k {
        lemma_map_weight_remove(m.remove(c), k, w);
        lemma_map_weight_remove(m.remove(k), c, w);
        assert(m.remove(c).remove(k) =~= m.remove(k).remove(c));
    }
}

pub proof fn lemma_map_weight_insert<K, V>(m: Map<K, V>, k: K, v: V, w: spec_fn(K, V) -> nat)
    requires
        m.dom().finite(),
    ensures
        map_weight(m.insert(k, v), w) == w(k, v) + map_weight(m.remove(k), w),
        !m.contains_key(k) ==> map_weight(m.remove(k), w) == map_weight(m, w),
{
    lemma_map_weight_remove(m.insert(k, v), k, w);
    assert(m.insert(k, v).remove(k) =~= m.remove(k));
    if !m.contains_key(k) {
        assert(m.remove(k) =~= m);
    }
}

/// A map inside another weighs no more than it.
pub proof fn lemma_map_weight_submap<K, V>(m1: Map<K, V>, m2: Map<K, V>, w: spec_fn(K, V) -> nat)
    requires
        m2.dom().finite(),
        m1.submap_of(m2),
    ensures
        map_weight(m1, w) <= map_weight(m2, w),
    decreases m2.dom().len(),
{
    if m1.dom() =~= m2.dom() {
        assert(m1 =~= m2);
    } else {
        let k = choose|k: K| m2.contains_key(k) && !m1.contains_key(k);
        lemma_map_weight_remove(m2, k, w);
        lemma_map_weight_submap(m1, m2.remove(k), w);
    }
}

/// Sums the block sizes of `m`.
pub fn sum_slot_sizes(m: &std::collections::HashMap<usize, VirtualMemSlot>) -> (r: usize)
    requires
        slot_size_sum(m@) <= usize::MAX,
    ensures
        r == slot_size_sum(m@),
{
    let ghost w = slot_weight::<usize>();
    let iter = m.iter();
    let ghost s = iter.remaining();
    let ghost mut seen: Map<usize, VirtualMemSlot> = Map::empty();
    let mut total: usize = 0;
    for kv in it: iter
        invariant
            it.seq() == s,
            s.no_duplicates(),
            w == slot_weight::<usize>(),
            seen.dom().finite(),
            s == m.iter().remaining(),
            seen.submap_of(m@),
            seen.dom() == Set::new(|k: usize| exists|j: int| 0 <= j < it.index() && *s[j].0 == k),
            total == map_weight(seen, w),
            slot_size_sum(m@) <= usize::MAX,
    {
        let ghost k = *kv.0;
        proof {
            assert(m@.contains_key(k) && m@[k] == *kv.1);
            assert(!seen.contains_key(k)) by {
                if seen.contains_key(k) {
                    let j = choose|j: int| 0 <= j < it.index() && *s[j].0 == k;
                    assert(s[j] != s[it.index()]);
                }
            }
            lemma_map_weight_insert(seen, k, *kv.1, w);
            lemma_map_weight_submap(seen.insert(k, *kv.1), m@, w);
            assert(w(k, *kv.1) == kv.1.size as nat);
            assert(map_weight(seen.insert(k, *kv.1), w) == map_weight(seen, w) + kv.1.size);
            assert(map_weight(seen.insert(k, *kv.1), w) <= slot_size_sum(m@));
            seen = seen.insert(k, *kv.1);
        }
        total = total + kv.1.size;
    }
    proof {
        assert(seen.dom() =~= m@.dom()) by {
            assert forall|k: usize| m@.contains_key(k) implies seen.contains_key(k) by {
                assert(s.contains((&k, &m@[k])));
            }
        }
        assert(seen =~= m@);
    }
    total
}

/// A block of an arena, as the allocators keep it.
pub trait MemBlock: Sized {
    spec fn block_size(&self) -> usize;

    fn size_of_block(&self) -> (r: usize)
        ensures
            r == self.block_size(),
    ;
}

impl MemBlock for VirtualMemSlot {
    open spec fn block_size(&self) -> usize {
        self.size
    }

    fn size_of_block(&self) -> (r: usize) {
        self.size
    }
}

/// A block weighs its size.
pub open spec fn block_weight<V: MemBlock>() -> spec_fn(usize, V) -> nat {
    |k: usize, v: V| v.block_size() as nat
}

/// The sum of the sizes of the blocks of `m`, or `None` where it does not fit
/// a `usize`.
pub(crate) fn checked_block_sizes<V: MemBlock>(m: &std::collections::HashMap<usize, V>) -> (r: Option<
    usize,
>)
    ensures
        r is Some <==> map_weight(m@, block_weight::<V>()) <= usize::MAX,
        r matches Some(n) ==> n == map_weight(m@, block_weight::<V>()),
{
    let ghost w = block_weight::<V>();
    let iter = m.iter();
    let ghost s = iter.remaining();
    let ghost mut seen: Map<usize, V> = Map::empty();
    let mut total: usize = 0;
    for kv in it: iter
        invariant
            it.seq() == s,
            s.no_duplicates(),
            w == block_weight::<V>(),
            m@.dom().finite(),
            seen.dom().finite(),
            s == m.iter().remaining(),
            seen.submap_of(m@),
            seen.dom() == Set::new(|k: usize| exists|j: int| 0 <= j < it.index() && *s[j].0 == k),
            total == map_weight(seen, w),
    {
        let ghost k = *kv.0;
        proof {
            assert(m@.contains_key(k) && m@[k] == *kv.1);
            assert(!seen.contains_key(k)) by {
                if seen.contains_key(k) {
                    let j = choose|j: int| 0 <= j < it.index() && *s[j].0 == k;
                    assert(s[j] != s[it.index()]);
                }
            }
            lemma_map_weight_insert(seen, k, *kv.1, w);
            lemma_map_weight_submap(seen.insert(k, *kv.1), m@, w);
            assert(w(k, *kv.1) == kv.1.block_size() as nat);
        }
        match total.checked_add(kv.1.size_of_block()) {
            Some(t) => {
                total = t;
            },
            None => {
                return None;
            },
        }
        proof {
            seen = seen.insert(k, *kv.1);
        }
    }
    proof {
        assert(seen.dom() =~= m@.dom()) by {
            assert forall|k: usize| m@.contains_key(k) implies seen.contains_key(k) by {
                assert(s.contains((&k, &m@[k])));
            }
        }
        assert(seen =~= m@);
    }
    Some(total)
}

/// The sizes of the blocks of `m`, by offset.
pub open spec fn block_sizes<V: MemBlock>(m: Map<usize, V>) -> Map<usize, usize> {
    m.map_values(|s: V| s.block_size())
}

/// The blocks of `m`, listed by offset.
pub(crate) fn free_block_listing<V: MemBlock>(m: &std::collections::HashMap<usize, V>) -> (r: Vec<
    DebugFmtMemSlot,
>)
    ensures
        lists_sizes(r@, block_sizes(m@)),
{
    let ghost sizes = block_sizes(m@);
    let iter = m.iter();
    let ghost s = iter.remaining();
    let mut slots: Vec<DebugFmtMemSlot> = Vec::new();
    for kv in it: iter
        invariant
            it.seq() == s,
            s == m.iter().remaining(),
            s.no_duplicates(),
            slots@.len() == it.index(),
            forall|i: int|
                0 <= i < it.index() ==> #[trigger] slots@[i] == (DebugFmtMemSlot {
                    offset: *s[i].0,
                    size: s[i].1.block_size(),
                }),
    {
        slots.push(DebugFmtMemSlot { offset: *kv.0, size: kv.1.size_of_block() });
    }
    let ghost before = slots@;
    proof {
        assert forall|i: int| 0 <= i < before.len() implies sizes.contains_key(
            #[trigger] before[i].offset,
        ) && sizes[before[i].offset] == before[i].size by {
            assert(m@.contains_key(*s[i].0));
        }
        assert forall|i: int, j: int| 0 <= i < j < before.len() implies #[trigger] before[i].offset
            != #[trigger] before[j].offset by {
            assert(m@.contains_key(*s[i].0) && m@[*s[i].0] == *s[i].1);
            assert(m@.contains_key(*s[j].0) && m@[*s[j].0] == *s[j].1);
            if *s[i].0 == *s[j].0 {
                assert(s[i] == s[j]);
            }
        }
        assert forall|k: usize| #[trigger] sizes.contains_key(k) implies exists|i: int|
            0 <= i < before.len() && before[i].offset == k by {
            assert(s.contains((&k, &m@[k])));
            let i = choose|i: int| 0 <= i < s.len() && s[i] == (&k, &m@[k]);
            assert(before[i].offset == k);
        }
    }
    sort_by_offset(&mut slots);
    proof {
        debug_fmt::lemma_sorted_listing(before, slots@, sizes);
    }
    slots
}

} // verus!
