use std::collections::HashMap;
use vstd::prelude::*;
use vstd::std_specs::iter::IteratorSpec;

verus! {

/// A first-fit allocator over one address range, keeping only a map from the
/// offset of each free block to its size.
pub struct MemoryAllocator {
    pub size: usize,
    pub free_blocks: HashMap<usize, usize>,
}

impl MemoryAllocator {
    /// The free blocks, as a map from offset to size.
    pub open spec fn free_map(&self) -> Map<usize, usize> {
        self.free_blocks@
    }

    /// Some free block can hold `size` units.
    pub open spec fn has_fit(&self, size: usize) -> bool {
        exists|o: usize| #[trigger] self.free_map().contains_key(o) && self.free_map()[o] >= size
    }

    /// A new allocator whose whole range `[0, size)` is one free block.
    pub fn new(size: usize) -> (r: Self)
        ensures
            r.size == size,
            r.free_map() == map![0usize => size],
    {
        let mut free_blocks = HashMap::new();
        free_blocks.insert(0, size);
        Self { size, free_blocks }
    }

    /// Takes `size` units from some free block large enough: that block keeps its
    /// offset, which is returned, and shrinks by `size`.
    pub fn alloc_ff(&mut self, size: usize) -> (r: Result<usize, &'static str>)
        ensures
            final(self).size == old(self).size,
            r is Err <==> !old(self).has_fit(size),
            r is Err ==> r == Err::<usize, &'static str>("No free space"),
            r is Err ==> final(self).free_map() == old(self).free_map(),
            r matches Ok(o) ==> {
                &&& old(self).free_map().contains_key(o)
                &&& old(self).free_map()[o] >= size
                &&& final(self).free_map() == old(self).free_map().insert(o, (old(self).free_map()[o] - size) as usize)
            },
    {
        let mut found: Option<(usize, usize)> = None;
        let ghost s = self.free_blocks.iter().remaining();
        let ghost mut scanned: int = 0;
        for kv in it: self.free_blocks.iter()
            invariant
                it.seq() == s,
                *self == *old(self),
                s == self.free_blocks.iter().remaining(),
                scanned == it.index(),
                found is None ==> forall|i: int| 0 <= i < scanned ==> *(#[trigger] s[i]).1 < size,
                found matches Some(f) ==> self.free_blocks@.contains_key(f.0) && self.free_blocks@[f.0] == f.1 && f.1 >= size,
        {
            if found.is_none() && *kv.1 >= size {
                found = Some((*kv.0, *kv.1));
            }
            proof { scanned = scanned + 1; }
        }
        match found {
            None => {
                proof {
                    assert forall|o: usize| #[trigger] self.free_map().contains_key(o) implies !(self.free_map()[o] >= size) by {
                        assert(s.contains((&o, &self.free_map()[o])));
                        let i = choose|i: int| 0 <= i < s.len() && s[i] == (&o, &self.free_map()[o]);
                        assert(*s[i].1 < size);
                    }
                }
                Err("No free space")
            },
            Some((offset, slot_size)) => {
                assert(self.free_map().contains_key(offset));
                assert(old(self).has_fit(size));
                self.free_blocks.insert(offset, slot_size - size);
                Ok(offset)
            },
        }
    }

    /// Returns `size` units at `offset` to the free blocks, joining the free
    /// block that starts right after them, if any.
    pub fn free(&mut self, offset: usize, size: usize)
        requires
            offset + size <= usize::MAX,
            old(self).free_map().contains_key((offset + size) as usize) ==> size + old(self).free_map()[(
            offset + size) as usize] <= usize::MAX,
        ensures
            final(self).size == old(self).size,
            final(self).free_map() == if old(self).free_map().contains_key((offset + size) as usize) {
                old(self).free_map().remove((offset + size) as usize).insert(
                    offset,
                    (size + old(self).free_map()[(offset + size) as usize]) as usize,
                )
            } else {
                old(self).free_map().insert(offset, size)
            },
    {
        let next_slot = self.free_blocks.remove(&(offset + size));
        if let Some(next_slot_size) = next_slot {
            self.free_blocks.insert(offset, size + next_slot_size);
        } else {
            self.free_blocks.insert(offset, size);
        }
        proof {
            if !old(self).free_map().contains_key((offset + size) as usize) {
                assert(old(self).free_map().remove((offset + size) as usize) =~= old(self).free_map());
            }
        }
    }
}

} // verus!
