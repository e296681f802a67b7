use vstd::prelude::*;

verus! {

/// The key of a block of the best-fit allocator: ordered by size, then by id.
#[derive(Copy, Clone, Debug, Eq, PartialEq, Structural, Hash, PartialOrd, Ord)]
pub struct MemSlotKey {
    pub size: usize,
    pub id: usize,
}

impl MemSlotKey {
    /// The key as it is stored in the allocator's maps.
    pub open spec fn pair(&self) -> (usize, usize) {
        (self.size, self.id)
    }
}

#[derive(Copy, Clone, Debug)]
pub struct MemSlot {
    pub offset: usize,
    pub owner_index: Option<usize>,
}

} // verus!
