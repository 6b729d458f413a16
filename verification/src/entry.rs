//! Records kept by the buffer allocator: live entries and pending writes.
use vstd::prelude::*;

verus! {

/// Identifier of an allocation.
pub type EntryId = u32;

/// A live allocation: `length` bytes at `position` in the buffer.
#[derive(Debug, PartialEq, Eq, Structural, Clone, Copy)]
pub struct AllocEntry {
    pub id: EntryId,
    pub position: usize,
    pub length: usize,
}

impl AllocEntry {
    pub open spec fn holds(self, b: int) -> bool {
        self.position <= b < self.position + self.length
    }

    pub fn new(id: EntryId, position: usize, length: usize) -> (e: Self)
        ensures
            e.id == id,
            e.position == position,
            e.length == length,
    {
        Self { id, position, length }
    }
}

/// A pending copy of `len` bytes from offset `arena_offset` of the staging
/// arena to offset `buffer_offset` of the buffer, on behalf of entry `id`.
#[derive(Debug, PartialEq, Eq, Structural, Clone, Copy)]
pub struct WriteOperation {
    pub id: EntryId,
    pub len: usize,
    pub buffer_offset: usize,
    pub arena_offset: usize,
}

impl WriteOperation {
    pub fn new(id: EntryId, len: usize, buffer_offset: usize, arena_offset: usize) -> (op: Self)
        ensures
            op.id == id,
            op.len == len,
            op.buffer_offset == buffer_offset,
            op.arena_offset == arena_offset,
    {
        Self { id, len, buffer_offset, arena_offset }
    }
}

} // verus!
