//! What the storage state knows of a memtable.

use vstd::prelude::*;

verus! {

/// A memtable, known by the number of the table that it will be flushed to. Its entries are the
/// embedding program's.
#[derive(Debug)]
pub struct MemTable {
    id: usize,
}

impl View for MemTable {
    type V = usize;

    closed spec fn view(&self) -> usize {
        self.id
    }
}

impl MemTable {
    /// The memtable numbered `id`.
    pub fn create(id: usize) -> (table: Self)
        ensures
            table@ == id,
    {
        MemTable { id }
    }

    /// The number of the memtable.
    pub fn id(&self) -> (id: usize)
        ensures
            id == self@,
    {
        self.id
    }
}

} // verus!
