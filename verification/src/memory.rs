//! The simulated contents of the memory.

use crate::access::MemoryData;
use std::collections::HashMap;
use vstd::prelude::*;

verus! {

broadcast use vstd::std_specs::hash::group_hash_axioms;

/// What every address written so far holds.
#[derive(Debug)]
pub struct Memory {
    storage: HashMap<u64, MemoryData>,
}

impl View for Memory {
    type V = Map<u64, MemoryData>;

    closed spec fn view(&self) -> Map<u64, MemoryData> {
        self.storage@
    }
}

impl Memory {
    /// A memory that nothing has been written to.
    pub fn new() -> (memory: Self)
        ensures
            memory@ == Map::<u64, MemoryData>::empty(),
    {
        Memory { storage: HashMap::new() }
    }

    /// What was last written at `address`, if anything was.
    pub fn read(&self, address: u64) -> (data: Option<&MemoryData>)
        ensures
            data is Some <==> self@.contains_key(address),
            data matches Some(found) ==> *found == self@[address],
    {
        self.storage.get(&address)
    }

    /// Stores `data` at `address`, in place of what was there.
    pub fn write(&mut self, address: u64, data: MemoryData)
        ensures
            final(self)@ == old(self)@.insert(address, data),
    {
        self.storage.insert(address, data);
    }
}

} // verus!
