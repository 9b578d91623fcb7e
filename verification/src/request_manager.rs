//! The reads that the memory has accepted and not answered yet.

use crate::access::SimpleRead;
use crate::address::ByteAddress;
use vstd::prelude::*;

verus! {

/// Whether `index` is the position of the first read of `address`.
pub open spec fn is_oldest_read(reads: Seq<SimpleRead>, address: ByteAddress, index: int) -> bool {
    &&& 0 <= index < reads.len()
    &&& reads[index].address == address
    &&& forall|earlier: int| 0 <= earlier < index ==> (#[trigger] reads[earlier]).address != address
}

/// Whether any of `reads` is of `address`.
pub open spec fn awaits(reads: Seq<SimpleRead>, address: ByteAddress) -> bool {
    exists|index: int| 0 <= index < reads.len() && (#[trigger] reads[index]).address == address
}

/// The position of the first read of `address`, where there is one.
pub open spec fn oldest_read(reads: Seq<SimpleRead>, address: ByteAddress) -> int {
    choose|index: int| is_oldest_read(reads, address, index)
}

/// An awaited address has exactly one oldest read, and `oldest_read` is its position.
pub proof fn lemma_oldest_read(reads: Seq<SimpleRead>, address: ByteAddress)
    requires
        awaits(reads, address),
    ensures
        is_oldest_read(reads, address, oldest_read(reads, address)),
        forall|index: int|
            is_oldest_read(reads, address, index) ==> index == oldest_read(reads, address),
{
    let witness = choose|index: int|
        0 <= index < reads.len() && (#[trigger] reads[index]).address == address;
    lemma_oldest_read_exists(reads, address, witness);
    let oldest = oldest_read(reads, address);
    assert forall|index: int| is_oldest_read(reads, address, index) implies index == oldest by {
        if index < oldest {
            assert(reads[index].address != address);
        } else if oldest < index {
            assert(reads[oldest].address != address);
        }
    }
}

/// The read that an answer is for is the first one of its address, wherever there is one.
pub proof fn answer_is_for_the_first_read(reads: Seq<SimpleRead>, address: ByteAddress)
    ensures
        awaits(reads, address) <==> exists|i: int|
            0 <= i < reads.len() && (#[trigger] reads[i]).address.0 == address.0,
        awaits(reads, address) ==> {
            let first = oldest_read(reads, address);
            &&& 0 <= first < reads.len()
            &&& reads[first].address.0 == address.0
            &&& forall|i: int| 0 <= i < first ==> (#[trigger] reads[i]).address.0 != address.0
        },
{
    if awaits(reads, address) {
        lemma_oldest_read(reads, address);
        let first = oldest_read(reads, address);
        assert forall|i: int| 0 <= i < first implies (#[trigger] reads[i]).address.0
            != address.0 by {
            assert(reads[i].address != address);
        }
    }
    if exists|i: int| 0 <= i < reads.len() && (#[trigger] reads[i]).address.0 == address.0 {
        let i = choose|i: int| 0 <= i < reads.len() && (#[trigger] reads[i]).address.0 == address.0;
        assert(reads[i].address == address);
    }
}

proof fn lemma_oldest_read_exists(reads: Seq<SimpleRead>, address: ByteAddress, bound: int)
    requires
        0 <= bound < reads.len(),
        reads[bound].address == address,
    ensures
        exists|index: int| is_oldest_read(reads, address, index),
    decreases bound,
{
    if exists|earlier: int|
        0 <= earlier < bound && (#[trigger] reads[earlier]).address == address {
        let earlier = choose|earlier: int|
            0 <= earlier < bound && (#[trigger] reads[earlier]).address == address;
        lemma_oldest_read_exists(reads, address, earlier);
    } else {
        assert(is_oldest_read(reads, address, bound));
    }
}

/// The outstanding reads, in the order in which the memory accepted them.
#[derive(Debug)]
pub struct RequestManager {
    outstanding: Vec<SimpleRead>,
}

impl View for RequestManager {
    type V = Seq<SimpleRead>;

    closed spec fn view(&self) -> Seq<SimpleRead> {
        self.outstanding@
    }
}

impl Default for RequestManager {
    fn default() -> (manager: Self)
        ensures
            manager@ == Seq::<SimpleRead>::empty(),
    {
        RequestManager { outstanding: Vec::new() }
    }
}

impl RequestManager {
    pub fn is_empty(&self) -> (empty: bool)
        ensures
            empty == (self@.len() == 0),
    {
        self.outstanding.is_empty()
    }

    /// Whether a read of `location` is outstanding.
    pub fn is_awaiting(&self, location: ByteAddress) -> (awaiting: bool)
        ensures
            awaiting == awaits(self@, location),
    {
        let mut index: usize = 0;
        while index < self.outstanding.len()
            invariant
                index <= self.outstanding.len(),
                forall|earlier: int|
                    0 <= earlier < index ==> (#[trigger] self@[earlier]).address != location,
            decreases self.outstanding.len() - index,
        {
            if self.outstanding[index].address == location {
                assert(self@[index as int].address == location);
                return true;
            }
            index += 1;
        }
        false
    }

    /// Records a read that the memory has accepted.
    pub fn add_request(&mut self, read: SimpleRead)
        ensures
            final(self)@ == old(self)@.push(read),
    {
        self.outstanding.push(read);
    }

    /// Takes out the read that an answer from `location` is for: the one that has been
    /// outstanding for longest among those of that address.
    pub fn register_recv(&mut self, location: ByteAddress) -> (read: SimpleRead)
        requires
            awaits(old(self)@, location),
        ensures
            read == old(self)@[oldest_read(old(self)@, location)],
            final(self)@ == old(self)@.remove(oldest_read(old(self)@, location)),
    {
        proof {
            lemma_oldest_read(self@, location);
        }
        let ghost oldest = oldest_read(self@, location);
        let mut index: usize = 0;
        while self.outstanding[index].address != location
            invariant
                self@ == old(self)@,
                is_oldest_read(self@, location, oldest),
                0 <= index <= oldest < self.outstanding.len(),
            decreases oldest - index,
        {
            assert(self@[index as int].address != location);
            index += 1;
        }
        assert(index == oldest);
        self.outstanding.remove(index)
    }
}

} // verus!
