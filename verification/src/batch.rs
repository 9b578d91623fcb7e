//! Groups of memory requests that are passed on together.

use crate::access::Access;
use vstd::prelude::*;

verus! {

/// The most requests that one batch holds.
pub const BATCH_SIZE: usize = 512;

/// The least number of ticks from one round of batch processing to the next.
pub const BATCH_INTERVAL: u64 = 1;

/// The most batches that one round of batch processing passes on.
pub const MAX_BATCHES_PER_CYCLE: usize = 256;

/// The priority of a batch of requests that are tried again. Other batches have priority 0.
pub const RETRY_PRIORITY: u8 = 10;

/// What a batch holds.
pub struct BatchModel {
    pub reads: Seq<Access>,
    pub writes: Seq<Access>,
    pub priority: u8,
}

impl BatchModel {
    pub open spec fn empty() -> Self {
        BatchModel { reads: Seq::empty(), writes: Seq::empty(), priority: 0 }
    }

    pub open spec fn size(self) -> nat {
        self.reads.len() + self.writes.len()
    }

    pub open spec fn full(self) -> bool {
        self.size() >= BATCH_SIZE
    }

    /// Requests stand in the list of their own kind, and there are no more than fit.
    pub open spec fn wf(self) -> bool {
        &&& self.size() <= BATCH_SIZE
        &&& forall|i: int| 0 <= i < self.reads.len() ==> (#[trigger] self.reads[i]) is SimpleRead
        &&& forall|i: int|
            0 <= i < self.writes.len() ==> (#[trigger] self.writes[i]) is SimpleWrite
    }

    /// The batch with one more request.
    pub open spec fn with(self, access: Access) -> Self {
        match access {
            Access::SimpleRead(_) => BatchModel { reads: self.reads.push(access), ..self },
            Access::SimpleWrite(_) => BatchModel { writes: self.writes.push(access), ..self },
        }
    }

    /// The order in which a batch is passed on: every write, then every read.
    pub open spec fn in_order(self) -> Seq<Access> {
        self.writes + self.reads
    }
}

/// A batch of memory requests, apart by kind. Batches of higher priority are passed on first;
/// requests that are tried again stand in one of higher priority.
#[derive(Debug)]
pub struct RequestBatch {
    reads: Vec<Access>,
    writes: Vec<Access>,
    priority: u8,
}

impl View for RequestBatch {
    type V = BatchModel;

    closed spec fn view(&self) -> BatchModel {
        BatchModel { reads: self.reads@, writes: self.writes@, priority: self.priority }
    }
}

impl RequestBatch {
    pub fn new() -> (batch: Self)
        ensures
            batch@ == BatchModel::empty(),
    {
        RequestBatch {
            reads: Vec::with_capacity(BATCH_SIZE / 2),
            writes: Vec::with_capacity(BATCH_SIZE / 2),
            priority: 0,
        }
    }

    /// An empty batch of the given priority.
    pub fn with_priority(priority: u8) -> (batch: Self)
        ensures
            batch@ == (BatchModel { priority, ..BatchModel::empty() }),
    {
        let mut batch = RequestBatch::new();
        batch.priority = priority;
        batch
    }

    pub fn is_empty(&self) -> (empty: bool)
        ensures
            empty == (self@.size() == 0),
    {
        self.reads.is_empty() && self.writes.is_empty()
    }

    pub fn size(&self) -> (size: usize)
        requires
            self@.wf(),
        ensures
            size == self@.size(),
    {
        self.reads.len() + self.writes.len()
    }

    pub fn is_full(&self) -> (full: bool)
        requires
            self@.wf(),
        ensures
            full == self@.full(),
    {
        self.size() >= BATCH_SIZE
    }

    /// Adds a request, unless the batch is full. Tells whether it was added.
    pub fn add_request(&mut self, access: Access) -> (added: bool)
        requires
            old(self)@.wf(),
        ensures
            added == !old(self)@.full(),
            final(self)@ == if added {
                old(self)@.with(access)
            } else {
                old(self)@
            },
            final(self)@.wf(),
    {
        if self.is_full() {
            return false;
        }
        match access {
            Access::SimpleRead(_) => self.reads.push(access),
            Access::SimpleWrite(_) => self.writes.push(access),
        }
        true
    }

    pub fn priority(&self) -> (priority: u8)
        ensures
            priority == self@.priority,
    {
        self.priority
    }

    /// The requests of the batch in the order in which they are passed on: every write, then
    /// every read.
    pub fn into_order(self) -> (accesses: Vec<Access>)
        ensures
            accesses@ == self@.in_order(),
    {
        let RequestBatch { mut reads, writes, priority: _ } = self;
        let mut accesses = writes;
        accesses.append(&mut reads);
        accesses
    }
}

} // verus!
