//! The mathematical model of the context: what it holds, and how each operation changes it.

use crate::access::{blank_data, Access, MemoryData, SimpleRead, SimpleWrite};
use crate::address::ByteAddress;
use crate::batch::{BatchModel, BATCH_INTERVAL, MAX_BATCHES_PER_CYCLE, RETRY_PRIORITY};
use crate::channel::{ChannelElement, PeekResult, ReadBundle, WriteBundle, WriterPeek};
use crate::priority::{by_priority, lemma_by_priority_members};
use crate::request_manager::oldest_read;
use vstd::prelude::*;

verus! {

/// The most requests that are tried again in one round.
pub const RETRY_LIMIT: usize = 10;

/// The writes among `accesses`, in order.
pub open spec fn writes_of(accesses: Seq<Access>) -> Seq<Access> {
    accesses.filter(|access: Access| access is SimpleWrite)
}

/// The reads among `accesses`, in order.
pub open spec fn reads_of(accesses: Seq<Access>) -> Seq<Access> {
    accesses.filter(|access: Access| access is SimpleRead)
}

/// Nothing holds no requests of either kind.
pub proof fn lemma_kinds_empty(accesses: Seq<Access>)
    requires
        accesses.len() == 0,
    ensures
        writes_of(accesses) == Seq::<Access>::empty(),
        reads_of(accesses) == Seq::<Access>::empty(),
{
    reveal(Seq::filter);
}

/// A further request stands last among those of its kind.
pub proof fn lemma_kinds_push(accesses: Seq<Access>, access: Access)
    ensures
        writes_of(accesses.push(access)) == match access {
            Access::SimpleRead(_) => writes_of(accesses),
            Access::SimpleWrite(_) => writes_of(accesses).push(access),
        },
        reads_of(accesses.push(access)) == match access {
            Access::SimpleRead(_) => reads_of(accesses).push(access),
            Access::SimpleWrite(_) => reads_of(accesses),
        },
{
    reveal(Seq::filter);
    assert(accesses.push(access).drop_last() =~= accesses);
}

/// The requests of `batches` in the order in which they are passed on: batch after batch, in
/// each batch every write before every read.
pub open spec fn passed_on(batches: Seq<BatchModel>) -> Seq<Access>
    decreases batches.len(),
{
    if batches.len() == 0 {
        Seq::empty()
    } else {
        passed_on(batches.drop_last()) + batches.last().in_order()
    }
}

/// Whether `index` is the position of the element that is taken first at tick `now`: it may be
/// taken, none that may be taken is older, and none before it is as old.
pub open spec fn is_earliest(peeks: Seq<PeekResult<u64>>, now: u64, index: int) -> bool {
    &&& 0 <= index < peeks.len()
    &&& peeks[index].ready(now)
    &&& forall|other: int|
        0 <= other < peeks.len() && (#[trigger] peeks[other]).ready(now) ==> {
            ||| peeks[index].element().time < peeks[other].element().time
            ||| peeks[index].element().time == peeks[other].element().time && index <= other
        }
}

/// Whether any of the elements seen may be taken at tick `now`.
pub open spec fn any_ready(peeks: Seq<PeekResult<u64>>, now: u64) -> bool {
    exists|index: int| 0 <= index < peeks.len() && (#[trigger] peeks[index]).ready(now)
}

/// The position of the element that is taken first at tick `now`, where any may be taken.
pub open spec fn earliest(peeks: Seq<PeekResult<u64>>, now: u64) -> int {
    choose|index: int| is_earliest(peeks, now, index)
}

/// At most one position is the earliest.
pub proof fn lemma_earliest_unique(
    peeks: Seq<PeekResult<u64>>,
    now: u64,
    left: int,
    right: int,
)
    requires
        is_earliest(peeks, now, left),
        is_earliest(peeks, now, right),
    ensures
        left == right,
{
    assert(peeks[left].ready(now) && peeks[right].ready(now));
}

/// The request that the front element of reader `index` makes.
pub open spec fn read_request(peeks: Seq<PeekResult<u64>>, index: int) -> Access {
    Access::SimpleRead(
        SimpleRead { address: ByteAddress(peeks[index].element().data), bundle: index as usize },
    )
}

/// The request that the front elements of writer `index` make.
pub open spec fn write_request(peek: WriterPeek, index: int) -> Access {
    Access::SimpleWrite(
        SimpleWrite {
            address: ByteAddress(peek.addr.element().data),
            payload: peek.data.element().data,
            bundle: index as usize,
        },
    )
}

/// The positions, in ascending order, of the writers whose request may be taken at tick `now`.
pub open spec fn ready_writers(peeks: Seq<WriterPeek>, now: u64) -> Seq<usize>
    decreases peeks.len(),
{
    if peeks.len() == 0 {
        Seq::empty()
    } else {
        let before = ready_writers(peeks.drop_last(), now);
        if peeks.last().ready(now) {
            before.push((peeks.len() - 1) as usize)
        } else {
            before
        }
    }
}

/// The requests of those writers, in the same order.
pub open spec fn write_requests(peeks: Seq<WriterPeek>, now: u64) -> Seq<Access> {
    ready_writers(peeks, now).map_values(
        |index: usize| write_request(peeks[index as int], index as int),
    )
}

/// Only writers that were looked at are ready.
pub proof fn lemma_ready_writers_bounded(peeks: Seq<WriterPeek>, now: u64)
    requires
        peeks.len() <= usize::MAX,
    ensures
        forall|i: int|
            0 <= i < ready_writers(peeks, now).len() ==> (#[trigger] ready_writers(peeks, now)[i])
                < peeks.len(),
    decreases peeks.len(),
{
    if peeks.len() > 0 {
        let before = ready_writers(peeks.drop_last(), now);
        lemma_ready_writers_bounded(peeks.drop_last(), now);
        assert forall|i: int| 0 <= i < ready_writers(peeks, now).len() implies (
        #[trigger] ready_writers(peeks, now)[i]) < peeks.len() by {
            if i < before.len() {
                assert(ready_writers(peeks, now)[i] == before[i]);
            }
        }
    }
}

/// A further writer that is ready adds its request at the end.
pub proof fn lemma_write_requests_push(peeks: Seq<WriterPeek>, peek: WriterPeek, now: u64)
    requires
        peeks.len() < usize::MAX,
        peek.ready(now),
    ensures
        write_requests(peeks.push(peek), now) == write_requests(peeks, now).push(
            write_request(peek, peeks.len() as int),
        ),
{
    lemma_ready_writers_bounded(peeks, now);
    assert(peeks.push(peek).drop_last() =~= peeks);
    assert(write_requests(peeks.push(peek), now) =~= write_requests(peeks, now).push(
        write_request(peek, peeks.len() as int),
    ));
}

/// A further writer that is not ready adds nothing.
pub proof fn lemma_write_requests_skip(peeks: Seq<WriterPeek>, peek: WriterPeek, now: u64)
    requires
        peeks.len() < usize::MAX,
        !peek.ready(now),
    ensures
        write_requests(peeks.push(peek), now) == write_requests(peeks, now),
{
    lemma_ready_writers_bounded(peeks, now);
    assert(peeks.push(peek).drop_last() =~= peeks);
    assert(write_requests(peeks.push(peek), now) =~= write_requests(peeks, now));
}

/// The smaller of two numbers.
pub open spec fn lesser(left: nat, right: nat) -> nat {
    if left <= right {
        left
    } else {
        right
    }
}

/// What is sent to a reader: the data on one channel, the address that it came from on another.
#[derive(Clone, Copy, Debug, PartialEq, Eq)]
pub struct Response {
    pub resp: usize,
    pub data: MemoryData,
    pub resp_addr: usize,
    pub addr: u64,
}

/// An acknowledgement to a writer, and the channel that it goes out on.
#[derive(Clone, Copy, Debug, PartialEq, Eq)]
pub struct Acknowledgement {
    pub ack: usize,
    pub done: ChannelElement<bool>,
}

/// What a context holds.
pub struct ContextModel {
    /// The configuration that the memory device is set up with.
    pub config: Seq<char>,
    /// The contents of the memory, where they are simulated.
    pub datastore: Option<Map<u64, MemoryData>>,
    pub writers: Seq<WriteBundle>,
    pub readers: Seq<ReadBundle>,
    /// The requests that the device has turned away, oldest first.
    pub backlog: Seq<Access>,
    /// The batches that wait to be passed on; of those with equal priority, the oldest first.
    pub batches: Seq<BatchModel>,
    /// The batch that is being filled.
    pub current: BatchModel,
    /// The tick of the last round of batch processing.
    pub last_batch_cycle: u64,
    /// The device makes the first number of cycles in the second number of ticks.
    pub cycles_per_tick: (nat, nat),
    /// The cycles that the device has made.
    pub elapsed_cycles: nat,
}

impl ContextModel {
    /// Whether the reader or writer that a request names is there.
    pub open spec fn owns(self, access: Access) -> bool {
        match access {
            Access::SimpleRead(read) => read.bundle < self.readers.len(),
            Access::SimpleWrite(write) => write.bundle < self.writers.len(),
        }
    }

    pub open spec fn owns_all(self, accesses: Seq<Access>) -> bool {
        forall|i: int| 0 <= i < accesses.len() ==> self.owns(#[trigger] accesses[i])
    }

    /// Whether a batch is in order and names only readers and writers that are there.
    pub open spec fn owns_batch(self, batch: BatchModel) -> bool {
        batch.wf() && self.owns_all(batch.reads) && self.owns_all(batch.writes)
    }

    /// Every request held names a reader or writer that is there, every batch keeps its kinds
    /// apart and its size, and no batch that waits is empty.
    pub open spec fn wf(self) -> bool {
        &&& self.owns_all(self.backlog)
        &&& self.owns_batch(self.current)
        &&& forall|i: int|
            0 <= i < self.batches.len() ==> self.owns_batch(#[trigger] self.batches[i])
                && self.batches[i].size() > 0
    }

    /// Every read that is outstanding names a reader that is there.
    pub open spec fn owns_reads(self, outstanding: Seq<SimpleRead>) -> bool {
        forall|i: int|
            0 <= i < outstanding.len() ==> (#[trigger] outstanding[i]).bundle < self.readers.len()
    }

    /// The cycles that the device has made when `ticks` ticks have passed and it has kept up.
    pub open spec fn expected_cycles(self, ticks: u64) -> nat {
        (ticks * self.cycles_per_tick.0) as nat / self.cycles_per_tick.1
    }

    /// The context after one more request: it joins the batch that is being filled, and where
    /// that one is full, a fresh one.
    pub open spec fn collect(self, access: Access) -> Self {
        if self.current.full() {
            ContextModel {
                batches: self.batches.push(self.current),
                current: BatchModel::empty().with(access),
                ..self
            }
        } else {
            ContextModel { current: self.current.with(access), ..self }
        }
    }

    /// The context after more requests, one after the other.
    pub open spec fn collect_all(self, accesses: Seq<Access>) -> Self
        decreases accesses.len(),
    {
        if accesses.len() == 0 {
            self
        } else {
            self.collect_all(accesses.drop_last()).collect(accesses.last())
        }
    }

    /// How many requests of the backlog are tried again in one round.
    pub open spec fn retried(self) -> int {
        lesser(RETRY_LIMIT as nat, self.backlog.len()) as int
    }

    /// The batch of the requests that are tried again.
    pub open spec fn retry_batch(self) -> BatchModel {
        let oldest = self.backlog.take(self.retried());
        BatchModel {
            reads: reads_of(oldest),
            writes: writes_of(oldest),
            priority: RETRY_PRIORITY,
        }
    }

    /// The requests that are tried again, writes first.
    pub open spec fn retries(self) -> Seq<Access> {
        self.retry_batch().in_order()
    }

    /// The context once the requests that are tried again have left the backlog.
    pub open spec fn after_retries(self) -> Self {
        ContextModel { backlog: self.backlog.skip(self.retried()), ..self }
    }

    /// Whether batches are passed on at tick `now`.
    pub open spec fn batches_due(self, now: u64) -> bool {
        now - self.last_batch_cycle >= BATCH_INTERVAL || self.current.full()
    }

    /// The batches that wait, with the one that is being filled where it holds anything.
    pub open spec fn flushed(self) -> Seq<BatchModel> {
        if self.current.size() > 0 {
            self.batches.push(self.current)
        } else {
            self.batches
        }
    }

    /// How many batches one round passes on.
    pub open spec fn released(self) -> int {
        lesser(MAX_BATCHES_PER_CYCLE as nat, self.flushed().len()) as int
    }

    /// The requests that are passed on at tick `now`, in order.
    pub open spec fn releases(self, now: u64) -> Seq<Access> {
        if self.batches_due(now) {
            passed_on(by_priority(self.flushed()).take(self.released()))
        } else {
            Seq::empty()
        }
    }

    /// The context once those requests have left their batches.
    pub open spec fn after_releases(self, now: u64) -> Self {
        if self.batches_due(now) {
            ContextModel {
                batches: by_priority(self.flushed()).skip(self.released()),
                current: if self.current.size() > 0 {
                    BatchModel::empty()
                } else {
                    self.current
                },
                last_batch_cycle: now,
                ..self
            }
        } else {
            self
        }
    }

    /// The context after the device has accepted `access` or turned it away.
    pub open spec fn settled(self, access: Access, accepted: bool) -> Self {
        if !accepted {
            ContextModel { backlog: self.backlog.push(access), ..self }
        } else {
            match (access, self.datastore) {
                (Access::SimpleWrite(write), Some(contents)) => ContextModel {
                    datastore: Some(contents.insert(write.address.0, write.payload)),
                    ..self
                },
                _ => self,
            }
        }
    }

    /// The acknowledgement that follows at tick `now`: one for every write that is accepted.
    pub open spec fn acknowledgement(
        self,
        access: Access,
        accepted: bool,
        now: u64,
    ) -> Option<Acknowledgement> {
        match access {
            Access::SimpleWrite(write) if accepted => Some(
                Acknowledgement {
                    ack: self.writers[write.bundle as int].ack,
                    done: ChannelElement { time: (now + 1) as u64, data: true },
                },
            ),
            _ => None,
        }
    }

    /// What a read of `location` gives.
    pub open spec fn contents_at(self, location: u64) -> MemoryData {
        match self.datastore {
            Some(contents) => contents[location],
            None => blank_data(),
        }
    }

    /// Whether a read of `location` can be answered: where contents are simulated, something
    /// must have been written there.
    pub open spec fn can_answer(self, location: u64) -> bool {
        self.datastore matches Some(contents) ==> contents.contains_key(location)
    }

    /// What is sent when the device returns from `location`. It goes to the reader of the oldest
    /// outstanding read of that address.
    pub open spec fn response(self, outstanding: Seq<SimpleRead>, location: u64) -> Response {
        let read = outstanding[oldest_read(outstanding, ByteAddress(location))];
        let bundle = self.readers[read.bundle as int];
        Response {
            resp: bundle.resp,
            data: self.contents_at(location),
            resp_addr: bundle.resp_addr,
            addr: location,
        }
    }

    /// Whether no request is held that the device has not accepted.
    pub open spec fn idle(self) -> bool {
        self.backlog.len() == 0 && self.current.size() == 0 && self.batches.len() == 0
    }

    /// Whether the simulation goes on.
    pub open spec fn running(
        self,
        outstanding: Seq<SimpleRead>,
        writers: Seq<WriterPeek>,
        readers: Seq<PeekResult<u64>>,
    ) -> bool {
        ||| outstanding.len() != 0
        ||| !self.idle()
        ||| exists|i: int| 0 <= i < writers.len() && !(#[trigger] writers[i]).done()
        ||| exists|i: int| 0 <= i < readers.len() && !((#[trigger] readers[i]) is Closed)
    }
}

/// The requests of one kind name readers and writers that are there, as all of them do.
pub proof fn lemma_kinds_owned(context: ContextModel, accesses: Seq<Access>)
    requires
        context.owns_all(accesses),
    ensures
        context.owns_all(writes_of(accesses)),
        context.owns_all(reads_of(accesses)),
    decreases accesses.len(),
{
    if accesses.len() == 0 {
        lemma_kinds_empty(accesses);
    } else {
        let before = accesses.drop_last();
        lemma_kinds_owned(context, before);
        lemma_kinds_push(before, accesses.last());
        assert(before.push(accesses.last()) =~= accesses);
        assert(context.owns(accesses[accesses.len() - 1]));
    }
}

/// A request of a reader or writer that is there can join without harm.
pub proof fn lemma_collect_wf(context: ContextModel, access: Access)
    requires
        context.wf(),
        context.owns(access),
    ensures
        context.collect(access).wf(),
{
    let after = context.collect(access);
    assert(after.owns_batch(after.current));
    assert forall|i: int| 0 <= i < after.batches.len() implies after.owns_batch(
        #[trigger] after.batches[i],
    ) && after.batches[i].size() > 0 by {
        if i < context.batches.len() {
            assert(after.batches[i] == context.batches[i]);
        } else {
            assert(after.batches[i] == context.current);
        }
    }
}

/// Every batch that can be passed on is in order and holds something.
pub proof fn lemma_flushed_wf(context: ContextModel)
    requires
        context.wf(),
    ensures
        by_priority(context.flushed()).len() == context.flushed().len(),
        forall|i: int|
            0 <= i < context.flushed().len() ==> context.owns_batch(
                #[trigger] by_priority(context.flushed())[i],
            ) && by_priority(context.flushed())[i].size() > 0,
{
    let flushed = context.flushed();
    let ordered = by_priority(flushed);
    lemma_by_priority_members(flushed);
    assert forall|i: int| 0 <= i < flushed.len() implies context.owns_batch(#[trigger] ordered[i])
        && ordered[i].size() > 0 by {
        assert(flushed.contains(ordered[i]));
        let k = choose|k: int| 0 <= k < flushed.len() && flushed[k] == ordered[i];
        if k < context.batches.len() {
            assert(flushed[k] == context.batches[k]);
        } else {
            assert(flushed[k] == context.current);
        }
    }
}

/// Gathering requests changes nothing but the batches.
pub proof fn lemma_collect_all_frame(context: ContextModel, accesses: Seq<Access>)
    ensures
        context.collect_all(accesses) == (ContextModel {
            batches: context.collect_all(accesses).batches,
            current: context.collect_all(accesses).current,
            ..context
        }),
    decreases accesses.len(),
{
    if accesses.len() > 0 {
        lemma_collect_all_frame(context, accesses.drop_last());
    }
}

/// The outstanding reads after the device has accepted `access` or turned it away.
pub open spec fn outstanding_after(
    outstanding: Seq<SimpleRead>,
    access: Access,
    accepted: bool,
) -> Seq<SimpleRead> {
    match access {
        Access::SimpleRead(read) if accepted => outstanding.push(read),
        _ => outstanding,
    }
}

} // verus!
