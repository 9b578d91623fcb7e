//! The memory context: it gathers the requests of its readers and writers, passes them on to a
//! memory device in batches, and says what to send back to whom.

use crate::access::{Access, MemoryData, SimpleRead, SimpleWrite};
use crate::address::ByteAddress;
use crate::batch::{
    BatchModel, RequestBatch, BATCH_INTERVAL, MAX_BATCHES_PER_CYCLE, RETRY_PRIORITY,
};
use crate::channel::{ChannelElement, PeekResult, ReadBundle, WriteBundle, WriterPeek};
use crate::memory::Memory;
use crate::model::{
    any_ready, earliest, is_earliest, lemma_collect_wf, lemma_earliest_unique, lemma_flushed_wf,
    lemma_kinds_empty, lemma_kinds_owned, lemma_kinds_push, lemma_write_requests_push,
    lemma_write_requests_skip, outstanding_after, passed_on, read_request, reads_of, ready_writers,
    write_requests, writes_of, Acknowledgement, ContextModel, Response, RETRY_LIMIT,
};
use crate::natural::{divided, increase, less_than, scaled, Natural};
use crate::priority::{by_priority, lemma_placed_at};
use crate::request_manager::{awaits, lemma_oldest_read, oldest_read, RequestManager};
use std::collections::VecDeque;
use vstd::prelude::*;

verus! {

/// A memory with its readers and writers. The device that simulates the timing of the memory,
/// and the channels, are operated from outside; the context decides what they do.
#[derive(Debug)]
pub struct RamulatorContext {
    config: String,
    datastore: Option<Memory>,
    writers: Vec<WriteBundle>,
    readers: Vec<ReadBundle>,
    request_backlog: VecDeque<Access>,
    request_batches: VecDeque<RequestBatch>,
    current_batch: RequestBatch,
    last_batch_cycle: u64,
    cycles_per_tick: (Natural, Natural),
    elapsed_cycles: Natural,
}

/// The models of a sequence of batches.
pub open spec fn batch_models(batches: Seq<RequestBatch>) -> Seq<BatchModel> {
    batches.map_values(|batch: RequestBatch| batch@)
}

/// The contents of a memory, where there is one.
pub open spec fn contents_of(datastore: Option<Memory>) -> Option<Map<u64, MemoryData>> {
    match datastore {
        Some(memory) => Some(memory@),
        None => None,
    }
}

impl View for RamulatorContext {
    type V = ContextModel;

    closed spec fn view(&self) -> ContextModel {
        ContextModel {
            config: self.config@,
            datastore: contents_of(self.datastore),
            writers: self.writers@,
            readers: self.readers@,
            backlog: self.request_backlog@,
            batches: batch_models(self.request_batches@),
            current: self.current_batch@,
            last_batch_cycle: self.last_batch_cycle,
            cycles_per_tick: (self.cycles_per_tick.0@, self.cycles_per_tick.1@),
            elapsed_cycles: self.elapsed_cycles@,
        }
    }
}

impl RamulatorContext {
    /// A context without readers and writers, for a memory device that is set up with `config`
    /// and makes `cycles_per_tick.0` cycles in `cycles_per_tick.1` ticks. Without a datastore
    /// only the timing of the memory is simulated.
    pub fn new(
        config: &str,
        cycles_per_tick: (Natural, Natural),
        datastore: Option<Memory>,
    ) -> (context: Self)
        ensures
            context@ == (ContextModel {
                config: config@,
                datastore: contents_of(datastore),
                writers: Seq::empty(),
                readers: Seq::empty(),
                backlog: Seq::empty(),
                batches: Seq::empty(),
                current: BatchModel::empty(),
                last_batch_cycle: 0,
                cycles_per_tick: (cycles_per_tick.0@, cycles_per_tick.1@),
                elapsed_cycles: 0,
            }),
            context@.wf(),
    {
        let context = RamulatorContext {
            config: config.to_owned(),
            datastore,
            writers: Vec::new(),
            readers: Vec::new(),
            request_backlog: VecDeque::new(),
            request_batches: VecDeque::new(),
            current_batch: RequestBatch::new(),
            last_batch_cycle: 0,
            cycles_per_tick,
            elapsed_cycles: Natural::from_u32(0),
        };
        assert(context@.batches =~= Seq::<BatchModel>::empty());
        context
    }

    /// The configuration that the memory device is set up with.
    pub fn config(&self) -> (config: &str)
        ensures
            config@ == self@.config,
    {
        self.config.as_str()
    }

    pub fn readers(&self) -> (readers: &Vec<ReadBundle>)
        ensures
            readers@ == self@.readers,
    {
        &self.readers
    }

    pub fn writers(&self) -> (writers: &Vec<WriteBundle>)
        ensures
            writers@ == self@.writers,
    {
        &self.writers
    }

    /// Whether the ratio of cycles to ticks says how many cycles the device makes.
    pub fn has_rate(&self) -> (rate: bool)
        ensures
            rate == (self@.cycles_per_tick.1 != 0),
    {
        less_than(&Natural::from_u32(0), &self.cycles_per_tick.1)
    }

    /// The tick of the last round of batch processing.
    pub fn last_batch_cycle(&self) -> (tick: u64)
        ensures
            tick == self@.last_batch_cycle,
    {
        self.last_batch_cycle
    }

    pub fn add_reader(&mut self, bundle: ReadBundle)
        ensures
            final(self)@ == (ContextModel { readers: old(self)@.readers.push(bundle), ..old(self)@ }),
            old(self)@.wf() ==> final(self)@.wf(),
    {
        self.readers.push(bundle);
    }

    pub fn add_writer(&mut self, bundle: WriteBundle)
        ensures
            final(self)@ == (ContextModel { writers: old(self)@.writers.push(bundle), ..old(self)@ }),
            old(self)@.wf() ==> final(self)@.wf(),
    {
        self.writers.push(bundle);
    }

    /// Lets the device catch up with the ticks that have passed, by one cycle. Tells whether the
    /// device has one to make; where it has none, it has caught up.
    pub fn update_ticks(&mut self, cur_ticks: u64) -> (tick: bool)
        requires
            old(self)@.cycles_per_tick.1 != 0,
        ensures
            tick == (old(self)@.elapsed_cycles < old(self)@.expected_cycles(cur_ticks)),
            final(self)@ == if tick {
                ContextModel { elapsed_cycles: old(self)@.elapsed_cycles + 1, ..old(self)@ }
            } else {
                old(self)@
            },
    {
        let expected_cycles = divided(
            &scaled(cur_ticks, &self.cycles_per_tick.0),
            &self.cycles_per_tick.1,
        );
        let tick = less_than(&self.elapsed_cycles, &expected_cycles);
        if tick {
            increase(&mut self.elapsed_cycles, 1);
        }
        tick
    }

    /// Adds a request to the batch that is being filled, or to a fresh one where that is full.
    fn collect(&mut self, access: Access)
        requires
            old(self)@.wf(),
            old(self)@.owns(access),
        ensures
            final(self)@ == old(self)@.collect(access),
            final(self)@.wf(),
    {
        proof {
            lemma_collect_wf(self@, access);
        }
        if !self.current_batch.add_request(access) {
            let mut full_batch = RequestBatch::new();
            std::mem::swap(&mut full_batch, &mut self.current_batch);
            self.request_batches.push_back(full_batch);
            let added = self.current_batch.add_request(access);
            assert(added);
            assert(self@.batches =~= old(self)@.batches.push(old(self)@.current));
        }
    }

    /// Gathers the request of every writer that has an address and data ready at tick
    /// `cur_time`, given what is at the front of each writer's channels. Returns the positions of
    /// those writers, from whose channels one element each is then taken.
    pub fn collect_write_requests(&mut self, cur_time: u64, peeks: &Vec<WriterPeek>) -> (taken: Vec<
        usize,
    >)
        requires
            old(self)@.wf(),
            peeks@.len() == old(self)@.writers.len(),
        ensures
            taken@ == ready_writers(peeks@, cur_time),
            final(self)@ == old(self)@.collect_all(write_requests(peeks@, cur_time)),
            final(self)@.wf(),
    {
        let mut taken: Vec<usize> = Vec::new();
        let mut index: usize = 0;
        while index < peeks.len()
            invariant
                index <= peeks.len(),
                peeks@.len() == old(self)@.writers.len(),
                self@.writers == old(self)@.writers,
                self@.wf(),
                taken@ == ready_writers(peeks@.take(index as int), cur_time),
                self@ == old(self)@.collect_all(
                    write_requests(peeks@.take(index as int), cur_time),
                ),
            decreases peeks.len() - index,
        {
            let peek = peeks[index];
            let ghost before = peeks@.take(index as int);
            let ghost upto = peeks@.take(index + 1);
            proof {
                assert(upto.drop_last() =~= before);
                assert(upto.last() == peek);
            }
            match (peek.addr, peek.data) {
                (PeekResult::Something(addr), PeekResult::Something(data)) => {
                    if addr.time <= cur_time && data.time <= cur_time {
                        let access = Access::SimpleWrite(
                            SimpleWrite::new(ByteAddress(addr.data), data.data, index),
                        );
                        self.collect(access);
                        taken.push(index);
                        proof {
                            lemma_write_requests_push(before, upto.last(), cur_time);
                            assert(before.push(upto.last()) =~= upto);
                            assert(write_requests(upto, cur_time).drop_last() =~= write_requests(
                                before,
                                cur_time,
                            ));
                        }
                    } else {
                        proof {
                            lemma_write_requests_skip(before, upto.last(), cur_time);
                            assert(before.push(upto.last()) =~= upto);
                        }
                    }
                },
                _ => {
                    proof {
                        lemma_write_requests_skip(before, upto.last(), cur_time);
                        assert(before.push(upto.last()) =~= upto);
                    }
                },
            }
            index += 1;
        }
        assert(peeks@.take(peeks.len() as int) =~= peeks@);
        taken
    }

    /// The position of the reader whose address is taken first at tick `cur_time`: of those
    /// ready, the one that arrived first, and of those that arrived together, the first one.
    pub fn select_reader(cur_time: u64, peeks: &Vec<PeekResult<u64>>) -> (selected: Option<usize>)
        ensures
            match selected {
                Some(index) => is_earliest(peeks@, cur_time, index as int),
                None => !any_ready(peeks@, cur_time),
            },
    {
        let mut earliest_time: u64 = 0;
        let mut earliest_index: Option<usize> = None;
        let mut index: usize = 0;
        while index < peeks.len()
            invariant
                index <= peeks.len(),
                match earliest_index {
                    Some(found) => is_earliest(peeks@.take(index as int), cur_time, found as int)
                        && peeks@[found as int].element().time == earliest_time,
                    None => !any_ready(peeks@.take(index as int), cur_time),
                },
            decreases peeks.len() - index,
        {
            let ghost before = peeks@.take(index as int);
            let ghost upto = peeks@.take(index + 1);
            proof {
                assert(forall|i: int| 0 <= i < index ==> #[trigger] upto[i] == before[i]);
                assert(upto[index as int] == peeks@[index as int]);
            }
            if let PeekResult::Something(element) = peeks[index] {
                if element.time <= cur_time {
                    match earliest_index {
                        Some(_) => {
                            if element.time < earliest_time {
                                earliest_time = element.time;
                                earliest_index = Some(index);
                            }
                        },
                        None => {
                            assert(forall|i: int|
                                0 <= i < index ==> !(#[trigger] before[i]).ready(cur_time));
                            earliest_time = element.time;
                            earliest_index = Some(index);
                        },
                    }
                }
            }
            index += 1;
        }
        assert(peeks@.take(peeks.len() as int) =~= peeks@);
        earliest_index
    }

    /// Gathers the address that a reader has had ready for longest at tick `cur_time`, given
    /// what is at the front of each reader's channel. Returns the position of that reader, from
    /// whose channel one element is then taken.
    pub fn collect_read_requests(
        &mut self,
        cur_time: u64,
        peeks: &Vec<PeekResult<u64>>,
    ) -> (taken: Option<usize>)
        requires
            old(self)@.wf(),
            peeks@.len() == old(self)@.readers.len(),
        ensures
            taken is Some <==> any_ready(peeks@, cur_time),
            taken matches Some(index) ==> index == earliest(peeks@, cur_time) && is_earliest(
                peeks@,
                cur_time,
                index as int,
            ),
            final(self)@ == if any_ready(peeks@, cur_time) {
                old(self)@.collect(read_request(peeks@, earliest(peeks@, cur_time)))
            } else {
                old(self)@
            },
            final(self)@.wf(),
    {
        let selected = Self::select_reader(cur_time, peeks);
        if let Some(index) = selected {
            proof {
                lemma_earliest_unique(
                    peeks@,
                    cur_time,
                    index as int,
                    earliest(peeks@, cur_time),
                );
            }
            if let PeekResult::Something(element) = peeks[index] {
                let access = Access::SimpleRead(SimpleRead::new(ByteAddress(element.data), index));
                self.collect(access);
            }
        }
        selected
    }

    /// Takes the oldest requests out of the backlog, to be tried again, as a batch of higher
    /// priority.
    fn take_retry_batch(&mut self) -> (batch: RequestBatch)
        requires
            old(self)@.wf(),
        ensures
            batch@ == old(self)@.retry_batch(),
            final(self)@ == old(self)@.after_retries(),
            final(self)@.wf(),
            final(self)@.owns_batch(batch@),
    {
        let mut backlog_batch = RequestBatch::with_priority(RETRY_PRIORITY);
        let mut retries: usize = 0;
        let ghost backlog = self@.backlog;
        proof {
            lemma_kinds_empty(backlog.take(0));
            assert(backlog.skip(0) =~= backlog);
        }
        while retries < RETRY_LIMIT && self.request_backlog.len() > 0 && !backlog_batch.is_full()
            invariant
                backlog == old(self)@.backlog,
                retries <= RETRY_LIMIT,
                retries <= backlog.len(),
                self@ == (ContextModel { backlog: backlog.skip(retries as int), ..old(self)@ }),
                backlog_batch@.wf(),
                backlog_batch@.size() == retries,
                backlog_batch@.writes == writes_of(backlog.take(retries as int)),
                backlog_batch@.reads == reads_of(backlog.take(retries as int)),
                backlog_batch@.priority == RETRY_PRIORITY,
            decreases RETRY_LIMIT - retries,
        {
            if let Some(access) = self.request_backlog.pop_front() {
                let added = backlog_batch.add_request(access);
                assert(added);
                proof {
                    let taken = backlog.take(retries as int);
                    assert(backlog.take(retries + 1) =~= taken.push(access));
                    lemma_kinds_push(taken, access);
                    assert(backlog.skip(retries as int).drop_first() =~= backlog.skip(retries + 1));
                }
                retries += 1;
            }
        }
        proof {
            lemma_kinds_owned(old(self)@, backlog.take(retries as int));
        }
        backlog_batch
    }

    /// Takes the oldest requests out of the backlog, to be tried again, and returns them in the
    /// order in which they are passed on: every write, then every read.
    pub fn process_backlog(&mut self) -> (accesses: Vec<Access>)
        requires
            old(self)@.wf(),
        ensures
            accesses@ == old(self)@.retries(),
            final(self)@ == old(self)@.after_retries(),
            final(self)@.wf(),
            final(self)@.owns_all(accesses@),
    {
        self.take_retry_batch().into_order()
    }

    /// Puts the waiting batches into the order in which they are passed on.
    fn order_batches(&mut self)
        ensures
            final(self)@ == (ContextModel {
                batches: by_priority(old(self)@.batches),
                ..old(self)@
            }),
    {
        let mut ordered: VecDeque<RequestBatch> = VecDeque::new();
        let ghost batches = self@.batches;
        let ghost mut done: int = 0;
        proof {
            assert(batches.skip(0) =~= batches);
            assert(batch_models(ordered@) =~= by_priority(batches.take(0)));
        }
        while self.request_batches.len() > 0
            invariant
                batches == old(self)@.batches,
                0 <= done <= batches.len(),
                self@ == (ContextModel { batches: batches.skip(done), ..old(self)@ }),
                batch_models(ordered@) == by_priority(batches.take(done)),
            decreases self.request_batches.len(),
        {
            let ghost waiting = self.request_batches@;
            if let Some(batch) = self.request_batches.pop_front() {
                let ghost models = batch_models(ordered@);
                let mut index: usize = ordered.len();
                while index > 0 && ordered[index - 1].priority() < batch.priority()
                    invariant
                        index <= ordered.len(),
                        models == batch_models(ordered@),
                        forall|i: int|
                            index <= i < models.len() ==> (#[trigger] models[i]).priority
                                < batch@.priority,
                    decreases index,
                {
                    index -= 1;
                    assert(models[index as int] == ordered@[index as int]@);
                }
                proof {
                    assert(batch_models(waiting).len() == batches.skip(done).len());
                    assert(batch@ == batches[done]) by {
                        assert(batch_models(waiting)[0] == batches.skip(done)[0]);
                    }
                    if index > 0 {
                        assert(models[index - 1] == ordered@[index - 1]@);
                    }
                    lemma_placed_at(models, batch@, index as int);
                    assert(batches.take(done + 1).drop_last() =~= batches.take(done));
                    assert(batch_models(self.request_batches@) =~= batches.skip(done + 1)) by {
                        assert(batch_models(self.request_batches@) =~= batch_models(
                            waiting,
                        ).drop_first());
                    }
                }
                let ghost inserted = batch@;
                ordered.insert(index, batch);
                proof {
                    assert(batch_models(ordered@) =~= models.insert(index as int, inserted));
                    done = done + 1;
                }
            }
        }
        assert(batches.take(done) =~= batches) by {
            assert(batch_models(self.request_batches@).len() == batches.skip(done).len());
        }
        self.request_batches = ordered;
    }

    /// Takes out the batches that are to be passed on at tick `current_cycle`, those of higher
    /// priority first, and returns their requests in order. Batches are passed on where the
    /// interval since the last round has passed or the batch that is being filled is full.
    pub fn process_batches(&mut self, current_cycle: u64) -> (accesses: Vec<Access>)
        requires
            old(self)@.wf(),
            old(self)@.last_batch_cycle <= current_cycle,
        ensures
            accesses@ == old(self)@.releases(current_cycle),
            final(self)@ == old(self)@.after_releases(current_cycle),
            final(self)@.wf(),
            final(self)@.owns_all(accesses@),
    {
        let mut accesses: Vec<Access> = Vec::new();
        let should_process = current_cycle - self.last_batch_cycle >= BATCH_INTERVAL
            || self.current_batch.is_full();
        if should_process {
            if !self.current_batch.is_empty() {
                let mut filled_batch = RequestBatch::new();
                std::mem::swap(&mut filled_batch, &mut self.current_batch);
                self.request_batches.push_back(filled_batch);
            }
            assert(self@.batches =~= old(self)@.flushed());
            self.order_batches();
            self.last_batch_cycle = current_cycle;
            let ghost ordered = by_priority(old(self)@.flushed());
            proof {
                lemma_flushed_wf(old(self)@);
                assert(batch_models(self.request_batches@).len() == ordered.len());
            }
            let batch_count = if self.request_batches.len() < MAX_BATCHES_PER_CYCLE {
                self.request_batches.len()
            } else {
                MAX_BATCHES_PER_CYCLE
            };
            let ghost start = self@;
            proof {
                assert(self@.batches =~= ordered);
                assert(ordered.skip(0) =~= ordered);
            }
            let mut index: usize = 0;
            while index < batch_count
                invariant
                    index <= batch_count <= ordered.len(),
                    start.wf(),
                    start.batches == ordered,
                    self@ == (ContextModel { batches: ordered.skip(index as int), ..start }),
                    accesses@ == passed_on(ordered.take(index as int)),
                    start.owns_all(accesses@),
                decreases batch_count - index,
            {
                let ghost waiting = self.request_batches@;
                assert(waiting.len() > 0) by {
                    assert(batch_models(waiting).len() == ordered.skip(index as int).len());
                }
                if let Some(batch) = self.request_batches.pop_front() {
                    proof {
                        assert(batch@ == ordered[index as int]) by {
                            assert(batch_models(waiting)[0] == ordered.skip(index as int)[0]);
                        }
                        assert(self@.batches =~= ordered.skip(index + 1)) by {
                            assert(batch_models(waiting).drop_first() =~= ordered.skip(
                                index as int,
                            ).drop_first());
                            assert(batch_models(self.request_batches@) =~= batch_models(
                                waiting,
                            ).drop_first());
                        }
                        assert(ordered.take(index + 1).drop_last() =~= ordered.take(index as int));
                        assert(start.owns_batch(ordered[index as int]));
                    }
                    let mut ordered = batch.into_order();
                    accesses.append(&mut ordered);
                }
                index += 1;
            }
        }
        accesses
    }

    /// Records whether the device has accepted a request. One that was turned away joins the
    /// backlog. A read that was accepted becomes outstanding. A write that was accepted is
    /// stored, and the acknowledgement to its writer is returned.
    pub fn enqueue_payload(
        &mut self,
        access: Access,
        accepted: bool,
        manager: &mut RequestManager,
        now: u64,
    ) -> (acknowledgement: Option<Acknowledgement>)
        requires
            old(self)@.wf(),
            old(self)@.owns(access),
            accepted && access is SimpleWrite ==> now < u64::MAX,
        ensures
            final(self)@ == old(self)@.settled(access, accepted),
            final(self)@.wf(),
            final(manager)@ == outstanding_after(old(manager)@, access, accepted),
            acknowledgement == old(self)@.acknowledgement(access, accepted, now),
    {
        if accepted {
            match access {
                Access::SimpleRead(read) => {
                    manager.add_request(read);
                    None
                },
                Access::SimpleWrite(write) => {
                    if self.datastore.is_some() {
                        self.write_data(write.get_addr().0, write.payload);
                    }
                    Some(
                        Acknowledgement {
                            ack: self.writers[write.bundle_index()].ack,
                            done: ChannelElement { time: now + 1, data: true },
                        },
                    )
                },
            }
        } else {
            self.request_backlog.push_back(access);
            None
        }
    }

    /// Answers the read that the device returns from `location`: what is stored there, and
    /// where it came from, go to the reader that asked.
    pub fn respond(&self, location: u64, manager: &mut RequestManager) -> (response: Response)
        requires
            self@.wf(),
            self@.owns_reads(old(manager)@),
            awaits(old(manager)@, ByteAddress(location)),
            self@.can_answer(location),
        ensures
            response == self@.response(old(manager)@, location),
            final(manager)@ == old(manager)@.remove(
                oldest_read(old(manager)@, ByteAddress(location)),
            ),
            self@.owns_reads(final(manager)@),
    {
        proof {
            lemma_oldest_read(manager@, ByteAddress(location));
        }
        let read = manager.register_recv(ByteAddress(location));
        let data = if self.datastore.is_some() {
            self.read_data(location)
        } else {
            MemoryData::default()
        };
        let bundle = self.readers[read.bundle_index()];
        Response { resp: bundle.resp, data, resp_addr: bundle.resp_addr, addr: location }
    }

    /// Whether a read of `location` can be answered: where contents are simulated, something
    /// must have been written there.
    pub fn is_answerable(&self, location: u64) -> (answerable: bool)
        ensures
            answerable == self@.can_answer(location),
    {
        match &self.datastore {
            Some(datastore) => datastore.read(location).is_some(),
            None => true,
        }
    }

    /// What is stored at `addr`.
    pub fn read_data(&self, addr: u64) -> (data: MemoryData)
        requires
            self@.datastore matches Some(contents) && contents.contains_key(addr),
        ensures
            data == self@.contents_at(addr),
    {
        match &self.datastore {
            Some(datastore) => *datastore.read(addr).unwrap(),
            None => MemoryData::default(),
        }
    }

    /// Stores `data` at `addr`.
    pub fn write_data(&mut self, addr: u64, data: MemoryData)
        requires
            old(self)@.datastore is Some,
        ensures
            final(self)@ == (ContextModel {
                datastore: Some(old(self)@.datastore->0.insert(addr, data)),
                ..old(self)@
            }),
    {
        if let Some(datastore) = &mut self.datastore {
            datastore.write(addr, data);
        }
    }

    /// Whether any request waits to be passed on or answered.
    pub fn has_work(&self, manager: &RequestManager) -> (work: bool)
        ensures
            work == !(manager@.len() == 0 && self@.idle()),
    {
        !manager.is_empty() || self.request_backlog.len() > 0 || !self.current_batch.is_empty()
            || self.request_batches.len() > 0
    }

    /// Whether the simulation goes on, given what is at the front of every channel. It ends when
    /// no request waits and no reader or writer can make another one.
    pub fn continue_running(
        &self,
        manager: &RequestManager,
        writers: &Vec<WriterPeek>,
        readers: &Vec<PeekResult<u64>>,
    ) -> (running: bool)
        ensures
            running == self@.running(manager@, writers@, readers@),
    {
        if self.has_work(manager) {
            return true;
        }
        let mut index: usize = 0;
        while index < writers.len()
            invariant
                index <= writers.len(),
                forall|i: int| 0 <= i < index ==> (#[trigger] writers@[i]).done(),
            decreases writers.len() - index,
        {
            if !writers[index].is_done() {
                assert(!writers@[index as int].done());
                return true;
            }
            index += 1;
        }
        index = 0;
        while index < readers.len()
            invariant
                index <= readers.len(),
                forall|i: int| 0 <= i < index ==> (#[trigger] readers@[i]) is Closed,
            decreases readers.len() - index,
        {
            if !readers[index].is_closed() {
                assert(!(readers@[index as int] is Closed));
                return true;
            }
            index += 1;
        }
        false
    }
}

} // verus!
