//! The run of a simulation: which operation on the device or on a channel comes next, given what
//! the last one came back with.

use crate::access::{Access, MemoryData, SimpleRead};
use crate::address::ByteAddress;
use crate::batch::BATCH_SIZE;
use crate::channel::{ChannelElement, PeekResult, WriterPeek};
use crate::context::RamulatorContext;
use crate::model::{
    any_ready, earliest, lemma_collect_all_frame, lemma_ready_writers_bounded, outstanding_after,
    read_request, ready_writers, write_requests, Acknowledgement, ContextModel,
};
use crate::request_manager::{awaits, oldest_read, RequestManager};
use vstd::prelude::*;

verus! {

/// What a run asks for.
#[allow(inconsistent_fields)]
#[derive(Clone, Copy, Debug, PartialEq, Eq)]
pub enum Action {
    /// Look at the channels of every writer and every reader.
    PeekChannels,
    /// Look at the address channel of every reader.
    PeekReaders,
    /// Look at both channels of every writer.
    PeekWriters,
    /// Take the front element of a reader's address channel.
    TakeRead { addr: usize },
    /// Take the front element of a writer's address channel, then of its data channel.
    TakeWrite { addr: usize, data: usize },
    /// Offer a request to the device.
    Send { address: u64, is_write: bool },
    /// Send an acknowledgement.
    EnqueueAck(Acknowledgement),
    /// Ask the device for an address that it returns from.
    PollReturn,
    /// Send data that was read.
    EnqueueData { channel: usize, element: ChannelElement<MemoryData> },
    /// Send the address that data was read from.
    EnqueueAddr { channel: usize, element: ChannelElement<u64> },
    /// Let the device make one cycle.
    Tick,
    /// Let one tick pass.
    AdvanceTime,
    /// Nothing more: the run has ended.
    Finish,
}

/// What an action comes back with.
#[derive(Debug)]
pub enum Event {
    /// The action is done.
    Done,
    /// What is at the front of the channels of every writer and every reader, in order.
    ChannelsPeeked(Vec<WriterPeek>, Vec<PeekResult<u64>>),
    /// What is at the front of the address channel of every reader, in order.
    ReadersPeeked(Vec<PeekResult<u64>>),
    /// What is at the front of the channels of every writer, in order.
    WritersPeeked(Vec<WriterPeek>),
    /// Whether the device has accepted the request.
    Sent(bool),
    /// The address that the device returns from, if it returns from any.
    Returned(Option<u64>),
}

/// Why requests are being sent: they are tried again, or their batches are passed on.
#[derive(Clone, Copy, Debug, PartialEq, Eq)]
pub enum Round {
    Retry,
    Release,
}

/// When in a round the device catches up: before requests are gathered, or after the tick.
#[derive(Clone, Copy, Debug, PartialEq, Eq)]
pub enum Stage {
    Before,
    After,
}

/// What a run is waiting for.
#[derive(Clone, Copy, Debug, PartialEq, Eq)]
pub enum Phase {
    Starting,
    Checking,
    Sending { access: Access, round: Round },
    Acknowledging { round: Round },
    Polling,
    AnsweringData { resp_addr: usize, addr: u64 },
    AnsweringAddr,
    Ticking { cur_ticks: u64, stage: Stage },
    ChoosingRead { cur_time: u64, taken: usize },
    TakingRead { cur_time: u64, taken: usize },
    ChoosingWrites { cur_time: u64 },
    TakingWrites,
    Advancing,
    Finished,
}

/// What a run holds.
pub struct RunModel {
    pub context: ContextModel,
    /// The reads that the device has accepted and not returned from.
    pub outstanding: Seq<SimpleRead>,
    pub phase: Phase,
    /// The requests that are still to be sent in this round.
    pub sends: Seq<Access>,
    /// The writers from whose channels an element is still to be taken.
    pub takes: Seq<usize>,
}

impl RunModel {
    /// The context is in order, and whatever is held names readers and writers that are there.
    pub open spec fn sound(self) -> bool {
        &&& self.context.wf()
        &&& self.context.owns_reads(self.outstanding)
        &&& self.context.owns_all(self.sends)
        &&& forall|i: int|
            0 <= i < self.takes.len() ==> (#[trigger] self.takes[i]) < self.context.writers.len()
    }

    /// The run is sound, and what it holds fits what it is waiting for.
    pub open spec fn wf(self) -> bool {
        &&& self.sound()
        &&& self.sends.len() > 0 ==> self.phase is Sending || self.phase is Acknowledging
        &&& self.takes.len() > 0 ==> self.phase is TakingWrites
        &&& match self.phase {
            Phase::Sending { access, .. } => self.context.owns(access),
            Phase::ChoosingRead { taken, .. } => taken < BATCH_SIZE,
            Phase::TakingRead { taken, .. } => taken <= BATCH_SIZE,
            _ => true,
        }
    }

    /// Whether the device can be told how many cycles to make.
    pub open spec fn has_rate(self) -> bool {
        self.context.cycles_per_tick.1 != 0
    }

    /// Whether `event`, at tick `now`, is what the run is waiting for. The device returns only
    /// from addresses that a read is outstanding for and that can be answered, and the clock
    /// neither goes back nor ends.
    pub open spec fn accepts(self, event: Event, now: u64) -> bool {
        match (self.phase, event) {
            (Phase::Starting, Event::Done) => true,
            (Phase::Checking, Event::ChannelsPeeked(writers, readers)) => {
                &&& writers@.len() == self.context.writers.len()
                &&& readers@.len() == self.context.readers.len()
            },
            (Phase::Sending { access, .. }, Event::Sent(accepted)) => {
                accepted && access is SimpleWrite ==> now < u64::MAX
            },
            (Phase::Acknowledging { .. }, Event::Done) => true,
            (Phase::Polling, Event::Returned(None)) => self.has_rate(),
            (Phase::Polling, Event::Returned(Some(location))) => {
                &&& awaits(self.outstanding, ByteAddress(location))
                &&& self.context.can_answer(location)
                &&& now < u64::MAX
            },
            (Phase::AnsweringData { .. }, Event::Done) => now < u64::MAX,
            (Phase::AnsweringAddr, Event::Done) => self.has_rate(),
            (Phase::Ticking { .. }, Event::Done) => self.has_rate(),
            (Phase::ChoosingRead { .. }, Event::ReadersPeeked(readers)) => {
                readers@.len() == self.context.readers.len()
            },
            (Phase::TakingRead { .. }, Event::Done) => true,
            (Phase::ChoosingWrites { .. }, Event::WritersPeeked(writers)) => {
                &&& writers@.len() == self.context.writers.len()
                &&& self.context.last_batch_cycle <= now
            },
            (Phase::TakingWrites, Event::Done) => self.context.last_batch_cycle <= now,
            (Phase::Advancing, Event::Done) => self.has_rate(),
            _ => false,
        }
    }

    pub open spec fn at(self, phase: Phase, action: Action) -> (Self, Action) {
        (RunModel { phase, ..self }, action)
    }

    /// The start of a round. Where a request waits, the run goes on; else the channels decide.
    pub open spec fn check(self) -> (Self, Action) {
        if self.outstanding.len() == 0 && self.context.idle() {
            self.at(Phase::Checking, Action::PeekChannels)
        } else {
            self.retry()
        }
    }

    /// The backlog is tried again.
    pub open spec fn retry(self) -> (Self, Action) {
        RunModel {
            context: self.context.after_retries(),
            sends: self.context.retries(),
            ..self
        }.send_next(Round::Retry)
    }

    /// The next request is sent. Once there is none, the device is asked for a return after a
    /// retry, and the clock advances after a release.
    pub open spec fn send_next(self, round: Round) -> (Self, Action) {
        if self.sends.len() > 0 {
            let access = self.sends[0];
            RunModel { sends: self.sends.drop_first(), ..self }.at(
                Phase::Sending { access, round },
                Action::Send { address: access.address().0, is_write: access is SimpleWrite },
            )
        } else {
            match round {
                Round::Retry => self.at(Phase::Polling, Action::PollReturn),
                Round::Release => self.at(Phase::Advancing, Action::AdvanceTime),
            }
        }
    }

    /// The device has accepted a request or turned it away.
    pub open spec fn settle(
        self,
        access: Access,
        round: Round,
        accepted: bool,
        now: u64,
    ) -> (Self, Action) {
        let after = RunModel {
            context: self.context.settled(access, accepted),
            outstanding: outstanding_after(self.outstanding, access, accepted),
            ..self
        };
        match self.context.acknowledgement(access, accepted, now) {
            Some(acknowledgement) => after.at(
                Phase::Acknowledging { round },
                Action::EnqueueAck(acknowledgement),
            ),
            None => after.send_next(round),
        }
    }

    /// The device has returned from `location`. The data goes out, and then the address.
    pub open spec fn answer(self, location: u64, now: u64) -> (Self, Action) {
        let response = self.context.response(self.outstanding, location);
        RunModel {
            outstanding: self.outstanding.remove(
                oldest_read(self.outstanding, ByteAddress(location)),
            ),
            ..self
        }.at(
            Phase::AnsweringData { resp_addr: response.resp_addr, addr: response.addr },
            Action::EnqueueData {
                channel: response.resp,
                element: ChannelElement { time: (now + 1) as u64, data: response.data },
            },
        )
    }

    /// The device makes a cycle where it is behind `cur_ticks`. Once it is not, requests are
    /// gathered, or the next round begins.
    pub open spec fn catch_up(self, cur_ticks: u64, stage: Stage, now: u64) -> (Self, Action) {
        if self.context.elapsed_cycles < self.context.expected_cycles(cur_ticks) {
            RunModel {
                context: ContextModel {
                    elapsed_cycles: self.context.elapsed_cycles + 1,
                    ..self.context
                },
                ..self
            }.at(Phase::Ticking { cur_ticks, stage }, Action::Tick)
        } else {
            match stage {
                Stage::Before => self.at(
                    Phase::ChoosingRead { cur_time: now, taken: 0 },
                    Action::PeekReaders,
                ),
                Stage::After => self.check(),
            }
        }
    }

    /// The oldest address that a reader has ready is gathered. Where there is none, the writers
    /// follow.
    pub open spec fn choose_read(
        self,
        cur_time: u64,
        taken: usize,
        peeks: Seq<PeekResult<u64>>,
        now: u64,
    ) -> (Self, Action) {
        if any_ready(peeks, cur_time) {
            let index = earliest(peeks, cur_time);
            RunModel { context: self.context.collect(read_request(peeks, index)), ..self }.at(
                Phase::TakingRead { cur_time, taken: (taken + 1) as usize },
                Action::TakeRead { addr: self.context.readers[index].addr },
            )
        } else {
            self.at(Phase::ChoosingWrites { cur_time: now }, Action::PeekWriters)
        }
    }

    /// The next reader is looked for, up to as many as a batch holds. The writers follow.
    pub open spec fn next_read(self, cur_time: u64, taken: usize, now: u64) -> (Self, Action) {
        if taken < BATCH_SIZE {
            self.at(Phase::ChoosingRead { cur_time, taken }, Action::PeekReaders)
        } else {
            self.at(Phase::ChoosingWrites { cur_time: now }, Action::PeekWriters)
        }
    }

    /// The request of every writer that is ready is gathered.
    pub open spec fn choose_writes(
        self,
        cur_time: u64,
        peeks: Seq<WriterPeek>,
        now: u64,
    ) -> (Self, Action) {
        RunModel {
            context: self.context.collect_all(write_requests(peeks, cur_time)),
            takes: ready_writers(peeks, cur_time),
            ..self
        }.take_next(now)
    }

    /// An element is taken from the channels of the next writer whose request was gathered. Once
    /// there is none, batches are passed on.
    pub open spec fn take_next(self, now: u64) -> (Self, Action) {
        if self.takes.len() > 0 {
            let bundle = self.context.writers[self.takes[0] as int];
            RunModel { takes: self.takes.drop_first(), ..self }.at(
                Phase::TakingWrites,
                Action::TakeWrite { addr: bundle.addr, data: bundle.data },
            )
        } else {
            RunModel {
                context: self.context.after_releases(now),
                sends: self.context.releases(now),
                ..self
            }.send_next(Round::Release)
        }
    }

    /// What a run becomes, and what it asks for next, when `event` comes at tick `now`.
    pub open spec fn step(self, event: Event, now: u64) -> (Self, Action) {
        match (self.phase, event) {
            (Phase::Starting, Event::Done) => self.check(),
            (Phase::Checking, Event::ChannelsPeeked(writers, readers)) => {
                if self.context.running(self.outstanding, writers@, readers@) {
                    self.retry()
                } else {
                    self.at(Phase::Finished, Action::Finish)
                }
            },
            (Phase::Sending { access, round }, Event::Sent(accepted)) => self.settle(
                access,
                round,
                accepted,
                now,
            ),
            (Phase::Acknowledging { round }, Event::Done) => self.send_next(round),
            (Phase::Polling, Event::Returned(None)) => self.catch_up(now, Stage::Before, now),
            (Phase::Polling, Event::Returned(Some(location))) => self.answer(location, now),
            (Phase::AnsweringData { resp_addr, addr }, Event::Done) => self.at(
                Phase::AnsweringAddr,
                Action::EnqueueAddr {
                    channel: resp_addr,
                    element: ChannelElement { time: (now + 1) as u64, data: addr },
                },
            ),
            (Phase::AnsweringAddr, Event::Done) => self.catch_up(now, Stage::Before, now),
            (Phase::Ticking { cur_ticks, stage }, Event::Done) => self.catch_up(
                cur_ticks,
                stage,
                now,
            ),
            (Phase::ChoosingRead { cur_time, taken }, Event::ReadersPeeked(readers)) => {
                self.choose_read(cur_time, taken, readers@, now)
            },
            (Phase::TakingRead { cur_time, taken }, Event::Done) => self.next_read(
                cur_time,
                taken,
                now,
            ),
            (Phase::ChoosingWrites { cur_time }, Event::WritersPeeked(writers)) => {
                self.choose_writes(cur_time, writers@, now)
            },
            (Phase::TakingWrites, Event::Done) => self.take_next(now),
            (Phase::Advancing, Event::Done) => self.catch_up(now, Stage::After, now),
            _ => self.at(Phase::Finished, Action::Finish),
        }
    }
}

/// A run of a simulation. In every round it tries the backlog again, answers at most one read,
/// lets the device catch up with the clock, gathers the requests of readers and then of writers,
/// passes on batches, and lets one tick pass.
#[derive(Debug)]
pub struct Run {
    context: RamulatorContext,
    manager: RequestManager,
    phase: Phase,
    sends: Vec<Access>,
    sent: usize,
    takes: Vec<usize>,
    taken: usize,
}

impl View for Run {
    type V = RunModel;

    closed spec fn view(&self) -> RunModel {
        RunModel {
            context: self.context@,
            outstanding: self.manager@,
            phase: self.phase,
            sends: self.sends@.skip(self.sent as int),
            takes: self.takes@.skip(self.taken as int),
        }
    }
}

impl Run {
    /// The positions reached in the lists are within them.
    pub closed spec fn valid(self) -> bool {
        self.sent <= self.sends.len() && self.taken <= self.takes.len()
    }

    pub open spec fn wf(self) -> bool {
        self.valid() && self@.wf()
    }

    /// A run of `context`. Its first step is taken with [`Event::Done`].
    pub fn new(context: RamulatorContext) -> (run: Self)
        requires
            context@.wf(),
        ensures
            run.wf(),
            run@ == (RunModel {
                context: context@,
                outstanding: Seq::empty(),
                phase: Phase::Starting,
                sends: Seq::empty(),
                takes: Seq::empty(),
            }),
    {
        let run = Run {
            context,
            manager: RequestManager::default(),
            phase: Phase::Starting,
            sends: Vec::new(),
            sent: 0,
            takes: Vec::new(),
            taken: 0,
        };
        assert(run@.sends =~= Seq::<Access>::empty());
        assert(run@.takes =~= Seq::<usize>::empty());
        run
    }

    pub fn context(&self) -> (context: &RamulatorContext)
        ensures
            context@ == self@.context,
    {
        &self.context
    }

    /// Whether `event`, at tick `now`, is what the run is waiting for.
    pub fn is_acceptable(&self, event: &Event, now: u64) -> (acceptable: bool)
        ensures
            acceptable == self@.accepts(*event, now),
    {
        match (self.phase, event) {
            (Phase::Starting, Event::Done) => true,
            (Phase::Checking, Event::ChannelsPeeked(writers, readers)) => {
                writers.len() == self.context.writers().len() && readers.len()
                    == self.context.readers().len()
            },
            (Phase::Sending { access, .. }, Event::Sent(accepted)) => {
                !*accepted || !access.is_write() || now < u64::MAX
            },
            (Phase::Acknowledging { .. }, Event::Done) => true,
            (Phase::Polling, Event::Returned(None)) => self.context.has_rate(),
            (Phase::Polling, Event::Returned(Some(location))) => {
                self.manager.is_awaiting(ByteAddress(*location)) && self.context.is_answerable(
                    *location,
                ) && now < u64::MAX
            },
            (Phase::AnsweringData { .. }, Event::Done) => now < u64::MAX,
            (Phase::AnsweringAddr, Event::Done) => self.context.has_rate(),
            (Phase::Ticking { .. }, Event::Done) => self.context.has_rate(),
            (Phase::ChoosingRead { .. }, Event::ReadersPeeked(readers)) => {
                readers.len() == self.context.readers().len()
            },
            (Phase::TakingRead { .. }, Event::Done) => true,
            (Phase::ChoosingWrites { .. }, Event::WritersPeeked(writers)) => {
                writers.len() == self.context.writers().len() && self.context.last_batch_cycle()
                    <= now
            },
            (Phase::TakingWrites, Event::Done) => self.context.last_batch_cycle() <= now,
            (Phase::Advancing, Event::Done) => self.context.has_rate(),
            _ => false,
        }
    }

    /// Goes on to what follows `event`, which has come at tick `now`, and asks for the next
    /// action.
    pub fn step(&mut self, event: Event, now: u64) -> (action: Action)
        requires
            old(self).wf(),
            old(self)@.accepts(event, now),
        ensures
            (final(self)@, action) == old(self)@.step(event, now),
            final(self).wf(),
    {
        match (self.phase, event) {
            (Phase::Starting, Event::Done) => self.check(),
            (Phase::Checking, Event::ChannelsPeeked(writers, readers)) => {
                if self.context.continue_running(&self.manager, &writers, &readers) {
                    self.retry()
                } else {
                    self.phase = Phase::Finished;
                    Action::Finish
                }
            },
            (Phase::Sending { access, round }, Event::Sent(accepted)) => self.settle(
                access,
                round,
                accepted,
                now,
            ),
            (Phase::Acknowledging { round }, Event::Done) => self.send_next(round),
            (Phase::Polling, Event::Returned(None)) => self.catch_up(now, Stage::Before, now),
            (Phase::Polling, Event::Returned(Some(location))) => self.answer(location, now),
            (Phase::AnsweringData { resp_addr, addr }, Event::Done) => {
                self.phase = Phase::AnsweringAddr;
                Action::EnqueueAddr {
                    channel: resp_addr,
                    element: ChannelElement { time: now + 1, data: addr },
                }
            },
            (Phase::AnsweringAddr, Event::Done) => self.catch_up(now, Stage::Before, now),
            (Phase::Ticking { cur_ticks, stage }, Event::Done) => self.catch_up(
                cur_ticks,
                stage,
                now,
            ),
            (Phase::ChoosingRead { cur_time, taken }, Event::ReadersPeeked(readers)) => {
                self.choose_read(cur_time, taken, &readers, now)
            },
            (Phase::TakingRead { cur_time, taken }, Event::Done) => {
                if taken < BATCH_SIZE {
                    self.phase = Phase::ChoosingRead { cur_time, taken };
                    Action::PeekReaders
                } else {
                    self.phase = Phase::ChoosingWrites { cur_time: now };
                    Action::PeekWriters
                }
            },
            (Phase::ChoosingWrites { cur_time }, Event::WritersPeeked(writers)) => {
                self.choose_writes(cur_time, &writers, now)
            },
            (Phase::TakingWrites, Event::Done) => self.take_next(now),
            (Phase::Advancing, Event::Done) => self.catch_up(now, Stage::After, now),
            _ => {
                self.phase = Phase::Finished;
                Action::Finish
            },
        }
    }

    fn check(&mut self) -> (action: Action)
        requires
            old(self).valid(),
            old(self)@.sound(),
            old(self)@.sends.len() == 0,
            old(self)@.takes.len() == 0,
        ensures
            (final(self)@, action) == old(self)@.check(),
            final(self).wf(),
    {
        if self.context.has_work(&self.manager) {
            self.retry()
        } else {
            self.phase = Phase::Checking;
            Action::PeekChannels
        }
    }

    fn retry(&mut self) -> (action: Action)
        requires
            old(self).valid(),
            old(self)@.sound(),
            old(self)@.sends.len() == 0,
            old(self)@.takes.len() == 0,
        ensures
            (final(self)@, action) == old(self)@.retry(),
            final(self).wf(),
    {
        self.sends = self.context.process_backlog();
        self.sent = 0;
        assert(self@.sends =~= old(self)@.context.retries());
        self.send_next(Round::Retry)
    }

    fn send_next(&mut self, round: Round) -> (action: Action)
        requires
            old(self).valid(),
            old(self)@.sound(),
            old(self)@.takes.len() == 0,
        ensures
            (final(self)@, action) == old(self)@.send_next(round),
            final(self).wf(),
    {
        if self.sent < self.sends.len() {
            let access = self.sends[self.sent];
            proof {
                assert(self@.sends[0] == access);
                assert(self@.sends.drop_first() =~= self.sends@.skip(self.sent + 1));
            }
            self.sent += 1;
            self.phase = Phase::Sending { access, round };
            Action::Send { address: access.get_addr().0, is_write: access.is_write() }
        } else {
            match round {
                Round::Retry => {
                    self.phase = Phase::Polling;
                    Action::PollReturn
                },
                Round::Release => {
                    self.phase = Phase::Advancing;
                    Action::AdvanceTime
                },
            }
        }
    }

    fn settle(&mut self, access: Access, round: Round, accepted: bool, now: u64) -> (action: Action)
        requires
            old(self).valid(),
            old(self)@.sound(),
            old(self)@.takes.len() == 0,
            old(self)@.context.owns(access),
            accepted && access is SimpleWrite ==> now < u64::MAX,
        ensures
            (final(self)@, action) == old(self)@.settle(access, round, accepted, now),
            final(self).wf(),
    {
        match self.context.enqueue_payload(access, accepted, &mut self.manager, now) {
            Some(acknowledgement) => {
                self.phase = Phase::Acknowledging { round };
                Action::EnqueueAck(acknowledgement)
            },
            None => self.send_next(round),
        }
    }

    fn answer(&mut self, location: u64, now: u64) -> (action: Action)
        requires
            old(self).valid(),
            old(self)@.sound(),
            old(self)@.sends.len() == 0,
            old(self)@.takes.len() == 0,
            awaits(old(self)@.outstanding, ByteAddress(location)),
            old(self)@.context.can_answer(location),
            now < u64::MAX,
        ensures
            (final(self)@, action) == old(self)@.answer(location, now),
            final(self).wf(),
    {
        let response = self.context.respond(location, &mut self.manager);
        self.phase = Phase::AnsweringData { resp_addr: response.resp_addr, addr: response.addr };
        Action::EnqueueData {
            channel: response.resp,
            element: ChannelElement { time: now + 1, data: response.data },
        }
    }

    fn catch_up(&mut self, cur_ticks: u64, stage: Stage, now: u64) -> (action: Action)
        requires
            old(self).valid(),
            old(self)@.sound(),
            old(self)@.sends.len() == 0,
            old(self)@.takes.len() == 0,
            old(self)@.has_rate(),
        ensures
            (final(self)@, action) == old(self)@.catch_up(cur_ticks, stage, now),
            final(self).wf(),
    {
        if self.context.update_ticks(cur_ticks) {
            self.phase = Phase::Ticking { cur_ticks, stage };
            Action::Tick
        } else {
            match stage {
                Stage::Before => {
                    self.phase = Phase::ChoosingRead { cur_time: now, taken: 0 };
                    Action::PeekReaders
                },
                Stage::After => self.check(),
            }
        }
    }

    fn choose_read(
        &mut self,
        cur_time: u64,
        taken: usize,
        peeks: &Vec<PeekResult<u64>>,
        now: u64,
    ) -> (action: Action)
        requires
            old(self).valid(),
            old(self)@.sound(),
            old(self)@.sends.len() == 0,
            old(self)@.takes.len() == 0,
            peeks@.len() == old(self)@.context.readers.len(),
            taken < BATCH_SIZE,
        ensures
            (final(self)@, action) == old(self)@.choose_read(cur_time, taken, peeks@, now),
            final(self).wf(),
    {
        match self.context.collect_read_requests(cur_time, peeks) {
            Some(index) => {
                self.phase = Phase::TakingRead { cur_time, taken: taken + 1 };
                Action::TakeRead { addr: self.context.readers()[index].addr }
            },
            None => {
                self.phase = Phase::ChoosingWrites { cur_time: now };
                Action::PeekWriters
            },
        }
    }

    fn choose_writes(&mut self, cur_time: u64, peeks: &Vec<WriterPeek>, now: u64) -> (action:
        Action)
        requires
            old(self).valid(),
            old(self)@.sound(),
            old(self)@.sends.len() == 0,
            old(self)@.takes.len() == 0,
            peeks@.len() == old(self)@.context.writers.len(),
            old(self)@.context.last_batch_cycle <= now,
        ensures
            (final(self)@, action) == old(self)@.choose_writes(cur_time, peeks@, now),
            final(self).wf(),
    {
        self.takes = self.context.collect_write_requests(cur_time, peeks);
        self.taken = 0;
        proof {
            assert(self@.takes =~= ready_writers(peeks@, cur_time));
            assert(peeks@.len() == peeks.len());
            lemma_ready_writers_bounded(peeks@, cur_time);
            lemma_collect_all_frame(old(self)@.context, write_requests(peeks@, cur_time));
        }
        self.take_next(now)
    }

    fn take_next(&mut self, now: u64) -> (action: Action)
        requires
            old(self).valid(),
            old(self)@.sound(),
            old(self)@.sends.len() == 0,
            old(self)@.context.last_batch_cycle <= now,
        ensures
            (final(self)@, action) == old(self)@.take_next(now),
            final(self).wf(),
    {
        if self.taken < self.takes.len() {
            let index = self.takes[self.taken];
            proof {
                assert(self@.takes[0] == index);
                assert(self@.takes.drop_first() =~= self.takes@.skip(self.taken + 1));
            }
            let bundle = self.context.writers()[index];
            self.taken += 1;
            self.phase = Phase::TakingWrites;
            Action::TakeWrite { addr: bundle.addr, data: bundle.data }
        } else {
            self.sends = self.context.process_batches(now);
            self.sent = 0;
            assert(self@.sends =~= old(self)@.context.releases(now));
            self.send_next(Round::Release)
        }
    }
}

} // verus!
