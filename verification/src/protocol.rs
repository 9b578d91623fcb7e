//! What each step of a run waits for, asks for and leaves alone.

use crate::access::{Access, SimpleRead};
use crate::address::ByteAddress;
use crate::batch::BatchModel;
use crate::channel::{PeekResult, WriterPeek};
use crate::model::{
    lemma_collect_all_frame, lemma_kinds_empty, lemma_kinds_push, reads_of, write_requests,
    writes_of, ContextModel,
};
use crate::request_manager::{answer_is_for_the_first_read, awaits};
use crate::run::{Action, Event, Phase, Round, RunModel};
use vstd::prelude::*;

verus! {

/// The device is offered a request exactly where the run then waits for the device to decide on
/// it, and it is offered the address of that very request, as a write where it is one and as a
/// read where it is one.
pub proof fn device_is_offered_the_request(run: RunModel, event: Event, now: u64)
    requires
        run.accepts(event, now),
    ensures
        run.step(event, now).1 is Send <==> run.step(event, now).0.phase is Sending,
        match run.step(event, now).0.phase {
            Phase::Sending { access: Access::SimpleRead(read), .. } => run.step(event, now).1
                == Action::Send { address: read.address.0, is_write: false },
            Phase::Sending { access: Access::SimpleWrite(write), .. } => run.step(event, now).1
                == Action::Send { address: write.address.0, is_write: true },
            _ => true,
        },
{
}

/// Whether a batch holds no request.
pub open spec fn holds_nothing(batch: BatchModel) -> bool {
    batch.reads.len() == 0 && batch.writes.len() == 0
}

/// Whether no request waits in a context.
pub open spec fn nothing_waits(context: ContextModel) -> bool {
    &&& context.backlog.len() == 0
    &&& context.batches.len() == 0
    &&& holds_nothing(context.current)
}

/// Whether no channel can bring a further request: every writer has a channel closed, and every
/// reader's channel is closed.
pub open spec fn all_closed(writers: Seq<WriterPeek>, readers: Seq<PeekResult<u64>>) -> bool {
    &&& forall|i: int|
        0 <= i < writers.len() ==> (#[trigger] writers[i]).addr is Closed || writers[i].data
            is Closed
    &&& forall|i: int| 0 <= i < readers.len() ==> (#[trigger] readers[i]) is Closed
}

/// A simulation goes on exactly while a read is outstanding, a request waits, or a channel can
/// bring a further request.
pub proof fn simulation_goes_on_while_there_is_work(
    context: ContextModel,
    outstanding: Seq<SimpleRead>,
    writers: Seq<WriterPeek>,
    readers: Seq<PeekResult<u64>>,
)
    ensures
        context.running(outstanding, writers, readers) <==> !(outstanding.len() == 0
            && nothing_waits(context) && all_closed(writers, readers)),
        context.idle() <==> nothing_waits(context),
{
    if !all_closed(writers, readers) {
        if exists|i: int|
            0 <= i < writers.len() && !((#[trigger] writers[i]).addr is Closed || writers[i].data
                is Closed) {
            let i = choose|i: int|
                0 <= i < writers.len() && !((#[trigger] writers[i]).addr is Closed
                    || writers[i].data is Closed);
            assert(!writers[i].done());
        }
    }
    if exists|i: int| 0 <= i < writers.len() && !(#[trigger] writers[i]).done() {
        let i = choose|i: int| 0 <= i < writers.len() && !(#[trigger] writers[i]).done();
        assert(!(writers[i].addr is Closed || writers[i].data is Closed));
    }
}

/// The requests that a run is yet to have settled in this round, in order.
pub open spec fn to_send(run: RunModel) -> Seq<Access> {
    match run.phase {
        Phase::Sending { access, .. } => seq![access] + run.sends,
        _ => run.sends,
    }
}

/// The smaller of ten and the length of the backlog.
pub open spec fn turns(context: ContextModel) -> int {
    if context.backlog.len() <= 10 {
        context.backlog.len() as int
    } else {
        10
    }
}

/// The requests of the given kind, in order.
pub open spec fn of_kind(accesses: Seq<Access>, writes: bool) -> Seq<Access>
    decreases accesses.len(),
{
    if accesses.len() == 0 {
        Seq::empty()
    } else if (accesses.last() is SimpleWrite) == writes {
        of_kind(accesses.drop_last(), writes).push(accesses.last())
    } else {
        of_kind(accesses.drop_last(), writes)
    }
}

/// Whether a round begins with this step: the oldest ten requests of the backlog leave it and
/// are sent, the writes among them first. Where there are none, the device is asked for a return.
pub open spec fn begins_round(run: RunModel, next: RunModel, action: Action) -> bool {
    let oldest = run.context.backlog.take(turns(run.context));
    &&& to_send(next) == of_kind(oldest, true) + of_kind(oldest, false)
    &&& next.context == (ContextModel {
        backlog: run.context.backlog.skip(turns(run.context)),
        ..run.context
    })
    &&& next.outstanding == run.outstanding
    &&& if run.context.backlog.len() == 0 {
        next.phase is Polling && action is PollReturn
    } else {
        next.phase matches Phase::Sending { round: Round::Retry, .. }
    }
}

proof fn lemma_kinds_raw(accesses: Seq<Access>)
    ensures
        writes_of(accesses) == of_kind(accesses, true),
        reads_of(accesses) == of_kind(accesses, false),
        of_kind(accesses, true).len() + of_kind(accesses, false).len() == accesses.len(),
    decreases accesses.len(),
{
    if accesses.len() == 0 {
        lemma_kinds_empty(accesses);
    } else {
        let before = accesses.drop_last();
        lemma_kinds_raw(before);
        lemma_kinds_push(before, accesses.last());
        assert(before.push(accesses.last()) =~= accesses);
    }
}

/// The requests that are tried again are the oldest ten of the backlog, writes first, each kind
/// in order, and the others stay.
pub proof fn oldest_requests_are_tried_again(context: ContextModel)
    ensures
        context.retries() == of_kind(context.backlog.take(turns(context)), true) + of_kind(
            context.backlog.take(turns(context)),
            false,
        ),
        context.retries().len() == turns(context),
        context.after_retries() == (ContextModel {
            backlog: context.backlog.skip(turns(context)),
            ..context
        }),
        context.retry_batch().priority == 10,
{
    lemma_kinds_raw(context.backlog.take(turns(context)));
}

proof fn lemma_retry_begins_round(run: RunModel)
    requires
        run.sends.len() == 0,
    ensures
        begins_round(run, run.retry().0, run.retry().1),
{
    oldest_requests_are_tried_again(run.context);
    let tried = run.context.retries();
    let next = run.retry().0;
    if tried.len() > 0 {
        assert(seq![tried[0]] + tried.drop_first() =~= tried);
    }
    assert(to_send(next) =~= tried);
}

/// A run that has not begun, or whose device has caught up after a tick, begins a round where a
/// request waits or a read is outstanding, and else looks at all channels first.
pub open spec fn begins_or_looks(run: RunModel, next: RunModel, action: Action) -> bool {
    if run.outstanding.len() == 0 && nothing_waits(run.context) {
        &&& action is PeekChannels
        &&& next == (RunModel { phase: Phase::Checking, ..run })
    } else {
        begins_round(run, next, action)
    }
}

/// A run begins with a round where there is work, and else with a look at its channels.
pub proof fn run_begins(run: RunModel, now: u64)
    requires
        run.wf(),
        run.phase is Starting,
    ensures
        begins_or_looks(run, run.step(Event::Done, now).0, run.step(Event::Done, now).1),
{
    lemma_retry_begins_round(run);
}

/// After a look at all channels, the run ends where none can bring a request, and else begins a
/// round.
pub proof fn look_decides_whether_to_go_on(
    run: RunModel,
    writers: Vec<WriterPeek>,
    readers: Vec<PeekResult<u64>>,
    now: u64,
)
    requires
        run.wf(),
        run.phase is Checking,
    ensures
        ({
            let (next, action) = run.step(Event::ChannelsPeeked(writers, readers), now);
            if run.outstanding.len() == 0 && nothing_waits(run.context) && all_closed(
                writers@,
                readers@,
            ) {
                action is Finish && next == (RunModel { phase: Phase::Finished, ..run })
            } else {
                begins_round(run, next, action)
            }
        }),
{
    simulation_goes_on_while_there_is_work(run.context, run.outstanding, writers@, readers@);
    lemma_retry_begins_round(run);
}

/// Whether the run goes on to the next of the requests that are to be sent in this round; after
/// the last one, to asking the device for a return where they were tried again, and to letting a
/// tick pass where they came from batches.
pub open spec fn sends_on(
    sends: Seq<Access>,
    round: Round,
    next: RunModel,
    action: Action,
) -> bool {
    if sends.len() > 0 {
        &&& next.phase == (Phase::Sending { access: sends[0], round })
        &&& next.sends == sends.drop_first()
    } else {
        &&& next.sends.len() == 0
        &&& match round {
            Round::Retry => next.phase is Polling && action is PollReturn,
            Round::Release => next.phase is Advancing && action is AdvanceTime,
        }
    }
}

/// Once the device has decided on a request, a write that it accepts is acknowledged first; then
/// the next request is sent. A request that it turns away joins the end of the backlog; a read
/// that it accepts joins the end of the outstanding ones; a write that it accepts replaces what
/// the memory holds at its address. Nothing else changes.
pub proof fn device_decision_is_settled(
    run: RunModel,
    access: Access,
    round: Round,
    accepted: bool,
    now: u64,
)
    requires
        run.wf(),
        run.phase == (Phase::Sending { access, round }),
        run.accepts(Event::Sent(accepted), now),
    ensures
        ({
            let (next, action) = run.step(Event::Sent(accepted), now);
            &&& if accepted && access is SimpleWrite {
                &&& action is EnqueueAck
                &&& next.phase == (Phase::Acknowledging { round })
                &&& next.sends == run.sends
            } else {
                sends_on(run.sends, round, next, action)
            }
            &&& next.context == (ContextModel {
                backlog: if accepted {
                    run.context.backlog
                } else {
                    run.context.backlog.push(access)
                },
                datastore: match (access, run.context.datastore) {
                    (Access::SimpleWrite(write), Some(contents)) if accepted => Some(
                        contents.insert(write.address.0, write.payload),
                    ),
                    _ => run.context.datastore,
                },
                ..run.context
            })
            &&& next.outstanding == match access {
                Access::SimpleRead(read) if accepted => run.outstanding.push(read),
                _ => run.outstanding,
            }
            &&& next.takes == run.takes
        }),
{
}

/// Once a write is acknowledged, the next request is sent, and nothing else changes.
pub proof fn sending_goes_on_after_acknowledgement(run: RunModel, round: Round, now: u64)
    requires
        run.wf(),
        run.phase == (Phase::Acknowledging { round }),
    ensures
        ({
            let (next, action) = run.step(Event::Done, now);
            &&& sends_on(run.sends, round, next, action)
            &&& next.context == run.context
            &&& next.outstanding == run.outstanding
            &&& next.takes == run.takes
        }),
{
}

/// Reads are taken one after the other, each at the same tick of comparison, until as many have
/// been taken as a batch holds; then the writers are looked at. Nothing else changes meanwhile.
pub proof fn reads_are_taken_one_after_the_other(
    run: RunModel,
    cur_time: u64,
    taken: usize,
    now: u64,
)
    requires
        run.wf(),
        run.phase == (Phase::TakingRead { cur_time, taken }),
    ensures
        ({
            let (next, action) = run.step(Event::Done, now);
            if taken < 512 {
                &&& action is PeekReaders
                &&& next == (RunModel { phase: Phase::ChoosingRead { cur_time, taken }, ..run })
            } else {
                &&& action is PeekWriters
                &&& next == (RunModel { phase: Phase::ChoosingWrites { cur_time: now }, ..run })
            }
        }),
{
}

/// Whether `reply` is a reply to `action`, at tick `later`, of a run that has become `next`. A
/// look shows every channel that it is about. The device returns only from addresses that a read
/// is outstanding for and, where contents are simulated, that the memory holds something at. What
/// is sent a tick later needs a tick that follows, a device that is to keep pace needs a ratio,
/// and batches are not passed on before the tick at which they last were.
pub open spec fn replies_to(next: RunModel, action: Action, reply: Event, later: u64) -> bool {
    let rated = next.context.cycles_per_tick.1 > 0;
    match (action, reply) {
        (Action::PeekChannels, Event::ChannelsPeeked(writers, readers)) => {
            &&& writers@.len() == next.context.writers.len()
            &&& readers@.len() == next.context.readers.len()
        },
        (Action::PeekReaders, Event::ReadersPeeked(readers)) => readers@.len()
            == next.context.readers.len(),
        (Action::PeekWriters, Event::WritersPeeked(writers)) => {
            &&& writers@.len() == next.context.writers.len()
            &&& later >= next.context.last_batch_cycle
        },
        (Action::TakeRead { .. }, Event::Done) => true,
        (Action::TakeWrite { .. }, Event::Done) => later >= next.context.last_batch_cycle,
        (Action::Send { is_write, .. }, Event::Sent(accepted)) => !is_write || !accepted || later
            < u64::MAX,
        (Action::EnqueueAck(_), Event::Done) => true,
        (Action::PollReturn, Event::Returned(Some(location))) => {
            &&& exists|i: int|
                0 <= i < next.outstanding.len() && (#[trigger] next.outstanding[i]).address.0
                    == location
            &&& match next.context.datastore {
                Some(contents) => contents.contains_key(location),
                None => true,
            }
            &&& later < u64::MAX
        },
        (Action::PollReturn, Event::Returned(None)) => rated,
        (Action::EnqueueData { .. }, Event::Done) => later < u64::MAX,
        (Action::EnqueueAddr { .. }, Event::Done) => rated,
        (Action::Tick, Event::Done) => rated,
        (Action::AdvanceTime, Event::Done) => rated,
        _ => false,
    }
}

/// Whether a run that has just asked for `action` waits in `phase`.
pub open spec fn waits_in(phase: Phase, action: Action) -> bool {
    match phase {
        Phase::Starting => false,
        Phase::Checking => action is PeekChannels,
        Phase::Sending { access, .. } => action matches Action::Send { is_write, .. } && is_write
            == (access is SimpleWrite),
        Phase::Acknowledging { .. } => action is EnqueueAck,
        Phase::Polling => action is PollReturn,
        Phase::AnsweringData { .. } => action is EnqueueData,
        Phase::AnsweringAddr => action is EnqueueAddr,
        Phase::Ticking { .. } => action is Tick,
        Phase::ChoosingRead { .. } => action is PeekReaders,
        Phase::TakingRead { .. } => action is TakeRead,
        Phase::ChoosingWrites { .. } => action is PeekWriters,
        Phase::TakingWrites => action is TakeWrite,
        Phase::Advancing => action is AdvanceTime,
        Phase::Finished => action is Finish,
    }
}

/// After every step, a run waits for what it has just asked for.
pub proof fn run_waits_for_what_it_asked(run: RunModel, event: Event, now: u64)
    requires
        run.accepts(event, now),
    ensures
        waits_in(run.step(event, now).0.phase, run.step(event, now).1),
{
}

proof fn lemma_awaited(run: RunModel, location: u64)
    ensures
        awaits(run.outstanding, ByteAddress(location)) <==> exists|i: int|
            0 <= i < run.outstanding.len() && (#[trigger] run.outstanding[i]).address.0
                == location,
{
    answer_is_for_the_first_read(run.outstanding, ByteAddress(location));
}

proof fn lemma_replies(run: RunModel, action: Action, reply: Event, later: u64)
    requires
        waits_in(run.phase, action),
    ensures
        run.accepts(reply, later) <==> replies_to(run, action, reply, later),
{
    if let Event::Returned(Some(location)) = reply {
        lemma_awaited(run, location);
    }
}

/// A run that has not begun accepts that it begins, at whatever tick, and nothing else.
pub proof fn run_can_begin(run: RunModel, event: Event, now: u64)
    requires
        run.phase is Starting,
    ensures
        run.accepts(event, now) <==> event is Done,
{
}

/// After every step, a run accepts the replies to what it has asked for, and nothing else.
pub proof fn replies_are_accepted(
    run: RunModel,
    event: Event,
    now: u64,
    reply: Event,
    later: u64,
)
    requires
        run.accepts(event, now),
    ensures
        ({
            let (next, action) = run.step(event, now);
            next.accepts(reply, later) <==> replies_to(next, action, reply, later)
        }),
{
    let (next, action) = run.step(event, now);
    run_waits_for_what_it_asked(run, event, now);
    lemma_replies(next, action, reply, later);
}

/// Whether the reader or writer that a request names is there.
pub open spec fn names_one(context: ContextModel, access: Access) -> bool {
    match access {
        Access::SimpleRead(read) => read.bundle < context.readers.len(),
        Access::SimpleWrite(write) => write.bundle < context.writers.len(),
    }
}

/// Whether a batch holds no more than 512 requests, keeps its kinds apart, and names readers and
/// writers that are there.
pub open spec fn sorted_out(context: ContextModel, batch: BatchModel) -> bool {
    &&& batch.reads.len() + batch.writes.len() <= 512
    &&& forall|i: int|
        0 <= i < batch.reads.len() ==> (#[trigger] batch.reads[i]) is SimpleRead && names_one(
            context,
            batch.reads[i],
        )
    &&& forall|i: int|
        0 <= i < batch.writes.len() ==> (#[trigger] batch.writes[i]) is SimpleWrite && names_one(
            context,
            batch.writes[i],
        )
}

/// A context is well-formed exactly where whatever waits names readers and writers that are
/// there, and batches are sorted out and, where they wait, hold something. So one in which
/// nothing waits always is.
pub proof fn context_is_in_order(context: ContextModel)
    ensures
        context.wf() <==> {
            &&& forall|i: int|
                0 <= i < context.backlog.len() ==> names_one(context, #[trigger] context.backlog[i])
            &&& sorted_out(context, context.current)
            &&& forall|i: int|
                0 <= i < context.batches.len() ==> sorted_out(
                    context,
                    #[trigger] context.batches[i],
                ) && !holds_nothing(context.batches[i])
        },
        nothing_waits(context) ==> context.wf(),
{
    assert forall|access: Access| #[trigger] context.owns(access) == names_one(context, access) by {
    }
    assert forall|batch: BatchModel| #[trigger] context.owns_batch(batch) <==> sorted_out(
        context,
        batch,
    ) by {
        if context.owns_batch(batch) {
            assert(forall|i: int|
                0 <= i < batch.reads.len() ==> context.owns(#[trigger] batch.reads[i]));
            assert(forall|i: int|
                0 <= i < batch.writes.len() ==> context.owns(#[trigger] batch.writes[i]));
        }
    }
    if context.wf() {
        assert(forall|i: int|
            0 <= i < context.backlog.len() ==> context.owns(#[trigger] context.backlog[i]));
        assert(forall|i: int|
            0 <= i < context.batches.len() ==> context.owns_batch(#[trigger] context.batches[i]));
    }
}

/// No step changes the configuration, the readers, the writers or the ratio of cycles to ticks.
/// The contents change only where the device accepts a write, the outstanding reads only where
/// it accepts a read or returns, the count of cycles only with a cycle, and the tick of the last
/// round of batches only to the current one.
pub proof fn steps_leave_the_rest_alone(run: RunModel, event: Event, now: u64)
    requires
        run.accepts(event, now),
    ensures
        ({
            let (next, action) = run.step(event, now);
            &&& next.context.config == run.context.config
            &&& next.context.readers == run.context.readers
            &&& next.context.writers == run.context.writers
            &&& next.context.cycles_per_tick == run.context.cycles_per_tick
            &&& !(event is Sent) ==> next.context.datastore == run.context.datastore
            &&& !(event is Sent) && !(event is Returned) ==> next.outstanding == run.outstanding
            &&& !(action is Tick) ==> next.context.elapsed_cycles == run.context.elapsed_cycles
            &&& next.context.last_batch_cycle == run.context.last_batch_cycle
                || next.context.last_batch_cycle == now
        }),
{
    match (run.phase, event) {
        (Phase::ChoosingWrites { cur_time }, Event::WritersPeeked(peeks)) => {
            lemma_collect_all_frame(run.context, write_requests(peeks@, cur_time));
        },
        _ => {},
    }
}

} // verus!
