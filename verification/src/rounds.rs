//! What a run asks for in which round, and how often.

use crate::access::Access;
use crate::batch::{BatchModel, BATCH_SIZE};
use crate::channel::WriterPeek;
use crate::conservation::{
    admissible, after, all_accepted, all_answered, all_gathered, accepted, answered, fresh,
    gathered, nothing_is_lost,
};
use crate::model::{
    earliest, lemma_collect_all_frame, lemma_kinds_empty, lemma_kinds_push, read_request, reads_of,
    ready_writers, write_request, write_requests, writes_of, ContextModel,
};
use crate::order::{lemma_kinds_concat, lemma_kinds_of_writes};
use crate::pace::cycles_are_counted;
use crate::priority::{
    by_priority, lemma_by_priority_members, lemma_placed_at, one_priority_keeps_order,
};
use crate::run::{Action, Event, Phase, Round, RunModel, Stage};
use vstd::prelude::*;

verus! {

/// How often a run has asked for each of these.
pub struct Tally {
    /// Ticks that passed, and so rounds that ended.
    pub rounds: nat,
    /// Cycles of the device.
    pub cycles: nat,
    /// Answers to readers.
    pub answers: nat,
    /// Acknowledgements to writers.
    pub acks: nat,
    /// Addresses taken from readers.
    pub reads: nat,
    /// Addresses, with data, taken from writers.
    pub writes: nat,
}

impl Tally {
    pub open spec fn zero() -> Self {
        Tally { rounds: 0, cycles: 0, answers: 0, acks: 0, reads: 0, writes: 0 }
    }

    pub open spec fn with(self, action: Action) -> Self {
        match action {
            Action::AdvanceTime => Tally { rounds: self.rounds + 1, ..self },
            Action::Tick => Tally { cycles: self.cycles + 1, ..self },
            Action::EnqueueData { .. } => Tally { answers: self.answers + 1, ..self },
            Action::EnqueueAck(_) => Tally { acks: self.acks + 1, ..self },
            Action::TakeRead { .. } => Tally { reads: self.reads + 1, ..self },
            Action::TakeWrite { .. } => Tally { writes: self.writes + 1, ..self },
            _ => self,
        }
    }
}

/// What a run asks for as events come one after the other.
pub open spec fn tally(run: RunModel, trace: Seq<(Event, u64)>) -> Tally
    decreases trace.len(),
{
    if trace.len() == 0 {
        Tally::zero()
    } else {
        let before = trace.drop_last();
        tally(run, before).with(after(run, before).step(trace.last().0, trace.last().1).1)
    }
}

proof fn lemma_ready_writers_len(peeks: Seq<WriterPeek>, now: u64)
    ensures
        ready_writers(peeks, now).len() <= peeks.len(),
    decreases peeks.len(),
{
    if peeks.len() > 0 {
        lemma_ready_writers_len(peeks.drop_last(), now);
    }
}

/// What a run can have asked for by the time it is in its phase, given the rounds that ended.
pub open spec fn within_limits(run: RunModel, tally: Tally) -> bool {
    let writers = run.context.writers.len();
    let before_answer = tally.answers <= tally.rounds;
    let after_answer = tally.answers <= tally.rounds + 1;
    let before_reads = tally.reads <= BATCH_SIZE * tally.rounds;
    let after_reads = tally.reads <= BATCH_SIZE * tally.rounds + BATCH_SIZE;
    let before_writes = tally.writes <= writers * tally.rounds;
    let after_writes = tally.writes + run.takes.len() <= writers * tally.rounds + writers;
    match run.phase {
        Phase::Sending { round: Round::Release, .. } => {
            after_answer && after_reads && after_writes
        },
        Phase::Acknowledging { round: Round::Release } => {
            after_answer && after_reads && after_writes
        },
        Phase::AnsweringData { .. } => after_answer && before_reads && before_writes,
        Phase::AnsweringAddr => after_answer && before_reads && before_writes,
        Phase::Ticking { stage: Stage::Before, .. } => {
            after_answer && before_reads && before_writes
        },
        Phase::ChoosingRead { taken, .. } => {
            after_answer && tally.reads <= BATCH_SIZE * tally.rounds + taken && before_writes
        },
        Phase::TakingRead { taken, .. } => {
            after_answer && tally.reads <= BATCH_SIZE * tally.rounds + taken && before_writes
        },
        Phase::ChoosingWrites { .. } => after_answer && after_reads && before_writes,
        Phase::TakingWrites => after_answer && after_reads && after_writes,
        _ => before_answer && before_reads && before_writes,
    }
}

proof fn lemma_step_within_limits(run: RunModel, count: Tally, event: Event, now: u64)
    requires
        run.wf(),
        run.accepts(event, now),
        within_limits(run, count),
    ensures
        within_limits(run.step(event, now).0, count.with(run.step(event, now).1)),
        run.step(event, now).0.context.writers == run.context.writers,
{
    let writers = run.context.writers.len();
    assert(writers * (count.rounds + 1) == writers * count.rounds + writers) by (nonlinear_arith);
    match (run.phase, event) {
        (Phase::ChoosingWrites { cur_time }, Event::WritersPeeked(peeks)) => {
            lemma_collect_all_frame(run.context, write_requests(peeks@, cur_time));
            lemma_ready_writers_len(peeks@, cur_time);
        },
        _ => {},
    }
}

proof fn lemma_trace_within_limits(run: RunModel, trace: Seq<(Event, u64)>)
    requires
        run.wf(),
        within_limits(run, Tally::zero()),
        admissible(run, trace),
    ensures
        within_limits(after(run, trace), tally(run, trace)),
        after(run, trace).context.writers == run.context.writers,
    decreases trace.len(),
{
    if trace.len() > 0 {
        let before = trace.drop_last();
        lemma_trace_within_limits(run, before);
        nothing_is_lost(run, before);
        lemma_step_within_limits(
            after(run, before),
            tally(run, before),
            trace.last().0,
            trace.last().1,
        );
    }
}

proof fn lemma_takes_fit(context: ContextModel, trace: Seq<(Event, u64)>)
    requires
        admissible(fresh(context), trace),
    ensures
        after(fresh(context), trace).takes.len() <= context.writers.len(),
        after(fresh(context), trace).context.writers == context.writers,
    decreases trace.len(),
{
    if trace.len() > 0 {
        let before = trace.drop_last();
        let reached = after(fresh(context), before);
        lemma_takes_fit(context, before);
        match (reached.phase, trace.last().0) {
            (Phase::ChoosingWrites { cur_time }, Event::WritersPeeked(peeks)) => {
                lemma_collect_all_frame(reached.context, write_requests(peeks@, cur_time));
                lemma_ready_writers_len(peeks@, cur_time);
            },
            _ => {},
        }
    }
}

proof fn lemma_trace_wf(run: RunModel, trace: Seq<(Event, u64)>)
    requires
        run.wf(),
        admissible(run, trace),
    ensures
        after(run, trace).wf(),
{
    nothing_is_lost(run, trace);
}

proof fn lemma_reached_sound(context: ContextModel, trace: Seq<(Event, u64)>, start: int)
    requires
        context.wf(),
        admissible(fresh(context), trace),
        0 <= start <= trace.len(),
    ensures
        after(fresh(context), trace.take(start)).wf(),
        after(fresh(context), trace.take(start)).takes.len() <= context.writers.len(),
        after(fresh(context), trace.take(start)).context.writers == context.writers,
{
    lemma_admissible_take(fresh(context), trace, start);
    lemma_trace_wf(fresh(context), trace.take(start));
    lemma_takes_fit(context, trace.take(start));
}

proof fn lemma_trace_split(run: RunModel, trace: Seq<(Event, u64)>, start: int)
    requires
        admissible(run, trace),
        0 <= start <= trace.len(),
    ensures
        admissible(after(run, trace.take(start)), trace.skip(start)),
        after(after(run, trace.take(start)), trace.skip(start)) == after(run, trace),
    decreases trace.len(),
{
    if start == trace.len() {
        assert(trace.take(start) =~= trace);
    } else {
        let before = trace.drop_last();
        lemma_trace_split(run, before, start);
        assert(before.take(start) =~= trace.take(start));
        assert(trace.skip(start).drop_last() =~= before.skip(start));
        assert(trace.skip(start).last() == trace.last());
    }
}

proof fn lemma_limits_at_start(run: RunModel)
    requires
        run.takes.len() <= run.context.writers.len(),
    ensures
        within_limits(run, Tally::zero()),
{
    let writers = run.context.writers.len();
    assert(writers * 0 == 0) by (nonlinear_arith);
}

proof fn lemma_limits_of_round(run: RunModel, round: Tally)
    requires
        run.wf(),
        within_limits(run, round),
        round.rounds == 0,
    ensures
        round.answers <= 1,
        round.reads <= BATCH_SIZE,
        round.writes <= run.context.writers.len(),
{
    let writers = run.context.writers.len();
    assert(writers * 0 == 0) by (nonlinear_arith);
}

/// In every round, a run answers at most one read, takes at most as many addresses from readers
/// as a batch holds, and takes at most one request from each writer: so much holds of any part of
/// a run, from `start` to `end`, in which the clock is not advanced.
pub proof fn rounds_are_limited(
    context: ContextModel,
    trace: Seq<(Event, u64)>,
    start: int,
    end: int,
)
    requires
        context.wf(),
        admissible(fresh(context), trace),
        0 <= start <= end <= trace.len(),
        tally(
            after(fresh(context), trace.take(start)),
            trace.subrange(start, end),
        ).rounds == 0,
    ensures
        ({
            let round = tally(
                after(fresh(context), trace.take(start)),
                trace.subrange(start, end),
            );
            &&& round.answers <= 1
            &&& round.reads <= BATCH_SIZE
            &&& round.writes <= context.writers.len()
        }),
{
    let run = fresh(context);
    let reached = after(run, trace.take(start));
    let part = trace.subrange(start, end);
    assert(admissible(reached, part)) by {
        lemma_admissible_take(run, trace, end);
        lemma_trace_split(run, trace.take(end), start);
        assert(trace.take(end).take(start) =~= trace.take(start));
        assert(trace.take(end).skip(start) =~= part);
    }
    lemma_reached_sound(context, trace, start);
    lemma_limits_at_start(reached);
    lemma_trace_within_limits(reached, part);
    lemma_trace_wf(reached, part);
    lemma_limits_of_round(after(reached, part), tally(reached, part));
}

/// Over all rounds, a run answers no more reads than there were rounds, and takes no more from
/// readers and writers than the limits of those rounds allow. The round that has not ended counts
/// as one.
pub proof fn totals_are_limited(context: ContextModel, trace: Seq<(Event, u64)>)
    requires
        context.wf(),
        admissible(fresh(context), trace),
    ensures
        tally(fresh(context), trace).answers <= tally(fresh(context), trace).rounds + 1,
        tally(fresh(context), trace).reads <= BATCH_SIZE * (tally(fresh(context), trace).rounds
            + 1),
        tally(fresh(context), trace).writes <= context.writers.len() * (tally(
            fresh(context),
            trace,
        ).rounds + 1),
{
    lemma_trace_within_limits(fresh(context), trace);
    nothing_is_lost(fresh(context), trace);
    let count = tally(fresh(context), trace);
    let writers = context.writers.len();
    assert(writers * (count.rounds + 1) == writers * count.rounds + writers) by (nonlinear_arith);
}

proof fn lemma_step_counts(run: RunModel, event: Event, now: u64)
    requires
        run.wf(),
        run.accepts(event, now),
    ensures
        ({
            let (next, action) = run.step(event, now);
            let count = Tally::zero().with(action);
            &&& count.answers == answered(run, event).len()
            &&& count.acks == writes_of(accepted(run, event)).len()
            &&& count.reads == reads_of(gathered(run, event)).len()
            &&& count.writes + next.takes.len() == run.takes.len() + writes_of(
                gathered(run, event),
            ).len()
        }),
{
    let none = Seq::<Access>::empty();
    lemma_kinds_empty(none);
    match (run.phase, event) {
        (Phase::Sending { access, .. }, Event::Sent(true)) => {
            lemma_kinds_push(none, access);
            assert(none.push(access) =~= seq![access]);
        },
        (Phase::ChoosingRead { cur_time, .. }, Event::ReadersPeeked(peeks)) => {
            let request = read_request(
                peeks@,
                earliest(peeks@, cur_time),
            );
            lemma_kinds_push(none, request);
            assert(none.push(request) =~= seq![request]);
        },
        (Phase::ChoosingWrites { cur_time }, Event::WritersPeeked(peeks)) => {
            let requests = write_requests(peeks@, cur_time);
            let ready = ready_writers(peeks@, cur_time);
            assert forall|i: int| 0 <= i < requests.len() implies (#[trigger] requests[i])
                is SimpleWrite by {
                assert(requests[i] == write_request(peeks@[ready[i] as int], ready[i] as int));
            }
            lemma_kinds_of_writes(requests);
        },
        _ => {},
    }
}

/// Every request is taken from its channels once, every write that the device accepts is
/// acknowledged once, every read that it returns is answered once, and every cycle counted is one
/// that the device was told to make.
pub proof fn actions_match_requests(run: RunModel, trace: Seq<(Event, u64)>)
    requires
        run.wf(),
        admissible(run, trace),
    ensures
        tally(run, trace).reads == reads_of(all_gathered(run, trace)).len(),
        tally(run, trace).writes + after(run, trace).takes.len() == run.takes.len() + writes_of(
            all_gathered(run, trace),
        ).len(),
        tally(run, trace).acks == writes_of(all_accepted(run, trace)).len(),
        tally(run, trace).answers == all_answered(run, trace).len(),
        tally(run, trace).cycles + run.context.elapsed_cycles == after(
            run,
            trace,
        ).context.elapsed_cycles,
    decreases trace.len(),
{
    if trace.len() == 0 {
        lemma_kinds_empty(Seq::<Access>::empty());
    } else {
        let before = trace.drop_last();
        let (event, now) = trace.last();
        let reached = after(run, before);
        actions_match_requests(run, before);
        nothing_is_lost(run, before);
        lemma_step_counts(reached, event, now);
        cycles_are_counted(reached, event, now);
        lemma_kinds_concat(all_gathered(run, before), gathered(reached, event));
        lemma_kinds_concat(all_accepted(run, before), accepted(reached, event));
    }
}

/// Whether every batch that waits, and the one that is being filled, has priority 0.
pub open spec fn unranked(context: ContextModel) -> bool {
    &&& context.current.priority == 0
    &&& forall|i: int|
        0 <= i < context.batches.len() ==> (#[trigger] context.batches[i]).priority == 0
}

proof fn lemma_collect_all_unranked(context: ContextModel, accesses: Seq<Access>)
    requires
        unranked(context),
    ensures
        unranked(context.collect_all(accesses)),
    decreases accesses.len(),
{
    if accesses.len() > 0 {
        lemma_collect_all_unranked(context, accesses.drop_last());
    }
}

proof fn lemma_releases_unranked(context: ContextModel, now: u64)
    requires
        unranked(context),
    ensures
        unranked(context.after_releases(now)),
{
    let flushed = context.flushed();
    let left = context.after_releases(now);
    lemma_by_priority_members(flushed);
    assert forall|i: int| 0 <= i < left.batches.len() implies (
    #[trigger] left.batches[i]).priority == 0 by {
        if context.batches_due(now) {
            assert(flushed.contains(by_priority(flushed)[context.released() + i]));
        }
    }
}

/// No step of a run gives a waiting batch another priority than 0.
pub proof fn step_keeps_unranked(run: RunModel, event: Event, now: u64)
    requires
        run.accepts(event, now),
        unranked(run.context),
    ensures
        unranked(run.step(event, now).0.context),
{
    match (run.phase, event) {
        (Phase::ChoosingWrites { cur_time }, Event::WritersPeeked(peeks)) => {
            let requests = write_requests(peeks@, cur_time);
            lemma_collect_all_unranked(run.context, requests);
            lemma_releases_unranked(run.context.collect_all(requests), now);
        },
        (Phase::TakingWrites, Event::Done) => lemma_releases_unranked(run.context, now),
        _ => {},
    }
}

/// In a run of a context without batches, every batch that waits has priority 0, so that batches
/// are passed on in the order in which they wait.
pub proof fn waiting_batches_have_no_priority(context: ContextModel, trace: Seq<(Event, u64)>)
    requires
        context.batches.len() == 0,
        context.current == BatchModel::empty(),
        admissible(fresh(context), trace),
    ensures
        unranked(after(fresh(context), trace).context),
        by_priority(after(fresh(context), trace).context.flushed()) == after(
            fresh(context),
            trace,
        ).context.flushed(),
    decreases trace.len(),
{
    let run = fresh(context);
    if trace.len() > 0 {
        let before = trace.drop_last();
        waiting_batches_have_no_priority(context, before);
        step_keeps_unranked(after(run, before), trace.last().0, trace.last().1);
    }
    one_priority_keeps_order(after(run, trace).context.flushed());
}

/// Requests that are tried again go before those of batches of lower priority: by priority, the
/// batch that they make stands first.
pub proof fn retries_outrank_batches(context: ContextModel)
    requires
        unranked(context),
    ensures
        by_priority(context.flushed().push(context.retry_batch())) == seq![
            context.retry_batch(),
        ] + context.flushed(),
{
    let flushed = context.flushed();
    let batch = context.retry_batch();
    one_priority_keeps_order(flushed);
    lemma_placed_at(flushed, batch, 0);
    assert(flushed.push(batch).drop_last() =~= flushed);
    assert(flushed.insert(0, batch) =~= seq![batch] + flushed);
}

/// Whether a run is passing on the requests of batches.
pub open spec fn releasing(phase: Phase) -> bool {
    match phase {
        Phase::Sending { round: Round::Release, .. } => true,
        Phase::Acknowledging { round: Round::Release } => true,
        _ => false,
    }
}

proof fn lemma_releasing_until_tick(run: RunModel, trace: Seq<(Event, u64)>, start: int)
    requires
        admissible(run, trace),
        0 <= start <= trace.len(),
        releasing(after(run, trace.take(start)).phase),
        forall|i: int|
            start < i <= trace.len() ==> !((#[trigger] after(run, trace.take(i))).phase
                is Advancing),
    ensures
        releasing(after(run, trace).phase),
    decreases trace.len(),
{
    assert(trace.take(trace.len() as int) =~= trace);
    if start < trace.len() {
        let before = trace.drop_last();
        assert forall|i: int| start < i <= before.len() implies !((#[trigger] after(
            run,
            before.take(i),
        )).phase is Advancing) by {
            assert(before.take(i) =~= trace.take(i));
        }
        assert(before.take(start) =~= trace.take(start));
        lemma_releasing_until_tick(run, before, start);
        assert(!(after(run, trace.take(trace.len() as int)).phase is Advancing));
    }
}

/// Within a round, requests are tried again before any request of a batch is sent: between a
/// request of a batch and a later one that is tried again, a tick passes.
pub proof fn retries_come_before_batches(
    run: RunModel,
    trace: Seq<(Event, u64)>,
    released: int,
    retried: int,
    retry: Access,
)
    requires
        admissible(run, trace),
        0 <= released < retried <= trace.len(),
        releasing(after(run, trace.take(released)).phase),
        after(run, trace.take(retried)).phase == (Phase::Sending {
            access: retry,
            round: Round::Retry,
        }),
    ensures
        exists|tick: int|
            released < tick < retried && (#[trigger] after(run, trace.take(tick))).phase
                is Advancing,
{
    if forall|tick: int|
        released < tick < retried ==> !((#[trigger] after(run, trace.take(tick))).phase
            is Advancing) {
        let part = trace.take(retried);
        lemma_admissible_take(run, trace, retried);
        assert forall|i: int| released < i <= part.len() implies !((#[trigger] after(
            run,
            part.take(i),
        )).phase is Advancing) by {
            assert(part.take(i) =~= trace.take(i));
        }
        assert(part.take(released) =~= trace.take(released));
        lemma_releasing_until_tick(run, part, released);
    }
}

proof fn lemma_admissible_take(run: RunModel, trace: Seq<(Event, u64)>, len: int)
    requires
        admissible(run, trace),
        0 <= len <= trace.len(),
    ensures
        admissible(run, trace.take(len)),
    decreases trace.len(),
{
    if len == trace.len() {
        assert(trace.take(len) =~= trace);
    } else {
        lemma_admissible_take(run, trace.drop_last(), len);
        assert(trace.drop_last().take(len) =~= trace.take(len));
    }
}

/// The request that the device turns away in a step, if any.
pub open spec fn turned_away(run: RunModel, event: Event) -> Seq<Access> {
    match (run.phase, event) {
        (Phase::Sending { access, .. }, Event::Sent(false)) => seq![access],
        _ => Seq::empty(),
    }
}

/// The backlog loses only the requests that are tried again, from its front, and gains only
/// those that the device turns away, at its end.
pub proof fn backlog_is_a_queue(run: RunModel, event: Event, now: u64)
    requires
        run.accepts(event, now),
    ensures
        ({
            let backlog = run.step(event, now).0.context.backlog;
            ||| backlog == run.context.backlog + turned_away(run, event)
            ||| backlog == run.context.after_retries().backlog && turned_away(run, event).len() == 0
        }),
{
    let backlog = run.step(event, now).0.context.backlog;
    match (run.phase, event) {
        (Phase::Sending { access, .. }, Event::Sent(false)) => {
            assert(backlog =~= run.context.backlog + seq![access]);
        },
        (Phase::ChoosingWrites { cur_time }, Event::WritersPeeked(peeks)) => {
            lemma_collect_all_frame(run.context, write_requests(peeks@, cur_time));
            assert(backlog =~= run.context.backlog + Seq::<Access>::empty());
        },
        _ => {
            assert(run.context.backlog =~= run.context.backlog + Seq::<Access>::empty());
        },
    }
}

} // verus!
