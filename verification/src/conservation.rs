//! No request is lost or made up: what a run gathers, the device accepts once, and every read
//! that it accepts is answered once.

use crate::access::{Access, SimpleRead};
use crate::address::ByteAddress;
use crate::batch::BatchModel;
use crate::channel::WriterPeek;
use crate::model::{
    any_ready, earliest, lemma_kinds_empty, lemma_kinds_push, outstanding_after, passed_on,
    read_request, reads_of, ready_writers, write_requests, writes_of, ContextModel,
};
use crate::priority::{by_priority, lemma_by_priority_members, placed};
use crate::protocol::{all_closed, nothing_waits, simulation_goes_on_while_there_is_work};
use crate::request_manager::{lemma_oldest_read, oldest_read};
use crate::run::{Event, Phase, Round, RunModel, Stage};
use crate::soundness::step_keeps_wf;
use vstd::multiset::Multiset;
use vstd::prelude::*;
use vstd::seq_lib::lemma_multiset_commutative;

verus! {

/// The requests that wait in a context.
pub open spec fn waiting(context: ContextModel) -> Multiset<Access> {
    context.backlog.to_multiset().add(passed_on(context.batches).to_multiset()).add(
        context.current.in_order().to_multiset(),
    )
}

/// The requests that wait in a run or are about to be sent, besides the one that the device is
/// deciding on.
pub open spec fn pooled(run: RunModel) -> Multiset<Access> {
    waiting(run.context).add(run.sends.to_multiset())
}

/// The requests that a run holds: those that have been gathered and not accepted.
pub open spec fn held(run: RunModel) -> Multiset<Access> {
    match run.phase {
        Phase::Sending { access, .. } => pooled(run).insert(access),
        _ => pooled(run),
    }
}

/// The requests that a step gathers.
pub open spec fn gathered(run: RunModel, event: Event) -> Seq<Access> {
    match (run.phase, event) {
        (Phase::ChoosingRead { cur_time, .. }, Event::ReadersPeeked(peeks)) => {
            if any_ready(peeks@, cur_time) {
                seq![read_request(peeks@, earliest(peeks@, cur_time))]
            } else {
                Seq::empty()
            }
        },
        (Phase::ChoosingWrites { cur_time }, Event::WritersPeeked(peeks)) => {
            write_requests(peeks@, cur_time)
        },
        _ => Seq::empty(),
    }
}

/// The request that the device accepts in a step, if any.
pub open spec fn accepted(run: RunModel, event: Event) -> Seq<Access> {
    match (run.phase, event) {
        (Phase::Sending { access, .. }, Event::Sent(true)) => seq![access],
        _ => Seq::empty(),
    }
}

/// The read that is answered in a step, if any.
pub open spec fn answered(run: RunModel, event: Event) -> Seq<SimpleRead> {
    match (run.phase, event) {
        (Phase::Polling, Event::Returned(Some(location))) => {
            seq![run.outstanding[oldest_read(run.outstanding, ByteAddress(location))]]
        },
        _ => Seq::empty(),
    }
}

/// The reads among `accesses`, in order.
pub open spec fn reads_among(accesses: Seq<Access>) -> Seq<SimpleRead>
    decreases accesses.len(),
{
    if accesses.len() == 0 {
        Seq::empty()
    } else {
        match accesses.last() {
            Access::SimpleRead(read) => reads_among(accesses.drop_last()).push(read),
            Access::SimpleWrite(_) => reads_among(accesses.drop_last()),
        }
    }
}

proof fn lemma_reads_among_concat(left: Seq<Access>, right: Seq<Access>)
    ensures
        reads_among(left + right) == reads_among(left) + reads_among(right),
    decreases right.len(),
{
    if right.len() == 0 {
        assert(left + right =~= left);
    } else {
        lemma_reads_among_concat(left, right.drop_last());
        assert((left + right).drop_last() =~= left + right.drop_last());
        assert((left + right).last() == right.last());
    }
    assert(reads_among(left + right) =~= reads_among(left) + reads_among(right));
}

/// What a run becomes when events come one after the other, each at its tick.
pub open spec fn after(run: RunModel, trace: Seq<(Event, u64)>) -> RunModel
    decreases trace.len(),
{
    if trace.len() == 0 {
        run
    } else {
        after(run, trace.drop_last()).step(trace.last().0, trace.last().1).0
    }
}

/// Whether each of the events is what the run waits for when it comes.
pub open spec fn admissible(run: RunModel, trace: Seq<(Event, u64)>) -> bool
    decreases trace.len(),
{
    trace.len() > 0 ==> {
        &&& admissible(run, trace.drop_last())
        &&& after(run, trace.drop_last()).accepts(trace.last().0, trace.last().1)
    }
}

/// All requests gathered along the way, in order.
pub open spec fn all_gathered(run: RunModel, trace: Seq<(Event, u64)>) -> Seq<Access>
    decreases trace.len(),
{
    if trace.len() == 0 {
        Seq::empty()
    } else {
        let before = trace.drop_last();
        all_gathered(run, before) + gathered(after(run, before), trace.last().0)
    }
}

/// All requests accepted along the way, in order.
pub open spec fn all_accepted(run: RunModel, trace: Seq<(Event, u64)>) -> Seq<Access>
    decreases trace.len(),
{
    if trace.len() == 0 {
        Seq::empty()
    } else {
        let before = trace.drop_last();
        all_accepted(run, before) + accepted(after(run, before), trace.last().0)
    }
}

/// All reads answered along the way, in order.
pub open spec fn all_answered(run: RunModel, trace: Seq<(Event, u64)>) -> Seq<SimpleRead>
    decreases trace.len(),
{
    if trace.len() == 0 {
        Seq::empty()
    } else {
        let before = trace.drop_last();
        all_answered(run, before) + answered(after(run, before), trace.last().0)
    }
}

proof fn lemma_kinds_multiset(accesses: Seq<Access>)
    ensures
        (writes_of(accesses) + reads_of(accesses)).to_multiset() == accesses.to_multiset(),
    decreases accesses.len(),
{
    broadcast use vstd::seq_lib::group_to_multiset_ensures;

    lemma_multiset_commutative(writes_of(accesses), reads_of(accesses));
    if accesses.len() == 0 {
        lemma_kinds_empty(accesses);
        assert(accesses =~= Seq::<Access>::empty());
    } else {
        let before = accesses.drop_last();
        let access = accesses.last();
        lemma_kinds_multiset(before);
        lemma_multiset_commutative(writes_of(before), reads_of(before));
        lemma_kinds_push(before, access);
        assert(before.push(access) =~= accesses);
    }
    assert(writes_of(accesses).to_multiset().add(reads_of(accesses).to_multiset())
        =~= accesses.to_multiset());
}

proof fn lemma_passed_on_push(batches: Seq<BatchModel>, batch: BatchModel)
    ensures
        passed_on(batches.push(batch)) == passed_on(batches) + batch.in_order(),
{
    assert(batches.push(batch).drop_last() =~= batches);
}

/// Batches that stand behind others are passed on behind them.
pub proof fn lemma_passed_on_concat(left: Seq<BatchModel>, right: Seq<BatchModel>)
    ensures
        passed_on(left + right) == passed_on(left) + passed_on(right),
    decreases right.len(),
{
    if right.len() == 0 {
        assert(left + right =~= left);
    } else {
        lemma_passed_on_concat(left, right.drop_last());
        assert((left + right).drop_last() =~= left + right.drop_last());
        assert((left + right).last() == right.last());
    }
    assert(passed_on(left + right) =~= passed_on(left) + passed_on(right));
}

proof fn lemma_placed_passed_on(ordered: Seq<BatchModel>, batch: BatchModel)
    ensures
        passed_on(placed(ordered, batch)).to_multiset() == passed_on(ordered).to_multiset().add(
            batch.in_order().to_multiset(),
        ),
    decreases ordered.len(),
{
    lemma_passed_on_push(ordered, batch);
    lemma_multiset_commutative(passed_on(ordered), batch.in_order());
    if ordered.len() > 0 && ordered.last().priority < batch.priority {
        let before = ordered.drop_last();
        let last = ordered.last();
        lemma_placed_passed_on(before, batch);
        lemma_passed_on_push(placed(before, batch), last);
        lemma_multiset_commutative(passed_on(placed(before, batch)), last.in_order());
        lemma_multiset_commutative(passed_on(before), last.in_order());
        assert(passed_on(placed(ordered, batch)).to_multiset() =~= passed_on(
            ordered,
        ).to_multiset().add(batch.in_order().to_multiset()));
    }
}

proof fn lemma_by_priority_passed_on(batches: Seq<BatchModel>)
    ensures
        passed_on(by_priority(batches)).to_multiset() == passed_on(batches).to_multiset(),
    decreases batches.len(),
{
    if batches.len() > 0 {
        let before = batches.drop_last();
        lemma_by_priority_passed_on(before);
        lemma_placed_passed_on(by_priority(before), batches.last());
        lemma_multiset_commutative(passed_on(before), batches.last().in_order());
    }
}

proof fn lemma_with_multiset(batch: BatchModel, access: Access)
    ensures
        batch.with(access).in_order().to_multiset() == batch.in_order().to_multiset().insert(
            access,
        ),
{
    broadcast use vstd::seq_lib::group_to_multiset_ensures;

    let more = batch.with(access);
    lemma_multiset_commutative(batch.writes, batch.reads);
    lemma_multiset_commutative(more.writes, more.reads);
    assert(more.in_order().to_multiset() =~= batch.in_order().to_multiset().insert(access));
}

proof fn lemma_collect_waiting(context: ContextModel, access: Access)
    ensures
        waiting(context.collect(access)) == waiting(context).insert(access),
{
    broadcast use vstd::seq_lib::group_to_multiset_ensures;

    if context.current.full() {
        lemma_passed_on_push(context.batches, context.current);
        lemma_multiset_commutative(passed_on(context.batches), context.current.in_order());
        lemma_with_multiset(BatchModel::empty(), access);
        assert(BatchModel::empty().in_order() =~= Seq::<Access>::empty());
    } else {
        lemma_with_multiset(context.current, access);
    }
    assert(waiting(context.collect(access)) =~= waiting(context).insert(access));
}

proof fn lemma_collect_all_waiting(context: ContextModel, accesses: Seq<Access>)
    ensures
        waiting(context.collect_all(accesses)) == waiting(context).add(accesses.to_multiset()),
    decreases accesses.len(),
{
    broadcast use vstd::seq_lib::group_to_multiset_ensures;

    if accesses.len() == 0 {
        assert(accesses =~= Seq::<Access>::empty());
    } else {
        let before = accesses.drop_last();
        lemma_collect_all_waiting(context, before);
        lemma_collect_waiting(context.collect_all(before), accesses.last());
        assert(before.push(accesses.last()) =~= accesses);
    }
    assert(waiting(context.collect_all(accesses)) =~= waiting(context).add(
        accesses.to_multiset(),
    ));
}

proof fn lemma_retries_waiting(context: ContextModel)
    ensures
        waiting(context.after_retries()).add(context.retries().to_multiset()) == waiting(context),
{
    let oldest = context.backlog.take(context.retried());
    let rest = context.backlog.skip(context.retried());
    lemma_kinds_multiset(oldest);
    lemma_multiset_commutative(oldest, rest);
    assert(oldest + rest =~= context.backlog);
    assert(waiting(context.after_retries()).add(context.retries().to_multiset()) =~= waiting(
        context,
    ));
}

proof fn lemma_releases_waiting(context: ContextModel, now: u64)
    ensures
        waiting(context.after_releases(now)).add(context.releases(now).to_multiset()) == waiting(
            context,
        ),
{
    broadcast use vstd::seq_lib::group_to_multiset_ensures;

    let left = context.after_releases(now);
    let backlog = context.backlog.to_multiset();
    if context.batches_due(now) {
        let flushed = context.flushed();
        let ordered = by_priority(flushed);
        let taken = ordered.take(context.released());
        let rest = ordered.skip(context.released());
        let current = context.current.in_order().to_multiset();
        let batched = passed_on(context.batches).to_multiset();
        lemma_by_priority_members(flushed);
        lemma_by_priority_passed_on(flushed);
        assert(taken + rest =~= ordered);
        lemma_passed_on_concat(taken, rest);
        lemma_multiset_commutative(passed_on(taken), passed_on(rest));
        assert(context.current.in_order().len() == context.current.size());
        assert(passed_on(flushed).to_multiset() =~= batched.add(current)) by {
            if context.current.size() > 0 {
                lemma_passed_on_push(context.batches, context.current);
                lemma_multiset_commutative(passed_on(context.batches), context.current.in_order());
            }
        }
        assert(left.current.in_order() =~= Seq::<Access>::empty());
        assert(waiting(left) =~= backlog.add(passed_on(rest).to_multiset()));
        assert(waiting(left).add(passed_on(taken).to_multiset()) =~= backlog.add(
            passed_on(flushed).to_multiset(),
        ));
        assert(waiting(context) =~= backlog.add(batched.add(current)));
    } else {
        assert(waiting(left).add(Seq::<Access>::empty().to_multiset()) =~= waiting(left));
    }
}

proof fn lemma_send_next_held(run: RunModel, round: Round)
    ensures
        held(run.send_next(round).0) == pooled(run),
{
    broadcast use vstd::seq_lib::group_to_multiset_ensures;

    if run.sends.len() > 0 {
        assert(run.sends.drop_first() =~= run.sends.remove(0));
        assert(run.sends.contains(run.sends[0]));
    }
    assert(held(run.send_next(round).0) =~= pooled(run));
}

proof fn lemma_retry_held(run: RunModel)
    requires
        run.sends.len() == 0,
    ensures
        held(run.retry().0) == pooled(run),
{
    broadcast use vstd::seq_lib::group_to_multiset_ensures;

    let tried = RunModel {
        context: run.context.after_retries(),
        sends: run.context.retries(),
        ..run
    };
    lemma_retries_waiting(run.context);
    lemma_send_next_held(tried, Round::Retry);
    assert(run.sends =~= Seq::<Access>::empty());
    assert(pooled(tried) =~= pooled(run));
}

proof fn lemma_catch_up_held(run: RunModel, cur_ticks: u64, stage: Stage, now: u64)
    requires
        run.sends.len() == 0,
    ensures
        held(run.catch_up(cur_ticks, stage, now).0) == pooled(run),
{
    lemma_retry_held(run);
}

proof fn lemma_take_next_held(run: RunModel, now: u64)
    requires
        run.sends.len() == 0,
    ensures
        held(run.take_next(now).0) == pooled(run),
{
    broadcast use vstd::seq_lib::group_to_multiset_ensures;

    if run.takes.len() == 0 {
        let released = RunModel {
            context: run.context.after_releases(now),
            sends: run.context.releases(now),
            ..run
        };
        lemma_releases_waiting(run.context, now);
        lemma_send_next_held(released, Round::Release);
        assert(run.sends =~= Seq::<Access>::empty());
        assert(pooled(released) =~= pooled(run));
    }
}

proof fn lemma_settle_held(run: RunModel, access: Access, round: Round, taken: bool, now: u64)
    ensures
        held(run.settle(access, round, taken, now).0) == if taken {
            pooled(run)
        } else {
            pooled(run).insert(access)
        },
{
    broadcast use vstd::seq_lib::group_to_multiset_ensures;

    let settled = RunModel {
        context: run.context.settled(access, taken),
        outstanding: outstanding_after(run.outstanding, access, taken),
        ..run
    };
    lemma_send_next_held(settled, round);
    if !taken {
        assert(pooled(settled) =~= pooled(run).insert(access));
    }
}

proof fn lemma_choose_writes_held(run: RunModel, cur_time: u64, peeks: Seq<WriterPeek>, now: u64)
    requires
        run.sends.len() == 0,
    ensures
        held(run.choose_writes(cur_time, peeks, now).0) == pooled(run).add(
            write_requests(peeks, cur_time).to_multiset(),
        ),
{
    let requests = write_requests(peeks, cur_time);
    let chosen = RunModel {
        context: run.context.collect_all(requests),
        takes: ready_writers(peeks, cur_time),
        ..run
    };
    lemma_collect_all_waiting(run.context, requests);
    lemma_take_next_held(chosen, now);
    assert(pooled(chosen) =~= pooled(run).add(requests.to_multiset()));
}

/// A step holds on to every request: those held before it and those it gathers are those that
/// the device accepts in it and those held after it.
pub proof fn step_keeps_requests(run: RunModel, event: Event, now: u64)
    requires
        run.wf(),
        run.accepts(event, now),
    ensures
        held(run.step(event, now).0).add(accepted(run, event).to_multiset()) == held(run).add(
            gathered(run, event).to_multiset(),
        ),
{
    broadcast use vstd::seq_lib::group_to_multiset_ensures;

    let next = run.step(event, now).0;
    match (run.phase, event) {
        (Phase::Starting, Event::Done) => lemma_retry_held(run),
        (Phase::Checking, Event::ChannelsPeeked(_, _)) => lemma_retry_held(run),
        (Phase::Sending { access, round }, Event::Sent(taken)) => {
            lemma_settle_held(run, access, round, taken, now);
            assert(seq![access] =~= Seq::<Access>::empty().push(access));
        },
        (Phase::Acknowledging { round }, Event::Done) => lemma_send_next_held(run, round),
        (Phase::Polling, Event::Returned(None)) => {
            lemma_catch_up_held(run, now, Stage::Before, now);
        },
        (Phase::AnsweringAddr, Event::Done) => {
            lemma_catch_up_held(run, now, Stage::Before, now);
        },
        (Phase::Ticking { cur_ticks, stage }, Event::Done) => {
            lemma_catch_up_held(run, cur_ticks, stage, now);
        },
        (Phase::ChoosingRead { cur_time, .. }, Event::ReadersPeeked(peeks)) => {
            let request = read_request(peeks@, earliest(peeks@, cur_time));
            lemma_collect_waiting(run.context, request);
            assert(seq![request] =~= Seq::<Access>::empty().push(request));
        },
        (Phase::ChoosingWrites { cur_time }, Event::WritersPeeked(peeks)) => {
            lemma_choose_writes_held(run, cur_time, peeks@, now);
        },
        (Phase::TakingWrites, Event::Done) => lemma_take_next_held(run, now),
        (Phase::Advancing, Event::Done) => lemma_catch_up_held(run, now, Stage::After, now),
        _ => {},
    }
    assert(held(next).add(accepted(run, event).to_multiset()) =~= held(run).add(
        gathered(run, event).to_multiset(),
    ));
}

/// A step keeps track of every read: those outstanding before it and those that the device
/// accepts in it are those answered in it and those outstanding after it.
pub proof fn step_keeps_reads(run: RunModel, event: Event, now: u64)
    requires
        run.wf(),
        run.accepts(event, now),
    ensures
        run.step(event, now).0.outstanding.to_multiset().add(answered(run, event).to_multiset())
            == run.outstanding.to_multiset().add(
            reads_among(accepted(run, event)).to_multiset(),
        ),
{
    broadcast use vstd::seq_lib::group_to_multiset_ensures;

    reveal_with_fuel(reads_among, 2);
    let next = run.step(event, now).0;
    match (run.phase, event) {
        (Phase::Sending { access, .. }, Event::Sent(true)) => {
            assert(seq![access].drop_last() =~= Seq::<Access>::empty());
        },
        (Phase::Polling, Event::Returned(Some(location))) => {
            let oldest = oldest_read(run.outstanding, ByteAddress(location));
            lemma_oldest_read(run.outstanding, ByteAddress(location));
            let read = run.outstanding[oldest];
            assert(seq![read] =~= Seq::<SimpleRead>::empty().push(read));
            assert(run.outstanding.contains(read));
        },
        _ => {},
    }
    assert(next.outstanding.to_multiset().add(answered(run, event).to_multiset())
        =~= run.outstanding.to_multiset().add(reads_among(accepted(run, event)).to_multiset()));
}

proof fn lemma_balance<A>(
    first: Multiset<A>,
    second: Multiset<A>,
    third: Multiset<A>,
    out: Multiset<A>,
    more_out: Multiset<A>,
    into: Multiset<A>,
    more_into: Multiset<A>,
)
    requires
        second.add(out) == first.add(into),
        third.add(more_out) == second.add(more_into),
    ensures
        third.add(out.add(more_out)) == first.add(into.add(more_into)),
{

    assert forall|item: A|
        #[trigger] third.add(out.add(more_out)).count(item) == first.add(into.add(more_into)).count(
            item,
        ) by {
        assert(second.add(out).count(item) == second.count(item) + out.count(item));
        assert(first.add(into).count(item) == first.count(item) + into.count(item));
        assert(third.add(more_out).count(item) == third.count(item) + more_out.count(item));
        assert(second.add(more_into).count(item) == second.count(item) + more_into.count(item));
    }
    assert(third.add(out.add(more_out)) =~= first.add(into.add(more_into)));
}

/// Whatever a run is answered with, it loses no request and makes none up: those it held at
/// first and those it has gathered are those accepted so far and those it still holds. And the
/// reads outstanding at first and those accepted are those answered so far and those still
/// outstanding.
pub proof fn nothing_is_lost(run: RunModel, trace: Seq<(Event, u64)>)
    requires
        run.wf(),
        admissible(run, trace),
    ensures
        after(run, trace).wf(),
        held(after(run, trace)).add(all_accepted(run, trace).to_multiset()) == held(run).add(
            all_gathered(run, trace).to_multiset(),
        ),
        after(run, trace).outstanding.to_multiset().add(all_answered(run, trace).to_multiset())
            == run.outstanding.to_multiset().add(
            reads_among(all_accepted(run, trace)).to_multiset(),
        ),
    decreases trace.len(),
{
    broadcast use vstd::seq_lib::group_to_multiset_ensures;

    if trace.len() > 0 {
        let before = trace.drop_last();
        let (event, now) = trace.last();
        let reached = after(run, before);
        nothing_is_lost(run, before);
        step_keeps_wf(reached, event, now);
        step_keeps_requests(reached, event, now);
        step_keeps_reads(reached, event, now);
        lemma_multiset_commutative(all_accepted(run, before), accepted(reached, event));
        lemma_multiset_commutative(all_gathered(run, before), gathered(reached, event));
        lemma_multiset_commutative(all_answered(run, before), answered(reached, event));
        lemma_reads_among_concat(all_accepted(run, before), accepted(reached, event));
        lemma_multiset_commutative(
            reads_among(all_accepted(run, before)),
            reads_among(accepted(reached, event)),
        );
        lemma_balance(
            held(run),
            held(reached),
            held(after(run, trace)),
            all_accepted(run, before).to_multiset(),
            accepted(reached, event).to_multiset(),
            all_gathered(run, before).to_multiset(),
            gathered(reached, event).to_multiset(),
        );
        lemma_balance(
            run.outstanding.to_multiset(),
            reached.outstanding.to_multiset(),
            after(run, trace).outstanding.to_multiset(),
            all_answered(run, before).to_multiset(),
            answered(reached, event).to_multiset(),
            reads_among(all_accepted(run, before)).to_multiset(),
            reads_among(accepted(reached, event)).to_multiset(),
        );
    }
}

/// A run ends only when it is done: from a fresh start, once it has ended, the device has
/// accepted every request that was gathered, once each, and every read that it has accepted has
/// been answered, once each.
pub proof fn ended_run_has_served_all(context: ContextModel, trace: Seq<(Event, u64)>)
    requires
        context.wf(),
        context.idle(),
        admissible(fresh(context), trace),
        after(fresh(context), trace).phase is Finished,
    ensures
        all_accepted(fresh(context), trace).to_multiset() == all_gathered(
            fresh(context),
            trace,
        ).to_multiset(),
        all_answered(fresh(context), trace).to_multiset() == reads_among(
            all_accepted(fresh(context), trace),
        ).to_multiset(),
{
    broadcast use vstd::seq_lib::group_to_multiset_ensures;

    let run = fresh(context);
    let before = trace.drop_last();
    let (event, now) = trace.last();
    let reached = after(run, before);
    let ended = after(run, trace);
    nothing_is_lost(run, trace);
    nothing_is_lost(run, before);
    run_ends_when_all_is_done(reached, event, now);
    lemma_idle_holds_nothing(context);
    lemma_idle_holds_nothing(ended.context);
    assert(ended.sends =~= Seq::<Access>::empty());
    assert(ended.outstanding =~= Seq::<SimpleRead>::empty());
    assert(held(ended) =~= Multiset::<Access>::empty());
    assert(held(run) =~= Multiset::<Access>::empty());
    assert(all_accepted(run, trace).to_multiset() =~= held(ended).add(
        all_accepted(run, trace).to_multiset(),
    ));
    assert(all_gathered(run, trace).to_multiset() =~= held(run).add(
        all_gathered(run, trace).to_multiset(),
    ));
    assert(all_answered(run, trace).to_multiset() =~= ended.outstanding.to_multiset().add(
        all_answered(run, trace).to_multiset(),
    ));
    assert(reads_among(all_accepted(run, trace)).to_multiset() =~= run.outstanding.to_multiset().add(
        reads_among(all_accepted(run, trace)).to_multiset(),
    ));
}

/// A run of `context` that has not begun.
pub open spec fn fresh(context: ContextModel) -> RunModel {
    RunModel {
        context,
        outstanding: Seq::empty(),
        phase: Phase::Starting,
        sends: Seq::empty(),
        takes: Seq::empty(),
    }
}

/// Whether a look at all channels shows that there is nothing left to do.
pub open spec fn finds_nothing(run: RunModel, event: Event) -> bool {
    match (run.phase, event) {
        (Phase::Checking, Event::ChannelsPeeked(writers, readers)) => {
            &&& run.outstanding.len() == 0
            &&& nothing_waits(run.context)
            &&& all_closed(writers@, readers@)
        },
        _ => false,
    }
}

/// A run ends in a step exactly where it looked at its channels, nothing waits, every writer has
/// a channel closed, and every reader's channel is closed.
pub proof fn run_ends_when_all_is_done(run: RunModel, event: Event, now: u64)
    requires
        run.wf(),
        run.accepts(event, now),
    ensures
        run.step(event, now).0.phase is Finished <==> finds_nothing(run, event),
        run.step(event, now).0.phase is Finished ==> {
            &&& run.step(event, now).1 is Finish
            &&& run.step(event, now).0.context.idle()
            &&& nothing_waits(run.step(event, now).0.context)
            &&& run.step(event, now).0.outstanding.len() == 0
        },
{
    if let (Phase::Checking, Event::ChannelsPeeked(writers, readers)) = (run.phase, event) {
        simulation_goes_on_while_there_is_work(
            run.context,
            run.outstanding,
            writers@,
            readers@,
        );
    }
}

proof fn lemma_idle_holds_nothing(context: ContextModel)
    requires
        context.idle(),
    ensures
        waiting(context) == Multiset::<Access>::empty(),
{
    broadcast use vstd::seq_lib::group_to_multiset_ensures;

    assert(context.backlog =~= Seq::<Access>::empty());
    assert(passed_on(context.batches) =~= Seq::<Access>::empty());
    assert(context.current.in_order() =~= Seq::<Access>::empty());
    assert(waiting(context) =~= Multiset::<Access>::empty());
}

} // verus!
