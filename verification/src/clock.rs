//! How a run goes by the clock: when the device makes a cycle, and from when on a request counts
//! as arrived.

use crate::channel::{PeekResult, WriterPeek};
use crate::conservation::{admissible, after, fresh, nothing_is_lost};
use crate::gathering::{
    arrived, arrived_first, both_arrived, taken_read_names_its_reader,
    writers_with_arrivals_are_chosen,
};
use crate::model::{lemma_collect_all_frame, ready_writers, write_requests, ContextModel};
use crate::pace::{cycles_are_counted, device_is_never_ahead};
use crate::protocol::{begins_or_looks, run_begins};
use crate::rounds::{actions_match_requests, tally};
use crate::run::{Action, Event, Phase, Round, RunModel, Stage};
use vstd::arithmetic::div_mod::lemma_fundamental_div_mod;
use vstd::prelude::*;

verus! {

/// The number of cycles that is expected after `ticks` ticks is the greatest that keeps the
/// ratio: with `c` cycles in `d` ticks, the greatest `n` with `n * d <= ticks * c`.
pub proof fn expected_cycles_keep_the_ratio(context: ContextModel, ticks: u64)
    requires
        context.cycles_per_tick.1 != 0,
    ensures
        context.expected_cycles(ticks) * context.cycles_per_tick.1 <= ticks
            * context.cycles_per_tick.0,
        ticks * context.cycles_per_tick.0 < (context.expected_cycles(ticks) + 1)
            * context.cycles_per_tick.1,
{
    let (cycles, span) = context.cycles_per_tick;
    let product = ticks as int * cycles as int;
    assert(product >= 0) by (nonlinear_arith)
        requires
            product == ticks as int * cycles as int,
            ticks >= 0,
            cycles >= 0,
    ;
    let quotient = product / span as int;
    lemma_fundamental_div_mod(product, span as int);
    assert(quotient * span <= product < (quotient + 1) * span) by (nonlinear_arith)
        requires
            product == span * quotient + product % (span as int),
            0 <= (product % (span as int)) < span,
    ;
}

/// Whether the device has a cycle to make: one more still keeps the ratio at tick `ticks`.
pub open spec fn has_cycle_to_make(context: ContextModel, ticks: u64) -> bool {
    (context.elapsed_cycles + 1) * context.cycles_per_tick.1 <= ticks * context.cycles_per_tick.0
}

proof fn lemma_cycle_to_make(context: ContextModel, ticks: u64)
    requires
        context.cycles_per_tick.1 != 0,
    ensures
        has_cycle_to_make(context, ticks) <==> context.elapsed_cycles < context.expected_cycles(
            ticks,
        ),
{
    expected_cycles_keep_the_ratio(context, ticks);
    let n = context.elapsed_cycles as int;
    let expected = context.expected_cycles(ticks) as int;
    let span = context.cycles_per_tick.1 as int;
    let product = ticks * context.cycles_per_tick.0;
    if n < expected {
        assert((n + 1) * span <= expected * span) by (nonlinear_arith)
            requires
                n + 1 <= expected,
                span > 0,
        ;
    } else {
        assert((expected + 1) * span <= (n + 1) * span) by (nonlinear_arith)
            requires
                expected <= n,
                span > 0,
        ;
    }
}

/// The tick that the device is to catch up with in this step, and when in the round that is, if
/// it is to catch up.
pub open spec fn catching_up(run: RunModel, event: Event, now: u64) -> Option<(u64, Stage)> {
    match (run.phase, event) {
        (Phase::Polling, Event::Returned(None)) => Some((now, Stage::Before)),
        (Phase::AnsweringAddr, Event::Done) => Some((now, Stage::Before)),
        (Phase::Ticking { cur_ticks, stage }, Event::Done) => Some((cur_ticks, stage)),
        (Phase::Advancing, Event::Done) => Some((now, Stage::After)),
        _ => None,
    }
}

/// The device makes a cycle exactly where one more keeps the ratio. Once it has none to make,
/// the readers are looked at as of the current tick, or the next round begins.
pub proof fn device_makes_the_cycles_it_has(run: RunModel, event: Event, now: u64)
    requires
        run.wf(),
        run.accepts(event, now),
        catching_up(run, event, now) is Some,
    ensures
        ({
            let (next, action) = run.step(event, now);
            let (ticks, stage) = catching_up(run, event, now)->0;
            if has_cycle_to_make(run.context, ticks) {
                &&& action is Tick
                &&& next == (RunModel {
                    context: ContextModel {
                        elapsed_cycles: run.context.elapsed_cycles + 1,
                        ..run.context
                    },
                    phase: Phase::Ticking { cur_ticks: ticks, stage },
                    ..run
                })
            } else {
                match stage {
                    Stage::Before => {
                        &&& action is PeekReaders
                        &&& next == (RunModel {
                            phase: Phase::ChoosingRead { cur_time: now, taken: 0 },
                            ..run
                        })
                    },
                    Stage::After => begins_or_looks(run, next, action),
                }
            }
        }),
{
    let (ticks, stage) = catching_up(run, event, now)->0;
    lemma_cycle_to_make(run.context, ticks);
    let waiting = RunModel { phase: Phase::Starting, ..run };
    run_begins(waiting, now);
}

/// Whether the clock moves only when the run lets it: an event comes at the tick of the one
/// before it, unless the run has let a tick pass in between, and then at none earlier.
pub open spec fn clock_moves_when_let(run: RunModel, trace: Seq<(Event, u64)>) -> bool
    decreases trace.len(),
{
    trace.len() > 1 ==> {
        let before = trace.drop_last();
        &&& clock_moves_when_let(run, before)
        &&& before.last().1 <= trace.last().1
        &&& !(after(run, before).phase is Advancing) ==> before.last().1 == trace.last().1
    }
}

/// The tick that the phase of a run goes by, if any.
pub open spec fn goes_by(phase: Phase) -> Option<u64> {
    match phase {
        Phase::Ticking { cur_ticks, .. } => Some(cur_ticks),
        Phase::ChoosingRead { cur_time, .. } => Some(cur_time),
        Phase::TakingRead { cur_time, .. } => Some(cur_time),
        Phase::ChoosingWrites { cur_time } => Some(cur_time),
        _ => None,
    }
}

proof fn lemma_goes_by_step(run: RunModel, event: Event, now: u64)
    requires
        run.accepts(event, now),
        goes_by(run.phase) matches Some(tick) ==> tick == now,
    ensures
        goes_by(run.step(event, now).0.phase) matches Some(tick) ==> tick == now,
{
}

/// Whatever a run does by the clock, it does by the current tick.
pub proof fn run_goes_by_the_current_tick(context: ContextModel, trace: Seq<(Event, u64)>)
    requires
        trace.len() > 0,
        admissible(fresh(context), trace),
        clock_moves_when_let(fresh(context), trace),
    ensures
        goes_by(after(fresh(context), trace).phase) matches Some(tick) ==> tick
            == trace.last().1,
    decreases trace.len(),
{
    let run = fresh(context);
    let before = trace.drop_last();
    if before.len() > 0 {
        run_goes_by_the_current_tick(context, before);
    }
    lemma_goes_by_step(after(run, before), trace.last().0, trace.last().1);
}

/// A read is taken as soon as it has arrived, and not before: when the readers are looked at,
/// an address is taken exactly where one is at the front that has arrived by the current tick,
/// and then it is the one that has arrived first.
pub proof fn reads_are_taken_when_they_arrive(
    context: ContextModel,
    trace: Seq<(Event, u64)>,
    fronts: Vec<PeekResult<u64>>,
    now: u64,
)
    requires
        context.wf(),
        admissible(fresh(context), trace.push((Event::ReadersPeeked(fronts), now))),
        clock_moves_when_let(fresh(context), trace.push((Event::ReadersPeeked(fronts), now))),
    ensures
        ({
            let reached = after(fresh(context), trace);
            let action = reached.step(Event::ReadersPeeked(fronts), now).1;
            &&& action is TakeRead <==> exists|i: int|
                0 <= i < fronts@.len() && arrived(#[trigger] fronts@[i], now)
            &&& action is TakeRead ==> exists|i: int|
                #[trigger] arrived_first(fronts@, now, i) && action == Action::TakeRead {
                    addr: reached.context.readers[i].addr,
                }
        }),
{
    let run = fresh(context);
    let more = trace.push((Event::ReadersPeeked(fronts), now));
    let reached = after(run, trace);
    assert(more.drop_last() =~= trace);
    assert(trace.len() > 0) by {
        if trace.len() == 0 {
            assert(reached == run);
        }
    }
    run_goes_by_the_current_tick(context, trace);
    nothing_is_lost(run, trace);
    if let Phase::ChoosingRead { cur_time, taken } = reached.phase {
        assert(cur_time == now);
        taken_read_names_its_reader(reached, cur_time, taken, fronts, now);
    }
}

/// A write is taken as soon as its address and its data have both arrived, and not before: when
/// the writers are looked at, exactly those are taken whose fronts have both arrived by the
/// current tick.
pub proof fn writes_are_taken_when_they_arrive(
    context: ContextModel,
    trace: Seq<(Event, u64)>,
    fronts: Vec<WriterPeek>,
    now: u64,
    writer: int,
)
    requires
        context.wf(),
        admissible(fresh(context), trace.push((Event::WritersPeeked(fronts), now))),
        clock_moves_when_let(fresh(context), trace.push((Event::WritersPeeked(fronts), now))),
        0 <= writer < fronts@.len(),
    ensures
        ({
            let reached = after(fresh(context), trace);
            let (next, action) = reached.step(Event::WritersPeeked(fronts), now);
            both_arrived(fronts@[writer], now) <==> {
                &&& action is TakeWrite
                &&& {
                    ||| ready_writers(fronts@, now)[0] == writer && action == Action::TakeWrite {
                        addr: reached.context.writers[writer].addr,
                        data: reached.context.writers[writer].data,
                    }
                    ||| next.takes.contains(writer as usize)
                }
            }
        }),
{
    let run = fresh(context);
    let more = trace.push((Event::WritersPeeked(fronts), now));
    let reached = after(run, trace);
    let (next, action) = reached.step(Event::WritersPeeked(fronts), now);
    assert(more.drop_last() =~= trace);
    assert(trace.len() > 0) by {
        if trace.len() == 0 {
            assert(reached == run);
        }
    }
    run_goes_by_the_current_tick(context, trace);
    nothing_is_lost(run, trace);
    assert(fronts@.len() == fronts.len());
    writers_with_arrivals_are_chosen(fronts@, now);
    let taken = ready_writers(fronts@, now);
    lemma_collect_all_frame(
        reached.context,
        write_requests(fronts@, now),
    );
    if both_arrived(fronts@[writer], now) {
        let k = choose|k: int| 0 <= k < taken.len() && taken[k] == writer as usize;
        if k > 0 {
            assert(taken.drop_first()[k - 1] == writer as usize);
        }
    }
    if action is TakeWrite {
        assert(next.takes == taken.drop_first());
        if next.takes.contains(writer as usize) {
            let k = choose|k: int| 0 <= k < next.takes.len() && next.takes[k] == writer as usize;
            assert(taken[k + 1] == writer as usize);
        }
    }
}

/// Whether a run is past the point in its round at which the device has caught up with the tick.
pub open spec fn has_caught_up(phase: Phase) -> bool {
    match phase {
        Phase::ChoosingRead { .. } => true,
        Phase::TakingRead { .. } => true,
        Phase::ChoosingWrites { .. } => true,
        Phase::TakingWrites => true,
        Phase::Sending { round: Round::Release, .. } => true,
        Phase::Acknowledging { round: Round::Release } => true,
        Phase::Advancing => true,
        Phase::Checking => true,
        Phase::Finished => true,
        _ => false,
    }
}

proof fn lemma_caught_up_step(run: RunModel, event: Event, now: u64)
    requires
        run.wf(),
        run.accepts(event, now),
        run.has_rate(),
        has_caught_up(run.phase) && !(run.phase is Advancing) ==> !has_cycle_to_make(
            run.context,
            now,
        ),
        goes_by(run.phase) matches Some(tick) ==> tick == now,
        run.phase is Starting ==> !has_cycle_to_make(run.context, now),
    ensures
        has_caught_up(run.step(event, now).0.phase) ==> !has_cycle_to_make(
            run.step(event, now).0.context,
            now,
        ),
{
    cycles_are_counted(run, event, now);
    if catching_up(run, event, now) is Some {
        device_makes_the_cycles_it_has(run, event, now);
    }
}

proof fn lemma_caught_up(context: ContextModel, trace: Seq<(Event, u64)>)
    requires
        context.wf(),
        context.cycles_per_tick.1 != 0,
        trace.len() > 0,
        trace[0].1 == 0,
        admissible(fresh(context), trace),
        clock_moves_when_let(fresh(context), trace),
    ensures
        after(fresh(context), trace).context.cycles_per_tick == context.cycles_per_tick,
        has_caught_up(after(fresh(context), trace).phase) ==> !has_cycle_to_make(
            after(fresh(context), trace).context,
            trace.last().1,
        ),
    decreases trace.len(),
{
    let run = fresh(context);
    let before = trace.drop_last();
    let reached = after(run, before);
    let (event, now) = trace.last();
    if before.len() > 0 {
        assert(before[0] == trace[0]);
        lemma_caught_up(context, before);
        run_goes_by_the_current_tick(context, before);
        lemma_not_starting(context, before);
    } else {
        assert(!has_cycle_to_make(context, 0)) by (nonlinear_arith)
            requires
                has_cycle_to_make(context, 0) == ((context.elapsed_cycles + 1)
                    * context.cycles_per_tick.1 <= 0 * context.cycles_per_tick.0),
                context.cycles_per_tick.1 > 0,
        ;
    }
    nothing_is_lost(run, before);
    cycles_are_counted(reached, event, now);
    lemma_caught_up_step(reached, event, now);
}

proof fn lemma_not_starting(context: ContextModel, trace: Seq<(Event, u64)>)
    requires
        trace.len() > 0,
        admissible(fresh(context), trace),
    ensures
        !(after(fresh(context), trace).phase is Starting),
{
    let before = trace.drop_last();
    assert(after(fresh(context), before).accepts(trace.last().0, trace.last().1));
}

proof fn lemma_clock_limit(run: RunModel, trace: Seq<(Event, u64)>)
    requires
        trace.len() > 0,
        clock_moves_when_let(run, trace),
    ensures
        forall|i: int| 0 <= i < trace.len() ==> (#[trigger] trace[i]).1 <= trace.last().1,
    decreases trace.len(),
{
    let before = trace.drop_last();
    if before.len() > 0 {
        lemma_clock_limit(run, before);
        assert forall|i: int| 0 <= i < trace.len() implies (#[trigger] trace[i]).1
            <= trace.last().1 by {
            if i < before.len() {
                assert(before[i] == trace[i]);
            }
        }
    }
}

/// The device keeps its cycles in the ratio to the ticks: at no time of a run that began at tick
/// 0 has it been told to make more cycles than keep the ratio at the current tick, and whenever
/// it has caught up, it has been told to make the most that do. With `c` cycles in `d` ticks,
/// `n` cycles made and `t` the current tick, `n * d <= t * c`, and then `t * c < (n + 1) * d`.
pub proof fn cycles_keep_the_ratio(context: ContextModel, trace: Seq<(Event, u64)>)
    requires
        context.wf(),
        context.cycles_per_tick.1 != 0,
        context.elapsed_cycles == 0,
        trace.len() > 0,
        trace[0].1 == 0,
        admissible(fresh(context), trace),
        clock_moves_when_let(fresh(context), trace),
    ensures
        tally(fresh(context), trace).cycles * context.cycles_per_tick.1 <= trace.last().1
            * context.cycles_per_tick.0,
        has_caught_up(after(fresh(context), trace).phase) ==> trace.last().1
            * context.cycles_per_tick.0 < (tally(fresh(context), trace).cycles + 1)
            * context.cycles_per_tick.1,
{
    let run = fresh(context);
    let end = trace.last().1;
    lemma_clock_limit(run, trace);
    lemma_caught_up(context, trace);
    device_is_never_ahead(run, trace, end);
    actions_match_requests(run, trace);
    expected_cycles_keep_the_ratio(context, end);
    let n = tally(run, trace).cycles as int;
    let expected = context.expected_cycles(end) as int;
    let span = context.cycles_per_tick.1 as int;
    assert(n * span <= expected * span) by (nonlinear_arith)
        requires
            n <= expected,
            span > 0,
    ;
}

} // verus!
