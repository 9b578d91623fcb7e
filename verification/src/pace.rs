//! How the cycles of the device keep pace with the clock.

use crate::conservation::{admissible, after, fresh};
use crate::model::{lemma_collect_all_frame, write_requests, ContextModel};
use crate::run::{Event, Phase, RunModel, Stage};
use vstd::arithmetic::div_mod::{lemma_div_by_multiple, lemma_div_is_ordered};
use vstd::arithmetic::mul::lemma_mul_inequality;
use vstd::prelude::*;

verus! {

/// The device is never expected to have made fewer cycles as time passes.
pub proof fn expected_cycles_grow(context: ContextModel, earlier: u64, later: u64)
    requires
        context.cycles_per_tick.1 != 0,
        earlier <= later,
    ensures
        context.expected_cycles(earlier) <= context.expected_cycles(later),
{
    let (cycles, ticks) = context.cycles_per_tick;
    lemma_mul_inequality(earlier as int, later as int, cycles as int);
    lemma_div_is_ordered(
        earlier as int * cycles as int,
        later as int * cycles as int,
        ticks as int,
    );
}

/// A device that makes as many cycles as there are ticks makes one in each.
pub proof fn equal_rates_match(context: ContextModel, ticks: u64)
    requires
        context.cycles_per_tick.0 == context.cycles_per_tick.1,
        context.cycles_per_tick.1 != 0,
    ensures
        context.expected_cycles(ticks) == ticks,
{
    lemma_div_by_multiple(ticks as int, context.cycles_per_tick.1 as int);
}

/// How many cycles the device is behind `cur_ticks`.
pub open spec fn behind(run: RunModel, cur_ticks: u64) -> int {
    run.context.expected_cycles(cur_ticks) - run.context.elapsed_cycles
}

/// A device that is behind catches up: it makes exactly the cycles that it is behind, one in
/// each step, and then the run goes on to something else.
pub proof fn device_catches_up(
    run: RunModel,
    cur_ticks: u64,
    stage: Stage,
    trace: Seq<(Event, u64)>,
    now: u64,
)
    requires
        run.phase == (Phase::Ticking { cur_ticks, stage }),
        trace.len() == behind(run, cur_ticks),
        forall|i: int| 0 <= i < trace.len() ==> (#[trigger] trace[i]).0 is Done,
    ensures
        after(run, trace) == (RunModel {
            context: ContextModel {
                elapsed_cycles: run.context.expected_cycles(cur_ticks),
                ..run.context
            },
            ..run
        }),
        !(after(run, trace).step(Event::Done, now).1 is Tick),
        after(run, trace).step(Event::Done, now).0.context.elapsed_cycles
            == run.context.expected_cycles(cur_ticks),
{
    lemma_ticks_one_by_one(run, cur_ticks, stage, trace);
}

proof fn lemma_ticks_one_by_one(
    run: RunModel,
    cur_ticks: u64,
    stage: Stage,
    trace: Seq<(Event, u64)>,
)
    requires
        run.phase == (Phase::Ticking { cur_ticks, stage }),
        trace.len() <= behind(run, cur_ticks),
        forall|i: int| 0 <= i < trace.len() ==> (#[trigger] trace[i]).0 is Done,
    ensures
        after(run, trace) == (RunModel {
            context: ContextModel {
                elapsed_cycles: run.context.elapsed_cycles + trace.len(),
                ..run.context
            },
            ..run
        }),
    decreases trace.len(),
{
    if trace.len() > 0 {
        let before = trace.drop_last();
        assert(forall|i: int| 0 <= i < before.len() ==> #[trigger] before[i] == trace[i]);
        assert(trace[trace.len() - 1].0 is Done);
        lemma_ticks_one_by_one(run, cur_ticks, stage, before);
    }
}

/// A step asks for a cycle of the device exactly where it counts one, and no other step changes
/// the count.
pub proof fn cycles_are_counted(run: RunModel, event: Event, now: u64)
    requires
        run.accepts(event, now),
    ensures
        run.step(event, now).0.context.elapsed_cycles == run.context.elapsed_cycles + if run.step(
            event,
            now,
        ).1 is Tick {
            1nat
        } else {
            0nat
        },
        run.step(event, now).0.context.cycles_per_tick == run.context.cycles_per_tick,
{
    match (run.phase, event) {
        (Phase::ChoosingWrites { cur_time }, Event::WritersPeeked(peeks)) => {
            lemma_collect_all_frame(run.context, write_requests(peeks@, cur_time));
        },
        _ => {},
    }
}

/// Whether a run that lets the device catch up does so with a tick no later than `limit`.
pub open spec fn catching_up_by(run: RunModel, limit: u64) -> bool {
    run.phase matches Phase::Ticking { cur_ticks, .. } ==> cur_ticks <= limit
}

/// The device never runs ahead of the clock: as long as the clock has not passed `limit`, it has
/// made no more cycles than are expected by then.
pub proof fn device_is_never_ahead(run: RunModel, trace: Seq<(Event, u64)>, limit: u64)
    requires
        run.has_rate(),
        admissible(run, trace),
        run.context.elapsed_cycles <= run.context.expected_cycles(limit),
        catching_up_by(run, limit),
        forall|i: int| 0 <= i < trace.len() ==> (#[trigger] trace[i]).1 <= limit,
    ensures
        after(run, trace).context.elapsed_cycles <= run.context.expected_cycles(limit),
        after(run, trace).context.cycles_per_tick == run.context.cycles_per_tick,
        catching_up_by(after(run, trace), limit),
    decreases trace.len(),
{
    if trace.len() > 0 {
        let before = trace.drop_last();
        let (event, now) = trace.last();
        let reached = after(run, before);
        assert(forall|i: int| 0 <= i < before.len() ==> #[trigger] before[i] == trace[i]);
        assert(trace[trace.len() - 1].1 <= limit);
        device_is_never_ahead(run, before, limit);
        cycles_are_counted(reached, event, now);
        expected_cycles_grow(reached.context, now, limit);
        match reached.phase {
            Phase::Ticking { cur_ticks, .. } => {
                expected_cycles_grow(reached.context, cur_ticks, limit);
            },
            _ => {},
        }
    }
}

/// The tick at which the last round ended: that of the last event that told that the clock has
/// moved, and 0 before the first.
pub open spec fn round_end(run: RunModel, trace: Seq<(Event, u64)>) -> u64
    decreases trace.len(),
{
    if trace.len() == 0 {
        0
    } else if after(run, trace.drop_last()).phase is Advancing {
        trace.last().1
    } else {
        round_end(run, trace.drop_last())
    }
}

/// Whether the device has caught up with the end of the last round where the next one may begin,
/// and is catching up with it before.
pub open spec fn keeps_up(run: RunModel, end: u64) -> bool {
    match run.phase {
        Phase::Starting => run.context.elapsed_cycles >= run.context.expected_cycles(end),
        Phase::Checking => run.context.elapsed_cycles >= run.context.expected_cycles(end),
        Phase::Finished => run.context.elapsed_cycles >= run.context.expected_cycles(end),
        Phase::Ticking { cur_ticks, stage: Stage::After } => cur_ticks == end,
        _ => true,
    }
}

proof fn lemma_step_keeps_up(run: RunModel, event: Event, now: u64, end: u64)
    requires
        run.accepts(event, now),
        keeps_up(run, end),
    ensures
        keeps_up(
            run.step(event, now).0,
            if run.phase is Advancing {
                now
            } else {
                end
            },
        ),
{
}

proof fn lemma_keeps_up(context: ContextModel, trace: Seq<(Event, u64)>)
    requires
        context.cycles_per_tick.1 != 0,
        admissible(fresh(context), trace),
    ensures
        keeps_up(after(fresh(context), trace), round_end(fresh(context), trace)),
    decreases trace.len(),
{
    let run = fresh(context);
    if trace.len() == 0 {
        assert(context.expected_cycles(0) == 0) by {
            lemma_div_by_multiple(0, context.cycles_per_tick.1 as int);
        }
    } else {
        let before = trace.drop_last();
        lemma_keeps_up(context, before);
        lemma_step_keeps_up(
            after(run, before),
            trace.last().0,
            trace.last().1,
            round_end(run, before),
        );
    }
}

/// When a run that started with no cycles made ends at the tick at which its last round ended,
/// the device has made exactly the cycles that are expected by then.
pub proof fn ended_run_has_made_expected_cycles(context: ContextModel, trace: Seq<(Event, u64)>)
    requires
        context.cycles_per_tick.1 != 0,
        context.elapsed_cycles == 0,
        admissible(fresh(context), trace),
        after(fresh(context), trace).phase is Finished,
        forall|i: int, j: int|
            0 <= i < j < trace.len() ==> (#[trigger] trace[i]).1 <= (#[trigger] trace[j]).1,
        trace.last().1 == round_end(fresh(context), trace),
    ensures
        after(fresh(context), trace).context.elapsed_cycles == context.expected_cycles(
            trace.last().1,
        ),
{
    let run = fresh(context);
    let end = trace.last().1;
    assert forall|i: int| 0 <= i < trace.len() implies (#[trigger] trace[i]).1 <= end by {
        assert(trace[trace.len() - 1].1 == end);
    }
    lemma_keeps_up(context, trace);
    device_is_never_ahead(run, trace, end);
}

} // verus!
