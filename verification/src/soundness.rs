//! Every step of a run keeps it well-formed.

use crate::access::Access;
use crate::address::ByteAddress;
use crate::batch::{BatchModel, BATCH_SIZE};
use crate::channel::{PeekResult, WriterPeek};
use crate::model::{
    any_ready, earliest, is_earliest, lemma_collect_all_frame, lemma_collect_wf, lemma_flushed_wf,
    lemma_kinds_owned, lemma_ready_writers_bounded, outstanding_after, passed_on, read_request,
    reads_of, ready_writers, write_request, write_requests, writes_of, ContextModel,
};
use crate::priority::by_priority;
use crate::request_manager::{awaits, lemma_oldest_read};
use crate::run::{Event, Phase, Round, RunModel, Stage};
use vstd::prelude::*;

verus! {

/// Where an element may be taken at tick `now`, one of them is the earliest.
pub proof fn lemma_earliest_exists(peeks: Seq<PeekResult<u64>>, now: u64)
    requires
        any_ready(peeks, now),
    ensures
        is_earliest(peeks, now, earliest(peeks, now)),
    decreases peeks.len(),
{
    let before = peeks.drop_last();
    let last = peeks.len() - 1;
    assert(forall|i: int| 0 <= i < last ==> #[trigger] peeks[i] == before[i]);
    if any_ready(before, now) {
        lemma_earliest_exists(before, now);
        let found = earliest(before, now);
        if peeks[last].ready(now) && peeks[last].element().time < peeks[found].element().time {
            assert(is_earliest(peeks, now, last));
        } else {
            assert(is_earliest(peeks, now, found));
        }
    } else {
        assert(forall|i: int| 0 <= i < last ==> !(#[trigger] before[i]).ready(now));
        assert(is_earliest(peeks, now, last));
    }
}

proof fn lemma_concat_owned(context: ContextModel, left: Seq<Access>, right: Seq<Access>)
    requires
        context.owns_all(left),
        context.owns_all(right),
    ensures
        context.owns_all(left + right),
{
    assert forall|i: int| 0 <= i < (left + right).len() implies context.owns(
        #[trigger] (left + right)[i],
    ) by {
        if i < left.len() {
            assert((left + right)[i] == left[i]);
        } else {
            assert((left + right)[i] == right[i - left.len()]);
        }
    }
}

proof fn lemma_passed_on_owned(context: ContextModel, batches: Seq<BatchModel>)
    requires
        forall|i: int| 0 <= i < batches.len() ==> context.owns_batch(#[trigger] batches[i]),
    ensures
        context.owns_all(passed_on(batches)),
    decreases batches.len(),
{
    if batches.len() > 0 {
        let before = batches.drop_last();
        assert(forall|i: int| 0 <= i < before.len() ==> #[trigger] before[i] == batches[i]);
        lemma_passed_on_owned(context, before);
        let last = batches[batches.len() - 1];
        assert(context.owns_batch(last));
        lemma_concat_owned(context, last.writes, last.reads);
        lemma_concat_owned(context, passed_on(before), last.in_order());
    }
}

/// Trying the backlog again keeps the context well-formed.
pub proof fn lemma_retries_wf(context: ContextModel)
    requires
        context.wf(),
    ensures
        context.after_retries().wf(),
        context.owns_all(context.retries()),
{
    let oldest = context.backlog.take(context.retried());
    lemma_kinds_owned(context, oldest);
    lemma_concat_owned(context, writes_of(oldest), reads_of(oldest));
}

/// Passing on batches keeps the context well-formed.
pub proof fn lemma_releases_wf(context: ContextModel, now: u64)
    requires
        context.wf(),
    ensures
        context.after_releases(now).wf(),
        context.owns_all(context.releases(now)),
{
    let ordered = by_priority(context.flushed());
    let released = context.released();
    lemma_flushed_wf(context);
    let taken = ordered.take(released);
    assert(forall|i: int| 0 <= i < taken.len() ==> #[trigger] taken[i] == ordered[i]);
    lemma_passed_on_owned(context, taken);
    let after = context.after_releases(now);
    assert forall|i: int| 0 <= i < after.batches.len() implies after.owns_batch(
        #[trigger] after.batches[i],
    ) && after.batches[i].size() > 0 by {
        if context.batches_due(now) {
            assert(after.batches[i] == ordered[released + i]);
        }
    }
}

proof fn lemma_collect_all_wf(context: ContextModel, accesses: Seq<Access>)
    requires
        context.wf(),
        context.owns_all(accesses),
    ensures
        context.collect_all(accesses).wf(),
    decreases accesses.len(),
{
    if accesses.len() > 0 {
        let before = accesses.drop_last();
        assert(forall|i: int| 0 <= i < before.len() ==> #[trigger] before[i] == accesses[i]);
        lemma_collect_all_wf(context, before);
        lemma_collect_all_frame(context, before);
        assert(context.owns(accesses[accesses.len() - 1]));
        lemma_collect_wf(context.collect_all(before), accesses.last());
    }
}

proof fn lemma_send_next_wf(run: RunModel, round: Round)
    requires
        run.sound(),
        run.takes.len() == 0,
    ensures
        run.send_next(round).0.wf(),
{
}

proof fn lemma_retry_wf(run: RunModel)
    requires
        run.sound(),
        run.takes.len() == 0,
    ensures
        run.retry().0.wf(),
{
    lemma_retries_wf(run.context);
}

proof fn lemma_catch_up_wf(run: RunModel, cur_ticks: u64, stage: Stage, now: u64)
    requires
        run.sound(),
        run.takes.len() == 0,
        run.sends.len() == 0,
    ensures
        run.catch_up(cur_ticks, stage, now).0.wf(),
{
    lemma_retry_wf(run);
}

proof fn lemma_take_next_wf(run: RunModel, now: u64)
    requires
        run.sound(),
        run.sends.len() == 0,
    ensures
        run.take_next(now).0.wf(),
{
    lemma_releases_wf(run.context, now);
}

proof fn lemma_choose_writes_wf(run: RunModel, cur_time: u64, peeks: Seq<WriterPeek>, now: u64)
    requires
        run.sound(),
        run.sends.len() == 0,
        peeks.len() == run.context.writers.len(),
        peeks.len() <= usize::MAX,
    ensures
        run.choose_writes(cur_time, peeks, now).0.wf(),
{
    let requests = write_requests(peeks, cur_time);
    lemma_ready_writers_bounded(peeks, cur_time);
    assert forall|i: int| 0 <= i < requests.len() implies run.context.owns(
        #[trigger] requests[i],
    ) by {
        let index = ready_writers(peeks, cur_time)[i];
        assert(requests[i] == write_request(peeks[index as int], index as int));
    }
    lemma_collect_all_wf(run.context, requests);
    lemma_collect_all_frame(run.context, requests);
    lemma_take_next_wf(
        RunModel {
            context: run.context.collect_all(requests),
            takes: ready_writers(peeks, cur_time),
            ..run
        },
        now,
    );
}

proof fn lemma_choose_read_wf(
    run: RunModel,
    cur_time: u64,
    taken: usize,
    peeks: Seq<PeekResult<u64>>,
    now: u64,
)
    requires
        run.sound(),
        run.takes.len() == 0,
        run.sends.len() == 0,
        peeks.len() == run.context.readers.len(),
        peeks.len() <= usize::MAX,
        taken < BATCH_SIZE,
    ensures
        run.choose_read(cur_time, taken, peeks, now).0.wf(),
{
    if any_ready(peeks, cur_time) {
        lemma_earliest_exists(peeks, cur_time);
        lemma_collect_wf(run.context, read_request(peeks, earliest(peeks, cur_time)));
    }
}

proof fn lemma_answer_wf(run: RunModel, location: u64, now: u64)
    requires
        run.sound(),
        run.takes.len() == 0,
        run.sends.len() == 0,
        awaits(run.outstanding, ByteAddress(location)),
    ensures
        run.answer(location, now).0.wf(),
{
    lemma_oldest_read(run.outstanding, ByteAddress(location));
}

/// A run stays well-formed whatever it is answered with, as long as it is what it waits for:
/// requests name readers and writers that are there, batches keep their size and their kinds
/// apart, no batch that waits is empty, and no more reads are taken in a round than a batch
/// holds.
pub proof fn step_keeps_wf(run: RunModel, event: Event, now: u64)
    requires
        run.wf(),
        run.accepts(event, now),
    ensures
        run.step(event, now).0.wf(),
{
    match (run.phase, event) {
        (Phase::Starting, Event::Done) => lemma_retry_wf(run),
        (Phase::Checking, Event::ChannelsPeeked(_, _)) => lemma_retry_wf(run),
        (Phase::Sending { access, round }, Event::Sent(accepted)) => {
            let after = RunModel {
                context: run.context.settled(access, accepted),
                outstanding: outstanding_after(run.outstanding, access, accepted),
                ..run
            };
            lemma_send_next_wf(after, round);
        },
        (Phase::Acknowledging { round }, Event::Done) => lemma_send_next_wf(run, round),
        (Phase::Polling, Event::Returned(None)) => lemma_catch_up_wf(
            run,
            now,
            Stage::Before,
            now,
        ),
        (Phase::Polling, Event::Returned(Some(location))) => lemma_answer_wf(
            run,
            location,
            now,
        ),
        (Phase::AnsweringAddr, Event::Done) => lemma_catch_up_wf(
            run,
            now,
            Stage::Before,
            now,
        ),
        (Phase::Ticking { cur_ticks, stage }, Event::Done) => lemma_catch_up_wf(
            run,
            cur_ticks,
            stage,
            now,
        ),
        (
            Phase::ChoosingRead { cur_time, taken },
            Event::ReadersPeeked(readers),
        ) => {
            assert(readers@.len() == readers.len());
            lemma_choose_read_wf(run, cur_time, taken, readers@, now);
        },
        (Phase::ChoosingWrites { cur_time }, Event::WritersPeeked(writers)) => {
            assert(writers@.len() == writers.len());
            lemma_choose_writes_wf(run, cur_time, writers@, now);
        },
        (Phase::TakingWrites, Event::Done) => lemma_take_next_wf(run, now),
        (Phase::Advancing, Event::Done) => lemma_catch_up_wf(
            run,
            now,
            Stage::After,
            now,
        ),
        _ => {},
    }
}

} // verus!
