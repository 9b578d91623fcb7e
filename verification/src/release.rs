//! When batches are passed on, which of them, and in which order.

use crate::access::Access;
use crate::batch::BatchModel;
use crate::channel::WriterPeek;
use crate::conservation::lemma_passed_on_concat;
use crate::gathering::{both_arrived, writers_with_arrivals_are_chosen};
use crate::model::{passed_on, ready_writers, write_requests, ContextModel};
use crate::priority::{by_priority, lemma_by_priority_members};
use crate::protocol::{holds_nothing, sends_on};
use crate::run::{Event, Phase, Round, RunModel};
use vstd::prelude::*;

verus! {

/// Whether a tick has passed since the last round of batches, or the batch that is being filled
/// holds 512 requests.
pub open spec fn due(context: ContextModel, now: u64) -> bool {
    now >= context.last_batch_cycle + 1 || context.current.reads.len()
        + context.current.writes.len() >= 512
}

/// The waiting batches, with the one that is being filled behind them where it holds anything.
pub open spec fn joined(context: ContextModel) -> Seq<BatchModel> {
    if holds_nothing(context.current) {
        context.batches
    } else {
        context.batches.push(context.current)
    }
}

/// How many batches are passed on in one round: all of them, but no more than 256.
pub open spec fn share(context: ContextModel) -> int {
    if joined(context).len() <= 256 {
        joined(context).len() as int
    } else {
        256
    }
}

/// The requests of `batches`, one batch after the other, in each one the writes before the reads.
pub open spec fn one_after_the_other(batches: Seq<BatchModel>) -> Seq<Access>
    decreases batches.len(),
{
    if batches.len() == 0 {
        Seq::empty()
    } else {
        batches[0].writes + batches[0].reads + one_after_the_other(batches.drop_first())
    }
}

proof fn lemma_passed_on_raw(batches: Seq<BatchModel>)
    ensures
        passed_on(batches) == one_after_the_other(batches),
    decreases batches.len(),
{
    if batches.len() > 0 {
        let first = seq![batches[0]];
        lemma_passed_on_raw(batches.drop_first());
        lemma_passed_on_concat(first, batches.drop_first());
        reveal_with_fuel(passed_on, 2);
        assert(first.drop_last() =~= Seq::<BatchModel>::empty());
        assert(first + batches.drop_first() =~= batches);
        assert(passed_on(first) =~= batches[0].writes + batches[0].reads);
    }
}

/// The requests that leave the batches at tick `now`.
pub open spec fn leaving(context: ContextModel, now: u64) -> Seq<Access> {
    if due(context, now) {
        one_after_the_other(by_priority(joined(context)).take(share(context)))
    } else {
        Seq::empty()
    }
}

/// What is left of the batches, and of the rest, when they have left.
pub open spec fn leaves(context: ContextModel, now: u64, left: ContextModel) -> bool {
    if due(context, now) {
        &&& holds_nothing(left.current)
        &&& holds_nothing(context.current) ==> left.current == context.current
        &&& !holds_nothing(context.current) ==> left.current.priority == 0
        &&& left == (ContextModel {
            batches: by_priority(joined(context)).skip(share(context)),
            current: left.current,
            last_batch_cycle: now,
            ..context
        })
    } else {
        left == context
    }
}

/// Where batches are due, up to 256 of them are passed on by priority, one after the other, in
/// each one the writes before the reads, and the one that is being filled counts as one of them.
/// Where they are not due, they stay.
pub proof fn due_batches_are_passed_on(context: ContextModel, now: u64)
    ensures
        context.releases(now) == leaving(context, now),
        leaves(context, now, context.after_releases(now)),
        by_priority(joined(context)).len() == joined(context).len(),
{
    assert(context.flushed() =~= joined(context));
    lemma_by_priority_members(joined(context));
    lemma_passed_on_raw(by_priority(joined(context)).take(share(context)));
}

/// Once every gathered request has been taken from its channels, the batches that are due are
/// sent.
pub proof fn batches_are_sent_after_gathering(run: RunModel, now: u64)
    requires
        run.wf(),
        run.phase is TakingWrites,
        run.takes.len() == 0,
    ensures
        ({
            let (next, action) = run.step(Event::Done, now);
            &&& sends_on(leaving(run.context, now), Round::Release, next, action)
            &&& leaves(run.context, now, next.context)
            &&& next.outstanding == run.outstanding
            &&& next.takes.len() == 0
        }),
{
    due_batches_are_passed_on(run.context, now);
}

/// Where no writer has an address and data that have arrived, nothing is gathered, and the
/// batches that are due are sent at once.
pub proof fn batches_are_sent_without_writes(
    run: RunModel,
    cur_time: u64,
    fronts: Vec<WriterPeek>,
    now: u64,
)
    requires
        run.wf(),
        run.phase == (Phase::ChoosingWrites { cur_time }),
        run.accepts(Event::WritersPeeked(fronts), now),
        forall|i: int| 0 <= i < fronts@.len() ==> !both_arrived(#[trigger] fronts@[i], cur_time),
    ensures
        ({
            let (next, action) = run.step(Event::WritersPeeked(fronts), now);
            &&& sends_on(leaving(run.context, now), Round::Release, next, action)
            &&& leaves(run.context, now, next.context)
            &&& next.outstanding == run.outstanding
            &&& next.takes.len() == 0
        }),
{
    let taken = ready_writers(fronts@, cur_time);
    assert(fronts@.len() == fronts.len());
    writers_with_arrivals_are_chosen(fronts@, cur_time);
    if taken.len() > 0 {
        assert(both_arrived(fronts@[taken[0] as int], cur_time));
    }
    assert(write_requests(fronts@, cur_time) =~= Seq::<Access>::empty());
    due_batches_are_passed_on(run.context, now);
}

/// Adding a request puts it behind those of its kind and leaves the rest of a batch as it is.
/// A batch is full from 512 requests on, and an empty one holds none.
pub proof fn batches_keep_their_requests(batch: BatchModel, access: Access)
    ensures
        batch.with(access) == match access {
            Access::SimpleRead(_) => BatchModel { reads: batch.reads.push(access), ..batch },
            Access::SimpleWrite(_) => BatchModel { writes: batch.writes.push(access), ..batch },
        },
        batch.size() == batch.reads.len() + batch.writes.len(),
        batch.full() <==> batch.reads.len() + batch.writes.len() >= 512,
        batch.in_order() == batch.writes + batch.reads,
        holds_nothing(BatchModel::empty()),
        BatchModel::empty().priority == 0,
{
}

/// The context with one more request: it is behind those of its kind in the batch that is being
/// filled, while that one holds fewer than 512. Else that one waits behind the others, and a
/// fresh one of priority 0 holds the request. Nothing else differs.
pub open spec fn joining(context: ContextModel, access: Access) -> ContextModel {
    let (reads, writes) = match access {
        Access::SimpleRead(_) => (seq![access], Seq::empty()),
        Access::SimpleWrite(_) => (Seq::empty(), seq![access]),
    };
    if context.current.reads.len() + context.current.writes.len() < 512 {
        ContextModel {
            current: BatchModel {
                reads: context.current.reads + reads,
                writes: context.current.writes + writes,
                ..context.current
            },
            ..context
        }
    } else {
        ContextModel {
            batches: context.batches.push(context.current),
            current: BatchModel { reads, writes, priority: 0 },
            ..context
        }
    }
}

/// The context with more requests, the first of which joins first.
pub open spec fn all_joining(context: ContextModel, accesses: Seq<Access>) -> ContextModel
    decreases accesses.len(),
{
    if accesses.len() == 0 {
        context
    } else {
        all_joining(joining(context, accesses[0]), accesses.drop_first())
    }
}

/// A request that is gathered joins the batch that is being filled, or a fresh one where that one
/// holds 512 requests.
pub proof fn request_joins_a_batch(context: ContextModel, access: Access)
    ensures
        context.collect(access) == joining(context, access),
{
    match access {
        Access::SimpleRead(_) => {
            assert(context.current.reads.push(access) =~= context.current.reads + seq![access]);
            assert(context.current.writes =~= context.current.writes + Seq::<Access>::empty());
            assert(Seq::<Access>::empty().push(access) =~= seq![access]);
        },
        Access::SimpleWrite(_) => {
            assert(context.current.writes.push(access) =~= context.current.writes + seq![access]);
            assert(context.current.reads =~= context.current.reads + Seq::<Access>::empty());
            assert(Seq::<Access>::empty().push(access) =~= seq![access]);
        },
    }
}

proof fn lemma_collect_first(context: ContextModel, accesses: Seq<Access>)
    requires
        accesses.len() > 0,
    ensures
        context.collect_all(accesses) == context.collect(accesses[0]).collect_all(
            accesses.drop_first(),
        ),
    decreases accesses.len(),
{
    reveal_with_fuel(ContextModel::collect_all, 2);
    let before = accesses.drop_last();
    let rest = accesses.drop_first();
    if accesses.len() > 1 {
        lemma_collect_first(context, before);
        assert(rest.drop_last() =~= before.drop_first());
    } else {
        assert(before =~= Seq::<Access>::empty());
    }
}

/// Requests that are gathered join batches one after the other, in order.
pub proof fn requests_join_in_order(context: ContextModel, accesses: Seq<Access>)
    ensures
        context.collect_all(accesses) == all_joining(context, accesses),
    decreases accesses.len(),
{
    if accesses.len() > 0 {
        lemma_collect_first(context, accesses);
        request_joins_a_batch(context, accesses[0]);
        requests_join_in_order(joining(context, accesses[0]), accesses.drop_first());
    }
}

} // verus!
