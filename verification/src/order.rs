//! In which order requests are passed on, and how many at a time.

use crate::access::Access;
use crate::batch::{BatchModel, BATCH_SIZE, MAX_BATCHES_PER_CYCLE};
use crate::model::{
    lemma_flushed_wf, lemma_kinds_empty, lemma_kinds_push, lesser, passed_on, reads_of, writes_of,
    ContextModel, RETRY_LIMIT,
};
use crate::priority::{by_priority, of_one_priority, one_priority_keeps_order};
use vstd::prelude::*;

verus! {

/// The writes of `batches`, batch after batch.
pub open spec fn batched_writes(batches: Seq<BatchModel>) -> Seq<Access>
    decreases batches.len(),
{
    if batches.len() == 0 {
        Seq::empty()
    } else {
        batched_writes(batches.drop_last()) + batches.last().writes
    }
}

/// The reads of `batches`, batch after batch.
pub open spec fn batched_reads(batches: Seq<BatchModel>) -> Seq<Access>
    decreases batches.len(),
{
    if batches.len() == 0 {
        Seq::empty()
    } else {
        batched_reads(batches.drop_last()) + batches.last().reads
    }
}

/// The writes that wait in batches.
pub open spec fn pending_writes(context: ContextModel) -> Seq<Access> {
    batched_writes(context.batches) + context.current.writes
}

/// The reads that wait in batches.
pub open spec fn pending_reads(context: ContextModel) -> Seq<Access> {
    batched_reads(context.batches) + context.current.reads
}

/// A request that is gathered joins behind those of its kind that wait, and leaves the others as
/// they are.
pub proof fn gathering_keeps_order(context: ContextModel, access: Access)
    ensures
        pending_writes(context.collect(access)) == if access is SimpleWrite {
            pending_writes(context).push(access)
        } else {
            pending_writes(context)
        },
        pending_reads(context.collect(access)) == if access is SimpleRead {
            pending_reads(context).push(access)
        } else {
            pending_reads(context)
        },
{
    let more = context.collect(access);
    if context.current.full() {
        assert(more.batches.drop_last() =~= context.batches);
    }
    assert(pending_writes(more) =~= if access is SimpleWrite {
        pending_writes(context).push(access)
    } else {
        pending_writes(context)
    });
    assert(pending_reads(more) =~= if access is SimpleRead {
        pending_reads(context).push(access)
    } else {
        pending_reads(context)
    });
}

pub proof fn lemma_kinds_concat(left: Seq<Access>, right: Seq<Access>)
    ensures
        writes_of(left + right) == writes_of(left) + writes_of(right),
        reads_of(left + right) == reads_of(left) + reads_of(right),
    decreases right.len(),
{
    if right.len() == 0 {
        lemma_kinds_empty(right);
        assert(left + right =~= left);
    } else {
        let before = right.drop_last();
        lemma_kinds_concat(left, before);
        lemma_kinds_push(left + before, right.last());
        lemma_kinds_push(before, right.last());
        assert((left + before).push(right.last()) =~= left + right);
        assert(before.push(right.last()) =~= right);
    }
    assert(writes_of(left + right) =~= writes_of(left) + writes_of(right));
    assert(reads_of(left + right) =~= reads_of(left) + reads_of(right));
}

pub proof fn lemma_kinds_of_writes(accesses: Seq<Access>)
    requires
        forall|i: int| 0 <= i < accesses.len() ==> (#[trigger] accesses[i]) is SimpleWrite,
    ensures
        writes_of(accesses) == accesses,
        reads_of(accesses) == Seq::<Access>::empty(),
    decreases accesses.len(),
{
    if accesses.len() == 0 {
        lemma_kinds_empty(accesses);
        assert(accesses =~= Seq::<Access>::empty());
    } else {
        let before = accesses.drop_last();
        assert(forall|i: int| 0 <= i < before.len() ==> #[trigger] before[i] == accesses[i]);
        assert(accesses[accesses.len() - 1] is SimpleWrite);
        lemma_kinds_of_writes(before);
        lemma_kinds_push(before, accesses.last());
        assert(before.push(accesses.last()) =~= accesses);
    }
}

proof fn lemma_kinds_of_reads(accesses: Seq<Access>)
    requires
        forall|i: int| 0 <= i < accesses.len() ==> (#[trigger] accesses[i]) is SimpleRead,
    ensures
        reads_of(accesses) == accesses,
        writes_of(accesses) == Seq::<Access>::empty(),
    decreases accesses.len(),
{
    if accesses.len() == 0 {
        lemma_kinds_empty(accesses);
        assert(accesses =~= Seq::<Access>::empty());
    } else {
        let before = accesses.drop_last();
        assert(forall|i: int| 0 <= i < before.len() ==> #[trigger] before[i] == accesses[i]);
        assert(accesses[accesses.len() - 1] is SimpleRead);
        lemma_kinds_of_reads(before);
        lemma_kinds_push(before, accesses.last());
        assert(before.push(accesses.last()) =~= accesses);
    }
}

proof fn lemma_passed_on_kinds(batches: Seq<BatchModel>)
    requires
        forall|i: int| 0 <= i < batches.len() ==> (#[trigger] batches[i]).wf(),
    ensures
        writes_of(passed_on(batches)) == batched_writes(batches),
        reads_of(passed_on(batches)) == batched_reads(batches),
    decreases batches.len(),
{
    if batches.len() == 0 {
        lemma_kinds_empty(passed_on(batches));
    } else {
        let before = batches.drop_last();
        let last = batches[batches.len() - 1];
        assert(forall|i: int| 0 <= i < before.len() ==> #[trigger] before[i] == batches[i]);
        assert(last.wf());
        lemma_passed_on_kinds(before);
        lemma_kinds_concat(passed_on(before), last.in_order());
        lemma_kinds_concat(last.writes, last.reads);
        lemma_kinds_of_writes(last.writes);
        lemma_kinds_of_reads(last.reads);
        assert(writes_of(last.in_order()) =~= last.writes);
        assert(reads_of(last.in_order()) =~= last.reads);
    }
}

proof fn lemma_batched_concat(left: Seq<BatchModel>, right: Seq<BatchModel>)
    ensures
        batched_writes(left + right) == batched_writes(left) + batched_writes(right),
        batched_reads(left + right) == batched_reads(left) + batched_reads(right),
    decreases right.len(),
{
    if right.len() == 0 {
        assert(left + right =~= left);
    } else {
        lemma_batched_concat(left, right.drop_last());
        assert((left + right).drop_last() =~= left + right.drop_last());
        assert((left + right).last() == right.last());
    }
    assert(batched_writes(left + right) =~= batched_writes(left) + batched_writes(right));
    assert(batched_reads(left + right) =~= batched_reads(left) + batched_reads(right));
}

/// Where all batches are of one priority, requests of a kind are passed on in the order in which
/// they were gathered: those released in a round are the first of their kind that wait.
pub proof fn releasing_keeps_order(context: ContextModel, now: u64)
    requires
        context.wf(),
        of_one_priority(context.flushed()),
    ensures
        writes_of(context.releases(now)) + pending_writes(context.after_releases(now))
            == pending_writes(context),
        reads_of(context.releases(now)) + pending_reads(context.after_releases(now))
            == pending_reads(context),
{
    let left = context.after_releases(now);
    if context.batches_due(now) {
        let flushed = context.flushed();
        let taken = flushed.take(context.released());
        let rest = flushed.skip(context.released());
        assert(taken + rest =~= flushed);
        one_priority_keeps_order(flushed);
        lemma_flushed_wf(context);
        assert forall|i: int| 0 <= i < taken.len() implies (#[trigger] taken[i]).wf() by {
            assert(taken[i] == by_priority(flushed)[i]);
        }
        lemma_passed_on_kinds(taken);
        lemma_batched_concat(taken, rest);
        if context.current.size() > 0 {
            assert(flushed.drop_last() =~= context.batches);
        }
        assert(batched_writes(flushed) =~= pending_writes(context));
        assert(batched_reads(flushed) =~= pending_reads(context));
        assert(pending_writes(left) =~= batched_writes(rest));
        assert(pending_reads(left) =~= batched_reads(rest));
    } else {
        lemma_kinds_empty(context.releases(now));
    }
    assert(writes_of(context.releases(now)) + pending_writes(left) =~= pending_writes(context));
    assert(reads_of(context.releases(now)) + pending_reads(left) =~= pending_reads(context));
}

/// Requests of a kind are tried again in the order in which they were turned away.
pub proof fn retrying_keeps_order(context: ContextModel)
    ensures
        writes_of(context.retries()) + writes_of(context.after_retries().backlog) == writes_of(
            context.backlog,
        ),
        reads_of(context.retries()) + reads_of(context.after_retries().backlog) == reads_of(
            context.backlog,
        ),
{
    let oldest = context.backlog.take(context.retried());
    let rest = context.backlog.skip(context.retried());
    assert(oldest + rest =~= context.backlog);
    lemma_kinds_concat(oldest, rest);
    lemma_kinds_concat(writes_of(oldest), reads_of(oldest));
    lemma_kinds_are_kinds(oldest);
    lemma_kinds_of_writes(writes_of(oldest));
    lemma_kinds_of_reads(reads_of(oldest));
    assert(writes_of(context.retries()) =~= writes_of(oldest));
    assert(reads_of(context.retries()) =~= reads_of(oldest));
}

proof fn lemma_kinds_are_kinds(accesses: Seq<Access>)
    ensures
        forall|i: int|
            0 <= i < writes_of(accesses).len() ==> (#[trigger] writes_of(accesses)[i])
                is SimpleWrite,
        forall|i: int|
            0 <= i < reads_of(accesses).len() ==> (#[trigger] reads_of(accesses)[i]) is SimpleRead,
        writes_of(accesses).len() + reads_of(accesses).len() == accesses.len(),
    decreases accesses.len(),
{
    if accesses.len() == 0 {
        lemma_kinds_empty(accesses);
    } else {
        let before = accesses.drop_last();
        lemma_kinds_are_kinds(before);
        lemma_kinds_push(before, accesses.last());
        assert(before.push(accesses.last()) =~= accesses);
    }
}

/// Writes go first: among the requests that are tried again, no read comes before a write, and
/// the same holds within every batch.
pub proof fn writes_go_first(context: ContextModel, batch: BatchModel)
    requires
        batch.wf(),
    ensures
        forall|i: int, j: int|
            0 <= i < j < context.retries().len() && (#[trigger] context.retries()[j])
                is SimpleWrite ==> (#[trigger] context.retries()[i]) is SimpleWrite,
        forall|i: int, j: int|
            0 <= i < j < batch.in_order().len() && (#[trigger] batch.in_order()[j])
                is SimpleWrite ==> (#[trigger] batch.in_order()[i]) is SimpleWrite,
{
    let oldest = context.backlog.take(context.retried());
    lemma_kinds_are_kinds(oldest);
    let first = writes_of(oldest).len();
    assert forall|i: int, j: int|
        0 <= i < j < context.retries().len() && (#[trigger] context.retries()[j])
            is SimpleWrite implies (#[trigger] context.retries()[i]) is SimpleWrite by {
        if j >= first {
            assert(context.retries()[j] == reads_of(oldest)[j - first]);
        } else {
            assert(context.retries()[i] == writes_of(oldest)[i]);
        }
    }
    assert forall|i: int, j: int|
        0 <= i < j < batch.in_order().len() && (#[trigger] batch.in_order()[j])
            is SimpleWrite implies (#[trigger] batch.in_order()[i]) is SimpleWrite by {
        if j >= batch.writes.len() {
            assert(batch.in_order()[j] == batch.reads[j - batch.writes.len()]);
        } else {
            assert(batch.in_order()[i] == batch.writes[i]);
        }
    }
}

/// A round tries no more than ten requests again, and leaves out none where there are no more.
pub proof fn retries_are_limited(context: ContextModel)
    ensures
        context.retries().len() == lesser(RETRY_LIMIT as nat, context.backlog.len()),
        context.retries().len() <= 10,
        context.retries().len() <= context.backlog.len(),
        context.retries().len() == 10 || context.retries().len() == context.backlog.len(),
{
    lemma_kinds_are_kinds(context.backlog.take(context.retried()));
}

proof fn lemma_passed_on_len(batches: Seq<BatchModel>)
    requires
        forall|i: int| 0 <= i < batches.len() ==> (#[trigger] batches[i]).wf(),
    ensures
        passed_on(batches).len() <= BATCH_SIZE * batches.len(),
    decreases batches.len(),
{
    if batches.len() > 0 {
        let before = batches.drop_last();
        assert(forall|i: int| 0 <= i < before.len() ==> #[trigger] before[i] == batches[i]);
        assert(batches[batches.len() - 1].wf());
        lemma_passed_on_len(before);
    }
}

/// A round passes on no more requests than its batches hold.
pub proof fn releases_are_limited(context: ContextModel, now: u64)
    requires
        context.wf(),
    ensures
        context.releases(now).len() <= BATCH_SIZE * MAX_BATCHES_PER_CYCLE,
{
    let ordered = by_priority(context.flushed());
    let taken = ordered.take(context.released());
    lemma_flushed_wf(context);
    assert forall|i: int| 0 <= i < taken.len() implies (#[trigger] taken[i]).wf() by {
        assert(taken[i] == ordered[i]);
    }
    lemma_passed_on_len(taken);
}

/// Gathering a request puts no batch aside that has room left, and there is always room for the
/// request.
pub proof fn only_full_batches_are_put_aside(context: ContextModel, access: Access)
    requires
        context.wf(),
    ensures
        context.collect(access).batches == context.batches || context.collect(access).batches
            == context.batches.push(context.current) && context.current.size() == BATCH_SIZE,
        context.collect(access).current.in_order().contains(access),
        context.collect(access).backlog == context.backlog,
{
    let current = context.collect(access).current;
    match access {
        Access::SimpleRead(_) => {
            assert(current.in_order()[current.size() - 1] == access);
        },
        Access::SimpleWrite(_) => {
            assert(current.in_order()[current.writes.len() - 1] == access);
        },
    }
}

/// The context after the backlog has been tried again once for each of `turned_away`, where the
/// requests in it joined the backlog after that round.
pub open spec fn after_rounds(context: ContextModel, turned_away: Seq<Seq<Access>>) -> ContextModel
    decreases turned_away.len(),
{
    if turned_away.len() == 0 {
        context
    } else {
        let left = after_rounds(context, turned_away.drop_last()).after_retries();
        ContextModel { backlog: left.backlog + turned_away.last(), ..left }
    }
}

/// No request of the backlog starves: whatever is turned away meanwhile, the one at `position` is
/// tried again for the first time once `position / RETRY_LIMIT` rounds have passed.
pub proof fn no_request_starves(
    context: ContextModel,
    turned_away: Seq<Seq<Access>>,
    position: int,
)
    requires
        0 <= position < context.backlog.len(),
        turned_away.len() <= position / RETRY_LIMIT as int,
    ensures
        ({
            let reached = after_rounds(context, turned_away);
            let place = position - RETRY_LIMIT * turned_away.len();
            &&& 0 <= place < reached.backlog.len()
            &&& reached.backlog[place] == context.backlog[position]
            &&& place < reached.retried() <==> turned_away.len() == position / RETRY_LIMIT as int
            &&& place < reached.retried() ==> reached.retries().contains(
                context.backlog[position],
            )
        }),
    decreases turned_away.len(),
{
    let reached = after_rounds(context, turned_away);
    let place = position - RETRY_LIMIT * turned_away.len();
    if turned_away.len() > 0 {
        no_request_starves(context, turned_away.drop_last(), position);
        let before = after_rounds(context, turned_away.drop_last());
        assert(reached.backlog[place] == before.backlog[place + RETRY_LIMIT]);
    }
    if place < reached.retried() {
        let oldest = reached.backlog.take(reached.retried());
        assert(oldest[place] == context.backlog[position]);
        lemma_kinds_cover(oldest, place);
    }
}

proof fn lemma_kinds_cover(accesses: Seq<Access>, index: int)
    requires
        0 <= index < accesses.len(),
    ensures
        (writes_of(accesses) + reads_of(accesses)).contains(accesses[index]),
    decreases accesses.len(),
{
    let before = accesses.drop_last();
    let last = accesses.last();
    let kinds = writes_of(accesses) + reads_of(accesses);
    let fewer = writes_of(before) + reads_of(before);
    let writes = writes_of(before).len();
    lemma_kinds_push(before, last);
    assert(before.push(last) =~= accesses);
    if index < before.len() {
        lemma_kinds_cover(before, index);
        let k = choose|k: int| 0 <= k < fewer.len() && fewer[k] == accesses[index];
        if k < writes || last is SimpleRead {
            assert(kinds[k] == accesses[index]);
        } else {
            assert(kinds[k + 1] == accesses[index]);
        }
    } else if last is SimpleWrite {
        assert(kinds[writes as int] == last);
    } else {
        assert(kinds[kinds.len() - 1] == last);
    }
}

} // verus!
