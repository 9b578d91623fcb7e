//! The order in which batches are passed on.

use crate::batch::BatchModel;
use vstd::prelude::*;

verus! {

/// `ordered` with `batch` in its place: behind every batch at the front that it does not outrank.
pub open spec fn placed(ordered: Seq<BatchModel>, batch: BatchModel) -> Seq<BatchModel>
    decreases ordered.len(),
{
    if ordered.len() == 0 || ordered.last().priority >= batch.priority {
        ordered.push(batch)
    } else {
        placed(ordered.drop_last(), batch).push(ordered.last())
    }
}

/// The order in which waiting batches are passed on: those of higher priority first, those of
/// equal priority in the order in which they wait.
pub open spec fn by_priority(batches: Seq<BatchModel>) -> Seq<BatchModel>
    decreases batches.len(),
{
    if batches.len() == 0 {
        Seq::empty()
    } else {
        placed(by_priority(batches.drop_last()), batches.last())
    }
}

/// Whether no batch outranks one before it.
pub open spec fn ranked(batches: Seq<BatchModel>) -> bool {
    forall|i: int, j: int|
        0 <= i < j < batches.len() ==> (#[trigger] batches[i]).priority >= (
        #[trigger] batches[j]).priority
}

/// Whether all batches are of one priority.
pub open spec fn of_one_priority(batches: Seq<BatchModel>) -> bool {
    forall|i: int, j: int|
        0 <= i < j < batches.len() ==> (#[trigger] batches[i]).priority == (
        #[trigger] batches[j]).priority
}

/// The batches of the given priority, in order.
pub open spec fn of_priority(batches: Seq<BatchModel>, priority: u8) -> Seq<BatchModel> {
    batches.filter(|batch: BatchModel| batch.priority == priority)
}

/// Where every batch from `index` on is outranked and the one before it is not, `index` is the
/// place of a batch.
pub proof fn lemma_placed_at(ordered: Seq<BatchModel>, batch: BatchModel, index: int)
    requires
        0 <= index <= ordered.len(),
        index > 0 ==> ordered[index - 1].priority >= batch.priority,
        forall|i: int|
            index <= i < ordered.len() ==> (#[trigger] ordered[i]).priority < batch.priority,
    ensures
        placed(ordered, batch) == ordered.insert(index, batch),
    decreases ordered.len(),
{
    if index == ordered.len() {
        assert(placed(ordered, batch) =~= ordered.insert(index, batch));
    } else {
        let before = ordered.drop_last();
        assert(ordered[ordered.len() - 1].priority < batch.priority);
        assert(forall|i: int| 0 <= i < before.len() ==> #[trigger] before[i] == ordered[i]);
        lemma_placed_at(before, batch, index);
        assert(placed(ordered, batch) =~= ordered.insert(index, batch));
    }
}

proof fn lemma_placed_members(ordered: Seq<BatchModel>, batch: BatchModel)
    ensures
        placed(ordered, batch).len() == ordered.len() + 1,
        forall|i: int|
            0 <= i < placed(ordered, batch).len() ==> (#[trigger] placed(ordered, batch)[i])
                == batch || ordered.contains(placed(ordered, batch)[i]),
    decreases ordered.len(),
{
    let more = placed(ordered, batch);
    if ordered.len() > 0 && ordered.last().priority < batch.priority {
        let before = ordered.drop_last();
        let fewer = placed(before, batch);
        lemma_placed_members(before, batch);
        assert forall|i: int| 0 <= i < more.len() implies (#[trigger] more[i]) == batch
            || ordered.contains(more[i]) by {
            if i < fewer.len() {
                assert(more[i] == fewer[i]);
                if fewer[i] != batch {
                    let k = choose|k: int| 0 <= k < before.len() && before[k] == fewer[i];
                    assert(ordered[k] == more[i]);
                }
            } else {
                assert(more[i] == ordered[ordered.len() - 1]);
            }
        }
    } else {
        assert forall|i: int| 0 <= i < more.len() implies (#[trigger] more[i]) == batch
            || ordered.contains(more[i]) by {
            if i < ordered.len() {
                assert(more[i] == ordered[i]);
            }
        }
    }
}

proof fn lemma_placed_ranked(ordered: Seq<BatchModel>, batch: BatchModel)
    requires
        ranked(ordered),
    ensures
        ranked(placed(ordered, batch)),
    decreases ordered.len(),
{
    let more = placed(ordered, batch);
    if ordered.len() > 0 && ordered.last().priority < batch.priority {
        let before = ordered.drop_last();
        let fewer = placed(before, batch);
        let last = ordered.len() - 1;
        assert(forall|i: int| 0 <= i < before.len() ==> #[trigger] before[i] == ordered[i]);
        lemma_placed_ranked(before, batch);
        lemma_placed_members(before, batch);
        assert forall|i: int, j: int| 0 <= i < j < more.len() implies (
        #[trigger] more[i]).priority >= (#[trigger] more[j]).priority by {
            assert(more[i] == fewer[i]);
            if j < fewer.len() {
                assert(more[j] == fewer[j]);
            } else if fewer[i] != batch {
                let k = choose|k: int| 0 <= k < before.len() && before[k] == fewer[i];
                assert(ordered[k].priority >= ordered[last].priority);
            }
        }
    } else {
        assert forall|i: int, j: int| 0 <= i < j < more.len() implies (
        #[trigger] more[i]).priority >= (#[trigger] more[j]).priority by {
            assert(more[i] == ordered[i]);
            if j < ordered.len() {
                assert(more[j] == ordered[j]);
            } else if i < ordered.len() - 1 {
                assert(ordered[i].priority >= ordered[ordered.len() - 1].priority);
            }
        }
    }
}

/// Ordering batches adds none and loses none.
pub proof fn lemma_by_priority_members(batches: Seq<BatchModel>)
    ensures
        by_priority(batches).len() == batches.len(),
        forall|i: int|
            0 <= i < by_priority(batches).len() ==> batches.contains(
                #[trigger] by_priority(batches)[i],
            ),
    decreases batches.len(),
{
    if batches.len() > 0 {
        let before = batches.drop_last();
        let ordered = by_priority(batches);
        lemma_by_priority_members(before);
        lemma_placed_members(by_priority(before), batches.last());
        assert forall|i: int| 0 <= i < ordered.len() implies batches.contains(
            #[trigger] ordered[i],
        ) by {
            if ordered[i] == batches.last() {
                assert(batches[batches.len() - 1] == ordered[i]);
            } else {
                let fewer = by_priority(before);
                let k = choose|k: int| 0 <= k < fewer.len() && fewer[k] == ordered[i];
                assert(before.contains(fewer[k]));
                let m = choose|m: int| 0 <= m < before.len() && before[m] == fewer[k];
                assert(batches[m] == ordered[i]);
            }
        }
    }
}

/// Batches of higher priority are passed on first.
pub proof fn higher_priority_goes_first(batches: Seq<BatchModel>)
    ensures
        forall|i: int, j: int|
            0 <= i < j < by_priority(batches).len() ==> (#[trigger] by_priority(
                batches,
            )[i]).priority >= (#[trigger] by_priority(batches)[j]).priority,
    decreases batches.len(),
{
    if batches.len() > 0 {
        higher_priority_goes_first(batches.drop_last());
        lemma_placed_ranked(by_priority(batches.drop_last()), batches.last());
    }
}

proof fn lemma_of_priority_push(batches: Seq<BatchModel>, batch: BatchModel, priority: u8)
    ensures
        of_priority(batches.push(batch), priority) == if batch.priority == priority {
            of_priority(batches, priority).push(batch)
        } else {
            of_priority(batches, priority)
        },
{
    reveal(Seq::filter);
    assert(batches.push(batch).drop_last() =~= batches);
}

proof fn lemma_placed_keeps_turns(ordered: Seq<BatchModel>, batch: BatchModel, priority: u8)
    ensures
        of_priority(placed(ordered, batch), priority) == of_priority(
            ordered.push(batch),
            priority,
        ),
    decreases ordered.len(),
{
    if ordered.len() > 0 && ordered.last().priority < batch.priority {
        let before = ordered.drop_last();
        lemma_placed_keeps_turns(before, batch, priority);
        lemma_of_priority_push(placed(before, batch), ordered.last(), priority);
        lemma_of_priority_push(before, batch, priority);
        lemma_of_priority_push(before, ordered.last(), priority);
        lemma_of_priority_push(ordered, batch, priority);
        assert(before.push(ordered.last()) =~= ordered);
    }
}

/// Batches of equal priority are passed on in the order in which they wait.
pub proof fn equal_priority_keeps_turns(batches: Seq<BatchModel>, priority: u8)
    ensures
        of_priority(by_priority(batches), priority) == of_priority(batches, priority),
    decreases batches.len(),
{
    if batches.len() == 0 {
        assert(by_priority(batches) =~= batches);
    } else {
        let before = batches.drop_last();
        equal_priority_keeps_turns(before, priority);
        lemma_placed_keeps_turns(by_priority(before), batches.last(), priority);
        lemma_of_priority_push(by_priority(before), batches.last(), priority);
        lemma_of_priority_push(before, batches.last(), priority);
        assert(before.push(batches.last()) =~= batches);
    }
}

/// Batches that already stand by priority stay as they are.
pub proof fn ranked_batches_stay(batches: Seq<BatchModel>)
    requires
        ranked(batches),
    ensures
        by_priority(batches) == batches,
    decreases batches.len(),
{
    if batches.len() > 0 {
        let before = batches.drop_last();
        assert(forall|i: int| 0 <= i < before.len() ==> #[trigger] before[i] == batches[i]);
        ranked_batches_stay(before);
        if before.len() > 0 {
            assert(batches[before.len() - 1].priority >= batches[batches.len() - 1].priority);
        }
        assert(before.push(batches.last()) =~= batches);
    }
    assert(by_priority(batches) =~= batches);
}

/// Batches of one priority are passed on in the order in which they wait.
pub proof fn one_priority_keeps_order(batches: Seq<BatchModel>)
    requires
        of_one_priority(batches),
    ensures
        by_priority(batches) == batches,
{
    ranked_batches_stay(batches);
}

} // verus!
