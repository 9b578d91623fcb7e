//! What is taken from channels, from which of them, and what becomes of it.

use crate::access::{Access, SimpleRead, SimpleWrite};
use crate::address::ByteAddress;
use crate::channel::{ChannelElement, PeekResult, WriterPeek};
use crate::model::{
    any_ready, earliest, is_earliest, lemma_collect_all_frame, read_request, ready_writers,
    write_request, write_requests, ContextModel,
};
use crate::order::{gathering_keeps_order, pending_reads, pending_writes};
use crate::release::{all_joining, joining, request_joins_a_batch, requests_join_in_order};
use crate::run::{Action, Event, Phase, RunModel};
use crate::soundness::lemma_earliest_exists;
use vstd::prelude::*;

verus! {

/// Whether an element is at the front that has arrived by tick `now`.
pub open spec fn arrived<T>(front: PeekResult<T>, now: u64) -> bool {
    match front {
        PeekResult::Something(ChannelElement { time, .. }) => time <= now,
        _ => false,
    }
}

/// The tick at which the element at the front arrives.
pub open spec fn arrival<T>(front: PeekResult<T>) -> u64 {
    match front {
        PeekResult::Something(ChannelElement { time, .. }) => time,
        _ => u64::MAX,
    }
}

/// What the element at the front carries.
pub open spec fn carried<T>(front: PeekResult<T>) -> T {
    match front {
        PeekResult::Something(ChannelElement { data, .. }) => data,
        _ => arbitrary(),
    }
}

/// Whether the element at `fronts[index]` has arrived by tick `now`, none has arrived before it,
/// and none at an earlier position has arrived together with it.
pub open spec fn arrived_first(fronts: Seq<PeekResult<u64>>, now: u64, index: int) -> bool {
    &&& 0 <= index < fronts.len()
    &&& arrived(fronts[index], now)
    &&& forall|other: int|
        0 <= other < fronts.len() && arrived(#[trigger] fronts[other], now) ==> arrival(
            fronts[index],
        ) < arrival(fronts[other]) || (arrival(fronts[index]) == arrival(fronts[other]) && index
            <= other)
}

/// Whether both channels of a writer have an element at the front that has arrived by `now`.
pub open spec fn both_arrived(front: WriterPeek, now: u64) -> bool {
    arrived(front.addr, now) && arrived(front.data, now)
}

/// A reader is chosen exactly where one has an address that has arrived, and then it is the one
/// that has arrived first.
pub proof fn first_arrival_is_chosen(fronts: Seq<PeekResult<u64>>, now: u64)
    ensures
        any_ready(fronts, now) <==> exists|i: int|
            0 <= i < fronts.len() && arrived(#[trigger] fronts[i], now),
        any_ready(fronts, now) ==> arrived_first(fronts, now, earliest(fronts, now)),
        forall|i: int| is_earliest(fronts, now, i) <==> arrived_first(fronts, now, i),
{
    assert forall|i: int| 0 <= i < fronts.len() implies (#[trigger] fronts[i]).ready(now)
        == arrived(fronts[i], now) by {}
    assert forall|i: int| is_earliest(fronts, now, i) <==> arrived_first(fronts, now, i) by {
        if arrived_first(fronts, now, i) {
            assert forall|other: int|
                0 <= other < fronts.len() && (#[trigger] fronts[other]).ready(now) implies {
                ||| fronts[i].element().time < fronts[other].element().time
                ||| fronts[i].element().time == fronts[other].element().time && i <= other
            } by {
                assert(arrived(fronts[other], now));
            }
        }
        if is_earliest(fronts, now, i) {
            assert forall|other: int|
                0 <= other < fronts.len() && arrived(#[trigger] fronts[other], now) implies arrival(
                fronts[i],
            ) < arrival(fronts[other]) || (arrival(fronts[i]) == arrival(fronts[other]) && i
                <= other) by {
                assert(fronts[other].ready(now));
            }
        }
    }
    if any_ready(fronts, now) {
        lemma_earliest_exists(fronts, now);
        let i = choose|i: int| 0 <= i < fronts.len() && (#[trigger] fronts[i]).ready(now);
        assert(arrived(fronts[i], now));
    }
    if exists|i: int| 0 <= i < fronts.len() && arrived(#[trigger] fronts[i], now) {
        let i = choose|i: int| 0 <= i < fronts.len() && arrived(#[trigger] fronts[i], now);
        assert(fronts[i].ready(now));
    }
}

/// Where an address has arrived from a reader, the one that has arrived first is taken, from the
/// channel of its reader; the request that joins the waiting ones is a read of that address on
/// behalf of that very reader. Where none has arrived, nothing is taken and nothing changes, and
/// the writers are looked at.
pub proof fn taken_read_names_its_reader(
    run: RunModel,
    cur_time: u64,
    taken: usize,
    fronts: Vec<PeekResult<u64>>,
    now: u64,
)
    requires
        run.wf(),
        run.phase == (Phase::ChoosingRead { cur_time, taken }),
        run.accepts(Event::ReadersPeeked(fronts), now),
    ensures
        ({
            let (next, action) = run.step(Event::ReadersPeeked(fronts), now);
            &&& (exists|i: int| 0 <= i < fronts@.len() && arrived(#[trigger] fronts@[i], cur_time))
                ==> exists|i: int|
                {
                    &&& #[trigger] arrived_first(fronts@, cur_time, i)
                    &&& action == Action::TakeRead { addr: run.context.readers[i].addr }
                    &&& pending_reads(next.context) == pending_reads(run.context).push(
                        Access::SimpleRead(
                            SimpleRead {
                                address: ByteAddress(carried(fronts@[i])),
                                bundle: i as usize,
                            },
                        ),
                    )
                    &&& 0 <= i <= usize::MAX
                    &&& pending_writes(next.context) == pending_writes(run.context)
                    &&& next == (RunModel {
                        context: joining(
                            run.context,
                            Access::SimpleRead(
                                SimpleRead {
                                    address: ByteAddress(carried(fronts@[i])),
                                    bundle: i as usize,
                                },
                            ),
                        ),
                        phase: Phase::TakingRead { cur_time, taken: (taken + 1) as usize },
                        ..run
                    })
                }
            &&& !(exists|i: int|
                0 <= i < fronts@.len() && arrived(#[trigger] fronts@[i], cur_time)) ==> {
                &&& action == Action::PeekWriters
                &&& next == (RunModel { phase: Phase::ChoosingWrites { cur_time: now }, ..run })
            }
        }),
{
    assert(fronts@.len() == fronts.len());
    first_arrival_is_chosen(fronts@, cur_time);
    if any_ready(fronts@, cur_time) {
        let i = earliest(fronts@, cur_time);
        assert(arrived_first(fronts@, cur_time, i));
        gathering_keeps_order(run.context, read_request(fronts@, i));
        request_joins_a_batch(run.context, read_request(fronts@, i));
    }
}

/// The writers whose requests are taken are exactly those with an address and data that have both
/// arrived, in ascending order.
pub proof fn writers_with_arrivals_are_chosen(fronts: Seq<WriterPeek>, now: u64)
    requires
        fronts.len() <= usize::MAX,
    ensures
        forall|i: int, j: int|
            0 <= i < j < ready_writers(fronts, now).len() ==> (#[trigger] ready_writers(
                fronts,
                now,
            )[i]) < (#[trigger] ready_writers(fronts, now)[j]),
        forall|i: int|
            0 <= i < ready_writers(fronts, now).len() ==> {
                &&& (#[trigger] ready_writers(fronts, now)[i]) < fronts.len()
                &&& both_arrived(fronts[ready_writers(fronts, now)[i] as int], now)
            },
        forall|w: int|
            0 <= w < fronts.len() && both_arrived(#[trigger] fronts[w], now) ==> ready_writers(
                fronts,
                now,
            ).contains(w as usize),
    decreases fronts.len(),
{
    if fronts.len() > 0 {
        let before = fronts.drop_last();
        let fewer = ready_writers(before, now);
        let all = ready_writers(fronts, now);
        let last = fronts.len() - 1;
        writers_with_arrivals_are_chosen(before, now);
        assert(forall|w: int| 0 <= w < last ==> #[trigger] before[w] == fronts[w]);
        assert(fronts[last].ready(now) == both_arrived(fronts[last], now));
        assert(forall|i: int| 0 <= i < fewer.len() ==> #[trigger] all[i] == fewer[i]);
        assert forall|w: int| 0 <= w < fronts.len() && both_arrived(
            #[trigger] fronts[w],
            now,
        ) implies all.contains(w as usize) by {
            if w < last {
                assert(both_arrived(before[w], now));
                let k = choose|k: int| 0 <= k < fewer.len() && fewer[k] == w as usize;
                assert(all[k] == w as usize);
            } else {
                assert(all[all.len() - 1] == w as usize);
            }
        }
    }
}

/// Each of those requests is a write, on behalf of its writer, of exactly the data at the front
/// of its data channel to the address at the front of its address channel.
pub proof fn taken_writes_carry_their_data(fronts: Seq<WriterPeek>, now: u64)
    requires
        fronts.len() <= usize::MAX,
    ensures
        write_requests(fronts, now).len() == ready_writers(fronts, now).len(),
        forall|i: int|
            0 <= i < ready_writers(fronts, now).len() ==> (#[trigger] write_requests(
                fronts,
                now,
            )[i]) == {
                let writer = ready_writers(fronts, now)[i];
                Access::SimpleWrite(
                    SimpleWrite {
                        address: ByteAddress(carried(fronts[writer as int].addr)),
                        payload: carried(fronts[writer as int].data),
                        bundle: writer,
                    },
                )
            },
{
    writers_with_arrivals_are_chosen(fronts, now);
    assert forall|i: int| 0 <= i < ready_writers(fronts, now).len() implies (
    #[trigger] write_requests(fronts, now)[i]) == {
        let writer = ready_writers(fronts, now)[i];
        Access::SimpleWrite(
            SimpleWrite {
                address: ByteAddress(carried(fronts[writer as int].addr)),
                payload: carried(fronts[writer as int].data),
                bundle: writer,
            },
        )
    } by {
        let writer = ready_writers(fronts, now)[i];
        assert(write_requests(fronts, now)[i] == write_request(
            fronts[writer as int],
            writer as int,
        ));
        assert(both_arrived(fronts[writer as int], now));
    }
}

proof fn lemma_collect_writes_keeps_order(context: ContextModel, accesses: Seq<Access>)
    requires
        forall|i: int| 0 <= i < accesses.len() ==> (#[trigger] accesses[i]) is SimpleWrite,
    ensures
        pending_writes(context.collect_all(accesses)) == pending_writes(context) + accesses,
        pending_reads(context.collect_all(accesses)) == pending_reads(context),
    decreases accesses.len(),
{
    if accesses.len() > 0 {
        let before = accesses.drop_last();
        assert(forall|i: int| 0 <= i < before.len() ==> #[trigger] before[i] == accesses[i]);
        assert(accesses[accesses.len() - 1] is SimpleWrite);
        lemma_collect_writes_keeps_order(context, before);
        gathering_keeps_order(context.collect_all(before), accesses.last());
    }
    assert(pending_writes(context.collect_all(accesses)) =~= pending_writes(context) + accesses);
}

/// Where a writer has an address and data that have arrived, the requests of all such writers
/// join the waiting ones, and are then taken from their channels, writer after writer.
pub proof fn arrived_writes_are_taken(
    run: RunModel,
    cur_time: u64,
    fronts: Vec<WriterPeek>,
    now: u64,
)
    requires
        run.wf(),
        run.phase == (Phase::ChoosingWrites { cur_time }),
        run.accepts(Event::WritersPeeked(fronts), now),
        exists|i: int| 0 <= i < fronts@.len() && both_arrived(#[trigger] fronts@[i], cur_time),
    ensures
        ({
            let (next, action) = run.step(Event::WritersPeeked(fronts), now);
            let taken = ready_writers(fronts@, cur_time);
            let first = run.context.writers[taken[0] as int];
            &&& taken.len() > 0
            &&& action == Action::TakeWrite { addr: first.addr, data: first.data }
            &&& next == (RunModel {
                context: all_joining(run.context, write_requests(fronts@, cur_time)),
                phase: Phase::TakingWrites,
                takes: taken.drop_first(),
                ..run
            })
            &&& pending_writes(next.context) == pending_writes(run.context) + write_requests(
                fronts@,
                cur_time,
            )
            &&& pending_reads(next.context) == pending_reads(run.context)
        }),
{
    assert(fronts@.len() == fronts.len());
    writers_with_arrivals_are_chosen(fronts@, cur_time);
    taken_writes_carry_their_data(fronts@, cur_time);
    let w = choose|w: int| 0 <= w < fronts@.len() && both_arrived(#[trigger] fronts@[w], cur_time);
    assert(ready_writers(fronts@, cur_time).contains(w as usize));
    lemma_collect_writes_keeps_order(run.context, write_requests(fronts@, cur_time));
    lemma_collect_all_frame(run.context, write_requests(fronts@, cur_time));
    requests_join_in_order(run.context, write_requests(fronts@, cur_time));
}

/// The writers whose requests were gathered have their turn one after the other, each once, and
/// nothing else changes meanwhile.
pub proof fn writers_are_taken_in_turn(run: RunModel, now: u64)
    requires
        run.wf(),
        run.phase is TakingWrites,
        run.accepts(Event::Done, now),
        run.takes.len() > 0,
    ensures
        ({
            let (next, action) = run.step(Event::Done, now);
            let bundle = run.context.writers[run.takes[0] as int];
            &&& action == Action::TakeWrite { addr: bundle.addr, data: bundle.data }
            &&& next == (RunModel { takes: run.takes.drop_first(), ..run })
        }),
{
}

} // verus!
