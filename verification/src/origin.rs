//! Where the requests of a run come from, and where the answers to them go.

use crate::access::{Access, SimpleRead};
use crate::address::ByteAddress;
use crate::conservation::{
    admissible, after, all_accepted, all_gathered, fresh, gathered, held, nothing_is_lost,
    reads_among,
};
use crate::contents::{
    memory_holds_accepted_writes, oldest_read_is_answered, read_gives_last_accepted_write,
    writes_at,
};
use crate::gathering::{
    arrived, arrived_first, both_arrived, carried, first_arrival_is_chosen,
    taken_writes_carry_their_data, writers_with_arrivals_are_chosen,
};
use crate::model::{earliest, passed_on, ready_writers, write_requests, ContextModel};
use crate::protocol::{nothing_waits, steps_leave_the_rest_alone};
use crate::request_manager::{lemma_oldest_read, oldest_read};
use crate::run::{Action, Event, Phase, RunModel};
use vstd::multiset::Multiset;
use vstd::prelude::*;

verus! {

/// Whether `access` is what the front of its reader's channel, or the fronts of its writer's
/// channels, ask for as seen in this step: they have arrived, and carry its address and, for a
/// write, its payload. A read is taken from that channel in the same step.
pub open spec fn asked_for(run: RunModel, event: Event, now: u64, access: Access) -> bool {
    match (run.phase, event, access) {
        (
            Phase::ChoosingRead { cur_time, .. },
            Event::ReadersPeeked(fronts),
            Access::SimpleRead(read),
        ) => {
            &&& read.bundle < fronts@.len()
            &&& arrived(fronts@[read.bundle as int], cur_time)
            &&& carried(fronts@[read.bundle as int]) == read.address.0
            &&& run.step(event, now).1 == Action::TakeRead {
                addr: run.context.readers[read.bundle as int].addr,
            }
        },
        (
            Phase::ChoosingWrites { cur_time },
            Event::WritersPeeked(fronts),
            Access::SimpleWrite(write),
        ) => {
            &&& write.bundle < fronts@.len()
            &&& both_arrived(fronts@[write.bundle as int], cur_time)
            &&& carried(fronts@[write.bundle as int].addr) == write.address.0
            &&& carried(fronts@[write.bundle as int].data) == write.payload
        },
        _ => false,
    }
}

/// Whether `access` is asked for in step `index` of a run of `context`.
pub open spec fn asked_at(
    context: ContextModel,
    trace: Seq<(Event, u64)>,
    index: int,
    access: Access,
) -> bool {
    &&& 0 <= index < trace.len()
    &&& asked_for(
        after(fresh(context), trace.take(index)),
        trace[index].0,
        trace[index].1,
        access,
    )
}

/// Whatever a step gathers was asked for on a channel.
pub proof fn gathered_requests_were_asked_for(
    run: RunModel,
    event: Event,
    now: u64,
    access: Access,
)
    requires
        run.wf(),
        run.accepts(event, now),
        gathered(run, event).contains(access),
    ensures
        asked_for(run, event, now, access),
{
    let requests = gathered(run, event);
    let k = choose|k: int| 0 <= k < requests.len() && requests[k] == access;
    match (run.phase, event) {
        (Phase::ChoosingRead { cur_time, .. }, Event::ReadersPeeked(fronts)) => {
            assert(fronts@.len() == fronts.len());
            first_arrival_is_chosen(fronts@, cur_time);
            assert(arrived_first(fronts@, cur_time, earliest(fronts@, cur_time)));
        },
        (Phase::ChoosingWrites { cur_time }, Event::WritersPeeked(fronts)) => {
            assert(fronts@.len() == fronts.len());
            writers_with_arrivals_are_chosen(fronts@, cur_time);
            taken_writes_carry_their_data(fronts@, cur_time);
            assert(write_requests(fronts@, cur_time)[k] == access);
            let writer = ready_writers(fronts@, cur_time)[k];
            assert(both_arrived(fronts@[writer as int], cur_time));
        },
        _ => {},
    }
}

proof fn lemma_gathered_at(context: ContextModel, trace: Seq<(Event, u64)>, access: Access)
    requires
        context.wf(),
        admissible(fresh(context), trace),
        all_gathered(fresh(context), trace).contains(access),
    ensures
        exists|index: int| #[trigger] asked_at(context, trace, index, access),
    decreases trace.len(),
{
    let run = fresh(context);
    let before = trace.drop_last();
    let last = trace.len() - 1;
    let (event, now) = trace.last();
    let requests = all_gathered(run, trace);
    let k = choose|k: int| 0 <= k < requests.len() && requests[k] == access;
    let earlier = all_gathered(run, before);
    if k < earlier.len() {
        assert(earlier[k] == access);
        lemma_gathered_at(context, before, access);
        let index = choose|index: int| #[trigger] asked_at(context, before, index, access);
        assert(before.take(index) =~= trace.take(index));
        assert(asked_at(context, trace, index, access));
    } else {
        let reached = after(run, before);
        nothing_is_lost(run, before);
        assert(gathered(reached, event)[k - earlier.len()] == access);
        gathered_requests_were_asked_for(reached, event, now, access);
        assert(trace.take(last) =~= before);
        assert(asked_at(context, trace, last, access));
    }
}

/// The device is only ever given requests that were asked for: whatever it has accepted in a run
/// that began with nothing waiting was on a channel before, with that address and, for a write,
/// that payload, and on behalf of the reader or writer of that channel.
pub proof fn accepted_requests_were_asked_for(
    context: ContextModel,
    trace: Seq<(Event, u64)>,
    access: Access,
)
    requires
        context.wf(),
        nothing_waits(context),
        admissible(fresh(context), trace),
        all_accepted(fresh(context), trace).contains(access),
    ensures
        exists|index: int| #[trigger] asked_at(context, trace, index, access),
{
    broadcast use vstd::seq_lib::group_to_multiset_ensures;

    let run = fresh(context);
    let requests = all_accepted(run, trace).to_multiset();
    nothing_is_lost(run, trace);
    assert(held(run) =~= Multiset::<Access>::empty()) by {
        assert(context.backlog =~= Seq::<Access>::empty());
        assert(passed_on(context.batches) =~= Seq::<Access>::empty());
        assert(context.current.in_order() =~= Seq::<Access>::empty());
    }
    assert(requests.count(access) > 0);
    assert(held(after(run, trace)).add(requests).count(access) > 0);
    assert(all_gathered(run, trace).to_multiset().count(access) > 0);
    lemma_gathered_at(context, trace, access);
}

proof fn lemma_reads_among_contains(accesses: Seq<Access>, read: SimpleRead)
    requires
        reads_among(accesses).contains(read),
    ensures
        accesses.contains(Access::SimpleRead(read)),
    decreases accesses.len(),
{
    if accesses.len() > 0 {
        let before = accesses.drop_last();
        let all = reads_among(accesses);
        let k = choose|k: int| 0 <= k < all.len() && all[k] == read;
        if accesses.last() == Access::SimpleRead(read) {
            assert(accesses[accesses.len() - 1] == Access::SimpleRead(read));
        } else {
            if k < reads_among(before).len() {
                assert(reads_among(before)[k] == read);
            }
            lemma_reads_among_contains(before, read);
            let m = choose|m: int| 0 <= m < before.len() && before[m] == Access::SimpleRead(read);
            assert(accesses[m] == Access::SimpleRead(read));
        }
    }
}

proof fn lemma_bundles_stay(context: ContextModel, trace: Seq<(Event, u64)>)
    requires
        admissible(fresh(context), trace),
    ensures
        after(fresh(context), trace).context.readers == context.readers,
        after(fresh(context), trace).context.writers == context.writers,
    decreases trace.len(),
{
    if trace.len() > 0 {
        let before = trace.drop_last();
        lemma_bundles_stay(context, before);
        steps_leave_the_rest_alone(
            after(fresh(context), before),
            trace.last().0,
            trace.last().1,
        );
    }
}

/// An answer goes to the reader that asked: where the device returns from an address, the data
/// goes out on the response channel of a reader from whose address channel that address was
/// taken, and the address follows on the other channel of that same reader.
pub proof fn answer_goes_to_the_reader_that_asked(
    context: ContextModel,
    trace: Seq<(Event, u64)>,
    location: u64,
    now: u64,
    later: u64,
)
    requires
        context.wf(),
        nothing_waits(context),
        admissible(fresh(context), trace),
        after(fresh(context), trace).phase is Polling,
        after(fresh(context), trace).accepts(Event::Returned(Some(location)), now),
    ensures
        exists|index: int, reader: usize|
            {
                let (next, action) = after(fresh(context), trace).step(
                    Event::Returned(Some(location)),
                    now,
                );
                &&& #[trigger] asked_at(
                    context,
                    trace,
                    index,
                    Access::SimpleRead(
                        SimpleRead { address: ByteAddress(location), bundle: reader },
                    ),
                )
                &&& reader < context.readers.len()
                &&& action matches Action::EnqueueData { channel, .. }
                &&& channel == context.readers[reader as int].resp
                &&& next.step(Event::Done, later).1 matches Action::EnqueueAddr {
                    channel: addr_channel,
                    element,
                }
                &&& addr_channel == context.readers[reader as int].resp_addr
                &&& element.data == location
            },
{
    broadcast use vstd::seq_lib::group_to_multiset_ensures;

    let run = fresh(context);
    let reached = after(run, trace);
    nothing_is_lost(run, trace);
    lemma_bundles_stay(context, trace);
    lemma_oldest_read(reached.outstanding, ByteAddress(location));
    let oldest = oldest_read(reached.outstanding, ByteAddress(location));
    let read = reached.outstanding[oldest];
    let accepted = reads_among(all_accepted(run, trace));
    assert(reached.outstanding.contains(read));
    assert(reached.outstanding.to_multiset().count(read) > 0);
    assert(run.outstanding.to_multiset().count(read) == 0);
    assert(run.outstanding.to_multiset().add(accepted.to_multiset()).count(read) > 0);
    assert(accepted.contains(read));
    lemma_reads_among_contains(all_accepted(run, trace), read);
    accepted_requests_were_asked_for(context, trace, Access::SimpleRead(read));
    let index = choose|index: int|
        #[trigger] asked_at(context, trace, index, Access::SimpleRead(read));
    let reader = read.bundle;
    assert(read == SimpleRead { address: ByteAddress(location), bundle: reader });
    assert(asked_at(
        context,
        trace,
        index,
        Access::SimpleRead(SimpleRead { address: ByteAddress(location), bundle: reader }),
    ));
}

/// The memory gives back what was on the channel: once a write has been accepted, and as long as
/// no other write to its address has been, the memory holds at that address exactly the data
/// that its writer's data channel carried together with that address.
pub proof fn memory_holds_what_was_on_the_channel(
    context: ContextModel,
    trace: Seq<(Event, u64)>,
    position: int,
)
    requires
        context.wf(),
        nothing_waits(context),
        context.datastore is Some,
        admissible(fresh(context), trace),
        0 <= position < all_accepted(fresh(context), trace).len(),
        all_accepted(fresh(context), trace)[position] is SimpleWrite,
        forall|later: int|
            position < later < all_accepted(fresh(context), trace).len() ==> !writes_at(
                #[trigger] all_accepted(fresh(context), trace)[later],
                all_accepted(fresh(context), trace)[position]->SimpleWrite_0.address.0,
            ),
    ensures
        exists|index: int|
            {
                let write = all_accepted(fresh(context), trace)[position]->SimpleWrite_0;
                let holding = after(fresh(context), trace).context.datastore;
                &&& #[trigger] asked_at(
                    context,
                    trace,
                    index,
                    all_accepted(fresh(context), trace)[position],
                )
                &&& trace[index].0 matches Event::WritersPeeked(fronts)
                &&& carried(fronts@[write.bundle as int].addr) == write.address.0
                &&& holding matches Some(contents)
                &&& contents.contains_key(write.address.0)
                &&& contents[write.address.0] == carried(fronts@[write.bundle as int].data)
            },
{
    let run = fresh(context);
    let access = all_accepted(run, trace)[position];
    let write = access->SimpleWrite_0;
    assert(access == Access::SimpleWrite(write));
    assert(access.address().0 == write.address.0);
    read_gives_last_accepted_write(run, trace, position);
    memory_holds_accepted_writes(run, trace);
    assert(all_accepted(run, trace).contains(access));
    accepted_requests_were_asked_for(context, trace, access);
    let index = choose|index: int| #[trigger] asked_at(context, trace, index, access);
    assert(asked_at(context, trace, index, all_accepted(fresh(context), trace)[position]));
}

/// What was on the channel comes back: where the device returns from the address of a write that
/// it has accepted, and has accepted no other write to that address since, the data that goes out
/// is exactly what the writer's data channel carried together with that address.
pub proof fn read_gives_what_was_on_the_channel(
    context: ContextModel,
    trace: Seq<(Event, u64)>,
    position: int,
    location: u64,
    now: u64,
)
    requires
        context.wf(),
        nothing_waits(context),
        context.datastore is Some,
        admissible(fresh(context), trace),
        0 <= position < all_accepted(fresh(context), trace).len(),
        writes_at(all_accepted(fresh(context), trace)[position], location),
        forall|later: int|
            position < later < all_accepted(fresh(context), trace).len() ==> !writes_at(
                #[trigger] all_accepted(fresh(context), trace)[later],
                location,
            ),
        after(fresh(context), trace).phase is Polling,
        after(fresh(context), trace).accepts(Event::Returned(Some(location)), now),
    ensures
        exists|index: int|
            {
                let writer = all_accepted(fresh(context), trace)[position]->SimpleWrite_0.bundle;
                let action = after(fresh(context), trace).step(
                    Event::Returned(Some(location)),
                    now,
                ).1;
                &&& #[trigger] asked_at(
                    context,
                    trace,
                    index,
                    all_accepted(fresh(context), trace)[position],
                )
                &&& trace[index].0 matches Event::WritersPeeked(fronts)
                &&& carried(fronts@[writer as int].addr) == location
                &&& action matches Action::EnqueueData { element, .. }
                &&& element.data == carried(fronts@[writer as int].data)
            },
{
    let run = fresh(context);
    let access = all_accepted(run, trace)[position];
    memory_holds_what_was_on_the_channel(context, trace, position);
    nothing_is_lost(run, trace);
    oldest_read_is_answered(after(run, trace), location, now, now);
    let index = choose|index: int|
        {
            let write = access->SimpleWrite_0;
            let holding = after(fresh(context), trace).context.datastore;
            &&& #[trigger] asked_at(
                context,
                trace,
                index,
                all_accepted(fresh(context), trace)[position],
            )
            &&& trace[index].0 matches Event::WritersPeeked(fronts)
            &&& carried(fronts@[write.bundle as int].addr) == write.address.0
            &&& holding matches Some(contents)
            &&& contents.contains_key(write.address.0)
            &&& contents[write.address.0] == carried(fronts@[write.bundle as int].data)
        };
    assert(asked_at(context, trace, index, all_accepted(fresh(context), trace)[position]));
}

} // verus!
