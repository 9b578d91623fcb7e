//! What the memory holds, and what writers and readers are told of it.

use crate::access::{blank_data_is_zero, Access, MemoryData, SimpleRead};
use crate::address::ByteAddress;
use crate::channel::ChannelElement;
use crate::conservation::{accepted, admissible, after, all_accepted, answered, nothing_is_lost};
use crate::model::{lemma_collect_all_frame, write_requests, Acknowledgement};
use crate::request_manager::{awaits, lemma_oldest_read, oldest_read};
use crate::run::{Action, Event, Phase, RunModel};
use vstd::prelude::*;

verus! {

/// The contents after the writes among `accesses`, one after the other.
pub open spec fn stored(contents: Map<u64, MemoryData>, accesses: Seq<Access>) -> Map<
    u64,
    MemoryData,
>
    decreases accesses.len(),
{
    if accesses.len() == 0 {
        contents
    } else {
        let before = stored(contents, accesses.drop_last());
        match accesses.last() {
            Access::SimpleRead(_) => before,
            Access::SimpleWrite(write) => before.insert(write.address.0, write.payload),
        }
    }
}

/// Whether `access` writes at `location`.
pub open spec fn writes_at(access: Access, location: u64) -> bool {
    access matches Access::SimpleWrite(write) && write.address.0 == location
}

proof fn lemma_stored_step(run: RunModel, event: Event, now: u64)
    requires
        run.accepts(event, now),
    ensures
        run.step(event, now).0.context.datastore == match run.context.datastore {
            Some(contents) => Some(stored(contents, accepted(run, event))),
            None => None,
        },
{
    reveal_with_fuel(stored, 2);
    match (run.phase, event) {
        (Phase::ChoosingWrites { cur_time }, Event::WritersPeeked(peeks)) => {
            lemma_collect_all_frame(
                run.context,
                write_requests(peeks@, cur_time),
            );
        },
        (Phase::Sending { access, .. }, Event::Sent(true)) => {
            assert(seq![access].drop_last() =~= Seq::<Access>::empty());
        },
        _ => {},
    }
}

proof fn lemma_stored_concat(
    contents: Map<u64, MemoryData>,
    left: Seq<Access>,
    right: Seq<Access>,
)
    ensures
        stored(contents, left + right) == stored(stored(contents, left), right),
    decreases right.len(),
{
    if right.len() == 0 {
        assert(left + right =~= left);
    } else {
        lemma_stored_concat(contents, left, right.drop_last());
        assert((left + right).drop_last() =~= left + right.drop_last());
        assert((left + right).last() == right.last());
    }
}

/// The memory holds what the accepted writes have left there, in the order in which they were
/// accepted, and nothing else. Where no contents are simulated, none appear.
pub proof fn memory_holds_accepted_writes(run: RunModel, trace: Seq<(Event, u64)>)
    requires
        admissible(run, trace),
    ensures
        after(run, trace).context.datastore == match run.context.datastore {
            Some(contents) => Some(stored(contents, all_accepted(run, trace))),
            None => None,
        },
    decreases trace.len(),
{
    if trace.len() > 0 {
        let before = trace.drop_last();
        let (event, now) = trace.last();
        memory_holds_accepted_writes(run, before);
        lemma_stored_step(after(run, before), event, now);
        if let Some(contents) = run.context.datastore {
            lemma_stored_concat(
                contents,
                all_accepted(run, before),
                accepted(after(run, before), event),
            );
        }
    }
}

proof fn lemma_stored_last(contents: Map<u64, MemoryData>, accesses: Seq<Access>, index: int)
    requires
        0 <= index < accesses.len(),
        accesses[index] is SimpleWrite,
        forall|later: int|
            index < later < accesses.len() ==> !writes_at(
                #[trigger] accesses[later],
                accesses[index].address().0,
            ),
    ensures
        stored(contents, accesses).contains_key(accesses[index].address().0),
        stored(contents, accesses)[accesses[index].address().0]
            == accesses[index]->SimpleWrite_0.payload,
    decreases accesses.len(),
{
    let before = accesses.drop_last();
    if index < accesses.len() - 1 {
        assert(before[index] == accesses[index]);
        assert(forall|later: int|
            index < later < before.len() ==> #[trigger] before[later] == accesses[later]);
        lemma_stored_last(contents, before, index);
        assert(!writes_at(accesses[accesses.len() - 1], accesses[index].address().0));
    }
}

/// A read gives back what was written: once a write has been accepted, and as long as no other
/// write to the same address has been, a read of that address can be answered and gives the
/// payload of that write.
pub proof fn read_gives_last_accepted_write(
    run: RunModel,
    trace: Seq<(Event, u64)>,
    index: int,
)
    requires
        run.context.datastore is Some,
        admissible(run, trace),
        0 <= index < all_accepted(run, trace).len(),
        all_accepted(run, trace)[index] is SimpleWrite,
        forall|later: int|
            index < later < all_accepted(run, trace).len() ==> !writes_at(
                #[trigger] all_accepted(run, trace)[later],
                all_accepted(run, trace)[index].address().0,
            ),
    ensures
        after(run, trace).context.can_answer(all_accepted(run, trace)[index].address().0),
        after(run, trace).context.contents_at(all_accepted(run, trace)[index].address().0)
            == all_accepted(run, trace)[index]->SimpleWrite_0.payload,
{
    memory_holds_accepted_writes(run, trace);
    lemma_stored_last(run.context.datastore->0, all_accepted(run, trace), index);
}

/// Where contents are simulated, exactly those addresses can be read that held something at
/// first or that a write to has been accepted since.
pub proof fn answerable_addresses_were_written(
    run: RunModel,
    trace: Seq<(Event, u64)>,
    location: u64,
)
    requires
        run.context.datastore is Some,
        admissible(run, trace),
    ensures
        after(run, trace).context.can_answer(location) <==> {
            ||| run.context.datastore->0.contains_key(location)
            ||| exists|index: int|
                0 <= index < all_accepted(run, trace).len() && writes_at(
                    #[trigger] all_accepted(run, trace)[index],
                    location,
                )
        },
{
    memory_holds_accepted_writes(run, trace);
    lemma_stored_keys(run.context.datastore->0, all_accepted(run, trace), location);
}

proof fn lemma_stored_keys(
    contents: Map<u64, MemoryData>,
    accesses: Seq<Access>,
    location: u64,
)
    ensures
        stored(contents, accesses).contains_key(location) <==> {
            ||| contents.contains_key(location)
            ||| exists|index: int|
                0 <= index < accesses.len() && writes_at(#[trigger] accesses[index], location)
        },
    decreases accesses.len(),
{
    if accesses.len() > 0 {
        let before = accesses.drop_last();
        let last = accesses.len() - 1;
        lemma_stored_keys(contents, before, location);
        assert(forall|index: int| 0 <= index < last ==> #[trigger] before[index] == accesses[index]);
        if writes_at(accesses[last], location) {
        } else if stored(contents, before).contains_key(location) && !contents.contains_key(
            location,
        ) {
            let index = choose|index: int|
                0 <= index < before.len() && writes_at(#[trigger] before[index], location);
            assert(writes_at(accesses[index], location));
        } else if exists|index: int|
            0 <= index < accesses.len() && writes_at(#[trigger] accesses[index], location) {
            let index = choose|index: int|
                0 <= index < accesses.len() && writes_at(#[trigger] accesses[index], location);
            assert(writes_at(before[index], location));
        }
    }
}

/// A write is acknowledged to its writer, one tick later, in the step in which the device
/// accepts it, and nothing else is acknowledged.
pub proof fn accepted_writes_are_acknowledged(run: RunModel, event: Event, now: u64)
    requires
        run.wf(),
        run.accepts(event, now),
    ensures
        run.step(event, now).1 is EnqueueAck <==> accepted(run, event).len() == 1 && accepted(
            run,
            event,
        )[0] is SimpleWrite,
        run.step(event, now).1 is EnqueueAck ==> {
            let write = accepted(run, event)[0]->SimpleWrite_0;
            run.step(event, now).1 == Action::EnqueueAck(
                Acknowledgement {
                    ack: run.context.writers[write.bundle as int].ack,
                    done: ChannelElement { time: (now + 1) as u64, data: true },
                },
            )
        },
{
}

/// A read is answered in the step in which the device returns from its address, and nothing
/// else is: what the memory holds there goes to the reader that asked, one tick later, and in
/// the next step the address goes to the same reader.
pub proof fn returned_reads_are_answered(run: RunModel, event: Event, now: u64, later: u64)
    requires
        run.wf(),
        run.accepts(event, now),
    ensures
        run.step(event, now).1 is EnqueueData <==> answered(run, event).len() == 1,
        run.step(event, now).1 is EnqueueData ==> {
            let read = answered(run, event)[0];
            let bundle = run.context.readers[read.bundle as int];
            &&& read.bundle < run.context.readers.len()
            &&& run.step(event, now).1 == Action::EnqueueData {
                channel: bundle.resp,
                element: ChannelElement {
                    time: (now + 1) as u64,
                    data: run.context.contents_at(read.address.0),
                },
            }
            &&& run.step(event, now).0.step(Event::Done, later).1 == Action::EnqueueAddr {
                channel: bundle.resp_addr,
                element: ChannelElement { time: (later + 1) as u64, data: read.address.0 },
            }
        },
{
    match (run.phase, event) {
        (Phase::Polling, Event::Returned(Some(location))) => {
            lemma_oldest_read(run.outstanding, ByteAddress(location));
        },
        _ => {},
    }
}

/// Whether `data` is what a memory that holds `contents` gives for a read of `location`: what it
/// holds there, and where no contents are simulated, sixteen zeros.
pub open spec fn gives(
    contents: Option<Map<u64, MemoryData>>,
    location: u64,
    data: MemoryData,
) -> bool {
    match contents {
        Some(held) => held.contains_key(location) && data == held[location],
        None => {
            let MemoryData::F16(numbers) = data;
            forall|i: int| 0 <= i < 16 ==> #[trigger] numbers@[i] == 0
        },
    }
}

/// Whether the read at `index` is of `location` and none before it is.
pub open spec fn first_of(reads: Seq<SimpleRead>, location: u64, index: int) -> bool {
    &&& 0 <= index < reads.len()
    &&& reads[index].address.0 == location
    &&& forall|earlier: int|
        0 <= earlier < index ==> (#[trigger] reads[earlier]).address.0 != location
}

/// Where the device returns from an address, the read of it that has been outstanding for longest
/// is answered and is outstanding no more: the data goes out on the response channel of the
/// reader that it names, one tick later. Then the address goes out on the other channel of that
/// reader, one tick later than that step. Nothing else changes.
pub proof fn oldest_read_is_answered(run: RunModel, location: u64, now: u64, later: u64)
    requires
        run.wf(),
        run.phase is Polling,
        run.accepts(Event::Returned(Some(location)), now),
        later < u64::MAX,
    ensures
        exists|index: int|
            {
                let (next, action) = run.step(Event::Returned(Some(location)), now);
                let (last, second) = next.step(Event::Done, later);
                let bundle = run.context.readers[run.outstanding[index].bundle as int];
                &&& #[trigger] first_of(run.outstanding, location, index)
                &&& run.outstanding[index].bundle < run.context.readers.len()
                &&& action matches Action::EnqueueData { channel, element }
                &&& channel == bundle.resp
                &&& element.time == now + 1
                &&& gives(run.context.datastore, location, element.data)
                &&& next == (RunModel {
                    outstanding: run.outstanding.remove(index),
                    phase: Phase::AnsweringData { resp_addr: bundle.resp_addr, addr: location },
                    ..run
                })
                &&& second matches Action::EnqueueAddr { channel: addr_channel, element: addr }
                &&& addr_channel == bundle.resp_addr
                &&& addr.time == later + 1
                &&& addr.data == location
                &&& last == (RunModel { phase: Phase::AnsweringAddr, ..next })
            },
{
    lemma_oldest_read(run.outstanding, ByteAddress(location));
    let index = oldest_read(run.outstanding, ByteAddress(location));
    assert forall|earlier: int| 0 <= earlier < index implies (
    #[trigger] run.outstanding[earlier]).address.0 != location by {
        assert(run.outstanding[earlier].address != ByteAddress(location));
    }
    assert(first_of(run.outstanding, location, index));
    blank_data_is_zero();
}

/// What was written comes back: where the device returns from the address of a write that it has
/// accepted, and has accepted no other write to that address since, the reader that is answered
/// is sent the payload of that write.
pub proof fn accepted_write_is_read_back(
    run: RunModel,
    trace: Seq<(Event, u64)>,
    index: int,
    now: u64,
)
    requires
        run.wf(),
        run.context.datastore is Some,
        admissible(run, trace),
        0 <= index < all_accepted(run, trace).len(),
        all_accepted(run, trace)[index] is SimpleWrite,
        forall|later: int|
            index < later < all_accepted(run, trace).len() ==> !writes_at(
                #[trigger] all_accepted(run, trace)[later],
                all_accepted(run, trace)[index].address().0,
            ),
        after(run, trace).phase is Polling,
        awaits(
            after(run, trace).outstanding,
            ByteAddress(all_accepted(run, trace)[index].address().0),
        ),
        now < u64::MAX,
    ensures
        ({
            let write = all_accepted(run, trace)[index]->SimpleWrite_0;
            let event = Event::Returned(Some(write.address.0));
            let reached = after(run, trace);
            let read = answered(reached, event)[0];
            &&& reached.accepts(event, now)
            &&& read.address == write.address
            &&& reached.step(event, now).1 == Action::EnqueueData {
                channel: reached.context.readers[read.bundle as int].resp,
                element: ChannelElement { time: (now + 1) as u64, data: write.payload },
            }
        }),
{
    let write = all_accepted(run, trace)[index]->SimpleWrite_0;
    let reached = after(run, trace);
    nothing_is_lost(run, trace);
    read_gives_last_accepted_write(run, trace, index);
    lemma_oldest_read(reached.outstanding, write.address);
    assert(write.address == ByteAddress(write.address.0));
    returned_reads_are_answered(reached, Event::Returned(Some(write.address.0)), now, now);
}

} // verus!
