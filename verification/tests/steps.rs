use ramulator_context::access::{Access, MemoryData, SimpleRead, SimpleWrite};
use ramulator_context::address::ByteAddress;
use ramulator_context::channel::{
    ChannelElement, PeekResult, ReadBundle, WriteBundle, WriterPeek,
};
use ramulator_context::context::RamulatorContext;
use ramulator_context::memory::Memory;
use ramulator_context::model::Acknowledgement;
use ramulator_context::natural::Natural;
use ramulator_context::run::{Action, Event, Run};

fn data(value: u16) -> MemoryData {
    MemoryData::F16([value; 16])
}

fn something<T>(time: u64, data: T) -> PeekResult<T> {
    PeekResult::Something(ChannelElement { time, data })
}

fn writer(address: u64, value: u16) -> WriterPeek {
    WriterPeek { data: something(0, data(value)), addr: something(0, address) }
}

/// A context with one writer and one reader, on channels with numbers of their own.
fn context(cycles: u32, ticks: u32, datastore: Option<Memory>) -> RamulatorContext {
    let rate = (Natural::from_u32(cycles), Natural::from_u32(ticks));
    let mut context = RamulatorContext::new("hbm2", rate, datastore);
    context.add_writer(WriteBundle::new(10, 11, 12));
    context.add_reader(ReadBundle::new(20, 21, 22));
    context
}

#[test]
fn a_round_goes_through_its_stages() {
    let mut run = Run::new(context(1, 1, Some(Memory::new())));
    let open = WriterPeek { data: PeekResult::Nothing(1), addr: PeekResult::Nothing(1) };

    // A round in which the writer has a request ready and the device accepts it.
    assert_eq!(run.step(Event::Done, 1), Action::PeekChannels);
    let seen = Event::ChannelsPeeked(vec![writer(64, 7)], vec![PeekResult::Nothing(1)]);
    assert_eq!(run.step(seen, 1), Action::PollReturn);
    assert_eq!(run.step(Event::Returned(None), 1), Action::Tick);
    assert_eq!(run.step(Event::Done, 1), Action::PeekReaders);
    let idle = Event::ReadersPeeked(vec![PeekResult::Nothing(1)]);
    assert_eq!(run.step(idle, 1), Action::PeekWriters);
    let seen = Event::WritersPeeked(vec![writer(64, 7)]);
    assert_eq!(run.step(seen, 1), Action::TakeWrite { addr: 11, data: 10 });
    assert_eq!(run.step(Event::Done, 1), Action::Send { address: 64, is_write: true });
    let ack = Acknowledgement { ack: 12, done: ChannelElement { time: 2, data: true } };
    assert_eq!(run.step(Event::Sent(true), 1), Action::EnqueueAck(ack));
    assert_eq!(run.step(Event::Done, 1), Action::AdvanceTime);
    assert_eq!(run.step(Event::Done, 2), Action::Tick);
    assert_eq!(run.context().read_data(64), data(7));

    // A round in which the reader asks for it, and the device turns the request away.
    assert_eq!(run.step(Event::Done, 2), Action::PeekChannels);
    let seen = Event::ChannelsPeeked(vec![open], vec![something(2, 64)]);
    assert_eq!(run.step(seen, 2), Action::PollReturn);
    assert_eq!(run.step(Event::Returned(None), 2), Action::PeekReaders);
    let seen = Event::ReadersPeeked(vec![something(2, 64)]);
    assert_eq!(run.step(seen, 2), Action::TakeRead { addr: 20 });
    assert_eq!(run.step(Event::Done, 2), Action::PeekReaders);
    let idle = Event::ReadersPeeked(vec![PeekResult::Closed]);
    assert_eq!(run.step(idle, 2), Action::PeekWriters);
    let seen = Event::WritersPeeked(vec![open]);
    assert_eq!(run.step(seen, 2), Action::Send { address: 64, is_write: false });
    assert_eq!(run.step(Event::Sent(false), 2), Action::AdvanceTime);
    assert_eq!(run.step(Event::Done, 3), Action::Tick);

    // A round in which the request is tried again, without a look at the channels.
    assert_eq!(run.step(Event::Done, 3), Action::Send { address: 64, is_write: false });
    assert_eq!(run.step(Event::Sent(true), 3), Action::PollReturn);

    // Answers that the run cannot take.
    assert!(!run.is_acceptable(&Event::Returned(Some(32)), 3));
    assert!(!run.is_acceptable(&Event::Returned(Some(64)), u64::MAX));
    assert!(!run.is_acceptable(&Event::Sent(true), 3));

    let answer = run.step(Event::Returned(Some(64)), 3);
    let element = ChannelElement { time: 4, data: data(7) };
    assert_eq!(answer, Action::EnqueueData { channel: 21, element });
    let element = ChannelElement { time: 4, data: 64 };
    assert_eq!(run.step(Event::Done, 3), Action::EnqueueAddr { channel: 22, element });
    assert_eq!(run.step(Event::Done, 3), Action::PeekReaders);
    let idle = Event::ReadersPeeked(vec![PeekResult::Closed]);
    assert_eq!(run.step(idle, 3), Action::PeekWriters);
    let closed = WriterPeek { data: PeekResult::Closed, addr: PeekResult::Nothing(3) };
    assert_eq!(run.step(Event::WritersPeeked(vec![closed]), 3), Action::AdvanceTime);
    assert_eq!(run.step(Event::Done, 4), Action::Tick);
    assert_eq!(run.step(Event::Done, 4), Action::PeekChannels);
    let seen = Event::ChannelsPeeked(vec![closed], vec![PeekResult::Closed]);
    assert_eq!(run.step(seen, 4), Action::Finish);
}

#[test]
fn unwritten_addresses_cannot_be_answered() {
    let with = context(1, 1, Some(Memory::new()));
    assert!(!with.is_answerable(64));
    let without = context(1, 1, None);
    assert!(without.is_answerable(64));
}

#[test]
fn a_round_needs_a_rate_and_fitting_looks() {
    let mut run = Run::new(context(1, 0, None));
    assert!(!run.is_acceptable(&Event::Returned(None), 0));
    assert!(run.is_acceptable(&Event::Done, 0));
    assert_eq!(run.step(Event::Done, 0), Action::PeekChannels);
    assert!(!run.is_acceptable(&Event::ChannelsPeeked(vec![], vec![PeekResult::Closed]), 0));
    assert!(!run.is_acceptable(&Event::ChannelsPeeked(vec![writer(0, 0)], vec![]), 0));
    let seen = Event::ChannelsPeeked(vec![writer(0, 0)], vec![PeekResult::Closed]);
    assert_eq!(run.step(seen, 0), Action::PollReturn);
    assert!(!run.is_acceptable(&Event::Returned(None), 0));
}

#[test]
fn the_device_catches_up_with_the_clock() {
    let count = |cycles: Vec<u32>, ticks: Vec<u32>, now: u64| {
        let rate = (Natural::from_digits(cycles), Natural::from_digits(ticks));
        let mut context = RamulatorContext::new("hbm2", rate, None);
        let mut made = 0;
        while context.update_ticks(now) {
            made += 1;
        }
        made
    };
    assert_eq!(count(vec![5], vec![9], 0), 0);
    assert_eq!(count(vec![5], vec![9], 1), 0);
    assert_eq!(count(vec![5], vec![9], 2), 1);
    assert_eq!(count(vec![5], vec![9], 18), 10);
    assert_eq!(count(vec![5], vec![1], 2), 10);
    assert_eq!(count(vec![1], vec![1], 300), 300);
    // Rates beyond the range of machine integers.
    assert_eq!(count(vec![0, 0, 0, 7], vec![0, 0, 0, 2], 3), 10);
    assert_eq!(count(vec![1], vec![0, 0, 1], u64::MAX), 0);
    assert_eq!(count(vec![0, 2], vec![0, 1, 0], 5), 10);
}

#[test]
fn requests_join_batches_in_order() {
    let rate = (Natural::from_u32(1), Natural::from_u32(1));
    let mut context = RamulatorContext::new("hbm2", rate, None);
    for i in 0..600 {
        context.add_writer(WriteBundle::new(i, i, i));
    }
    context.add_reader(ReadBundle::new(0, 0, 0));

    let taken = context.collect_read_requests(0, &vec![something(0, 5)]);
    assert_eq!(taken, Some(0));
    // One writer lacks data, one has an address too late, one has data too late.
    let mut peeks: Vec<WriterPeek> = (0..600).map(|i| writer(32 * i, i as u16)).collect();
    peeks[3].data = PeekResult::Nothing(0);
    peeks[4].addr = something(1, 0);
    peeks[5].data = something(1, data(0));
    let taken = context.collect_write_requests(0, &peeks);
    let expected: Vec<usize> = (0..600).filter(|i| !(3..6).contains(i)).collect();
    assert_eq!(taken, expected);

    // The first batch holds the read and 511 writes, and passes the writes on first.
    let accesses = context.process_batches(1);
    assert_eq!(accesses.len(), 598);
    assert!(accesses[..511].iter().all(Access::is_write));
    assert_eq!(accesses[511], Access::SimpleRead(SimpleRead::new(ByteAddress(5), 0)));
    assert!(accesses[512..].iter().all(Access::is_write));
    let write = SimpleWrite::new(ByteAddress(32 * 599), data(599), 599);
    assert_eq!(accesses[597], Access::SimpleWrite(write));
    assert_eq!(context.process_batches(2), vec![]);
}

#[test]
fn batches_wait_for_the_interval_unless_full() {
    let mut context = context(1, 1, None);
    for _ in 0..511 {
        assert_eq!(context.collect_read_requests(0, &vec![something(0, 5)]), Some(0));
    }
    assert_eq!(context.process_batches(0), vec![]);
    assert_eq!(context.collect_read_requests(0, &vec![something(0, 5)]), Some(0));
    assert_eq!(context.process_batches(0).len(), 512);
    assert_eq!(context.last_batch_cycle(), 0);
    assert_eq!(context.process_batches(3), vec![]);
    assert_eq!(context.last_batch_cycle(), 3);
}

#[test]
fn a_round_passes_on_a_limited_number_of_batches() {
    let mut context = context(1, 1, None);
    for i in 0..512 * 256 + 7 {
        assert_eq!(context.collect_read_requests(0, &vec![something(0, i)]), Some(0));
    }
    let first = context.process_batches(1);
    assert_eq!(first.len(), 512 * 256);
    let second: Vec<u64> =
        context.process_batches(2).iter().map(|access| access.get_addr().0).collect();
    assert_eq!(second, (512 * 256..512 * 256 + 7).collect::<Vec<u64>>());
}

#[test]
fn turned_away_requests_are_tried_again_writes_first() {
    let mut context = context(1, 1, Some(Memory::new()));
    let mut manager = ramulator_context::request_manager::RequestManager::default();
    for i in 0..12u64 {
        let access = if i % 2 == 0 {
            Access::SimpleRead(SimpleRead::new(ByteAddress(i), 0))
        } else {
            Access::SimpleWrite(SimpleWrite::new(ByteAddress(i), data(i as u16), 0))
        };
        assert_eq!(context.enqueue_payload(access, false, &mut manager, 0), None);
    }
    assert!(manager.is_empty());
    let addresses = |accesses: Vec<Access>| -> Vec<u64> {
        accesses.iter().map(|access| access.get_addr().0).collect()
    };
    assert_eq!(addresses(context.process_backlog()), vec![1, 3, 5, 7, 9, 0, 2, 4, 6, 8]);
    assert_eq!(addresses(context.process_backlog()), vec![11, 10]);
    assert_eq!(addresses(context.process_backlog()), vec![]);
}

#[test]
fn every_turned_away_request_has_its_turn() {
    let mut context = context(1, 1, None);
    let mut manager = ramulator_context::request_manager::RequestManager::default();
    for i in 0..25u64 {
        let access = Access::SimpleRead(SimpleRead::new(ByteAddress(i), 0));
        context.enqueue_payload(access, false, &mut manager, 0);
    }
    for round in 0..3u64 {
        let accesses = context.process_backlog();
        let addresses: Vec<u64> = accesses.iter().map(|access| access.get_addr().0).collect();
        let mut expected: Vec<u64> = (10 * round..25.min(10 * round + 10)).collect();
        if round == 2 {
            expected.extend(0..5);
        }
        assert_eq!(addresses, expected);
        for access in accesses {
            context.enqueue_payload(access, false, &mut manager, 0);
        }
    }
}

#[test]
fn retries_are_sent_before_batches() {
    let mut run = Run::new(context(1, 1, None));
    let quiet = WriterPeek { data: PeekResult::Nothing(1), addr: PeekResult::Nothing(1) };

    // The device turns a read away.
    run.step(Event::Done, 1);
    let seen = Event::ChannelsPeeked(vec![quiet], vec![something(1, 32)]);
    assert_eq!(run.step(seen, 1), Action::PollReturn);
    assert_eq!(run.step(Event::Returned(None), 1), Action::Tick);
    assert_eq!(run.step(Event::Done, 1), Action::PeekReaders);
    let seen = Event::ReadersPeeked(vec![something(1, 32)]);
    assert_eq!(run.step(seen, 1), Action::TakeRead { addr: 20 });
    assert_eq!(run.step(Event::Done, 1), Action::PeekReaders);
    let seen = Event::ReadersPeeked(vec![PeekResult::Nothing(1)]);
    assert_eq!(run.step(seen, 1), Action::PeekWriters);
    let seen = Event::WritersPeeked(vec![quiet]);
    assert_eq!(run.step(seen, 1), Action::Send { address: 32, is_write: false });
    assert_eq!(run.step(Event::Sent(false), 1), Action::AdvanceTime);
    assert_eq!(run.step(Event::Done, 2), Action::Tick);

    // It is sent again before a write that is gathered in the next round.
    assert_eq!(run.step(Event::Done, 2), Action::Send { address: 32, is_write: false });
    assert_eq!(run.step(Event::Sent(false), 2), Action::PollReturn);
    assert_eq!(run.step(Event::Returned(None), 2), Action::PeekReaders);
    let seen = Event::ReadersPeeked(vec![PeekResult::Nothing(2)]);
    assert_eq!(run.step(seen, 2), Action::PeekWriters);
    let seen = Event::WritersPeeked(vec![writer(64, 1)]);
    assert_eq!(run.step(seen, 2), Action::TakeWrite { addr: 11, data: 10 });
    assert_eq!(run.step(Event::Done, 2), Action::Send { address: 64, is_write: true });
}

#[test]
fn accepted_requests_are_stored_or_become_outstanding() {
    let mut context = context(1, 1, Some(Memory::new()));
    let mut manager = ramulator_context::request_manager::RequestManager::default();
    let write = Access::SimpleWrite(SimpleWrite::new(ByteAddress(96), data(3), 0));
    let ack = context.enqueue_payload(write, true, &mut manager, 41).unwrap();
    assert_eq!(ack.ack, 12);
    assert_eq!(ack.done, ChannelElement { time: 42, data: true });
    assert!(manager.is_empty());
    assert!(!context.has_work(&manager));
    let read = Access::SimpleRead(SimpleRead::new(ByteAddress(96), 0));
    assert_eq!(context.enqueue_payload(read, true, &mut manager, 42), None);
    assert!(context.has_work(&manager));
    let response = context.respond(96, &mut manager);
    assert_eq!((response.resp, response.resp_addr), (21, 22));
    assert_eq!((response.data, response.addr), (data(3), 96));
    assert!(manager.is_empty());
    context.write_data(96, data(4));
    assert_eq!(context.read_data(96), data(4));
}

#[test]
fn the_earliest_reader_is_selected() {
    let select = |peeks: Vec<PeekResult<u64>>| RamulatorContext::select_reader(10, &peeks);
    assert_eq!(select(vec![]), None);
    assert_eq!(select(vec![PeekResult::Closed, PeekResult::Nothing(3), something(11, 0)]), None);
    assert_eq!(select(vec![something(10, 0)]), Some(0));
    assert_eq!(select(vec![something(9, 0), something(4, 0), something(4, 0)]), Some(1));
    assert_eq!(select(vec![something(12, 0), something(5, 0), something(3, 0)]), Some(2));
}

#[test]
fn running_goes_on_until_every_channel_is_closed() {
    let context = context(1, 1, None);
    let manager = ramulator_context::request_manager::RequestManager::default();
    let running = |data, addr, reader| {
        context.continue_running(&manager, &vec![WriterPeek { data, addr }], &vec![reader])
    };
    assert!(!running(PeekResult::Closed, PeekResult::Nothing(0), PeekResult::Closed));
    assert!(!running(PeekResult::Nothing(0), PeekResult::Closed, PeekResult::Closed));
    assert!(running(PeekResult::Nothing(0), PeekResult::Nothing(0), PeekResult::Closed));
    assert!(running(PeekResult::Closed, PeekResult::Closed, PeekResult::Nothing(0)));
    assert!(running(PeekResult::Closed, PeekResult::Closed, something(0, 0)));
}
