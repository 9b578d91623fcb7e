use fxhash::FxHashMap;
use half::f16;
use ramulator_context::access::MemoryData;
use ramulator_context::address::ADDR_OFFSET;
use ramulator_context::batch::BATCH_SIZE;
use ramulator_context::channel::{
    ChannelElement, PeekResult, ReadBundle, WriteBundle, WriterPeek,
};
use ramulator_context::context::RamulatorContext;
use ramulator_context::memory::Memory;
use ramulator_context::natural::Natural;
use ramulator_context::run::{Action, Event, Run};
use std::collections::VecDeque;

/// A channel end that the context receives from.
struct Incoming<T> {
    elements: VecDeque<ChannelElement<T>>,
    closed: bool,
}

impl<T: Copy> Incoming<T> {
    fn filled(elements: Vec<ChannelElement<T>>) -> Self {
        Incoming { elements: elements.into(), closed: true }
    }

    fn open() -> Self {
        Incoming { elements: VecDeque::new(), closed: false }
    }

    fn peek(&self, now: u64) -> PeekResult<T> {
        match self.elements.front() {
            Some(element) => PeekResult::Something(*element),
            None if self.closed => PeekResult::Closed,
            None => PeekResult::Nothing(now),
        }
    }

    fn take(&mut self) -> ChannelElement<T> {
        self.elements.pop_front().unwrap()
    }
}

/// A device that takes `room` requests at a time, each for `latency` cycles.
struct Device {
    room: usize,
    latency: u64,
    cycles: u64,
    pending: VecDeque<(u64, bool, u64)>,
    returned: VecDeque<u64>,
    sent: Vec<(u64, bool)>,
    turned_away: usize,
}

impl Device {
    fn new(room: usize, latency: u64) -> Self {
        Device {
            room,
            latency,
            cycles: 0,
            pending: VecDeque::new(),
            returned: VecDeque::new(),
            sent: vec![],
            turned_away: 0,
        }
    }

    fn send(&mut self, address: u64, is_write: bool) -> bool {
        if self.pending.len() >= self.room {
            self.turned_away += 1;
            return false;
        }
        self.pending.push_back((address, is_write, self.cycles + self.latency));
        self.sent.push((address, is_write));
        true
    }

    fn tick(&mut self) {
        self.cycles += 1;
        while let Some((address, is_write, due)) = self.pending.front().copied() {
            if due > self.cycles {
                break;
            }
            self.pending.pop_front();
            if !is_write {
                self.returned.push_back(address);
            }
        }
    }
}

/// Everything around a run.
struct World {
    now: u64,
    device: Device,
    writer_addr: Vec<Incoming<u64>>,
    writer_data: Vec<Incoming<MemoryData>>,
    acks: Vec<Vec<ChannelElement<bool>>>,
    reader_addr: Vec<Incoming<u64>>,
    data: Vec<Vec<ChannelElement<MemoryData>>>,
    data_addr: Vec<Vec<ChannelElement<u64>>>,
    /// For every acknowledgement, a reader asks for the next of these.
    on_ack: VecDeque<u64>,
}

impl World {
    fn new(device: Device) -> Self {
        World {
            now: 0,
            device,
            writer_addr: vec![],
            writer_data: vec![],
            acks: vec![],
            reader_addr: vec![],
            data: vec![],
            data_addr: vec![],
            on_ack: VecDeque::new(),
        }
    }

    fn add_writer(
        &mut self,
        context: &mut RamulatorContext,
        addr: Incoming<u64>,
        data: Incoming<MemoryData>,
    ) {
        let index = self.acks.len();
        self.writer_addr.push(addr);
        self.writer_data.push(data);
        self.acks.push(vec![]);
        context.add_writer(WriteBundle::new(index, index, index));
    }

    fn add_reader(&mut self, context: &mut RamulatorContext, addr: Incoming<u64>) {
        let index = self.data.len();
        self.reader_addr.push(addr);
        self.data.push(vec![]);
        self.data_addr.push(vec![]);
        context.add_reader(ReadBundle::new(index, index, index));
    }

    fn writers(&self) -> Vec<WriterPeek> {
        (0..self.acks.len())
            .map(|i| WriterPeek {
                data: self.writer_data[i].peek(self.now),
                addr: self.writer_addr[i].peek(self.now),
            })
            .collect()
    }

    fn readers(&self) -> Vec<PeekResult<u64>> {
        self.reader_addr.iter().map(|channel| channel.peek(self.now)).collect()
    }

    /// Does what the run asks for until it ends.
    fn simulate(&mut self, run: &mut Run) {
        let mut event = Event::Done;
        let (mut answers, mut reads, mut writes) = (0, 0, 0);
        loop {
            assert!(run.is_acceptable(&event, self.now));
            let action = run.step(event, self.now);
            match action {
                Action::EnqueueData { .. } => answers += 1,
                Action::TakeRead { .. } => reads += 1,
                Action::TakeWrite { .. } => writes += 1,
                Action::AdvanceTime => (answers, reads, writes) = (0, 0, 0),
                _ => {}
            }
            assert!(answers <= 1 && reads <= BATCH_SIZE && writes <= self.acks.len());
            event = match action {
                Action::PeekChannels => Event::ChannelsPeeked(self.writers(), self.readers()),
                Action::PeekReaders => Event::ReadersPeeked(self.readers()),
                Action::PeekWriters => Event::WritersPeeked(self.writers()),
                Action::TakeRead { addr } => {
                    self.reader_addr[addr].take();
                    Event::Done
                }
                Action::TakeWrite { addr, data } => {
                    self.writer_addr[addr].take();
                    self.writer_data[data].take();
                    Event::Done
                }
                Action::Send { address, is_write } => {
                    Event::Sent(self.device.send(address, is_write))
                }
                Action::EnqueueAck(acknowledgement) => {
                    self.acks[acknowledgement.ack].push(acknowledgement.done);
                    if let Some(address) = self.on_ack.pop_front() {
                        let element = ChannelElement { time: self.now + 1, data: address };
                        self.reader_addr[0].elements.push_back(element);
                        self.reader_addr[0].closed = self.on_ack.is_empty();
                    }
                    Event::Done
                }
                Action::PollReturn => Event::Returned(self.device.returned.pop_front()),
                Action::EnqueueData { channel, element } => {
                    self.data[channel].push(element);
                    Event::Done
                }
                Action::EnqueueAddr { channel, element } => {
                    self.data_addr[channel].push(element);
                    Event::Done
                }
                Action::Tick => {
                    self.device.tick();
                    Event::Done
                }
                Action::AdvanceTime => {
                    self.now += 1;
                    assert!(self.now < 100_000);
                    Event::Done
                }
                Action::Finish => return,
            };
        }
    }
}

fn halves(value: u32) -> MemoryData {
    MemoryData::F16([f16::from_f32(value as f32).to_bits(); 16])
}

/// One element per tick, from the first tick on.
fn one_per_tick<T: Copy>(values: impl Iterator<Item = T>) -> Incoming<T> {
    Incoming::filled(
        values.enumerate().map(|(i, data)| ChannelElement { time: i as u64 + 1, data }).collect(),
    )
}

fn rate(cycles: u32, ticks: u32) -> (Natural, Natural) {
    (Natural::from_u32(cycles), Natural::from_u32(ticks))
}

#[test]
fn ramulator_e2e_small() {
    const MEM_SIZE: usize = 32;
    let config_file = "/home/ubuntu/dam_ramulator/external/ramulator2_wrapper/configs/hbm2.yaml";
    let mut context = RamulatorContext::new(config_file, rate(1, 1), Some(Memory::new()));
    assert_eq!(context.config(), config_file);
    let mut world = World::new(Device::new(8, 20));
    let addrs = || (0..(MEM_SIZE as u64)).map(|x| x * ADDR_OFFSET);
    world.add_writer(
        &mut context,
        one_per_tick(addrs()),
        one_per_tick((0..(MEM_SIZE as u32)).map(halves)),
    );
    world.add_reader(&mut context, Incoming::open());
    world.on_ack = addrs().collect();

    let mut run = Run::new(context);
    world.simulate(&mut run);

    assert_eq!(world.acks[0].len(), MEM_SIZE);
    assert!(world.acks[0].iter().all(|element| element.data));
    let mut received: FxHashMap<u64, MemoryData> = Default::default();
    for iter in 0..MEM_SIZE {
        assert_eq!(world.data_addr[0][iter].time, world.data[0][iter].time);
        received.insert(world.data_addr[0][iter].data, world.data[0][iter].data);
    }
    println!("Received: {:?}", received);
    assert_eq!(world.data[0].len(), MEM_SIZE);
    assert_eq!(received.len(), MEM_SIZE);
    for iter in 0..MEM_SIZE {
        assert_eq!(received[&(ADDR_OFFSET * iter as u64)], halves(iter as u32));
    }
    println!("Elapsed: {:?}", world.now);
    assert_eq!(world.device.cycles, world.now);
}

#[test]
fn read_with_logging() {
    const MEM_SIZE: usize = 32;
    let config_file = "/home/ubuntu/dam_ramulator/external/ramulator2_wrapper/configs/hbm2.yaml";
    let mut context = RamulatorContext::new(config_file, rate(5, 5), None);
    let mut world = World::new(Device::new(8, 20));
    world.add_reader(&mut context, one_per_tick((0..(MEM_SIZE as u64)).map(|_| 0)));

    let mut run = Run::new(context);
    world.simulate(&mut run);

    let received_addr_time: Vec<(u64, u64, u64)> = (0..MEM_SIZE)
        .map(|i| (world.data_addr[0][i].data, world.data_addr[0][i].time, world.data[0][i].time))
        .collect();
    println!("Received: {:?}", received_addr_time);
    assert_eq!(world.data[0].len(), MEM_SIZE);
    assert_eq!(world.data_addr[0].len(), MEM_SIZE);
    assert!(received_addr_time.iter().all(|(addr, _, _)| *addr == 0));
    // At most one read is answered per tick.
    assert!(received_addr_time.windows(2).all(|pair| pair[0].1 < pair[1].1));
    assert!(world.data[0].iter().all(|element| element.data == MemoryData::default()));
    println!("Elapsed: {:?}", world.now);
}

#[test]
fn run_without_bundles_ends_at_once() {
    let context = RamulatorContext::new("hbm3", rate(1, 1), None);
    let mut run = Run::new(context);
    assert_eq!(run.step(Event::Done, 0), Action::PeekChannels);
    assert_eq!(run.step(Event::ChannelsPeeked(vec![], vec![]), 0), Action::Finish);
    assert!(!run.is_acceptable(&Event::Done, 0));
}

#[test]
fn crowded_device_gets_every_request_once() {
    const COUNT: u64 = 50;
    let mut context = RamulatorContext::new("hbm2", rate(5, 9), Some(Memory::new()));
    let mut world = World::new(Device::new(3, 7));
    let now = |data| ChannelElement { time: 0, data };
    for writer in 0..3u64 {
        let addrs = (0..COUNT).map(|i| now((writer * COUNT + i) * ADDR_OFFSET)).collect();
        let data = (0..COUNT)
            .map(|i| ChannelElement { time: 0, data: halves((writer * COUNT + i) as u32) })
            .collect();
        world.add_writer(&mut context, Incoming::filled(addrs), Incoming::filled(data));
    }
    let mut run = Run::new(context);
    world.simulate(&mut run);

    assert!(world.device.turned_away > 0);
    let mut sent: Vec<u64> = world.device.sent.iter().map(|(address, _)| *address).collect();
    sent.sort();
    let expected: Vec<u64> = (0..3 * COUNT).map(|i| i * ADDR_OFFSET).collect();
    assert_eq!(sent, expected);
    assert!(world.acks.iter().all(|acks| acks.len() == COUNT as usize));
    for i in 0..3 * COUNT {
        assert_eq!(run.context().read_data(i * ADDR_OFFSET), halves(i as u32));
    }
    assert_eq!(world.device.cycles, world.now * 5 / 9);
}

#[test]
fn answers_go_to_the_readers_that_asked() {
    let mut context = RamulatorContext::new("hbm2", rate(1, 1), None);
    let mut world = World::new(Device::new(64, 3));
    for reader in 0..4u64 {
        let addrs = (0..10).map(|i| ChannelElement { time: i, data: 1000 * (reader / 2) + i });
        world.add_reader(&mut context, Incoming::filled(addrs.collect()));
    }
    let mut run = Run::new(context);
    world.simulate(&mut run);
    for reader in 0..4u64 {
        let addrs: Vec<u64> =
            world.data_addr[reader as usize].iter().map(|element| element.data).collect();
        let expected: Vec<u64> = (0..10).map(|i| 1000 * (reader / 2) + i).collect();
        assert_eq!(addrs, expected);
    }
}

#[test]
fn a_round_takes_at_most_a_batch_of_reads() {
    let mut context = RamulatorContext::new("hbm2", rate(1, 1), None);
    let mut world = World::new(Device::new(2000, 1));
    let addrs = (0..600).map(|data| ChannelElement { time: 0, data });
    world.add_reader(&mut context, Incoming::filled(addrs.collect()));
    let mut run = Run::new(context);
    world.simulate(&mut run);
    assert_eq!(world.data[0].len(), 600);
    // One answer in each of 600 rounds, each at a tick of its own.
    assert!(world.data[0].windows(2).all(|pair| pair[0].time < pair[1].time));
}
