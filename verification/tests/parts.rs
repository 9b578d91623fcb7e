use ramulator_context::access::{Access, MemoryData, SimpleRead, SimpleWrite};
use ramulator_context::address::{ByteAddress, ADDR_OFFSET};
use ramulator_context::batch::{RequestBatch, BATCH_SIZE, RETRY_PRIORITY};
use ramulator_context::memory::Memory;
use ramulator_context::natural::Natural;
use ramulator_context::request_manager::RequestManager;

fn read(address: u64, bundle: usize) -> SimpleRead {
    SimpleRead::new(ByteAddress(address), bundle)
}

fn write(address: u64, value: u16) -> SimpleWrite {
    SimpleWrite::new(ByteAddress(address), MemoryData::F16([value; 16]), 0)
}

#[test]
fn a_request_transfers_32_bytes() {
    assert_eq!(ADDR_OFFSET, 32);
}

#[test]
fn memory_gives_back_the_last_write() {
    let mut memory = Memory::new();
    assert_eq!(memory.read(32), None);
    memory.write(32, MemoryData::F16([1; 16]));
    memory.write(64, MemoryData::F16([2; 16]));
    memory.write(32, MemoryData::F16([3; 16]));
    assert_eq!(memory.read(32), Some(&MemoryData::F16([3; 16])));
    assert_eq!(memory.read(64), Some(&MemoryData::F16([2; 16])));
    assert_eq!(memory.read(0), None);
}

#[test]
fn data_is_blank_by_default() {
    assert_eq!(MemoryData::default(), MemoryData::F16([0; 16]));
}

#[test]
fn accesses_know_their_kind_and_address() {
    let reading = Access::SimpleRead(read(32, 4));
    let writing = Access::SimpleWrite(write(64, 9));
    assert!(!reading.is_write());
    assert!(writing.is_write());
    assert_eq!(reading.get_addr(), ByteAddress(32));
    assert_eq!(writing.get_addr(), ByteAddress(64));
    assert_eq!(read(32, 4).bundle_index(), 4);
    assert_eq!(write(64, 9).bundle_index(), 0);
}

#[test]
fn a_full_batch_takes_no_more() {
    let mut batch = RequestBatch::new();
    assert!(batch.is_empty());
    for i in 0..BATCH_SIZE as u64 {
        assert!(!batch.is_full());
        assert!(batch.add_request(Access::SimpleRead(read(i, 0))));
    }
    assert!(batch.is_full());
    assert_eq!(batch.size(), 512);
    assert!(!batch.add_request(Access::SimpleWrite(write(0, 0))));
    assert_eq!(batch.size(), 512);
}

#[test]
fn a_batch_passes_writes_on_first() {
    let mut batch = RequestBatch::with_priority(10);
    batch.add_request(Access::SimpleRead(read(1, 0)));
    batch.add_request(Access::SimpleWrite(write(2, 0)));
    batch.add_request(Access::SimpleRead(read(3, 0)));
    batch.add_request(Access::SimpleWrite(write(4, 0)));
    let addresses: Vec<u64> =
        batch.into_order().iter().map(|access| access.get_addr().0).collect();
    assert_eq!(addresses, vec![2, 4, 1, 3]);
}

#[test]
fn batches_know_their_priority() {
    assert_eq!(RequestBatch::new().priority(), 0);
    assert_eq!(RequestBatch::with_priority(RETRY_PRIORITY).priority(), 10);
}

#[test]
fn returns_match_the_oldest_read() {
    let mut manager = RequestManager::default();
    assert!(manager.is_empty());
    manager.add_request(read(32, 0));
    manager.add_request(read(64, 1));
    manager.add_request(read(32, 2));
    assert!(manager.is_awaiting(ByteAddress(32)));
    assert!(!manager.is_awaiting(ByteAddress(96)));
    assert_eq!(manager.register_recv(ByteAddress(32)), read(32, 0));
    assert_eq!(manager.register_recv(ByteAddress(32)), read(32, 2));
    assert!(!manager.is_awaiting(ByteAddress(32)));
    assert_eq!(manager.register_recv(ByteAddress(64)), read(64, 1));
    assert!(manager.is_empty());
}

#[test]
fn naturals_keep_their_digits() {
    assert_eq!(Natural::from_u32(7).digits(), &vec![7]);
    assert_eq!(Natural::from_digits(vec![1, 2, 3]).digits(), &vec![1, 2, 3]);
}
