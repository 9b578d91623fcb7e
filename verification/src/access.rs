//! The read and write requests that the context passes on to the memory.

use crate::address::ByteAddress;
use vstd::prelude::*;

verus! {

/// What one memory request transfers.
#[derive(Clone, Copy, Debug, PartialEq, Eq)]
pub enum MemoryData {
    /// Sixteen half-precision numbers, each as its IEEE 754 bit pattern.
    F16([u16; 16]),
}

/// The data that a read gives where no contents are simulated: sixteen zeros.
pub open spec fn blank_data() -> MemoryData {
    MemoryData::F16([0u16, 0, 0, 0, 0, 0, 0, 0, 0, 0, 0, 0, 0, 0, 0, 0])
}

/// Every one of the sixteen numbers of blank data is zero.
pub proof fn blank_data_is_zero()
    ensures
        ({
            let MemoryData::F16(numbers) = blank_data();
            forall|i: int| 0 <= i < 16 ==> #[trigger] numbers@[i] == 0
        }),
{
}

impl Default for MemoryData {
    fn default() -> (data: Self)
        ensures
            data == blank_data(),
    {
        MemoryData::F16([0u16, 0, 0, 0, 0, 0, 0, 0, 0, 0, 0, 0, 0, 0, 0, 0])
    }
}

/// A request to read what is stored at an address, on behalf of one reader.
#[derive(Clone, Copy, Debug, PartialEq, Eq)]
pub struct SimpleRead {
    pub address: ByteAddress,
    pub bundle: usize,
}

impl SimpleRead {
    pub fn new(address: ByteAddress, bundle: usize) -> (read: Self)
        ensures
            read == (SimpleRead { address, bundle }),
    {
        SimpleRead { address, bundle }
    }

    /// The position of the reader that asked.
    pub fn bundle_index(&self) -> (index: usize)
        ensures
            index == self.bundle,
    {
        self.bundle
    }

    pub fn get_addr(&self) -> (address: ByteAddress)
        ensures
            address == self.address,
    {
        self.address
    }
}

/// A request to store a payload at an address, on behalf of one writer.
#[derive(Clone, Copy, Debug, PartialEq, Eq)]
pub struct SimpleWrite {
    pub address: ByteAddress,
    pub payload: MemoryData,
    pub bundle: usize,
}

impl SimpleWrite {
    pub fn new(address: ByteAddress, payload: MemoryData, bundle: usize) -> (write: Self)
        ensures
            write == (SimpleWrite { address, payload, bundle }),
    {
        SimpleWrite { address, payload, bundle }
    }

    /// The position of the writer that asked.
    pub fn bundle_index(&self) -> (index: usize)
        ensures
            index == self.bundle,
    {
        self.bundle
    }

    pub fn get_addr(&self) -> (address: ByteAddress)
        ensures
            address == self.address,
    {
        self.address
    }
}

/// A memory request of either kind.
#[derive(Clone, Copy, Debug, PartialEq, Eq)]
pub enum Access {
    SimpleRead(SimpleRead),
    SimpleWrite(SimpleWrite),
}

impl Access {
    pub open spec fn address(self) -> ByteAddress {
        match self {
            Access::SimpleRead(read) => read.address,
            Access::SimpleWrite(write) => write.address,
        }
    }

    pub fn get_addr(&self) -> (address: ByteAddress)
        ensures
            address == self.address(),
    {
        match self {
            Access::SimpleRead(read) => read.get_addr(),
            Access::SimpleWrite(write) => write.get_addr(),
        }
    }

    pub fn is_write(&self) -> (write: bool)
        ensures
            write == (self is SimpleWrite),
    {
        match self {
            Access::SimpleRead(_) => false,
            Access::SimpleWrite(_) => true,
        }
    }
}

/// The address of a request is the one that it was made with, whatever its kind.
pub proof fn requests_keep_their_address(address: ByteAddress, payload: MemoryData, bundle: usize)
    ensures
        Access::SimpleRead(SimpleRead { address, bundle }).address() == address,
        Access::SimpleWrite(SimpleWrite { address, payload, bundle }).address() == address,
{
}

} // verus!
