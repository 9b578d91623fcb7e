//! What the context sees at the ends of its channels.

use crate::access::MemoryData;
use vstd::prelude::*;

verus! {

/// A value on a channel, with the tick from which the receiver may see it.
#[derive(Clone, Copy, Debug, PartialEq, Eq)]
pub struct ChannelElement<T> {
    pub time: u64,
    pub data: T,
}

/// What a look at the front of a channel finds.
#[derive(Clone, Copy, Debug, PartialEq, Eq)]
pub enum PeekResult<T> {
    /// The element at the front.
    Something(ChannelElement<T>),
    /// No element, up to and including the given tick.
    Nothing(u64),
    /// No element, and none will follow.
    Closed,
}

impl<T> PeekResult<T> {
    /// Whether there is an element that may be taken at tick `now`.
    pub open spec fn ready(self, now: u64) -> bool {
        self matches PeekResult::Something(element) && element.time <= now
    }

    /// The element found, where there is one.
    pub open spec fn element(self) -> ChannelElement<T> {
        self->Something_0
    }

    pub fn is_closed(&self) -> (closed: bool)
        ensures
            closed == (self is Closed),
    {
        match self {
            PeekResult::Closed => true,
            _ => false,
        }
    }
}

/// What a look at both channels of a writer finds.
#[derive(Clone, Copy, Debug, PartialEq, Eq)]
pub struct WriterPeek {
    pub data: PeekResult<MemoryData>,
    pub addr: PeekResult<u64>,
}

impl WriterPeek {
    /// Whether an address and the data for it may both be taken at tick `now`.
    pub open spec fn ready(self, now: u64) -> bool {
        self.addr.ready(now) && self.data.ready(now)
    }

    /// Whether the writer can make no further request.
    pub open spec fn done(self) -> bool {
        self.data is Closed || self.addr is Closed
    }

    pub fn is_done(&self) -> (done: bool)
        ensures
            done == self.done(),
    {
        self.data.is_closed() || self.addr.is_closed()
    }
}

/// The channels of one writer, each by the number under which it is known to whoever operates
/// it: the data and the addresses to write, and the acknowledgements.
#[derive(Clone, Copy, Debug, PartialEq, Eq)]
pub struct WriteBundle {
    pub data: usize,
    pub addr: usize,
    pub ack: usize,
}

impl WriteBundle {
    pub fn new(data: usize, addr: usize, ack: usize) -> (bundle: Self)
        ensures
            bundle == (WriteBundle { data, addr, ack }),
    {
        WriteBundle { data, addr, ack }
    }
}

/// The channels of one reader, each by the number under which it is known to whoever operates
/// it: the addresses to read, the data read and the addresses that the data came from.
#[derive(Clone, Copy, Debug, PartialEq, Eq)]
pub struct ReadBundle {
    pub addr: usize,
    pub resp: usize,
    pub resp_addr: usize,
}

impl ReadBundle {
    pub fn new(addr: usize, resp: usize, resp_addr: usize) -> (bundle: Self)
        ensures
            bundle == (ReadBundle { addr, resp, resp_addr }),
    {
        ReadBundle { addr, resp, resp_addr }
    }
}

} // verus!
