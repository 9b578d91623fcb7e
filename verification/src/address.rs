//! Addresses of the simulated memory.

use vstd::prelude::*;

verus! {

/// Bytes that one memory request transfers, and so the distance between the addresses of
/// neighbouring requests. An HBM2 or HBM3 channel is 128 bits (16 bytes) wide and every request
/// makes two bursts.
pub const ADDR_OFFSET: u64 = 32;

/// An address that counts bytes.
#[derive(Clone, Copy, Debug, PartialEq, Eq, Structural)]
pub struct ByteAddress(pub u64);

} // verus!
