//! The decisions of a simulated memory with its readers and writers: requests are gathered from
//! channels, grouped into batches, offered to a device that simulates the timing of the memory,
//! and answered. The device and the channels are operated from outside, as a [`run::Run`] asks.

pub mod access;
pub mod address;
pub mod batch;
pub mod channel;
pub mod clock;
pub mod conservation;
pub mod contents;
pub mod context;
pub mod gathering;
pub mod memory;
pub mod model;
pub mod natural;
pub mod order;
pub mod origin;
pub mod pace;
pub mod priority;
pub mod protocol;
pub mod release;
pub mod request_manager;
pub mod rounds;
pub mod run;
pub mod soundness;
