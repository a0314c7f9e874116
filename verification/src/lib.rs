//! Reliable UDP transport core: packet acknowledgement, fragmentation and
//! reassembly over wrapping 16-bit sequence numbers.
pub mod utils;
pub mod packet;
pub mod sequence_buffer;
pub mod packet_queue;
pub mod fragment;
pub mod config;
pub mod endpoint;

pub use config::EndpointConfig;
pub use endpoint::{Endpoint, EndpointCounters};
pub use utils::{sequence_greater_than, sequence_less_than};
pub use packet::{PacketHeader, MAX_PACKET_HEADER_BYTES};
pub use fragment::FRAGMENT_HEADER_BYTES;

use vstd::prelude::*;

verus! {

/// The library's version, as published.
pub const VERSION: &'static str = "0.2.0";

/// Failures that the protocol or a configuration check can report.
///
/// `FragmentError` carries a human-readable reason; the other variants carry
/// the numbers that describe the failure.
#[derive(Debug, PartialEq, Eq)]
pub enum Error {
    /// A packet exceeds the configured maximum packet size.
    PacketTooLarge {
        /// Actual packet size in bytes.
        size: usize,
        /// Configured maximum in bytes.
        max: usize,
    },
    /// A packet header could not be decoded (truncated or has wrong flags).
    InvalidHeader,
    /// Fragment reassembly could not complete.
    FragmentError {
        /// Why reassembly failed.
        reason: String,
    },
    /// A received sequence number is too old to fit in the receive window.
    StalePacket {
        /// The rejected sequence number.
        sequence: u16,
    },
}

/// Shorthand for results whose error is the library's [`Error`].
pub type Result<T> = core::result::Result<T, Error>;

} // verus!
