//! Endpoint configuration: preallocated capacities and protocol limits.
//!
//! An [`EndpointConfig`] is built once and handed to
//! [`Endpoint::new`](crate::endpoint::Endpoint::new). All buffer sizes are
//! fixed at that point.
//!
//! The ring buffers index slots as `seq & (capacity - 1)`, which is correct
//! only for power-of-two capacities; [`EndpointConfig::validate`] enforces it.
use crate::fragment::FRAGMENT_HEADER_BYTES;
use crate::packet::MAX_PACKET_HEADER_BYTES;
use crate::utils::{is_power_of_two, spec_is_power_of_two};
use vstd::prelude::*;

verus! {

/// Configuration for a reliable UDP endpoint.
pub struct EndpointConfig {
    /// Human-readable label (debugging only, not on the wire).
    pub name: String,
    /// Maximum payload size in bytes that `send_packet` accepts.
    pub max_packet_size: usize,
    /// Payloads larger than this are split into fragments.
    pub fragment_above: usize,
    /// Maximum number of fragments of one logical packet.
    pub max_fragments: usize,
    /// Size of each fragment payload in bytes.
    pub fragment_size: usize,
    /// Capacity of the buffer of acknowledged sequence numbers (at least 32).
    pub ack_buffer_size: usize,
    /// Number of slots in the sent-packet ring buffer (power of two, at
    /// least 32).
    pub sent_packets_buffer_size: usize,
    /// Number of slots in the received-packet ring buffer (power of two).
    pub received_packets_buffer_size: usize,
    /// Number of slots in the fragment reassembly ring buffer (power of two).
    pub fragment_reassembly_buffer_size: usize,
    /// Combined IP + UDP header size counted in the byte totals of packets.
    pub packet_header_size: usize,
    /// Number of slots in the outgoing datagram queue (power of two).
    pub outgoing_queue_size: usize,
    /// Number of slots in the incoming payload queue (power of two).
    pub incoming_queue_size: usize,
}

impl Clone for EndpointConfig {
    fn clone(&self) -> (r: Self)
        ensures
            r == *self,
    {
        EndpointConfig {
            name: self.name.clone(),
            max_packet_size: self.max_packet_size,
            fragment_above: self.fragment_above,
            max_fragments: self.max_fragments,
            fragment_size: self.fragment_size,
            ack_buffer_size: self.ack_buffer_size,
            sent_packets_buffer_size: self.sent_packets_buffer_size,
            received_packets_buffer_size: self.received_packets_buffer_size,
            fragment_reassembly_buffer_size: self.fragment_reassembly_buffer_size,
            packet_header_size: self.packet_header_size,
            outgoing_queue_size: self.outgoing_queue_size,
            incoming_queue_size: self.incoming_queue_size,
        }
    }
}

/// The default capacities and limits, every field but the name.
pub open spec fn has_default_limits(c: EndpointConfig) -> bool {
    &&& c.max_packet_size == 16384
    &&& c.fragment_above == 1024
    &&& c.max_fragments == 16
    &&& c.fragment_size == 1024
    &&& c.ack_buffer_size == 256
    &&& c.sent_packets_buffer_size == 256
    &&& c.received_packets_buffer_size == 256
    &&& c.fragment_reassembly_buffer_size == 64
    &&& c.packet_header_size == 28
    &&& c.outgoing_queue_size == 256
    &&& c.incoming_queue_size == 256
}

impl Default for EndpointConfig {
    fn default() -> (r: Self)
        ensures
            r.name@ == "endpoint"@,
            has_default_limits(r),
    {
        EndpointConfig {
            name: "endpoint".to_owned(),
            max_packet_size: 16 * 1024,
            fragment_above: 1024,
            max_fragments: 16,
            fragment_size: 1024,
            ack_buffer_size: 256,
            sent_packets_buffer_size: 256,
            received_packets_buffer_size: 256,
            fragment_reassembly_buffer_size: 64,
            packet_header_size: 28,
            outgoing_queue_size: 256,
            incoming_queue_size: 256,
        }
    }
}

/// The decimal digit `d` as a character.
pub open spec fn digit_char(d: nat) -> char {
    (d + 48) as char
}

/// The decimal representation of `n`, without leading zeros.
pub open spec fn decimal(n: nat) -> Seq<char>
    decreases n,
{
    if n < 10 {
        seq![digit_char(n)]
    } else {
        decimal(n / 10) + seq![digit_char(n % 10)]
    }
}

/// The message for a maximum packet size above what fragmentation can carry.
pub open spec fn oversize_text(max_packet_size: nat, max_fragmented_size: nat) -> Seq<char> {
    "max_packet_size ("@ + decimal(max_packet_size) + ") exceeds max fragmented size ("@ + decimal(
        max_fragmented_size,
    ) + ")"@
}

/// The first failing check on the packet limits, the sequence-buffer
/// capacities and the acknowledgement buffer, in the order they are checked,
/// as its message. The sent-packet record and the acknowledgement buffer
/// hold at least one full window of 32 acknowledgements.
pub open spec fn limits_error(c: EndpointConfig) -> Option<Seq<char>> {
    if c.max_packet_size == 0 {
        Some("max_packet_size must be > 0"@)
    } else if c.fragment_size == 0 {
        Some("fragment_size must be > 0"@)
    } else if c.max_fragments == 0 {
        Some("max_fragments must be > 0"@)
    } else if c.fragment_above > c.max_packet_size {
        Some("fragment_above must be <= max_packet_size"@)
    } else if c.max_packet_size > c.max_fragments * c.fragment_size {
        Some(oversize_text(c.max_packet_size as nat, (c.max_fragments * c.fragment_size) as nat))
    } else if !spec_is_power_of_two(c.sent_packets_buffer_size) {
        Some("sent_packets_buffer_size must be a power of two"@)
    } else if c.sent_packets_buffer_size < 32 {
        Some("sent_packets_buffer_size must be >= 32"@)
    } else if !spec_is_power_of_two(c.received_packets_buffer_size) {
        Some("received_packets_buffer_size must be a power of two"@)
    } else if !spec_is_power_of_two(c.fragment_reassembly_buffer_size) {
        Some("fragment_reassembly_buffer_size must be a power of two"@)
    } else if c.ack_buffer_size < 32 {
        Some("ack_buffer_size must be >= 32"@)
    } else {
        None
    }
}

/// The first failing check on the queue capacities, as its message.
pub open spec fn queues_error(c: EndpointConfig) -> Option<Seq<char>> {
    if !spec_is_power_of_two(c.outgoing_queue_size) {
        Some("outgoing_queue_size must be a positive power of two"@)
    } else if !spec_is_power_of_two(c.incoming_queue_size) {
        Some("incoming_queue_size must be a positive power of two"@)
    } else {
        None
    }
}

/// The first failing check of the whole configuration, as its message.
pub open spec fn config_error(c: EndpointConfig) -> Option<Seq<char>> {
    if limits_error(c) is Some {
        limits_error(c)
    } else {
        queues_error(c)
    }
}

/// The configuration passes every check.
pub open spec fn config_valid(c: EndpointConfig) -> bool {
    config_error(c) is None
}

/// The message for a maximum packet size above the fragmented maximum.
/// Calls `format!`; the contract claims that the text is the fixed words with
/// both numbers written in decimal, as `Display` for `usize` writes them.
#[verifier::external_body]
fn oversize_message(max_packet_size: usize, max_fragmented_size: usize) -> (r: String)
    ensures
        r@ == oversize_text(max_packet_size as nat, max_fragmented_size as nat),
{
    format!("max_packet_size ({}) exceeds max fragmented size ({})", max_packet_size, max_fragmented_size)
}

/// `Ok` when `e` is `None`, else `Err` with that message.
pub open spec fn result_of(e: Option<Seq<char>>, r: Result<(), String>) -> bool {
    match e {
        None => r is Ok,
        Some(m) => r matches Err(s) && s@ == m,
    }
}

impl EndpointConfig {
    /// A configuration with the given name and every other field at its
    /// default.
    pub fn with_name(name: &str) -> (r: Self)
        ensures
            r.name@ == name@,
            has_default_limits(r),
    {
        let mut c = Self::default();
        c.name = name.to_owned();
        c
    }

    /// Maximum size of one outgoing datagram: a fragment, its header, and a
    /// packet header.
    pub fn max_datagram_size(&self) -> (r: usize)
        requires
            self.fragment_size + FRAGMENT_HEADER_BYTES + MAX_PACKET_HEADER_BYTES <= usize::MAX,
        ensures
            r == self.fragment_size + FRAGMENT_HEADER_BYTES + MAX_PACKET_HEADER_BYTES,
    {
        self.fragment_size + FRAGMENT_HEADER_BYTES + MAX_PACKET_HEADER_BYTES
    }

    /// Check the packet limits, the sequence-buffer capacities and the
    /// acknowledgement buffer; the first failure is reported.
    pub fn validate_limits(&self) -> (r: Result<(), String>)
        ensures
            result_of(limits_error(*self), r),
    {
        if self.max_packet_size == 0 {
            return Err("max_packet_size must be > 0".to_owned());
        }
        if self.fragment_size == 0 {
            return Err("fragment_size must be > 0".to_owned());
        }
        if self.max_fragments == 0 {
            return Err("max_fragments must be > 0".to_owned());
        }
        if self.fragment_above > self.max_packet_size {
            return Err("fragment_above must be <= max_packet_size".to_owned());
        }
        match self.max_fragments.checked_mul(self.fragment_size) {
            Some(max_fragmented_size) => {
                if self.max_packet_size > max_fragmented_size {
                    return Err(oversize_message(self.max_packet_size, max_fragmented_size));
                }
            },
            None => {},
        }
        if !is_power_of_two(self.sent_packets_buffer_size) {
            return Err("sent_packets_buffer_size must be a power of two".to_owned());
        }
        if self.sent_packets_buffer_size < 32 {
            return Err("sent_packets_buffer_size must be >= 32".to_owned());
        }
        if !is_power_of_two(self.received_packets_buffer_size) {
            return Err("received_packets_buffer_size must be a power of two".to_owned());
        }
        if !is_power_of_two(self.fragment_reassembly_buffer_size) {
            return Err("fragment_reassembly_buffer_size must be a power of two".to_owned());
        }
        if self.ack_buffer_size < 32 {
            return Err("ack_buffer_size must be >= 32".to_owned());
        }
        Ok(())
    }

    /// Check the queue capacities; the first failure is reported.
    pub fn validate_queues(&self) -> (r: Result<(), String>)
        ensures
            result_of(queues_error(*self), r),
    {
        if !is_power_of_two(self.outgoing_queue_size) {
            return Err("outgoing_queue_size must be a positive power of two".to_owned());
        }
        if !is_power_of_two(self.incoming_queue_size) {
            return Err("incoming_queue_size must be a positive power of two".to_owned());
        }
        Ok(())
    }

    /// Validate the configuration, reporting the first failed check.
    pub fn validate(&self) -> (r: Result<(), String>)
        ensures
            result_of(config_error(*self), r),
            r is Ok <==> config_valid(*self),
    {
        match self.validate_limits() {
            Ok(()) => self.validate_queues(),
            Err(e) => Err(e),
        }
    }
}

/// The default limits pass validation, whatever the name.
pub proof fn lemma_default_limits_valid(c: EndpointConfig)
    requires
        has_default_limits(c),
    ensures
        config_valid(c),
{
    assert(256usize & 255usize == 0 && 64usize & 63usize == 0) by (bit_vector);
}

} // verus!
