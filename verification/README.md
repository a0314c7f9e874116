# reliable-rs

A reliable UDP transport core for real-time applications: packet
acknowledgement over wrapping 16-bit sequence numbers, fragmentation and
out-of-order reassembly, and preallocated packet queues. The library is
written in Verus; every function carries a contract that Verus proves.

Layout:

- `src/utils.rs` - half-range comparison of sequence numbers, bit counts,
  power-of-two masks.
- `src/packet.rs` - the variable-length packet header (4 to 9 bytes) and its
  decoding.
- `src/sequence_buffer.rs` - ring buffer indexed by sequence number, with the
  32-bit acknowledgement bitfield.
- `src/packet_queue.rs` - fixed ring of preallocated datagram slots.
- `src/fragment.rs` - fragment header, fragmentation, reassembly.
- `src/config.rs` - endpoint limits and capacities, and their validation.
- `src/endpoint.rs` - sending, receiving, acknowledgement processing, and the
  integer statistics (loss counts, byte totals and time spans).
- `app/` - the floating-point layer: time in seconds, the smoothed round-trip
  time, packet loss and bandwidth estimates, and the error type with its
  messages.
