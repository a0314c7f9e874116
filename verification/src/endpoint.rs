//! Reliable UDP endpoint: the object that sends and receives packets.
//!
//! `send_packet` assigns the next sequence number, records the packet as
//! sent and queues its datagrams (fragmenting large payloads);
//! `drain_outgoing` hands the datagrams to the network layer.
//! `receive_packet` takes one datagram: it records the packet as received,
//! marks the packets that the peer acknowledges, and queues complete
//! payloads for `drain_incoming`.
//!
//! Every datagram carries `ack`, the newest sequence number received, and
//! `ack_bits`, whose bit `i` says that `ack - i` was received too.
//!
//! Time stamps are numbers that the caller supplies through `new` and
//! `update`; the endpoint only stores them with each packet and compares
//! them by their numeric order.
use crate::config::{config_valid, EndpointConfig};
use crate::fragment::{
    all_present, decode_fragment_header, encode_fragment_header, lemma_fragment_header_roundtrip, fragment_count, fragment_piece, lemma_fragment_count, FragmentHeader,
    FragmentReassemblyBuffer,
    PartialPacket, FRAGMENT_HEADER_BYTES,
};
use crate::packet::{
    decode_header, encode_header, flag, is_fragment_packet, lemma_encoded_header_len, lemma_header_roundtrip,
    spec_is_fragment, PacketHeader, MAX_PACKET_HEADER_BYTES,
};
use crate::packet_queue::{handed, PacketQueue};
use crate::sequence_buffer::{ack_bits_upto, bit_set, lemma_set_bit, SequenceBuffer};
use crate::utils::{lemma_truncate_u16, seq_add, seq_distance};
use vstd::prelude::*;

verus! {

/// What is recorded of each sent packet.
#[derive(Clone, Copy)]
pub struct SentPacketData {
    /// Time stamp of the send.
    pub time: u64,
    /// The peer has acknowledged the packet.
    pub acked: bool,
    /// Size of the packet on the wire, IP and UDP headers included.
    pub packet_bytes: u32,
}

impl Default for SentPacketData {
    fn default() -> (r: Self)
        ensures
            r == (SentPacketData { time: 0, acked: false, packet_bytes: 0 }),
    {
        SentPacketData { time: 0, acked: false, packet_bytes: 0 }
    }
}

/// What is recorded of each received packet.
#[derive(Clone, Copy)]
pub struct ReceivedPacketData {
    /// Time stamp of the receipt.
    pub time: u64,
    /// Size of the packet on the wire, IP and UDP headers included.
    pub packet_bytes: u32,
}

impl Default for ReceivedPacketData {
    fn default() -> (r: Self)
        ensures
            r == (ReceivedPacketData { time: 0, packet_bytes: 0 }),
    {
        ReceivedPacketData { time: 0, packet_bytes: 0 }
    }
}

/// Endpoint statistics counters.
#[derive(Debug, Clone, Copy, PartialEq, Eq, Structural)]
pub struct EndpointCounters {
    /// Number of packets sent
    pub packets_sent: u64,
    /// Number of packets received
    pub packets_received: u64,
    /// Number of packets acknowledged
    pub packets_acked: u64,
    /// Number of stale or duplicate packets received
    pub packets_stale: u64,
    /// Number of invalid packets received
    pub packets_invalid: u64,
    /// Number of packets too large to send
    pub packets_too_large_to_send: u64,
    /// Number of packets too large to receive
    pub packets_too_large_to_receive: u64,
    /// Number of fragments sent
    pub fragments_sent: u64,
    /// Number of fragments received
    pub fragments_received: u64,
    /// Number of invalid fragments received
    pub fragments_invalid: u64,
}

/// All counters at zero.
pub open spec fn zero_counters() -> EndpointCounters {
    EndpointCounters {
        packets_sent: 0,
        packets_received: 0,
        packets_acked: 0,
        packets_stale: 0,
        packets_invalid: 0,
        packets_too_large_to_send: 0,
        packets_too_large_to_receive: 0,
        fragments_sent: 0,
        fragments_received: 0,
        fragments_invalid: 0,
    }
}

impl Default for EndpointCounters {
    fn default() -> (r: Self)
        ensures
            r == zero_counters(),
    {
        EndpointCounters {
            packets_sent: 0,
            packets_received: 0,
            packets_acked: 0,
            packets_stale: 0,
            packets_invalid: 0,
            packets_too_large_to_send: 0,
            packets_too_large_to_receive: 0,
            fragments_sent: 0,
            fragments_received: 0,
            fragments_invalid: 0,
        }
    }
}

/// `a + n`, wrapping at 2^64 as the counters do.
pub open spec fn wrapping_add_u64(a: u64, n: nat) -> u64 {
    ((a + n) % 0x1_0000_0000_0000_0000) as u64
}

/// Counter increment, wrapping at 2^64.
fn bump(c: u64) -> (r: u64)
    ensures
        r == wrapping_add_u64(c, 1),
{
    c.wrapping_add(1)
}

/// The configuration's sizes fit the machine: a datagram slot, a received
/// datagram with its wire overhead and a reassembly slab are all
/// addressable, and the byte total of a window of packet records fits in 64
/// bits.
pub open spec fn fits_machine(c: EndpointConfig) -> bool {
    &&& c.fragment_size + FRAGMENT_HEADER_BYTES + MAX_PACKET_HEADER_BYTES <= usize::MAX
    &&& c.packet_header_size + c.max_packet_size + MAX_PACKET_HEADER_BYTES <= usize::MAX
    &&& c.max_fragments * c.fragment_size <= usize::MAX
    &&& c.sent_packets_buffer_size <= 0x1_0000_0000
    &&& c.received_packets_buffer_size <= 0x1_0000_0000
}

/// Whether the configuration's sizes fit the machine ([`fits_machine`]).
pub fn fits_machine_check(c: &EndpointConfig) -> (r: bool)
    ensures
        r == fits_machine(*c),
{
    let datagram = c.fragment_size.checked_add(FRAGMENT_HEADER_BYTES + MAX_PACKET_HEADER_BYTES);
    let received = match c.packet_header_size.checked_add(c.max_packet_size) {
        Some(n) => n.checked_add(MAX_PACKET_HEADER_BYTES),
        None => None,
    };
    let slab = c.max_fragments.checked_mul(c.fragment_size);
    datagram.is_some() && received.is_some() && slab.is_some() && (c.sent_packets_buffer_size as u64)
        <= 0x1_0000_0000u64 && (c.received_packets_buffer_size as u64) <= 0x1_0000_0000u64
}

/// `items` followed by as many of `more` as fit in `cap` entries.
pub open spec fn append_bounded<A>(items: Seq<A>, cap: nat, more: Seq<A>) -> Seq<A> {
    if items.len() + more.len() <= cap {
        items + more
    } else {
        items + more.subrange(0, cap - items.len())
    }
}

/// Appending one more item: it goes in while there is room.
proof fn lemma_append_bounded_step<A>(items: Seq<A>, cap: nat, more: Seq<A>, i: int)
    requires
        items.len() <= cap,
        0 <= i < more.len(),
    ensures
        append_bounded(items, cap, more.subrange(0, i)).len() <= cap,
        append_bounded(items, cap, more.subrange(0, i + 1)) == if append_bounded(
            items,
            cap,
            more.subrange(0, i),
        ).len() < cap {
            append_bounded(items, cap, more.subrange(0, i)).push(more[i])
        } else {
            append_bounded(items, cap, more.subrange(0, i))
        },
{
    let a = append_bounded(items, cap, more.subrange(0, i));
    if a.len() < cap {
        assert(append_bounded(items, cap, more.subrange(0, i + 1)) =~= a.push(more[i]));
    } else {
        assert(append_bounded(items, cap, more.subrange(0, i + 1)) =~= a);
    }
}

/// The datagram of a payload sent whole: its packet header, then as much of
/// the payload as fits in a slot of `slot` bytes.
pub open spec fn regular_datagram(h: PacketHeader, data: Seq<u8>, slot: nat) -> Seq<u8> {
    let hdr = encode_header(h);
    let room = slot - hdr.len();
    hdr + data.subrange(0, if data.len() <= room { data.len() as int } else { room })
}

/// Datagram `i` of `n` of a fragmented payload: the fragment header, the
/// packet header (first fragment only), then the fragment's bytes.
pub open spec fn fragment_datagram(h: PacketHeader, data: Seq<u8>, fragment_size: nat, n: nat, i: int) -> Seq<
    u8,
> {
    encode_fragment_header(
        FragmentHeader { sequence: h.sequence, fragment_id: i as u8, num_fragments: n as u8 },
    ) + (if i == 0 {
        encode_header(h)
    } else {
        Seq::empty()
    }) + fragment_piece(data, fragment_size, i)
}

/// The datagrams of a payload cut into `n` fragments, in fragment order.
pub open spec fn fragment_datagrams(h: PacketHeader, data: Seq<u8>, fragment_size: nat, n: nat) -> Seq<
    (u16, Seq<u8>),
> {
    Seq::new(n, |i: int| (h.sequence, fragment_datagram(h, data, fragment_size, n, i)))
}

/// The payload needs more fragments than allowed.
pub open spec fn too_many_fragments(c: EndpointConfig, len: nat) -> bool {
    let n = fragment_count(len, c.fragment_size as nat);
    n > c.max_fragments || n > 255
}

/// Size of an outgoing datagram slot.
pub open spec fn datagram_slot(c: EndpointConfig) -> nat {
    (c.fragment_size + FRAGMENT_HEADER_BYTES + MAX_PACKET_HEADER_BYTES) as nat
}

/// The datagrams that sending `data` under header `h` queues: one whole
/// datagram up to `fragment_above` bytes, else one per fragment (none when
/// it needs too many fragments).
pub open spec fn datagrams_for(c: EndpointConfig, h: PacketHeader, data: Seq<u8>) -> Seq<(u16, Seq<u8>)> {
    if data.len() > c.fragment_above {
        if too_many_fragments(c, data.len()) {
            Seq::empty()
        } else {
            fragment_datagrams(h, data, c.fragment_size as nat, fragment_count(data.len(), c.fragment_size as nat))
        }
    } else {
        seq![(h.sequence, regular_datagram(h, data, datagram_slot(c)))]
    }
}

/// Number of fragment datagrams that sending `data` writes.
pub open spec fn fragments_for(c: EndpointConfig, len: nat) -> nat {
    if len > c.fragment_above && !too_many_fragments(c, len) {
        fragment_count(len, c.fragment_size as nat)
    } else {
        0
    }
}

/// As much of `d` as fits in `cap` bytes.
pub open spec fn fit(d: Seq<u8>, cap: nat) -> Seq<u8> {
    d.subrange(0, if d.len() < cap { d.len() as int } else { cap as int })
}

/// The ack fields and the payload offset of a fragment datagram whose
/// fragment header `fh` decoded: for the first fragment, those of the packet
/// header that follows (`None` when it does not decode); for the others, no
/// ack with all ack bits set.
pub open spec fn fragment_parts(data: Seq<u8>, fh: FragmentHeader) -> Option<(u16, u32, int)> {
    let k = FRAGMENT_HEADER_BYTES as int;
    if fh.fragment_id == 0 {
        match decode_header(data.subrange(k, data.len() as int)) {
            None => None,
            Some((h, n)) => Some((h.ack, h.ack_bits, k + n)),
        }
    } else {
        Some((0, 0xFFFF_FFFF, k))
    }
}

/// Copy `src[..len]` into `dest` at `pos`.
fn copy_at(dest: &mut [u8], pos: usize, src: &[u8], len: usize)
    requires
        len <= src@.len(),
        pos + len <= old(dest)@.len(),
    ensures
        final(dest)@ == old(dest)@.subrange(0, pos as int) + src@.subrange(0, len as int) + old(
            dest,
        )@.subrange(pos + len, old(dest)@.len() as int),
{
    let dest_len = dest.len();
    let mut i: usize = 0;
    while i < len
        invariant
            i <= len,
            dest_len == old(dest)@.len(),
            len <= src@.len(),
            pos + len <= old(dest)@.len(),
            dest@.len() == old(dest)@.len(),
            forall|j: int| 0 <= j < pos ==> dest@[j] == old(dest)@[j],
            forall|j: int| 0 <= j < i ==> dest@[pos + j] == src@[j],
            forall|j: int| pos + i <= j < dest@.len() ==> dest@[j] == old(dest)@[j],
        decreases len - i,
    {
        dest[pos + i] = src[i];
        i = i + 1;
    }
    assert(dest@ =~= old(dest)@.subrange(0, pos as int) + src@.subrange(0, len as int) + old(
        dest,
    )@.subrange(pos + len, old(dest)@.len() as int));
}

/// Write the whole-payload datagram into `buf`; returns its length.
fn write_regular_datagram(buf: &mut [u8], header: &PacketHeader, data: &[u8]) -> (n: usize)
    requires
        old(buf)@.len() >= MAX_PACKET_HEADER_BYTES,
    ensures
        n <= old(buf)@.len(),
        final(buf)@.len() == old(buf)@.len(),
        final(buf)@.subrange(0, n as int) == regular_datagram(*header, data@, old(buf)@.len()),
{
    let hdr_len = match header.write_to_slice(buf) {
        Some(n) => n,
        None => return 0,
    };
    proof {
        lemma_encoded_header_len(*header);
    }
    let room = buf.len() - hdr_len;
    let payload_len = if data.len() < room {
        data.len()
    } else {
        room
    };
    copy_at(buf, hdr_len, data, payload_len);
    assert(buf@.subrange(0, (hdr_len + payload_len) as int) =~= regular_datagram(
        *header,
        data@,
        old(buf)@.len(),
    ));
    hdr_len + payload_len
}

/// Write a fragment datagram into `buf`: the fragment header, the packet
/// header when it is the first fragment, then `chunk`; returns its length.
fn write_fragment_datagram(
    buf: &mut [u8],
    fragment_header: &FragmentHeader,
    packet_header: &PacketHeader,
    chunk: &[u8],
) -> (n: usize)
    requires
        old(buf)@.len() >= FRAGMENT_HEADER_BYTES + MAX_PACKET_HEADER_BYTES + chunk@.len(),
    ensures
        n <= old(buf)@.len(),
        final(buf)@.len() == old(buf)@.len(),
        final(buf)@.subrange(0, n as int) == encode_fragment_header(*fragment_header) + (if fragment_header.fragment_id == 0 {
            encode_header(*packet_header)
        } else {
            Seq::empty()
        }) + chunk@,
{
    let mut pos = match fragment_header.write_to_slice(buf) {
        Some(n) => n,
        None => return 0,
    };
    let ghost front = encode_fragment_header(*fragment_header);
    assert(buf@.subrange(0, pos as int) =~= front);
    if fragment_header.fragment_id == 0 {
        let mut scratch = [0u8; 9];
        let hdr_len = match packet_header.write_to_slice(&mut scratch) {
            Some(n) => n,
            None => return 0,
        };
        proof {
            lemma_encoded_header_len(*packet_header);
        }
        assert(scratch@.subrange(0, hdr_len as int) =~= encode_header(*packet_header));
        copy_at(buf, pos, &scratch, hdr_len);
        pos = pos + hdr_len;
        assert(buf@.subrange(0, pos as int) =~= front + encode_header(*packet_header));
    }
    let ghost head = buf@.subrange(0, pos as int);
    let room = buf.len() - pos;
    let chunk_len = if chunk.len() < room {
        chunk.len()
    } else {
        room
    };
    copy_at(buf, pos, chunk, chunk_len);
    assert(buf@.subrange(0, (pos + chunk_len) as int) =~= head + chunk@);
    pos + chunk_len
}

/// `ack` and `ack_bits` acknowledge `k`: it lies `i < n` steps back from
/// `ack` and bit `i` is set.
pub open spec fn acks_within(ack: u16, ack_bits: u32, k: u16, n: nat) -> bool {
    &&& seq_distance(ack, k) < n
    &&& bit_set(ack_bits, seq_distance(ack, k) as u32)
}

/// The sent packets that `ack` and `ack_bits` newly acknowledge among the
/// first `n` window positions, in window order: `ack`, `ack - 1`, ...
pub open spec fn newly_acked(sent: Map<u16, SentPacketData>, ack: u16, ack_bits: u32, n: nat) -> Seq<
    u16,
>
    decreases n,
{
    if n == 0 {
        Seq::empty()
    } else {
        let s = seq_add(ack, -(n - 1));
        newly_acked(sent, ack, ack_bits, (n - 1) as nat) + if bit_set(ack_bits, (n - 1) as u32)
            && sent.contains_key(s) && !sent[s].acked {
            seq![s]
        } else {
            Seq::empty()
        }
    }
}

/// The sent-packet record after marking as acknowledged what `ack` and
/// `ack_bits` acknowledge among the first `n` window positions.
pub open spec fn mark_acked(sent: Map<u16, SentPacketData>, ack: u16, ack_bits: u32, n: nat) -> Map<
    u16,
    SentPacketData,
> {
    Map::new(
        |k: u16| sent.contains_key(k),
        |k: u16|
            if acks_within(ack, ack_bits, k, n) {
                SentPacketData { acked: true, ..sent[k] }
            } else {
                sent[k]
            },
    )
}

/// The window position `i` steps back from `ack` is `i` steps away from it.
proof fn lemma_back_step(ack: u16, k: u16, i: int)
    requires
        0 <= i < 65536,
    ensures
        seq_distance(ack, k) == i <==> k == seq_add(ack, -i),
{
    let d = (ack - k) % 65536;
    if k == seq_add(ack, -i) {
        assert(k == (ack - i) % 65536);
        vstd::arithmetic::div_mod::lemma_fundamental_div_mod(ack - i, 65536);
        vstd::arithmetic::div_mod::lemma_sub_mod_noop(ack as int, k as int, 65536);
        vstd::arithmetic::div_mod::lemma_mod_twice(ack - i, 65536);
        assert(ack - k == i + 65536 * ((ack - i) / 65536));
        vstd::arithmetic::div_mod::lemma_mod_multiples_vanish((ack - i) / 65536, i, 65536);
        vstd::arithmetic::div_mod::lemma_small_mod(i as nat, 65536);
    }
    if d == i {
        vstd::arithmetic::div_mod::lemma_fundamental_div_mod(ack - k, 65536);
        let q = (ack - k) / 65536;
        assert(ack - i == k + 65536 * q);
        vstd::arithmetic::div_mod::lemma_mod_multiples_vanish(q, k as int, 65536);
        vstd::arithmetic::div_mod::lemma_small_mod(k as nat, 65536);
    }
}

/// A bit test by mask is [`bit_set`].
proof fn lemma_mask_bit(bits: u32, i: u32)
    requires
        i < 32,
    ensures
        ((bits & (1u32 << i)) != 0) == bit_set(bits, i),
{
    assert(((bits & (1u32 << i)) != 0) == ((bits >> i) & 1u32 == 1u32)) by (bit_vector)
        requires
            i < 32,
    ;
}

/// Byte total and time span of the packets in a window of records.
#[derive(Debug, Clone, Copy, PartialEq, Eq, Structural)]
pub struct TrafficTotals {
    /// Sum of the packets' sizes on the wire.
    pub bytes: u64,
    /// Earliest time stamp among them.
    pub first_time: u64,
    /// Latest time stamp among them.
    pub last_time: u64,
}

/// Time stamp and size of the sent packets among `n` sequence numbers from
/// `base` on, in that order (only the acknowledged ones when `acked_only`).
pub open spec fn sent_samples(m: Map<u16, SentPacketData>, base: u16, n: nat, acked_only: bool) -> Seq<
    (u64, u32),
>
    decreases n,
{
    if n == 0 {
        Seq::empty()
    } else {
        let k = seq_add(base, n - 1);
        sent_samples(m, base, (n - 1) as nat, acked_only) + if m.contains_key(k) && (!acked_only
            || m[k].acked) {
            seq![(m[k].time, m[k].packet_bytes)]
        } else {
            Seq::empty()
        }
    }
}

/// Time stamp and size of the received packets among `n` sequence numbers
/// from `base` on, in that order.
pub open spec fn received_samples(m: Map<u16, ReceivedPacketData>, base: u16, n: nat) -> Seq<(u64, u32)>
    decreases n,
{
    if n == 0 {
        Seq::empty()
    } else {
        let k = seq_add(base, n - 1);
        received_samples(m, base, (n - 1) as nat) + if m.contains_key(k) {
            seq![(m[k].time, m[k].packet_bytes)]
        } else {
            Seq::empty()
        }
    }
}

/// Byte total, earliest and latest time stamp of `s`; `None` when empty.
pub open spec fn traffic(s: Seq<(u64, u32)>) -> Option<(nat, u64, u64)>
    decreases s.len(),
{
    if s.len() == 0 {
        None
    } else {
        let e = s.last();
        match traffic(s.drop_last()) {
            None => Some((e.1 as nat, e.0, e.0)),
            Some((b, lo, hi)) => Some(
                (
                    b + e.1 as nat,
                    if e.0 < lo {
                        e.0
                    } else {
                        lo
                    },
                    if e.0 > hi {
                        e.0
                    } else {
                        hi
                    },
                ),
            ),
        }
    }
}

/// The number of sent packets among `n` sequence numbers from `base` on that
/// are not acknowledged.
pub open spec fn unacked_count(m: Map<u16, SentPacketData>, base: u16, n: nat) -> nat
    decreases n,
{
    if n == 0 {
        0
    } else {
        let k = seq_add(base, n - 1);
        unacked_count(m, base, (n - 1) as nat) + if m.contains_key(k) && !m[k].acked {
            1nat
        } else {
            0nat
        }
    }
}

/// Each sample adds at most `u32::MAX` bytes.
proof fn lemma_traffic_bound(s: Seq<(u64, u32)>)
    ensures
        traffic(s) matches Some((b, lo, hi)) ==> b <= s.len() * 0xFFFF_FFFF,
        traffic(s) is None <==> s.len() == 0,
    decreases s.len(),
{
    if s.len() > 0 {
        lemma_traffic_bound(s.drop_last());
    }
}

/// A window of `n` positions holds at most `n` samples.
proof fn lemma_sent_samples_len(m: Map<u16, SentPacketData>, base: u16, n: nat, acked_only: bool)
    ensures
        sent_samples(m, base, n, acked_only).len() <= n,
    decreases n,
{
    if n > 0 {
        lemma_sent_samples_len(m, base, (n - 1) as nat, acked_only);
    }
}

/// A window of `n` positions holds at most `n` samples.
proof fn lemma_received_samples_len(m: Map<u16, ReceivedPacketData>, base: u16, n: nat)
    ensures
        received_samples(m, base, n).len() <= n,
    decreases n,
{
    if n > 0 {
        lemma_received_samples_len(m, base, (n - 1) as nat);
    }
}

/// The totals after one more sample.
fn add_sample(t: Option<TrafficTotals>, time: u64, bytes: u32) -> (r: Option<TrafficTotals>)
    requires
        t matches Some(x) ==> x.bytes + bytes <= u64::MAX,
    ensures
        r matches Some(y) && match t {
            None => y == (TrafficTotals { bytes: bytes as u64, first_time: time, last_time: time }),
            Some(x) => y == (TrafficTotals {
                bytes: (x.bytes + bytes) as u64,
                first_time: if time < x.first_time {
                    time
                } else {
                    x.first_time
                },
                last_time: if time > x.last_time {
                    time
                } else {
                    x.last_time
                },
            }),
        },
{
    match t {
        None => Some(TrafficTotals { bytes: bytes as u64, first_time: time, last_time: time }),
        Some(x) => Some(
            TrafficTotals {
                bytes: x.bytes + bytes as u64,
                first_time: if time < x.first_time {
                    time
                } else {
                    x.first_time
                },
                last_time: if time > x.last_time {
                    time
                } else {
                    x.last_time
                },
            },
        ),
    }
}

/// `r` holds the totals of `s`.
pub open spec fn totals_of(r: Option<TrafficTotals>, s: Seq<(u64, u32)>) -> bool {
    match r {
        None => traffic(s) is None,
        Some(t) => traffic(s) == Some((t.bytes as nat, t.first_time, t.last_time)),
    }
}

/// A reliable UDP endpoint.
pub struct Endpoint {
    config: EndpointConfig,
    time: u64,
    sequence: u16,
    /// Preallocated buffer of acknowledged sequence numbers; the first
    /// `ack_count` entries are in use.
    ack_buf: Vec<u16>,
    ack_count: usize,
    counters: EndpointCounters,
    sent_packets: SequenceBuffer<SentPacketData>,
    received_packets: SequenceBuffer<ReceivedPacketData>,
    fragment_reassembly: FragmentReassemblyBuffer,
    /// Datagrams waiting to be sent; each slot holds one datagram.
    outgoing_queue: PacketQueue,
    /// Payloads received, after reassembly; each slot holds one payload.
    incoming_queue: PacketQueue,
}

impl Endpoint {
    /// The configuration.
    pub closed spec fn spec_config(&self) -> EndpointConfig {
        self.config
    }

    /// The current time stamp.
    pub closed spec fn spec_time(&self) -> u64 {
        self.time
    }

    /// The sequence number the next packet sent gets.
    pub closed spec fn spec_sequence(&self) -> u16 {
        self.sequence
    }

    /// The acknowledged sequence numbers recorded since the last clear, in
    /// the order they were acknowledged.
    pub closed spec fn spec_acks(&self) -> Seq<u16> {
        self.ack_buf@.subrange(0, self.ack_count as int)
    }

    /// How many acknowledged sequence numbers can be recorded.
    pub closed spec fn spec_ack_capacity(&self) -> nat {
        self.ack_buf@.len()
    }

    /// The statistics counters.
    pub closed spec fn spec_counters(&self) -> EndpointCounters {
        self.counters
    }

    /// The record of sent packets.
    pub closed spec fn sent(&self) -> SequenceBuffer<SentPacketData> {
        self.sent_packets
    }

    /// The record of received packets.
    pub closed spec fn received(&self) -> SequenceBuffer<ReceivedPacketData> {
        self.received_packets
    }

    /// The packets in reassembly.
    pub closed spec fn reassembly(&self) -> FragmentReassemblyBuffer {
        self.fragment_reassembly
    }

    /// The queue of datagrams to send.
    pub closed spec fn outgoing(&self) -> PacketQueue {
        self.outgoing_queue
    }

    /// The queue of received payloads.
    pub closed spec fn incoming(&self) -> PacketQueue {
        self.incoming_queue
    }

    /// Well-formedness: a valid configuration, and every buffer sized by it.
    pub closed spec fn wf(&self) -> bool {
        let c = self.config;
        &&& config_valid(c)
        &&& fits_machine(c)
        &&& self.ack_count <= self.ack_buf@.len()
        &&& self.ack_buf@.len() == c.ack_buffer_size
        &&& self.sent_packets.wf()
        &&& self.sent_packets.spec_size() == c.sent_packets_buffer_size
        &&& self.received_packets.wf()
        &&& self.received_packets.spec_size() == c.received_packets_buffer_size
        &&& self.fragment_reassembly.wf()
        &&& self.fragment_reassembly.spec_max_fragments() == c.max_fragments
        &&& self.fragment_reassembly.spec_fragment_size() == c.fragment_size
        &&& self.fragment_reassembly.spec_capacity() == c.fragment_reassembly_buffer_size
        &&& self.outgoing_queue.wf()
        &&& self.outgoing_queue.spec_capacity() == c.outgoing_queue_size
        &&& self.outgoing_queue.spec_slot_capacity() == c.fragment_size + FRAGMENT_HEADER_BYTES
            + MAX_PACKET_HEADER_BYTES
        &&& self.incoming_queue.wf()
        &&& self.incoming_queue.spec_capacity() == c.incoming_queue_size
        &&& self.incoming_queue.spec_slot_capacity() == c.max_packet_size
    }

    /// The sizes the configuration gives every buffer: the sent and received
    /// records, the reassembly buffer, the two packet queues (a datagram slot
    /// holds a fragment with both headers, a payload slot holds
    /// `max_packet_size` bytes) and the acknowledgement buffer; each buffer
    /// is well formed and holds no more than it has room for.
    pub open spec fn sized(&self) -> bool {
        let c = self.spec_config();
        &&& config_valid(c)
        &&& fits_machine(c)
        &&& self.spec_ack_capacity() == c.ack_buffer_size
        &&& self.spec_acks().len() <= self.spec_ack_capacity()
        &&& self.sent().wf()
        &&& self.sent().spec_size() == c.sent_packets_buffer_size
        &&& self.received().wf()
        &&& self.received().spec_size() == c.received_packets_buffer_size
        &&& self.reassembly().wf()
        &&& self.reassembly().spec_max_fragments() == c.max_fragments
        &&& self.reassembly().spec_fragment_size() == c.fragment_size
        &&& self.reassembly().spec_capacity() == c.fragment_reassembly_buffer_size
        &&& self.outgoing().wf()
        &&& self.outgoing().spec_capacity() == c.outgoing_queue_size
        &&& self.outgoing().spec_slot_capacity() == datagram_slot(c)
        &&& self.outgoing()@.len() <= self.outgoing().spec_capacity()
        &&& self.incoming().wf()
        &&& self.incoming().spec_capacity() == c.incoming_queue_size
        &&& self.incoming().spec_slot_capacity() == c.max_packet_size
        &&& self.incoming()@.len() <= self.incoming().spec_capacity()
    }

    /// A well-formed endpoint has the sizes its configuration gives.
    pub proof fn lemma_sized(&self)
        requires
            self.wf(),
        ensures
            self.sized(),
    {
        self.outgoing_queue.lemma_len_bound();
        self.incoming_queue.lemma_len_bound();
    }

    /// `self` and `other` agree on everything but the time stamp and the
    /// recorded acknowledgements.
    pub open spec fn same_records(&self, other: Self) -> bool {
        &&& self.spec_config() == other.spec_config()
        &&& self.spec_sequence() == other.spec_sequence()
        &&& self.spec_ack_capacity() == other.spec_ack_capacity()
        &&& self.spec_counters() == other.spec_counters()
        &&& self.sent() == other.sent()
        &&& self.received() == other.received()
        &&& self.reassembly() == other.reassembly()
        &&& self.outgoing() == other.outgoing()
        &&& self.incoming() == other.incoming()
    }

    /// The sent packets that `ack` and `ack_bits` newly acknowledge, in
    /// window order.
    pub open spec fn newly(&self, ack: u16, ack_bits: u32) -> Seq<u16> {
        newly_acked(self.sent()@, ack, ack_bits, 32)
    }

    /// `next` holds the acknowledgements of `ack` and `ack_bits` applied to
    /// `self`: each sent packet they newly acknowledge is marked and recorded
    /// in the acknowledgement buffer while it has room; `samples` are the
    /// send time stamps of those packets, in window order.
    pub open spec fn acks_applied(&self, next: Self, ack: u16, ack_bits: u32, samples: Seq<u64>) -> bool {
        let newly = self.newly(ack, ack_bits);
        &&& next.sent()@ == mark_acked(self.sent()@, ack, ack_bits, 32)
        &&& next.sent().spec_sequence() == self.sent().spec_sequence()
        &&& next.spec_acks() == append_bounded(self.spec_acks(), self.spec_ack_capacity(), newly)
        &&& samples == newly.map_values(|s: u16| self.sent()@[s].time)
    }

    /// `next` has the same sent-packet record and acknowledgements as
    /// `self`, and there are no samples.
    pub open spec fn acks_kept(&self, next: Self, samples: Seq<u64>) -> bool {
        &&& next.sent() == self.sent()
        &&& next.spec_acks() == self.spec_acks()
        &&& samples == Seq::<u64>::empty()
    }

    /// `next` keeps the configuration, time stamp, next sequence number,
    /// acknowledgement capacity and outgoing queue of `self`.
    pub open spec fn keeps_sending_side(&self, next: Self) -> bool {
        &&& next.spec_config() == self.spec_config()
        &&& next.spec_time() == self.spec_time()
        &&& next.spec_sequence() == self.spec_sequence()
        &&& next.spec_ack_capacity() == self.spec_ack_capacity()
        &&& next.outgoing() == self.outgoing()
    }

    /// `next` records the receipt of packet `s`, `len` bytes long, with the
    /// current time stamp, when the received-packet record can take it.
    pub open spec fn records_receipt(&self, next: Self, s: u16, len: nat) -> bool {
        let record = ReceivedPacketData {
            time: self.spec_time(),
            packet_bytes: (self.spec_config().packet_header_size + len) as u32,
        };
        if self.received().spec_can_insert(s) {
            &&& next.received()@ == self.received().view_after_insert(s, record)
            &&& next.received().spec_sequence() == self.received().sequence_after_insert(s)
        } else {
            &&& next.received()@ == self.received()@
            &&& next.received().spec_sequence() == self.received().spec_sequence()
        }
    }

    /// `next` is `self` after receiving the regular (unfragmented) datagram
    /// `data`. A header that does not decode is counted as invalid; a
    /// sequence number too old for the received-packet record, or already
    /// in it, is counted as stale. Otherwise the packet is recorded and
    /// counted, its acknowledgements are applied, and its payload, when not
    /// empty, is queued (cut to the slot size) while the queue has room.
    pub open spec fn receive_regular_step(&self, next: Self, data: Seq<u8>, samples: Seq<u64>) -> bool {
        let cnt = self.spec_counters();
        &&& self.keeps_sending_side(next)
        &&& next.reassembly() == self.reassembly()
        &&& match decode_header(data) {
            None => {
                &&& next.spec_counters() == EndpointCounters {
                    packets_invalid: wrapping_add_u64(cnt.packets_invalid, 1),
                    ..cnt
                }
                &&& self.acks_kept(next, samples)
                &&& next.received() == self.received()
                &&& next.incoming() == self.incoming()
            },
            Some((h, n)) => {
                if !self.received().spec_can_insert(h.sequence) || self.received()@.contains_key(
                    h.sequence,
                ) {
                    &&& next.spec_counters() == EndpointCounters {
                        packets_stale: wrapping_add_u64(cnt.packets_stale, 1),
                        ..cnt
                    }
                    &&& self.acks_kept(next, samples)
                    &&& next.received() == self.received()
                    &&& next.incoming() == self.incoming()
                } else {
                    &&& self.records_receipt(next, h.sequence, data.len())
                    &&& self.acks_applied(next, h.ack, h.ack_bits, samples)
                    &&& next.spec_counters() == EndpointCounters {
                        packets_received: wrapping_add_u64(cnt.packets_received, 1),
                        packets_acked: wrapping_add_u64(
                            cnt.packets_acked,
                            self.newly(h.ack, h.ack_bits).len(),
                        ),
                        ..cnt
                    }
                    &&& next.incoming()@ == if n < data.len() {
                        append_bounded(
                            self.incoming()@,
                            self.incoming().spec_capacity(),
                            seq![
                                (
                                    h.sequence,
                                    fit(
                                        data.subrange(n, data.len() as int),
                                        self.incoming().spec_slot_capacity(),
                                    ),
                                ),
                            ],
                        )
                    } else {
                        self.incoming()@
                    }
                }
            },
        }
    }

    /// `next` is `self` after receiving the fragment datagram `data`. A
    /// fragment header that does not decode, or a first fragment whose packet
    /// header does not decode, is counted as invalid. Otherwise the first
    /// fragment's acknowledgements are applied, the fragment goes to
    /// reassembly, and a payload it completes is queued while the queue has
    /// room; a delivered payload is recorded as received and counted. A
    /// completed payload longer than the maximum packet size is dropped and
    /// counted as too large to receive.
    pub open spec fn receive_fragment_step(&self, next: Self, data: Seq<u8>, samples: Seq<u64>) -> bool {
        let cnt = self.spec_counters();
        &&& self.keeps_sending_side(next)
        &&& match decode_fragment_header(data) {
            None => {
                &&& next.spec_counters() == EndpointCounters {
                    fragments_invalid: wrapping_add_u64(cnt.fragments_invalid, 1),
                    ..cnt
                }
                &&& self.acks_kept(next, samples)
                &&& next.received() == self.received()
                &&& next.reassembly() == self.reassembly()
                &&& next.incoming() == self.incoming()
            },
            Some((fh, k)) => match fragment_parts(data, fh) {
                None => {
                    &&& next.spec_counters() == EndpointCounters {
                        fragments_received: wrapping_add_u64(cnt.fragments_received, 1),
                        fragments_invalid: wrapping_add_u64(cnt.fragments_invalid, 1),
                        ..cnt
                    }
                    &&& self.acks_kept(next, samples)
                    &&& next.received() == self.received()
                    &&& next.reassembly() == self.reassembly()
                    &&& next.incoming() == self.incoming()
                },
                Some((ack, ack_bits, start)) => {
                    let payload = data.subrange(start, data.len() as int);
                    let ra = self.reassembly();
                    let completed = ra.completed_payload(fh, payload, ack, ack_bits);
                    let max = self.spec_config().max_packet_size;
                    let oversize = completed is Some && completed->0.len() > max;
                    let delivered = completed is Some && !oversize && self.incoming()@.len()
                        < self.incoming().spec_capacity();
                    let acked = if fh.fragment_id == 0 {
                        self.newly(ack, ack_bits).len()
                    } else {
                        0
                    };
                    &&& if fh.fragment_id == 0 {
                        self.acks_applied(next, ack, ack_bits, samples)
                    } else {
                        self.acks_kept(next, samples)
                    }
                    &&& next.reassembly().window_sequence() == ra.window_after(fh)
                    &&& if !ra.accepts(fh) {
                        &&& next.reassembly()@ == ra@
                        &&& next.incoming()@ == self.incoming()@
                    } else {
                        match completed {
                            None => {
                                &&& next.reassembly()@ == ra.after_fragment(fh, payload, ack, ack_bits)
                                &&& next.incoming()@ == self.incoming()@
                            },
                            Some(p) => {
                                &&& next.reassembly()@ == ra.after_fragment(
                                    fh,
                                    payload,
                                    ack,
                                    ack_bits,
                                ).remove(fh.sequence)
                                &&& next.incoming()@ == if p.len() <= max {
                                    append_bounded(
                                        self.incoming()@,
                                        self.incoming().spec_capacity(),
                                        seq![(fh.sequence, p)],
                                    )
                                } else {
                                    self.incoming()@
                                }
                            },
                        }
                    }
                    &&& if delivered {
                        self.records_receipt(next, fh.sequence, completed->0.len())
                    } else {
                        next.received() == self.received()
                    }
                    &&& next.spec_counters() == EndpointCounters {
                        fragments_received: wrapping_add_u64(cnt.fragments_received, 1),
                        packets_too_large_to_receive: wrapping_add_u64(
                            cnt.packets_too_large_to_receive,
                            if oversize {
                                1
                            } else {
                                0
                            },
                        ),
                        packets_acked: wrapping_add_u64(cnt.packets_acked, acked),
                        packets_received: wrapping_add_u64(
                            cnt.packets_received,
                            if delivered {
                                1
                            } else {
                                0
                            },
                        ),
                        ..cnt
                    }
                },
            },
        }
    }

    /// `next` is `self` after receiving the datagram `data`. An empty
    /// datagram is ignored; one over the maximum packet size plus the largest
    /// packet header is only counted; otherwise it is taken as a fragment or
    /// as a regular packet by the fragment flag of its first byte.
    pub open spec fn receive_step(&self, next: Self, data: Seq<u8>, samples: Seq<u64>) -> bool {
        let cnt = self.spec_counters();
        if data.len() == 0 {
            &&& next.same_records(*self)
            &&& next.spec_acks() == self.spec_acks()
            &&& next.spec_time() == self.spec_time()
            &&& samples == Seq::<u64>::empty()
        } else if data.len() > self.spec_config().max_packet_size + MAX_PACKET_HEADER_BYTES {
            &&& self.keeps_sending_side(next)
            &&& self.acks_kept(next, samples)
            &&& next.received() == self.received()
            &&& next.reassembly() == self.reassembly()
            &&& next.incoming() == self.incoming()
            &&& next.spec_counters() == EndpointCounters {
                packets_too_large_to_receive: wrapping_add_u64(cnt.packets_too_large_to_receive, 1),
                ..cnt
            }
        } else if spec_is_fragment(data) {
            self.receive_fragment_step(next, data, samples)
        } else {
            self.receive_regular_step(next, data, samples)
        }
    }

    /// `next` is `self` after processing `ack` and `ack_bits` from the peer:
    /// the acknowledgements are applied and the newly acknowledged packets
    /// counted.
    pub open spec fn acknowledged(&self, next: Self, ack: u16, ack_bits: u32, samples: Seq<u64>) -> bool {
        &&& self.keeps_sending_side(next)
        &&& self.acks_applied(next, ack, ack_bits, samples)
        &&& next.spec_counters() == EndpointCounters {
            packets_acked: wrapping_add_u64(
                self.spec_counters().packets_acked,
                self.newly(ack, ack_bits).len(),
            ),
            ..self.spec_counters()
        }
        &&& next.received() == self.received()
        &&& next.reassembly() == self.reassembly()
        &&& next.incoming() == self.incoming()
    }

    /// The header that a packet sent now carries: the next sequence number,
    /// and the newest received sequence number with the ack bits of the 32
    /// before it.
    pub open spec fn next_header(&self) -> PacketHeader {
        let ack = seq_add(self.received().spec_sequence(), -1);
        PacketHeader {
            sequence: self.spec_sequence(),
            ack,
            ack_bits: ack_bits_upto(self.received()@, ack, 32),
        }
    }

    /// `next` is `self` after sending `data`. A payload over the maximum
    /// packet size is only counted. Otherwise the packet takes the next
    /// sequence number, is recorded as sent (unacknowledged, with the current
    /// time stamp and its size on the wire) when the record can take it, its
    /// datagrams are queued while the queue has room, and it is counted with
    /// its fragments.
    pub open spec fn send_step(&self, next: Self, data: Seq<u8>) -> bool {
        let c = self.spec_config();
        let cnt = self.spec_counters();
        &&& next.spec_config() == c
        &&& next.spec_time() == self.spec_time()
        &&& next.spec_ack_capacity() == self.spec_ack_capacity()
        &&& next.spec_acks() == self.spec_acks()
        &&& next.received() == self.received()
        &&& next.reassembly() == self.reassembly()
        &&& next.incoming() == self.incoming()
        &&& if data.len() > c.max_packet_size {
            &&& next.spec_counters() == EndpointCounters {
                packets_too_large_to_send: wrapping_add_u64(cnt.packets_too_large_to_send, 1),
                ..cnt
            }
            &&& next.spec_sequence() == self.spec_sequence()
            &&& next.sent() == self.sent()
            &&& next.outgoing() == self.outgoing()
        } else {
            let h = self.next_header();
            let s = h.sequence;
            let record = SentPacketData {
                time: self.spec_time(),
                acked: false,
                packet_bytes: (c.packet_header_size + data.len()) as u32,
            };
            &&& next.spec_sequence() == seq_add(s, 1)
            &&& if self.sent().spec_can_insert(s) {
                &&& next.sent()@ == self.sent().view_after_insert(s, record)
                &&& next.sent().spec_sequence() == self.sent().sequence_after_insert(s)
            } else {
                &&& next.sent()@ == self.sent()@
                &&& next.sent().spec_sequence() == self.sent().spec_sequence()
            }
            &&& next.outgoing()@ == append_bounded(
                self.outgoing()@,
                self.outgoing().spec_capacity(),
                datagrams_for(c, h, data),
            )
            &&& next.spec_counters() == EndpointCounters {
                packets_sent: wrapping_add_u64(cnt.packets_sent, 1),
                fragments_sent: wrapping_add_u64(cnt.fragments_sent, fragments_for(c, data.len())),
                ..cnt
            }
        }
    }

    /// `self` and `other` agree on everything but the two packet queues.
    pub open spec fn same_except_queues(&self, other: Self) -> bool {
        &&& self.spec_config() == other.spec_config()
        &&& self.spec_time() == other.spec_time()
        &&& self.spec_sequence() == other.spec_sequence()
        &&& self.spec_ack_capacity() == other.spec_ack_capacity()
        &&& self.spec_acks() == other.spec_acks()
        &&& self.spec_counters() == other.spec_counters()
        &&& self.sent() == other.sent()
        &&& self.received() == other.received()
        &&& self.reassembly() == other.reassembly()
        &&& self.outgoing().spec_capacity() == other.outgoing().spec_capacity()
        &&& self.incoming().spec_capacity() == other.incoming().spec_capacity()
    }

    /// The endpoint holds nothing: no packet sent or received, nothing
    /// queued, in reassembly or acknowledged, and all counters at zero.
    pub open spec fn is_fresh(&self) -> bool {
        &&& self.spec_sequence() == 0
        &&& self.spec_acks() == Seq::<u16>::empty()
        &&& self.spec_counters() == zero_counters()
        &&& self.sent()@ == Map::<u16, SentPacketData>::empty()
        &&& self.sent().spec_sequence() == 0
        &&& self.received()@ == Map::<u16, ReceivedPacketData>::empty()
        &&& self.received().spec_sequence() == 0
        &&& self.reassembly()@ == Map::<u16, PartialPacket>::empty()
        &&& self.reassembly().window_sequence() == 0
        &&& self.outgoing()@ == Seq::<(u16, Seq<u8>)>::empty()
        &&& self.incoming()@ == Seq::<(u16, Seq<u8>)>::empty()
    }

    /// Create an endpoint with the given configuration and time stamp.
    ///
    /// The configuration must pass [`EndpointConfig::validate`].
    pub fn new(config: EndpointConfig, time: u64) -> (r: Self)
        requires
            config_valid(config),
            fits_machine(config),
        ensures
            r.wf(),
            r.is_fresh(),
            r.spec_config() == config,
            r.spec_time() == time,
            r.spec_ack_capacity() == config.ack_buffer_size,
            r.sized(),
    {
        let ack_buf = vec![0u16; config.ack_buffer_size];
        let outgoing_queue = PacketQueue::new(config.outgoing_queue_size, config.max_datagram_size());
        let incoming_queue = PacketQueue::new(config.incoming_queue_size, config.max_packet_size);
        let r = Endpoint {
            sent_packets: SequenceBuffer::new(config.sent_packets_buffer_size),
            received_packets: SequenceBuffer::new(config.received_packets_buffer_size),
            fragment_reassembly: FragmentReassemblyBuffer::new(
                config.fragment_reassembly_buffer_size,
                config.fragment_size,
                config.max_fragments,
            ),
            outgoing_queue,
            incoming_queue,
            ack_buf,
            ack_count: 0,
            config,
            time,
            sequence: 0,
            counters: EndpointCounters::default(),
        };
        assert(r.spec_acks() =~= Seq::<u16>::empty());
        proof {
            r.lemma_sized();
        }
        r
    }

    /// The configuration.
    pub fn config(&self) -> (r: &EndpointConfig)
        ensures
            *r == self.spec_config(),
    {
        &self.config
    }

    /// The sequence number the next packet sent gets.
    pub fn next_packet_sequence(&self) -> (r: u16)
        ensures
            r == self.spec_sequence(),
    {
        self.sequence
    }

    /// The statistics counters.
    pub fn counters(&self) -> (r: &EndpointCounters)
        ensures
            *r == self.spec_counters(),
    {
        &self.counters
    }

    /// The current time stamp.
    pub fn time(&self) -> (r: u64)
        ensures
            r == self.spec_time(),
    {
        self.time
    }

    /// The acknowledged sequence numbers recorded since the last
    /// [`clear_acks`](Endpoint::clear_acks), in the order they were
    /// acknowledged.
    pub fn get_acks(&self) -> (r: &[u16])
        requires
            self.wf(),
        ensures
            r@ == self.spec_acks(),
    {
        vstd::slice::slice_subrange(self.ack_buf.as_slice(), 0, self.ack_count)
    }

    /// Forget the recorded acknowledged sequence numbers.
    pub fn clear_acks(&mut self)
        requires
            old(self).wf(),
        ensures
            final(self).wf(),
            final(self).spec_acks() == Seq::<u16>::empty(),
            final(self).same_records(*old(self)),
            final(self).spec_time() == old(self).spec_time(),
    {
        self.ack_count = 0;
        assert(self.spec_acks() =~= Seq::<u16>::empty());
    }

    /// Set the current time stamp; packets sent or received from now on are
    /// recorded with it.
    pub fn update(&mut self, time: u64)
        requires
            old(self).wf(),
        ensures
            final(self).wf(),
            final(self).same_records(*old(self)),
            final(self).spec_acks() == old(self).spec_acks(),
            final(self).spec_time() == time,
    {
        self.time = time;
    }

    /// Send a packet: queue its datagrams (fragmented when larger than
    /// `fragment_above`) for [`drain_outgoing`](Endpoint::drain_outgoing).
    pub fn send_packet(&mut self, data: &[u8])
        requires
            old(self).wf(),
        ensures
            final(self).wf(),
            old(self).send_step(*final(self), data@),
    {
        if data.len() > self.config.max_packet_size {
            self.counters.packets_too_large_to_send = bump(self.counters.packets_too_large_to_send);
            return;
        }
        let ghost old_self = *self;
        let sequence = self.sequence;
        self.sequence = self.sequence.wrapping_add(1);
        let (ack, ack_bits) = self.received_packets.generate_ack_bits();
        let time = self.time;
        let packet_bytes = (self.config.packet_header_size + data.len()) as u32;
        match self.sent_packets.insert(sequence) {
            Some(d) => {
                *d = SentPacketData { time, acked: false, packet_bytes };
            },
            None => {},
        }
        if data.len() > self.config.fragment_above {
            self.send_fragmented_packet(sequence, data, ack, ack_bits);
        } else {
            self.send_regular_packet(sequence, data, ack, ack_bits);
        }
        self.counters.packets_sent = bump(self.counters.packets_sent);
        proof {
            assert(old_self.next_header() == PacketHeader { sequence, ack, ack_bits });
            if data@.len() > self.config.fragment_above {
                if !too_many_fragments(self.config, data@.len()) {
                    lemma_fragment_count(data@.len(), self.config.fragment_size as nat);
                } else {
                    old_self.outgoing_queue.lemma_len_bound();
                    assert(append_bounded(
                        old_self.outgoing_queue@,
                        old_self.outgoing_queue.spec_capacity(),
                        Seq::<(u16, Seq<u8>)>::empty(),
                    ) =~= old_self.outgoing_queue@);
                }
            } else {
                assert(seq![
                    (
                        sequence,
                        regular_datagram(
                            PacketHeader { sequence, ack, ack_bits },
                            data@,
                            datagram_slot(old_self.config),
                        ),
                    ),
                ] == datagrams_for(old_self.config, PacketHeader { sequence, ack, ack_bits }, data@));
                assert(self.outgoing_queue@ == append_bounded(
                    old_self.outgoing_queue@,
                    old_self.outgoing_queue.spec_capacity(),
                    datagrams_for(old_self.config, PacketHeader { sequence, ack, ack_bits }, data@),
                ));
            }
        }
    }

    /// Queue the whole-payload datagram of packet `sequence`.
    fn send_regular_packet(&mut self, sequence: u16, data: &[u8], ack: u16, ack_bits: u32)
        requires
            old(self).wf(),
        ensures
            final(self).wf(),
            final(self).outgoing()@ == append_bounded(
                old(self).outgoing()@,
                old(self).outgoing().spec_capacity(),
                seq![
                    (
                        sequence,
                        regular_datagram(
                            PacketHeader { sequence, ack, ack_bits },
                            data@,
                            datagram_slot(old(self).config),
                        ),
                    ),
                ],
            ),
            *final(self) == (Endpoint { outgoing_queue: final(self).outgoing_queue, ..*old(self) }),
    {
        let header = PacketHeader::new(sequence, ack, ack_bits);
        let write = |buf: &mut [u8]| -> (n: usize)
            requires
                old(buf)@.len() >= MAX_PACKET_HEADER_BYTES,
            ensures
                n <= old(buf)@.len(),
                final(buf)@.len() == old(buf)@.len(),
                final(buf)@.subrange(0, n as int) == regular_datagram(header, data@, old(buf)@.len()),
            { write_regular_datagram(buf, &header, data) };
        let ghost before = self.outgoing_queue@;
        proof {
            self.outgoing_queue.lemma_len_bound();
        }
        let pushed = self.outgoing_queue.write_slot(sequence, write);
        proof {
            let item = (sequence, regular_datagram(header, data@, datagram_slot(self.config)));
            if pushed {
                assert(self.outgoing_queue@ =~= before + seq![item]);
                assert(self.outgoing_queue@ == append_bounded(before, self.outgoing_queue.spec_capacity(), seq![item]));
            } else {
                assert(self.outgoing_queue@ =~= before);
                assert(self.outgoing_queue@ == append_bounded(before, self.outgoing_queue.spec_capacity(), seq![item]));
            }
        }
    }

    /// Queue one fragment datagram of packet `sequence`.
    fn send_fragment(
        &mut self,
        sequence: u16,
        fragment_header: &FragmentHeader,
        packet_header: &PacketHeader,
        chunk: &[u8],
    )
        requires
            old(self).wf(),
            chunk@.len() <= old(self).config.fragment_size,
        ensures
            final(self).wf(),
            final(self).outgoing()@ == append_bounded(
                old(self).outgoing()@,
                old(self).outgoing().spec_capacity(),
                seq![
                    (
                        sequence,
                        encode_fragment_header(*fragment_header) + (if fragment_header.fragment_id == 0 {
                            encode_header(*packet_header)
                        } else {
                            Seq::empty()
                        }) + chunk@,
                    ),
                ],
            ),
            *final(self) == (Endpoint { outgoing_queue: final(self).outgoing_queue, ..*old(self) }),
    {
        let write = |buf: &mut [u8]| -> (k: usize)
            requires
                old(buf)@.len() >= FRAGMENT_HEADER_BYTES + MAX_PACKET_HEADER_BYTES + chunk@.len(),
            ensures
                k <= old(buf)@.len(),
                final(buf)@.len() == old(buf)@.len(),
                final(buf)@.subrange(0, k as int) == encode_fragment_header(*fragment_header) + (
                if fragment_header.fragment_id == 0 {
                    encode_header(*packet_header)
                } else {
                    Seq::empty()
                }) + chunk@,
            { write_fragment_datagram(buf, fragment_header, packet_header, chunk) };
        let ghost before = self.outgoing_queue@;
        proof {
            self.outgoing_queue.lemma_len_bound();
        }
        let pushed = self.outgoing_queue.write_slot(sequence, write);
        proof {
            let item = (
                sequence,
                encode_fragment_header(*fragment_header) + (if fragment_header.fragment_id == 0 {
                    encode_header(*packet_header)
                } else {
                    Seq::empty()
                }) + chunk@,
            );
            if pushed {
                assert(self.outgoing_queue@ =~= before + seq![item]);
            } else {
                assert(self.outgoing_queue@ =~= before);
            }
            assert(self.outgoing_queue@ == append_bounded(before, self.outgoing_queue.spec_capacity(), seq![item]));
        }
    }

    /// Queue the fragment datagrams of packet `sequence`; nothing is queued
    /// when the payload needs too many fragments.
    fn send_fragmented_packet(&mut self, sequence: u16, data: &[u8], ack: u16, ack_bits: u32)
        requires
            old(self).wf(),
            data@.len() > 0,
        ensures
            final(self).wf(),
            ({
                let c = old(self).config;
                let n = fragment_count(data@.len(), c.fragment_size as nat);
                let h = PacketHeader { sequence, ack, ack_bits };
                if too_many_fragments(c, data@.len()) {
                    *final(self) == *old(self)
                } else {
                    &&& final(self).outgoing()@ == append_bounded(
                        old(self).outgoing()@,
                        old(self).outgoing().spec_capacity(),
                        fragment_datagrams(h, data@, c.fragment_size as nat, n),
                    )
                    &&& final(self).counters == (EndpointCounters {
                        fragments_sent: wrapping_add_u64(old(self).counters.fragments_sent, n),
                        ..old(self).counters
                    })
                    &&& *final(self) == (Endpoint {
                        outgoing_queue: final(self).outgoing_queue,
                        counters: final(self).counters,
                        ..*old(self)
                    })
                }
            }),
    {
        let fragment_size = self.config.fragment_size;
        proof {
            lemma_fragment_count(data@.len(), fragment_size as nat);
        }
        proof {
            let n = fragment_count(data@.len(), fragment_size as nat);
            assert(n <= data@.len()) by (nonlinear_arith)
                requires
                    (n - 1) * fragment_size < data@.len(),
                    fragment_size >= 1,
            ;
        }
        let num_fragments = data.len() / fragment_size + if data.len() % fragment_size != 0 {
            1
        } else {
            0
        };
        if num_fragments > self.config.max_fragments || num_fragments > 255 {
            return;
        }
        let ghost n = num_fragments as nat;
        let packet_header = PacketHeader::new(sequence, ack, ack_bits);
        let ghost items = fragment_datagrams(packet_header, data@, fragment_size as nat, n);
        let ghost out0 = self.outgoing_queue@;
        let ghost cap = self.outgoing_queue.spec_capacity();
        let ghost counters0 = self.counters;
        let mut i: usize = 0;
        proof {
            self.outgoing_queue.lemma_len_bound();
        }
        assert(out0 =~= append_bounded(out0, cap, items.subrange(0, 0)));
        while i < num_fragments
            invariant
                i <= num_fragments,
                n == num_fragments,
                num_fragments <= 255,
                fragment_size == self.config.fragment_size,
                num_fragments == fragment_count(data@.len(), fragment_size as nat),
                (num_fragments - 1) * fragment_size < data@.len(),
                data@.len() == data.len(),
                items == fragment_datagrams(packet_header, data@, fragment_size as nat, n),
                packet_header == (PacketHeader { sequence, ack, ack_bits }),
                cap == self.outgoing_queue.spec_capacity(),
                out0.len() <= cap,
                self.wf(),
                self.outgoing_queue@ == append_bounded(out0, cap, items.subrange(0, i as int)),
                self.counters == (EndpointCounters {
                    fragments_sent: wrapping_add_u64(counters0.fragments_sent, i as nat),
                    ..counters0
                }),
                *self == (Endpoint {
                    outgoing_queue: self.outgoing_queue,
                    counters: self.counters,
                    ..*old(self)
                }),
            decreases num_fragments - i,
        {
            proof {
                assert(i * fragment_size <= (num_fragments - 1) * fragment_size) by (nonlinear_arith)
                    requires
                        i < num_fragments,
                ;
            }
            let start = i * fragment_size;
            let end = if data.len() - start > fragment_size {
                start + fragment_size
            } else {
                data.len()
            };
            let chunk = vstd::slice::slice_subrange(data, start, end);
            let fragment_header = FragmentHeader {
                sequence,
                fragment_id: i as u8,
                num_fragments: num_fragments as u8,
            };
            let ghost before = self.outgoing_queue@;
            proof {
                lemma_append_bounded_step(out0, cap, items, i as int);
                assert(chunk@ == fragment_piece(data@, fragment_size as nat, i as int));
                assert((fragment_header.fragment_id == 0) == (i == 0));
                assert(fragment_header == FragmentHeader {
                    sequence: packet_header.sequence,
                    fragment_id: i as u8,
                    num_fragments: n as u8,
                });
                assert(items[i as int] == (sequence, encode_fragment_header(fragment_header) + (
                if fragment_header.fragment_id == 0 {
                    encode_header(packet_header)
                } else {
                    Seq::empty()
                }) + chunk@));
            }
            self.send_fragment(sequence, &fragment_header, &packet_header, chunk);
            proof {
                if before.len() < cap {
                    assert(self.outgoing_queue@ =~= before.push(items[i as int]));
                } else {
                    assert(self.outgoing_queue@ =~= before);
                }
            }
            self.counters.fragments_sent = bump(self.counters.fragments_sent);
            proof {
                vstd::arithmetic::div_mod::lemma_add_mod_noop(
                    counters0.fragments_sent + i,
                    1,
                    0x1_0000_0000_0000_0000,
                );
            }
            i = i + 1;
        }
        assert(items.subrange(0, n as int) =~= items);
    }

    /// Receive one datagram from the network. Payloads it completes are
    /// queued for [`drain_incoming`](Endpoint::drain_incoming); returns the
    /// send time stamps of the packets it newly acknowledges, in window order
    /// (the samples of round-trip time).
    pub fn receive_packet(&mut self, data: &[u8]) -> (samples: Vec<u64>)
        requires
            old(self).wf(),
        ensures
            final(self).wf(),
            old(self).receive_step(*final(self), data@, samples@),
    {
        if data.len() == 0 {
            return Vec::new();
        }
        if data.len() > self.config.max_packet_size + MAX_PACKET_HEADER_BYTES {
            self.counters.packets_too_large_to_receive = bump(
                self.counters.packets_too_large_to_receive,
            );
            return Vec::new();
        }
        if is_fragment_packet(data) {
            self.receive_fragment(data)
        } else {
            self.receive_regular_packet(data)
        }
    }

    /// The first sequence number of the packet-loss window: the older half
    /// of the sent-packet record.
    pub open spec fn loss_window_base(&self) -> u16 {
        seq_add(
            seq_add(
                self.sent().spec_sequence(),
                -((self.spec_config().sent_packets_buffer_size as u16) as int),
            ),
            1,
        )
    }

    /// The number of packets not yet acknowledged in the older half of the
    /// sent-packet record, with the size of that half; `None` while fewer
    /// packets than that have been sent.
    pub fn packet_loss_sample(&self) -> (r: Option<(usize, usize)>)
        requires
            self.wf(),
        ensures
            ({
                let n = self.spec_config().sent_packets_buffer_size / 2;
                if self.sent().spec_sequence() < (n as u16) {
                    r is None
                } else {
                    r == Some((unacked_count(self.sent()@, self.loss_window_base(), n as nat) as usize, n))
                }
            }),
    {
        let buffer_size = self.config.sent_packets_buffer_size;
        let num_samples = buffer_size / 2;
        if self.sent_packets.sequence() < num_samples as u16 {
            return None;
        }
        let base = self.sent_packets.sequence().wrapping_sub(buffer_size as u16).wrapping_add(1);
        assert(base == self.loss_window_base());
        let mut num_dropped: usize = 0;
        let mut i: usize = 0;
        while i < num_samples
            invariant
                i <= num_samples,
                self.wf(),
                num_dropped == unacked_count(self.sent()@, base, i as nat),
                num_dropped <= i,
            decreases num_samples - i,
        {
            let seq = base.wrapping_add(i as u16);
            proof {
                lemma_truncate_u16(i);
                vstd::arithmetic::div_mod::lemma_add_mod_noop(base as int, i as int, 65536);
                vstd::arithmetic::div_mod::lemma_mod_twice(i as int, 65536);
                vstd::arithmetic::div_mod::lemma_add_mod_noop(base as int, (i as int) % 65536, 65536);
            }
            assert(seq == seq_add(base, i as int));
            match self.sent_packets.find(seq) {
                Some(data) => {
                    if !data.acked {
                        num_dropped = num_dropped + 1;
                    }
                },
                None => {},
            }
            i = i + 1;
        }
        Some((num_dropped, num_samples))
    }

    /// The first sequence number of the bandwidth window of a record with
    /// next expected sequence number `next` and `size` slots.
    pub open spec fn window_base(next: u16, size: usize) -> u16 {
        seq_add(next, -((size as u16) as int))
    }

    /// Byte total and time span of the sent packets (all of them, or only
    /// the acknowledged ones) in the window of the sent-packet record's size
    /// that ends before its next expected sequence number; `None` when it
    /// holds none.
    #[verifier::rlimit(30)]
    #[verifier::spinoff_prover]
    pub fn sent_traffic(&self, acked_only: bool) -> (r: Option<TrafficTotals>)
        requires
            self.wf(),
        ensures
            totals_of(
                r,
                sent_samples(
                    self.sent()@,
                    Self::window_base(self.sent().spec_sequence(), self.spec_config().sent_packets_buffer_size),
                    self.spec_config().sent_packets_buffer_size as nat,
                    acked_only,
                ),
            ),
    {
        let buffer_size = self.config.sent_packets_buffer_size;
        let base = self.sent_packets.sequence().wrapping_sub(buffer_size as u16);
        let mut totals: Option<TrafficTotals> = None;
        let mut i: usize = 0;
        while i < buffer_size
            invariant
                i <= buffer_size,
                buffer_size == self.config.sent_packets_buffer_size,
                self.wf(),
                totals_of(totals, sent_samples(self.sent()@, base, i as nat, acked_only)),
            decreases buffer_size - i,
        {
            let seq = base.wrapping_add(i as u16);
            proof {
                lemma_truncate_u16(i);
                vstd::arithmetic::div_mod::lemma_add_mod_noop(base as int, i as int, 65536);
                vstd::arithmetic::div_mod::lemma_mod_twice(i as int, 65536);
                vstd::arithmetic::div_mod::lemma_add_mod_noop(base as int, (i as int) % 65536, 65536);
                let smp = sent_samples(self.sent()@, base, i as nat, acked_only);
                lemma_sent_samples_len(self.sent()@, base, i as nat, acked_only);
                lemma_traffic_bound(smp);
                assert(i * 0xFFFF_FFFFnat <= 0x1_0000_0000nat * 0xFFFF_FFFFnat) by (nonlinear_arith)
                    requires
                        i <= 0x1_0000_0000nat,
                ;
            }
            assert(seq == seq_add(base, i as int));
            let ghost prev = sent_samples(self.sent()@, base, i as nat, acked_only);
            match self.sent_packets.find(seq) {
                Some(data) => {
                    if !acked_only || data.acked {
                        totals = add_sample(totals, data.time, data.packet_bytes);
                        assert(sent_samples(self.sent()@, base, (i + 1) as nat, acked_only).drop_last()
                            =~= prev);
                    } else {
                        assert(sent_samples(self.sent()@, base, (i + 1) as nat, acked_only) =~= prev);
                    }
                },
                None => {
                    assert(sent_samples(self.sent()@, base, (i + 1) as nat, acked_only) =~= prev);
                },
            }
            i = i + 1;
        }
        totals
    }

    /// Byte total and time span of the received packets in the window of the
    /// received-packet record's size that ends before its next expected
    /// sequence number; `None` when it holds none.
    #[verifier::rlimit(30)]
    #[verifier::spinoff_prover]
    pub fn received_traffic(&self) -> (r: Option<TrafficTotals>)
        requires
            self.wf(),
        ensures
            totals_of(
                r,
                received_samples(
                    self.received()@,
                    Self::window_base(
                        self.received().spec_sequence(),
                        self.spec_config().received_packets_buffer_size,
                    ),
                    self.spec_config().received_packets_buffer_size as nat,
                ),
            ),
    {
        let buffer_size = self.config.received_packets_buffer_size;
        let base = self.received_packets.sequence().wrapping_sub(buffer_size as u16);
        let mut totals: Option<TrafficTotals> = None;
        let mut i: usize = 0;
        while i < buffer_size
            invariant
                i <= buffer_size,
                buffer_size == self.config.received_packets_buffer_size,
                self.wf(),
                totals_of(totals, received_samples(self.received()@, base, i as nat)),
            decreases buffer_size - i,
        {
            let seq = base.wrapping_add(i as u16);
            proof {
                lemma_truncate_u16(i);
                vstd::arithmetic::div_mod::lemma_add_mod_noop(base as int, i as int, 65536);
                vstd::arithmetic::div_mod::lemma_mod_twice(i as int, 65536);
                vstd::arithmetic::div_mod::lemma_add_mod_noop(base as int, (i as int) % 65536, 65536);
                let smp = received_samples(self.received()@, base, i as nat);
                lemma_received_samples_len(self.received()@, base, i as nat);
                lemma_traffic_bound(smp);
                assert(i * 0xFFFF_FFFFnat <= 0x1_0000_0000nat * 0xFFFF_FFFFnat) by (nonlinear_arith)
                    requires
                        i <= 0x1_0000_0000nat,
                ;
            }
            assert(seq == seq_add(base, i as int));
            let ghost prev = received_samples(self.received()@, base, i as nat);
            match self.received_packets.find(seq) {
                Some(data) => {
                    totals = add_sample(totals, data.time, data.packet_bytes);
                    assert(received_samples(self.received()@, base, (i + 1) as nat).drop_last() =~= prev);
                },
                None => {
                    assert(received_samples(self.received()@, base, (i + 1) as nat) =~= prev);
                },
            }
            i = i + 1;
        }
        totals
    }

    /// Hand every queued outgoing datagram to `f` (sequence number, wire
    /// bytes), oldest first, then leave the outgoing queue empty.
    pub fn drain_outgoing(&mut self, f: impl FnMut(u16, &[u8]))
        requires
            old(self).wf(),
            forall|s: u16, d: &[u8]| #[trigger] f.requires((s, d)),
        ensures
            final(self).wf(),
            final(self).outgoing()@ == Seq::<(u16, Seq<u8>)>::empty(),
            final(self).same_except_queues(*old(self)),
            final(self).incoming() == old(self).incoming(),
            forall|i: int|
                0 <= i < old(self).outgoing()@.len() ==> handed(
                    f,
                    #[trigger] old(self).outgoing()@[i].0,
                    old(self).outgoing()@[i].1,
                ),
    {
        self.outgoing_queue.drain(f);
    }

    /// Hand every queued received payload to `f` (sequence number, payload),
    /// oldest first, then leave the incoming queue empty.
    pub fn drain_incoming(&mut self, f: impl FnMut(u16, &[u8]))
        requires
            old(self).wf(),
            forall|s: u16, d: &[u8]| #[trigger] f.requires((s, d)),
        ensures
            final(self).wf(),
            final(self).incoming()@ == Seq::<(u16, Seq<u8>)>::empty(),
            final(self).same_except_queues(*old(self)),
            final(self).outgoing() == old(self).outgoing(),
            forall|i: int|
                0 <= i < old(self).incoming()@.len() ==> handed(
                    f,
                    #[trigger] old(self).incoming()@[i].0,
                    old(self).incoming()@[i].1,
                ),
    {
        self.incoming_queue.drain(f);
    }

    /// Remove the queued outgoing datagrams and return copies of them,
    /// oldest first. Allocates; [`drain_outgoing`](Endpoint::drain_outgoing)
    /// does not.
    pub fn take_outgoing_packets(&mut self) -> (r: Vec<(u16, Vec<u8>)>)
        requires
            old(self).wf(),
        ensures
            final(self).wf(),
            final(self).outgoing()@ == Seq::<(u16, Seq<u8>)>::empty(),
            final(self).same_except_queues(*old(self)),
            final(self).incoming() == old(self).incoming(),
            r@.len() == old(self).outgoing()@.len(),
            forall|i: int|
                0 <= i < r@.len() ==> (#[trigger] r@[i]).0 == old(self).outgoing()@[i].0 && r@[i].1@
                    == old(self).outgoing()@[i].1,
    {
        self.outgoing_queue.drain_to_vec()
    }

    /// Remove the queued received payloads and return copies of them,
    /// oldest first. Allocates; [`drain_incoming`](Endpoint::drain_incoming)
    /// does not.
    pub fn take_incoming_packets(&mut self) -> (r: Vec<(u16, Vec<u8>)>)
        requires
            old(self).wf(),
        ensures
            final(self).wf(),
            final(self).incoming()@ == Seq::<(u16, Seq<u8>)>::empty(),
            final(self).same_except_queues(*old(self)),
            final(self).outgoing() == old(self).outgoing(),
            r@.len() == old(self).incoming()@.len(),
            forall|i: int|
                0 <= i < r@.len() ==> (#[trigger] r@[i]).0 == old(self).incoming()@[i].0 && r@[i].1@
                    == old(self).incoming()@[i].1,
    {
        self.incoming_queue.drain_to_vec()
    }

    /// Receive a regular (unfragmented) datagram.
    fn receive_regular_packet(&mut self, data: &[u8]) -> (samples: Vec<u64>)
        requires
            old(self).wf(),
            data@.len() <= old(self).config.max_packet_size + MAX_PACKET_HEADER_BYTES,
        ensures
            final(self).wf(),
            old(self).receive_regular_step(*final(self), data@, samples@),
    {
        let (header, header_size) = match PacketHeader::read(data) {
            Some(h) => h,
            None => {
                self.counters.packets_invalid = bump(self.counters.packets_invalid);
                return Vec::new();
            },
        };
        if !self.received_packets.can_insert(header.sequence) {
            self.counters.packets_stale = bump(self.counters.packets_stale);
            return Vec::new();
        }
        if self.received_packets.entry_exists(header.sequence) {
            self.counters.packets_stale = bump(self.counters.packets_stale);
            return Vec::new();
        }
        self.counters.packets_received = bump(self.counters.packets_received);
        let time = self.time;
        let packet_bytes = (self.config.packet_header_size + data.len()) as u32;
        match self.received_packets.insert(header.sequence) {
            Some(d) => {
                *d = ReceivedPacketData { time, packet_bytes };
            },
            None => {},
        }
        let samples = self.process_acks(header.ack, header.ack_bits);
        let ghost before = self.incoming_queue@;
        proof {
            self.incoming_queue.lemma_len_bound();
        }
        if header_size < data.len() {
            let payload = vstd::slice::slice_subrange(data, header_size, data.len());
            let pushed = self.incoming_queue.push(header.sequence, payload);
            proof {
                let item = (header.sequence, fit(payload@, self.incoming_queue.spec_slot_capacity()));
                if pushed {
                    assert(self.incoming_queue@ =~= before + seq![item]);
                } else {
                    assert(self.incoming_queue@ =~= before);
                }
                assert(self.incoming_queue@ == append_bounded(
                    before,
                    self.incoming_queue.spec_capacity(),
                    seq![item],
                ));
            }
        }
        samples
    }

    /// Receive a fragment datagram.
    fn receive_fragment(&mut self, data: &[u8]) -> (samples: Vec<u64>)
        requires
            old(self).wf(),
        ensures
            final(self).wf(),
            old(self).receive_fragment_step(*final(self), data@, samples@),
    {
        let (fragment_header, fragment_header_size) = match FragmentHeader::read(data) {
            Some(h) => h,
            None => {
                self.counters.fragments_invalid = bump(self.counters.fragments_invalid);
                return Vec::new();
            },
        };
        let ghost old_self = *self;
        self.counters.fragments_received = bump(self.counters.fragments_received);
        let mut pos = fragment_header_size;
        let mut ack: u16 = 0;
        let mut ack_bits: u32 = 0xFFFF_FFFF;
        let mut samples: Vec<u64> = Vec::new();
        if fragment_header.fragment_id == 0 {
            let rest = vstd::slice::slice_subrange(data, pos, data.len());
            match PacketHeader::read(rest) {
                Some((packet_header, packet_header_size)) => {
                    ack = packet_header.ack;
                    ack_bits = packet_header.ack_bits;
                    pos = pos + packet_header_size;
                    samples = self.process_acks(ack, ack_bits);
                },
                None => {
                    self.counters.fragments_invalid = bump(self.counters.fragments_invalid);
                    return Vec::new();
                },
            }
        }
        let fragment_data = vstd::slice::slice_subrange(data, pos, data.len());
        let too_long = match self.fragment_reassembly.completed_len(&fragment_header, fragment_data) {
            Some(n) => n > self.config.max_packet_size,
            None => false,
        };
        let ghost mid = *self;
        let delivered = self.fragment_reassembly.process_fragment(
            &fragment_header,
            fragment_data,
            ack,
            ack_bits,
            &mut self.incoming_queue,
        );
        match delivered {
            Some(payload_len) => {
                self.counters.packets_received = bump(self.counters.packets_received);
                let time = self.time;
                let packet_bytes = (self.config.packet_header_size + payload_len) as u32;
                match self.received_packets.insert(fragment_header.sequence) {
                    Some(d) => {
                        *d = ReceivedPacketData { time, packet_bytes };
                    },
                    None => {},
                }
            },
            None => {},
        }
        if too_long {
            self.counters.packets_too_large_to_receive = bump(
                self.counters.packets_too_large_to_receive,
            );
        }
        proof {
            let ra = old_self.reassembly();
            let completed = ra.completed_payload(fragment_header, fragment_data@, ack, ack_bits);
            let room = old_self.incoming()@.len() < old_self.incoming().spec_capacity();
            if ra.accepts(fragment_header) {
                if let Some(p) = completed {
                    mid.incoming_queue.lemma_len_bound();
                    let q = old_self.incoming()@;
                    if room && p.len() <= old_self.config.max_packet_size {
                        assert(self.incoming_queue@ =~= q + seq![(fragment_header.sequence, p)]);
                    } else {
                        assert(self.incoming_queue@ =~= q);
                    }
                }
            }
        }
        samples
    }

    /// Mark as acknowledged the sent packets that `ack` and `ack_bits`
    /// acknowledge; returns the send time stamps of those newly acknowledged.
    fn process_acks(&mut self, ack: u16, ack_bits: u32) -> (samples: Vec<u64>)
        requires
            old(self).wf(),
        ensures
            final(self).wf(),
            old(self).acknowledged(*final(self), ack, ack_bits, samples@),
    {
        let ghost sent0 = self.sent_packets@;
        let ghost acks0 = self.spec_acks();
        let ghost cap = self.spec_ack_capacity();
        let ghost counters0 = self.counters;
        let mut samples: Vec<u64> = Vec::new();
        let mut i: u32 = 0;
        while i < 32
            invariant
                i <= 32,
                self.wf(),
                self.config == old(self).config,
                self.time == old(self).time,
                self.sequence == old(self).sequence,
                self.ack_buf@.len() == cap,
                self.sent_packets.spec_sequence() == old(self).sent_packets.spec_sequence(),
                self.sent_packets@ == mark_acked(sent0, ack, ack_bits, i as nat),
                self.spec_acks() == append_bounded(acks0, cap, newly_acked(sent0, ack, ack_bits, i as nat)),
                acks0.len() <= cap,
                self.counters == (EndpointCounters {
                    packets_acked: wrapping_add_u64(
                        counters0.packets_acked,
                        newly_acked(sent0, ack, ack_bits, i as nat).len(),
                    ),
                    ..counters0
                }),
                samples@ == newly_acked(sent0, ack, ack_bits, i as nat).map_values(|s: u16| sent0[s].time),
                self.received_packets == old(self).received_packets,
                self.fragment_reassembly == old(self).fragment_reassembly,
                self.outgoing_queue == old(self).outgoing_queue,
                self.incoming_queue == old(self).incoming_queue,
            decreases 32 - i,
        {
            let s = ack.wrapping_sub(i as u16);
            assert(s == seq_add(ack, -(i as int)));
            proof {
                lemma_mask_bit(ack_bits, i);
                lemma_back_step(ack, s, i as int);
            }
            let ghost prev_list = newly_acked(sent0, ack, ack_bits, i as nat);
            let ghost prev_sent = self.sent_packets@;
            let ghost prev_acks = self.spec_acks();
            let mut newly = false;
            let mut time: u64 = 0;
            if (ack_bits & (1u32 << i)) != 0 {
                match self.sent_packets.find_mut(s) {
                    Some(d) => {
                        if !d.acked {
                            d.acked = true;
                            newly = true;
                            time = d.time;
                        }
                    },
                    None => {},
                }
            }
            let ghost list = newly_acked(sent0, ack, ack_bits, (i + 1) as nat);
            proof {
                assert(prev_sent.contains_key(s) ==> prev_sent[s] == sent0[s]) by {
                    if prev_sent.contains_key(s) {
                        assert(!acks_within(ack, ack_bits, s, i as nat));
                    }
                }
                assert(list == prev_list + if newly { seq![s] } else { Seq::<u16>::empty() });
            }
            if newly {
                if self.ack_count < self.ack_buf.len() {
                    self.ack_buf.set(self.ack_count, s);
                    self.ack_count = self.ack_count + 1;
                    assert(self.spec_acks() =~= prev_acks.push(s));
                    assert(acks0.len() + prev_list.len() < cap);
                    assert(append_bounded(acks0, cap, list) =~= prev_acks.push(s));
                } else {
                    assert(append_bounded(acks0, cap, list) =~= prev_acks);
                }
                self.counters.packets_acked = bump(self.counters.packets_acked);
                samples.push(time);
            }
            proof {
                assert forall|k: u16| #[trigger] self.sent_packets@.contains_key(k) implies self.sent_packets@[k]
                    == mark_acked(sent0, ack, ack_bits, (i + 1) as nat)[k] by {
                    lemma_back_step(ack, k, i as int);
                }
                assert(self.sent_packets@ =~= mark_acked(sent0, ack, ack_bits, (i + 1) as nat));
                assert(self.spec_acks() =~= append_bounded(acks0, cap, list));
                vstd::arithmetic::div_mod::lemma_add_mod_noop(
                    counters0.packets_acked + prev_list.len(),
                    1,
                    0x1_0000_0000_0000_0000,
                );
                assert(samples@ =~= list.map_values(|s: u16| sent0[s].time));
            }
            i = i + 1;
        }
        proof {
            assert(self.spec_acks() == append_bounded(acks0, cap, newly_acked(sent0, ack, ack_bits, 32)));
        }
        samples
    }

    /// Reset the endpoint to its initial state; the configuration, the time
    /// stamp and the preallocated buffers are kept.
    pub fn reset(&mut self)
        requires
            old(self).wf(),
        ensures
            final(self).wf(),
            final(self).is_fresh(),
            final(self).spec_config() == old(self).spec_config(),
            final(self).spec_time() == old(self).spec_time(),
            final(self).spec_ack_capacity() == old(self).spec_ack_capacity(),
    {
        self.sequence = 0;
        self.ack_count = 0;
        self.counters = EndpointCounters::default();
        self.sent_packets.reset();
        self.received_packets.reset();
        self.fragment_reassembly.reset();
        self.outgoing_queue.clear();
        self.incoming_queue.clear();
        assert(self.spec_acks() =~= Seq::<u16>::empty());
    }
}

/// Wire round trip of a whole-payload datagram: it reads as a regular
/// packet whose header decodes to the one it was sent under, followed by the
/// payload (as much of it as the slot held).
pub proof fn lemma_regular_datagram_roundtrip(h: PacketHeader, data: Seq<u8>, slot: nat)
    requires
        slot >= MAX_PACKET_HEADER_BYTES,
    ensures
        ({
            let d = regular_datagram(h, data, slot);
            let n = encode_header(h).len() as int;
            &&& !spec_is_fragment(d)
            &&& decode_header(d) == Some((h, n))
            &&& d.subrange(n, d.len() as int) == fit(data, (slot - n) as nat)
        }),
{
    let hdr = encode_header(h);
    lemma_encoded_header_len(h);
    let room = slot - hdr.len();
    let rest = data.subrange(0, if data.len() <= room { data.len() as int } else { room });
    lemma_header_roundtrip(h, rest);
    let d = regular_datagram(h, data, slot);
    assert(d == hdr + rest);
    assert(d.subrange(hdr.len() as int, d.len() as int) =~= rest);
    assert(fit(data, (slot - hdr.len()) as nat) =~= rest);
}

/// Wire round trip of a fragment datagram: it reads as a fragment whose
/// header decodes to its sequence number, fragment id and count; the first
/// fragment's packet header gives back the ack fields it was sent with; and
/// the bytes after the headers are the fragment's piece of the payload.
pub proof fn lemma_fragment_datagram_roundtrip(
    h: PacketHeader,
    data: Seq<u8>,
    fragment_size: nat,
    n: nat,
    i: int,
)
    requires
        0 <= i < n <= 255,
    ensures
        ({
            let d = fragment_datagram(h, data, fragment_size, n, i);
            let fh = FragmentHeader { sequence: h.sequence, fragment_id: i as u8, num_fragments: n as u8 };
            let parts = if i == 0 {
                (h.ack, h.ack_bits, FRAGMENT_HEADER_BYTES + encode_header(h).len())
            } else {
                (0u16, 0xFFFF_FFFFu32, FRAGMENT_HEADER_BYTES as int)
            };
            &&& spec_is_fragment(d)
            &&& decode_fragment_header(d) == Some((fh, FRAGMENT_HEADER_BYTES as int))
            &&& fragment_parts(d, fh) == Some(parts)
            &&& d.subrange(parts.2, d.len() as int) == fragment_piece(data, fragment_size, i)
        }),
{
    let fh = FragmentHeader { sequence: h.sequence, fragment_id: i as u8, num_fragments: n as u8 };
    let piece = fragment_piece(data, fragment_size, i);
    let front = encode_fragment_header(fh);
    let d = fragment_datagram(h, data, fragment_size, n, i);
    let k = FRAGMENT_HEADER_BYTES as int;
    assert((i as u8 == 0) == (i == 0));
    if i == 0 {
        let hdr = encode_header(h);
        lemma_header_roundtrip(h, piece);
        lemma_fragment_header_roundtrip(fh, hdr + piece);
        assert(d =~= front + (hdr + piece));
        assert(d.subrange(k, d.len() as int) =~= hdr + piece);
        assert(d.subrange(k + hdr.len(), d.len() as int) =~= piece);
    } else {
        lemma_fragment_header_roundtrip(fh, piece);
        assert(d =~= front + piece);
        assert(d.subrange(k, d.len() as int) =~= piece);
    }
    assert(flag(d[0], 1));
}

/// The ack bits that `ack_bits_upto` builds have bit `i` set exactly for the
/// present sequence numbers `ack - i`, `i < n`.
proof fn lemma_ack_bits_upto(m: Map<u16, ReceivedPacketData>, ack: u16, n: nat)
    requires
        n <= 32,
    ensures
        forall|i: u32|
            i < 32 ==> (#[trigger] bit_set(ack_bits_upto(m, ack, n), i) <==> (i < n && m.contains_key(
                seq_add(ack, -(i as int)),
            ))),
    decreases n,
{
    if n == 0 {
        assert forall|i: u32| i < 32 implies !#[trigger] bit_set(0u32, i) by {
            assert((0u32 >> i) & 1u32 == 0u32) by (bit_vector);
        }
    } else {
        lemma_ack_bits_upto(m, ack, (n - 1) as nat);
        let prev = ack_bits_upto(m, ack, (n - 1) as nat);
        if m.contains_key(seq_add(ack, -(n - 1))) {
            lemma_set_bit(prev, (n - 1) as u32);
        }
        assert forall|i: u32| i < 32 implies (#[trigger] bit_set(ack_bits_upto(m, ack, n), i) <==> (i
            < n && m.contains_key(seq_add(ack, -(i as int))))) by {
            assert(bit_set(prev, i) <==> (i < n - 1 && m.contains_key(seq_add(ack, -(i as int)))));
        }
    }
}

/// Acknowledgement: every packet that the peer has received and that lies
/// within 32 sequence numbers back from the newest it has received is marked
/// as acknowledged by the sender once the peer's next header reaches it.
pub proof fn lemma_peer_acknowledges(sender: Endpoint, peer: Endpoint, s: u16)
    requires
        peer.received()@.contains_key(s),
        seq_distance(peer.next_header().ack, s) < 32,
        sender.sent()@.contains_key(s),
    ensures
        ({
            let h = peer.next_header();
            let marked = mark_acked(sender.sent()@, h.ack, h.ack_bits, 32);
            &&& marked.contains_key(s)
            &&& marked[s].acked
            &&& marked[s].time == sender.sent()@[s].time
        }),
{
    let h = peer.next_header();
    let i = seq_distance(h.ack, s);
    lemma_ack_bits_upto(peer.received()@, h.ack, 32);
    lemma_back_step(h.ack, s, i);
    assert(bit_set(h.ack_bits, i as u32));
}

/// Duplicate detection: a regular datagram received a second time is
/// counted as stale and queues nothing; its payload is delivered once.
pub proof fn lemma_duplicate_dropped(
    e0: Endpoint,
    e1: Endpoint,
    e2: Endpoint,
    data: Seq<u8>,
    samples1: Seq<u64>,
    samples2: Seq<u64>,
)
    requires
        e0.wf(),
        e1.wf(),
        0 < data.len() <= e0.spec_config().max_packet_size + MAX_PACKET_HEADER_BYTES,
        !spec_is_fragment(data),
        decode_header(data) is Some,
        e0.receive_step(e1, data, samples1),
        e1.receive_step(e2, data, samples2),
    ensures
        e2.incoming()@ == e1.incoming()@,
        e2.received() == e1.received(),
        e2.sent() == e1.sent(),
        e2.spec_counters() == (EndpointCounters {
            packets_stale: wrapping_add_u64(e1.spec_counters().packets_stale, 1),
            ..e1.spec_counters()
        }),
        samples2 == Seq::<u64>::empty(),
{
    let (h, n) = decode_header(data)->0;
    if e0.received().spec_can_insert(h.sequence) && !e0.received()@.contains_key(h.sequence) {
        assert(e1.received()@ == e0.received().view_after_insert(h.sequence, ReceivedPacketData {
            time: e0.spec_time(),
            packet_bytes: (e0.spec_config().packet_header_size + data.len()) as u32,
        }));
        assert(e1.received()@.contains_key(h.sequence));
    } else {
        assert(e1.received() == e0.received());
    }
}

/// Delivery: a payload sent whole reaches the receiver's incoming queue
/// intact. When the datagram of `data` sent under header `h` (in a slot of
/// `slot` bytes that holds it whole) is received by an endpoint whose record
/// can take `h.sequence`, not yet received, the payload is queued as it was
/// sent (while the queue has room) and the packet is recorded as received.
pub proof fn lemma_regular_delivery(
    h: PacketHeader,
    data: Seq<u8>,
    slot: nat,
    receiver: Endpoint,
    next: Endpoint,
    samples: Seq<u64>,
)
    requires
        receiver.wf(),
        0 < data.len(),
        data.len() + MAX_PACKET_HEADER_BYTES <= slot,
        data.len() <= receiver.spec_config().max_packet_size,
        receiver.received().spec_can_insert(h.sequence),
        !receiver.received()@.contains_key(h.sequence),
        receiver.receive_step(next, regular_datagram(h, data, slot), samples),
    ensures
        next.incoming()@ == append_bounded(
            receiver.incoming()@,
            receiver.incoming().spec_capacity(),
            seq![(h.sequence, data)],
        ),
        next.received()@.contains_key(h.sequence),
{
    let d = regular_datagram(h, data, slot);
    let n = encode_header(h).len() as int;
    lemma_regular_datagram_roundtrip(h, data, slot);
    lemma_encoded_header_len(h);
    assert(fit(data, (slot - n) as nat) =~= data);
    assert(d.len() == n + data.len());
    assert(fit(d.subrange(n, d.len() as int), receiver.incoming().spec_slot_capacity()) =~= data);
    receiver.received().lemma_insert_then_find(
        h.sequence,
        ReceivedPacketData {
            time: receiver.spec_time(),
            packet_bytes: (receiver.spec_config().packet_header_size + d.len()) as u32,
        },
    );
}

/// Reassembly at the endpoint, in any order: for a payload `data` within the
/// receiver's maximum packet size, when the receiver's reassembly
/// holds, for sequence number `h.sequence`, only fragments of `data` (or
/// nothing, with the sequence number not too old), receiving any missing
/// fragment datagram `i` of `data` keeps that so, with fragment `i` added;
/// the fragment that completes the set queues exactly `data` (while the
/// queue has room) and ends its reassembly.
pub proof fn lemma_fragment_delivery(
    h: PacketHeader,
    data: Seq<u8>,
    i: int,
    receiver: Endpoint,
    next: Endpoint,
    samples: Seq<u64>,
)
    requires
        receiver.wf(),
        receiver.spec_config().fragment_size < 65536,
        data.len() > 0,
        data.len() <= receiver.spec_config().max_packet_size,
        ({
            let fs = receiver.spec_config().fragment_size as nat;
            let n = fragment_count(data.len(), fs);
            let ra = receiver.reassembly();
            &&& n <= receiver.spec_config().max_fragments
            &&& n <= 255
            &&& 0 <= i < n
            &&& ra@.contains_key(h.sequence) ==> {
                let p = ra@[h.sequence];
                &&& p.num_fragments == n
                &&& !p.fragments.contains_key(i)
                &&& forall|j: int| #[trigger]
                    p.fragments.contains_key(j) ==> p.fragments[j] == fragment_piece(data, fs, j)
            }
            &&& !ra@.contains_key(h.sequence) ==> ra.can_track(h.sequence)
            &&& fragment_datagram(h, data, fs, n, i).len() <= receiver.spec_config().max_packet_size
                + MAX_PACKET_HEADER_BYTES
            &&& receiver.receive_step(next, fragment_datagram(h, data, fs, n, i), samples)
        }),
    ensures
        ({
            let fs = receiver.spec_config().fragment_size as nat;
            let n = fragment_count(data.len(), fs);
            let before = receiver.reassembly()@;
            let held = if before.contains_key(h.sequence) {
                before[h.sequence].fragments.dom()
            } else {
                Set::<int>::empty()
            };
            if held.insert(i) == Set::new(|j: int| 0 <= j < n) {
                &&& next.incoming()@ == append_bounded(
                    receiver.incoming()@,
                    receiver.incoming().spec_capacity(),
                    seq![(h.sequence, data)],
                )
                &&& !next.reassembly()@.contains_key(h.sequence)
            } else {
                &&& next.incoming()@ == receiver.incoming()@
                &&& next.reassembly()@.contains_key(h.sequence)
                &&& next.reassembly()@[h.sequence].num_fragments == n
                &&& next.reassembly()@[h.sequence].fragments.dom() == held.insert(i)
                &&& forall|j: int| #[trigger]
                    next.reassembly()@[h.sequence].fragments.contains_key(j)
                        ==> next.reassembly()@[h.sequence].fragments[j] == fragment_piece(data, fs, j)
            }
        }),
{
    let fs = receiver.spec_config().fragment_size as nat;
    let n = fragment_count(data.len(), fs);
    let d = fragment_datagram(h, data, fs, n, i);
    let fh = FragmentHeader { sequence: h.sequence, fragment_id: i as u8, num_fragments: n as u8 };
    let ra = receiver.reassembly();
    lemma_fragment_datagram_roundtrip(h, data, fs, n, i);
    let parts = fragment_parts(d, fh)->0;
    let piece = fragment_piece(data, fs, i);
    assert(d.subrange(parts.2, d.len() as int) == piece);
    ra.lemma_reassembly_any_order(h.sequence, data, i, parts.0, parts.1);
    let p = ra.after_fragment(fh, piece, parts.0, parts.1)[h.sequence];
    let held = if ra@.contains_key(h.sequence) {
        ra@[h.sequence].fragments.dom()
    } else {
        Set::<int>::empty()
    };
    assert(p.fragments.dom() == held.insert(i));
    if held.insert(i) == Set::new(|j: int| 0 <= j < n) {
        assert forall|j: int| 0 <= j < p.num_fragments implies #[trigger] p.fragments.contains_key(j) by {
            assert(Set::new(|j: int| 0 <= j < n).contains(j));
        }
        assert(all_present(p));
    } else {
        if all_present(p) {
            assert(held.insert(i) =~= Set::new(|j: int| 0 <= j < n)) by {
                assert forall|j: int| held.insert(i).contains(j) implies 0 <= j < n by {
                    assert(p.fragments.contains_key(j));
                }
                assert forall|j: int| 0 <= j < n implies held.insert(i).contains(j) by {
                    assert(p.fragments.contains_key(j));
                }
            }
        }
        assert(!all_present(p));
        assert(ra.after_fragment(fh, piece, parts.0, parts.1).contains_key(h.sequence));
    }
}

/// A window of `n` positions acknowledges at most `n` packets.
proof fn lemma_newly_acked_len(sent: Map<u16, SentPacketData>, ack: u16, ack_bits: u32, n: nat)
    ensures
        newly_acked(sent, ack, ack_bits, n).len() <= n,
    decreases n,
{
    if n > 0 {
        lemma_newly_acked_len(sent, ack, ack_bits, (n - 1) as nat);
    }
}

/// One header's acknowledgements always fit: with the acknowledgement
/// buffer cleared, applying the acknowledgements of any `ack` and
/// `ack_bits` records every packet they newly acknowledge, none dropped.
pub proof fn lemma_one_batch_fits(
    e: Endpoint,
    next: Endpoint,
    ack: u16,
    ack_bits: u32,
    samples: Seq<u64>,
)
    requires
        e.wf(),
        e.spec_acks().len() == 0,
        e.acks_applied(next, ack, ack_bits, samples),
    ensures
        next.spec_acks() == e.newly(ack, ack_bits),
{
    lemma_newly_acked_len(e.sent()@, ack, ack_bits, 32);
    assert(e.spec_acks() + e.newly(ack, ack_bits) =~= e.newly(ack, ack_bits));
}

/// Marking leaves nothing in the window unacknowledged: the first `n`
/// window positions of a record marked by `ack` and `ack_bits` acknowledge
/// nothing new.
proof fn lemma_marked_window_empty(sent: Map<u16, SentPacketData>, ack: u16, ack_bits: u32, n: nat)
    requires
        n <= 32,
    ensures
        newly_acked(mark_acked(sent, ack, ack_bits, 32), ack, ack_bits, n) == Seq::<u16>::empty(),
    decreases n,
{
    if n > 0 {
        lemma_marked_window_empty(sent, ack, ack_bits, (n - 1) as nat);
        let s = seq_add(ack, -(n - 1));
        lemma_back_step(ack, s, n - 1);
    }
}

/// Acknowledgements are reported once: the packets that `ack` and
/// `ack_bits` newly acknowledge are sent, unacknowledged packets within the
/// 32-position window whose bits are set; after marking them, the same
/// `ack` and `ack_bits` acknowledge nothing new.
pub proof fn lemma_acks_reported_once(sent: Map<u16, SentPacketData>, ack: u16, ack_bits: u32)
    ensures
        forall|j: int|
            0 <= j < newly_acked(sent, ack, ack_bits, 32).len() ==> {
                let k = #[trigger] newly_acked(sent, ack, ack_bits, 32)[j];
                &&& sent.contains_key(k)
                &&& !sent[k].acked
                &&& acks_within(ack, ack_bits, k, 32)
                &&& mark_acked(sent, ack, ack_bits, 32)[k].acked
            },
        newly_acked(mark_acked(sent, ack, ack_bits, 32), ack, ack_bits, 32) == Seq::<u16>::empty(),
{
    lemma_newly_members(sent, ack, ack_bits, 32);
    lemma_marked_window_empty(sent, ack, ack_bits, 32);
}

/// Members of the newly acknowledged list are sent, unacknowledged and
/// acknowledged by `ack` and `ack_bits`.
proof fn lemma_newly_members(sent: Map<u16, SentPacketData>, ack: u16, ack_bits: u32, n: nat)
    requires
        n <= 32,
    ensures
        forall|j: int|
            0 <= j < newly_acked(sent, ack, ack_bits, n).len() ==> {
                let k = #[trigger] newly_acked(sent, ack, ack_bits, n)[j];
                &&& sent.contains_key(k)
                &&& !sent[k].acked
                &&& acks_within(ack, ack_bits, k, 32)
            },
    decreases n,
{
    if n > 0 {
        lemma_newly_members(sent, ack, ack_bits, (n - 1) as nat);
        let s = seq_add(ack, -(n - 1));
        lemma_back_step(ack, s, n - 1);
        let prev = newly_acked(sent, ack, ack_bits, (n - 1) as nat);
        assert forall|j: int| 0 <= j < newly_acked(sent, ack, ack_bits, n).len() implies {
            let k = #[trigger] newly_acked(sent, ack, ack_bits, n)[j];
            &&& sent.contains_key(k)
            &&& !sent[k].acked
            &&& acks_within(ack, ack_bits, k, 32)
        } by {
            if j < prev.len() {
                assert(newly_acked(sent, ack, ack_bits, n)[j] == prev[j]);
            }
        }
    }
}


/// Each sent, unacknowledged packet within the first `n` window positions
/// whose bit is set is among the newly acknowledged ones.
proof fn lemma_newly_complete(sent: Map<u16, SentPacketData>, ack: u16, ack_bits: u32, n: nat)
    requires
        n <= 32,
    ensures
        forall|k: u16|
            #![trigger sent[k]]
            sent.contains_key(k) && !sent[k].acked && seq_distance(ack, k) < n && bit_set(
                ack_bits,
                seq_distance(ack, k) as u32,
            ) ==> newly_acked(sent, ack, ack_bits, n).contains(k),
    decreases n,
{
    if n > 0 {
        lemma_newly_complete(sent, ack, ack_bits, (n - 1) as nat);
        let prev = newly_acked(sent, ack, ack_bits, (n - 1) as nat);
        let cur = newly_acked(sent, ack, ack_bits, n);
        assert forall|k: u16|
            #![trigger sent[k]]
            sent.contains_key(k) && !sent[k].acked && seq_distance(ack, k) < n && bit_set(
                ack_bits,
                seq_distance(ack, k) as u32,
            ) implies cur.contains(k) by {
            lemma_back_step(ack, k, n - 1);
            if seq_distance(ack, k) < n - 1 {
                let j = choose|j: int| 0 <= j < prev.len() && prev[j] == k;
                assert(cur[j] == k);
            } else {
                assert(cur[prev.len() as int] == k);
            }
        }
    }
}

/// Acknowledging marks exactly what the header acknowledges: once `ack`
/// and `ack_bits` are applied, the sent-packet record holds the same
/// sequence numbers with the same time stamps and sizes, and a packet is
/// acknowledged exactly when it already was, or it lies `i < 32` steps back
/// from `ack` with bit `i` of `ack_bits` set; a packet whose bit is clear
/// stays unacknowledged. Every packet that becomes acknowledged is reported
/// among the newly acknowledged ones.
pub proof fn lemma_ack_marks_exactly(
    e: Endpoint,
    next: Endpoint,
    ack: u16,
    ack_bits: u32,
    samples: Seq<u64>,
)
    requires
        e.acks_applied(next, ack, ack_bits, samples),
    ensures
        next.sent()@.dom() == e.sent()@.dom(),
        forall|k: u16|
            #[trigger] next.sent()@.contains_key(k) ==> {
                &&& next.sent()@[k].time == e.sent()@[k].time
                &&& next.sent()@[k].packet_bytes == e.sent()@[k].packet_bytes
                &&& next.sent()@[k].acked == (e.sent()@[k].acked || (seq_distance(ack, k) < 32
                    && bit_set(ack_bits, seq_distance(ack, k) as u32)))
            },
        forall|k: u16|
            #![trigger next.sent()@[k]]
            e.sent()@.contains_key(k) && !e.sent()@[k].acked && next.sent()@[k].acked ==> e.newly(
                ack,
                ack_bits,
            ).contains(k),
{
    assert(next.sent()@.dom() =~= e.sent()@.dom());
    lemma_newly_complete(e.sent()@, ack, ack_bits, 32);
}

/// Receiving a regular packet applies its header's acknowledgements
/// exactly: when `data` decodes to header `h` and the packet is new to the
/// received-packet record, each sent packet ends acknowledged exactly when
/// it already was, or it lies `i < 32` steps back from `h.ack` with bit `i`
/// of `h.ack_bits` set.
pub proof fn lemma_receive_marks_acks(
    e: Endpoint,
    next: Endpoint,
    data: Seq<u8>,
    samples: Seq<u64>,
    h: PacketHeader,
    n: int,
)
    requires
        e.receive_step(next, data, samples),
        0 < data.len() <= e.spec_config().max_packet_size + MAX_PACKET_HEADER_BYTES,
        !spec_is_fragment(data),
        decode_header(data) == Some((h, n)),
        e.received().spec_can_insert(h.sequence),
        !e.received()@.contains_key(h.sequence),
    ensures
        next.sent()@.dom() == e.sent()@.dom(),
        forall|k: u16|
            #[trigger] next.sent()@.contains_key(k) ==> next.sent()@[k].acked == (e.sent()@[k].acked
                || (seq_distance(h.ack, k) < 32 && bit_set(h.ack_bits, seq_distance(h.ack, k) as u32))),
{
    lemma_ack_marks_exactly(e, next, h.ack, h.ack_bits, samples);
}

/// A fragmented packet that is delivered is recorded as received: when
/// receiving the fragment datagram `data` of packet `fh.sequence` completes
/// the packet and queues its payload, and the received-packet record can
/// take that sequence number, the record then holds it, with the current
/// time stamp and the payload's size on the wire; the next header sent
/// acknowledges it.
pub proof fn lemma_fragment_delivery_recorded(
    e: Endpoint,
    next: Endpoint,
    data: Seq<u8>,
    samples: Seq<u64>,
    fh: FragmentHeader,
    k: int,
)
    requires
        e.wf(),
        e.receive_step(next, data, samples),
        0 < data.len() <= e.spec_config().max_packet_size + MAX_PACKET_HEADER_BYTES,
        spec_is_fragment(data),
        decode_fragment_header(data) == Some((fh, k)),
        next.incoming()@.len() > e.incoming()@.len(),
        e.received().spec_can_insert(fh.sequence),
    ensures
        next.spec_counters().packets_received == wrapping_add_u64(
            e.spec_counters().packets_received,
            1,
        ),
        next.incoming()@.last().0 == fh.sequence,
        next.received()@.contains_key(fh.sequence),
        next.received()@[fh.sequence] == (ReceivedPacketData {
            time: e.spec_time(),
            packet_bytes: (e.spec_config().packet_header_size + next.incoming()@.last().1.len()) as u32,
        }),
{
    e.lemma_sized();
    let items = e.incoming()@;
    let cap = e.incoming().spec_capacity();
    match fragment_parts(data, fh) {
        None => {},
        Some((ack, ack_bits, start)) => {
            let payload = data.subrange(start, data.len() as int);
            let completed = e.reassembly().completed_payload(fh, payload, ack, ack_bits);
            if e.reassembly().accepts(fh) {
                match completed {
                    None => {},
                    Some(p) => {
                        if p.len() <= e.spec_config().max_packet_size {
                            if items.len() + 1 <= cap {
                                assert(next.incoming()@ == items + seq![(fh.sequence, p)]);
                                e.received().lemma_insert_then_find(
                                    fh.sequence,
                                    ReceivedPacketData {
                                        time: e.spec_time(),
                                        packet_bytes: (e.spec_config().packet_header_size
                                            + p.len()) as u32,
                                    },
                                );
                            } else {
                                assert(seq![(fh.sequence, p)].subrange(0, cap - items.len())
                                    =~= Seq::<(u16, Seq<u8>)>::empty());
                                assert(next.incoming()@ =~= items);
                            }
                        }
                    },
                }
            }
        },
    }
}

/// Every packet that sending accepts is recorded as sent: when `data` is
/// within the maximum packet size and the sent-packet record can take the
/// next sequence number, the record then holds that sequence number,
/// unacknowledged, with the current time stamp and the packet's size on the
/// wire, whether the payload goes out whole or in fragments; the next
/// sequence number then follows it.
pub proof fn lemma_send_recorded(e: Endpoint, next: Endpoint, data: Seq<u8>)
    requires
        e.send_step(next, data),
        data.len() <= e.spec_config().max_packet_size,
        e.sent().spec_can_insert(e.spec_sequence()),
    ensures
        next.spec_sequence() == seq_add(e.spec_sequence(), 1),
        next.spec_counters().packets_sent == wrapping_add_u64(e.spec_counters().packets_sent, 1),
        next.sent()@.contains_key(e.spec_sequence()),
        next.sent()@[e.spec_sequence()] == (SentPacketData {
            time: e.spec_time(),
            acked: false,
            packet_bytes: (e.spec_config().packet_header_size + data.len()) as u32,
        }),
{
    e.sent().lemma_insert_then_find(
        e.spec_sequence(),
        SentPacketData {
            time: e.spec_time(),
            acked: false,
            packet_bytes: (e.spec_config().packet_header_size + data.len()) as u32,
        },
    );
}


/// Taking `x` steps and then `y` steps is taking `x + y` steps.
proof fn lemma_seq_add_add(a: u16, x: int, y: int)
    ensures
        seq_add(seq_add(a, x), y) == seq_add(a, x + y),
{
    let m = 65536int;
    vstd::arithmetic::div_mod::lemma_add_mod_noop(a + x, y, m);
    vstd::arithmetic::div_mod::lemma_add_mod_noop((a + x) % m, y, m);
    vstd::arithmetic::div_mod::lemma_mod_twice(a + x, m);
}

/// Steps are counted modulo 65536.
proof fn lemma_seq_add_wrap(a: u16, x: int, q: int)
    ensures
        seq_add(a, x + 65536 * q) == seq_add(a, x),
{
    vstd::arithmetic::div_mod::lemma_mod_multiples_vanish(q, a + x, 65536);
    assert(a + (x + 65536 * q) == 65536 * q + (a + x));
}

/// The `j`-th sequence number of the older half of a sent-packet record of
/// `size` slots whose next expected sequence number is `next`: the half
/// starts `size - 1` before the newest recorded sequence number.
pub open spec fn older_half_position(next: u16, size: nat, j: int) -> u16 {
    seq_add(next, j + 1 - size)
}

/// No packet counted among `n` positions from `base` on is unacknowledged
/// exactly when every packet recorded there is acknowledged.
proof fn lemma_unacked_count_zero(m: Map<u16, SentPacketData>, base: u16, n: nat)
    ensures
        unacked_count(m, base, n) == 0 <==> forall|j: int|
            0 <= j < n ==> (m.contains_key(#[trigger] seq_add(base, j)) ==> m[seq_add(base, j)].acked),
        unacked_count(m, base, n) <= n,
    decreases n,
{
    if n > 0 {
        lemma_unacked_count_zero(m, base, (n - 1) as nat);
    }
}

/// The packet-loss sample covers the older half of the sent-packet record:
/// with `size` the record's size, its window is the `size / 2` sequence
/// numbers that start `size - 1` before the newest recorded one, and the
/// count of unacknowledged packets in it is 0 exactly when every packet
/// recorded there is acknowledged, whatever the state of newer packets.
pub proof fn lemma_loss_window(e: Endpoint)
    requires
        e.wf(),
    ensures
        ({
            let size = e.spec_config().sent_packets_buffer_size as nat;
            let n = size / 2;
            let m = e.sent()@;
            let next = e.sent().spec_sequence();
            &&& forall|j: int| 0 <= j < n ==> seq_add(e.loss_window_base(), j) == #[trigger] older_half_position(next, size, j)
            &&& unacked_count(m, e.loss_window_base(), n) <= n
            &&& unacked_count(m, e.loss_window_base(), n) == 0 <==> forall|j: int|
                0 <= j < n ==> (m.contains_key(#[trigger] older_half_position(next, size, j))
                    ==> m[older_half_position(next, size, j)].acked)
        }),
{
    let size = e.spec_config().sent_packets_buffer_size;
    let n = (size / 2) as nat;
    let m = e.sent()@;
    let next = e.sent().spec_sequence();
    let base = e.loss_window_base();
    lemma_truncate_u16(size);
    vstd::arithmetic::div_mod::lemma_fundamental_div_mod(size as int, 65536);
    let q = (size as int) / 65536;
    assert forall|j: int| 0 <= j < n implies seq_add(base, j) == #[trigger] older_half_position(next, size as nat, j) by {
        let r = (size as u16) as int;
        lemma_seq_add_add(next, -r, 1);
        lemma_seq_add_add(next, -r + 1, j);
        lemma_seq_add_wrap(next, j + 1 - size, q);
        assert(j + 1 - size + 65536 * q == -r + 1 + j);
    }
    lemma_unacked_count_zero(m, base, n);
    if unacked_count(m, base, n) == 0 {
        assert forall|j: int| 0 <= j < n implies (m.contains_key(#[trigger] older_half_position(next, size as nat, j))
            ==> m[older_half_position(next, size as nat, j)].acked) by {
            assert(seq_add(base, j) == older_half_position(next, size as nat, j));
        }
    } else {
        let w = choose|j: int| 0 <= j < n && !(m.contains_key(#[trigger] seq_add(base, j)) ==> m[seq_add(base, j)].acked);
        assert(seq_add(base, w) == older_half_position(next, size as nat, w));
    }
}

/// The total bytes of a traffic summary; 0 when there is none.
pub open spec fn traffic_bytes(t: Option<(nat, u64, u64)>) -> nat {
    match t {
        None => 0,
        Some((b, _, _)) => b,
    }
}

/// One more sample adds its size to the byte total.
pub proof fn lemma_traffic_append(s: Seq<(u64, u32)>, x: (u64, u32))
    ensures
        traffic_bytes(traffic(s + seq![x])) == traffic_bytes(traffic(s)) + x.1,
        traffic(s + seq![x]) is Some,
{
    assert((s + seq![x]).drop_last() =~= s);
    assert((s + seq![x]).last() == x);
}

/// The sent bandwidth sample counts every recorded packet, acknowledged or
/// not: two records that hold the same sequence numbers with the same time
/// stamps and sizes give the same samples of all packets, whatever their
/// acknowledged flags.
pub proof fn lemma_sent_samples_ignore_acks(
    m1: Map<u16, SentPacketData>,
    m2: Map<u16, SentPacketData>,
    base: u16,
    n: nat,
)
    requires
        m1.dom() == m2.dom(),
        forall|k: u16|
            #[trigger] m1.contains_key(k) ==> m1[k].time == m2[k].time && m1[k].packet_bytes
                == m2[k].packet_bytes,
    ensures
        sent_samples(m1, base, n, false) == sent_samples(m2, base, n, false),
    decreases n,
{
    if n > 0 {
        lemma_sent_samples_ignore_acks(m1, m2, base, (n - 1) as nat);
        let k = seq_add(base, n - 1);
        assert(m1.contains_key(k) == m2.contains_key(k));
    }
}

/// The sample of all sent packets in a window is empty exactly when the
/// window holds no recorded packet, and its byte total is at least that of
/// the acknowledged packets alone.
pub proof fn lemma_sent_traffic_all(m: Map<u16, SentPacketData>, base: u16, n: nat)
    ensures
        traffic(sent_samples(m, base, n, false)) is None <==> forall|j: int|
            0 <= j < n ==> !m.contains_key(#[trigger] seq_add(base, j)),
        traffic_bytes(traffic(sent_samples(m, base, n, true))) <= traffic_bytes(
            traffic(sent_samples(m, base, n, false)),
        ),
    decreases n,
{
    lemma_traffic_bound(sent_samples(m, base, n, false));
    if n > 0 {
        let p = (n - 1) as nat;
        lemma_sent_traffic_all(m, base, p);
        lemma_traffic_bound(sent_samples(m, base, p, false));
        let k = seq_add(base, p as int);
        let a = sent_samples(m, base, p, false);
        let b = sent_samples(m, base, p, true);
        if m.contains_key(k) {
            let x = (m[k].time, m[k].packet_bytes);
            lemma_traffic_append(a, x);
            if m[k].acked {
                lemma_traffic_append(b, x);
            } else {
                assert(sent_samples(m, base, n, true) =~= b);
            }
        } else {
            assert(sent_samples(m, base, n, false) =~= a);
            assert(sent_samples(m, base, n, true) =~= b);
        }
    }
}

/// The bandwidth window of a record of `size` slots whose next expected
/// sequence number is `next` is the `size` sequence numbers that end just
/// before `next`: its `j`-th position is `size - j` steps back from `next`,
/// so its last one is the newest recorded sequence number.
pub proof fn lemma_bandwidth_window(next: u16, size: usize, j: int)
    requires
        0 <= j < size,
    ensures
        seq_add(Endpoint::window_base(next, size), j) == seq_add(next, j - size),
{
    lemma_truncate_u16(size);
    vstd::arithmetic::div_mod::lemma_fundamental_div_mod(size as int, 65536);
    let q = (size as int) / 65536;
    let r = (size as u16) as int;
    lemma_seq_add_add(next, -r, j);
    lemma_seq_add_wrap(next, j - size, q);
    assert(j - size + 65536 * q == -r + j);
}

/// The time span of a traffic summary is that of its samples: every
/// sample's time stamp lies between the earliest and the latest, and both
/// are time stamps of samples.
pub proof fn lemma_traffic_span(s: Seq<(u64, u32)>)
    ensures
        traffic(s) matches Some((b, lo, hi)) ==> {
            &&& forall|i: int| 0 <= i < s.len() ==> lo <= (#[trigger] s[i]).0 <= hi
            &&& exists|i: int| 0 <= i < s.len() && (#[trigger] s[i]).0 == lo
            &&& exists|i: int| 0 <= i < s.len() && (#[trigger] s[i]).0 == hi
        },
    decreases s.len(),
{
    if s.len() > 0 {
        let p = s.drop_last();
        lemma_traffic_span(p);
        let last = s.len() - 1;
        assert forall|i: int| 0 <= i < last implies #[trigger] s[i] == p[i] by {}
        match traffic(p) {
            None => {
                lemma_traffic_bound(p);
                assert(s[last].0 == s.last().0);
            },
            Some((b, lo, hi)) => {
                let (b2, lo2, hi2) = traffic(s)->0;
                assert forall|i: int| 0 <= i < s.len() implies lo2 <= (#[trigger] s[i]).0 <= hi2 by {
                    if i < last {
                        assert(s[i] == p[i]);
                    }
                }
                if s.last().0 < lo {
                    assert(s[last].0 == lo2);
                } else {
                    let w = choose|i: int| 0 <= i < p.len() && (#[trigger] p[i]).0 == lo;
                    assert(s[w] == p[w]);
                }
                if s.last().0 > hi {
                    assert(s[last].0 == hi2);
                } else {
                    let w = choose|i: int| 0 <= i < p.len() && (#[trigger] p[i]).0 == hi;
                    assert(s[w] == p[w]);
                }
            },
        }
    }
}

} // verus!
