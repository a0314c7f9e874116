//! Packet header wire format: a variable-length (4 to 9 byte) encoding of
//! the sequence number, the ack and the 32-bit ack bitfield.
//!
//! ```text
//! Byte 0:    prefix  (bit0=0 regular, bit1-4 ack_bits byte presence, bit5 ack encoding)
//! Bytes 1-2: sequence (LE u16)
//! Byte  3:   sequence - ack (u8, when bit5=1)  OR
//! Bytes 3-4: ack      (LE u16, when bit5=0)
//! Bytes n..: the ack_bits bytes that are not 0xFF (0-4 bytes, LE order)
//! ```
use crate::utils::seq_distance;
use vstd::prelude::*;

verus! {

/// Maximum size of a packet header in bytes
pub const MAX_PACKET_HEADER_BYTES: usize = 9;

/// Packet header structure
#[derive(Debug, Clone, Copy, PartialEq, Eq, Structural)]
pub struct PacketHeader {
    /// Sequence number of this packet
    pub sequence: u16,
    /// ACK sequence number
    pub ack: u16,
    /// ACK bits (bitfield of 32 previous sequences)
    pub ack_bits: u32,
}

/// Low byte of a 16-bit value (little-endian byte 0).
pub open spec fn lo_byte(x: u16) -> u8 {
    (x & 0xff) as u8
}

/// High byte of a 16-bit value (little-endian byte 1).
pub open spec fn hi_byte(x: u16) -> u8 {
    (x >> 8) as u8
}

/// Little-endian 16-bit value of two bytes.
pub open spec fn le_u16(lo: u8, hi: u8) -> u16 {
    ((lo as u16) | ((hi as u16) << 8)) as u16
}

/// Byte `i` (0..4, little-endian) of the ack bitfield.
pub open spec fn ack_byte(bits: u32, i: int) -> u8 {
    if i == 0 {
        (bits & 0xff) as u8
    } else if i == 1 {
        ((bits >> 8) & 0xff) as u8
    } else if i == 2 {
        ((bits >> 16) & 0xff) as u8
    } else {
        ((bits >> 24) & 0xff) as u8
    }
}

/// Byte `i` of the ack bitfield goes on the wire only when it is not 0xFF.
pub open spec fn ack_byte_present(bits: u32, i: int) -> bool {
    ack_byte(bits, i) != 0xff
}

/// The ack is sent as a one-byte distance back from the sequence number when
/// that distance fits in a byte.
pub open spec fn ack_fits_in_byte(h: PacketHeader) -> bool {
    seq_distance(h.sequence, h.ack) <= 255
}

/// Bit `mask` of `p` is set.
pub open spec fn flag(p: u8, mask: u8) -> bool {
    p & mask != 0
}

/// The prefix byte of the encoding of `h`.
pub open spec fn prefix_byte(h: PacketHeader) -> u8 {
    prefix_from_flags(
        ack_byte_present(h.ack_bits, 0),
        ack_byte_present(h.ack_bits, 1),
        ack_byte_present(h.ack_bits, 2),
        ack_byte_present(h.ack_bits, 3),
        ack_fits_in_byte(h),
    )
}

/// Prefix byte with bits 1-4 set for the present ack bytes and bit 5 for the
/// one-byte ack encoding.
pub open spec fn prefix_from_flags(p0: bool, p1: bool, p2: bool, p3: bool, small: bool) -> u8 {
    (if p0 { 2u8 } else { 0u8 }) | (if p1 { 4u8 } else { 0u8 }) | (if p2 { 8u8 } else { 0u8 }) | (
    if p3 {
        16u8
    } else {
        0u8
    }) | (if small { 32u8 } else { 0u8 })
}

/// The byte of the ack bitfield as it appears on the wire (absent when 0xFF).
pub open spec fn optional_ack_byte(bits: u32, i: int) -> Seq<u8> {
    if ack_byte_present(bits, i) {
        seq![ack_byte(bits, i)]
    } else {
        seq![]
    }
}

/// The ack field on the wire: one byte of distance, or the full ack.
pub open spec fn ack_field(h: PacketHeader) -> Seq<u8> {
    if ack_fits_in_byte(h) {
        seq![seq_distance(h.sequence, h.ack) as u8]
    } else {
        seq![lo_byte(h.ack), hi_byte(h.ack)]
    }
}

/// The fixed part of the encoding: prefix byte, sequence and ack field.
pub open spec fn header_fixed_part(h: PacketHeader) -> Seq<u8> {
    seq![prefix_byte(h), lo_byte(h.sequence), hi_byte(h.sequence)] + ack_field(h)
}

/// The bytes of the ack bitfield that go on the wire, in little-endian order.
pub open spec fn ack_bits_field(bits: u32) -> Seq<u8> {
    optional_ack_byte(bits, 0) + (optional_ack_byte(bits, 1) + (optional_ack_byte(bits, 2)
        + optional_ack_byte(bits, 3)))
}

/// The wire encoding of a packet header.
pub open spec fn encode_header(h: PacketHeader) -> Seq<u8> {
    header_fixed_part(h) + ack_bits_field(h.ack_bits)
}

/// 1 when `b` holds, else 0.
pub open spec fn count(b: bool) -> int {
    if b {
        1
    } else {
        0
    }
}

/// Number of bytes a header with prefix byte `p` occupies on the wire.
pub open spec fn header_len_for_prefix(p: u8) -> int {
    3 + (if flag(p, 32) { 1int } else { 2int }) + count(flag(p, 2)) + count(flag(p, 4)) + count(
        flag(p, 8),
    ) + count(flag(p, 16))
}

/// The ack bitfield rebuilt from four bytes.
pub open spec fn ack_bits_from_bytes(b0: u8, b1: u8, b2: u8, b3: u8) -> u32 {
    (b0 as u32) | ((b1 as u32) << 8) | ((b2 as u32) << 16) | ((b3 as u32) << 24)
}

/// The ack bitfield read from `d`, which starts with the ack bitfield bytes
/// that the prefix byte `p` marks present; absent bytes are 0xFF.
pub open spec fn read_ack_bits(p: u8, d: Seq<u8>) -> u32 {
    let b0 = if flag(p, 2) { d[0] } else { 0xffu8 };
    let d1 = d.skip(count(flag(p, 2)));
    let b1 = if flag(p, 4) { d1[0] } else { 0xffu8 };
    let d2 = d1.skip(count(flag(p, 4)));
    let b2 = if flag(p, 8) { d2[0] } else { 0xffu8 };
    let d3 = d2.skip(count(flag(p, 8)));
    let b3 = if flag(p, 16) { d3[0] } else { 0xffu8 };
    ack_bits_from_bytes(b0, b1, b2, b3)
}

/// The header decoded from the front of `data`, with the number of bytes it
/// occupies; `None` when `data` is shorter than the header its prefix
/// announces, or the prefix marks a fragment.
pub open spec fn decode_header(data: Seq<u8>) -> Option<(PacketHeader, int)> {
    if data.len() < 3 || flag(data[0], 1) {
        None
    } else {
        let p = data[0];
        let n = header_len_for_prefix(p);
        if data.len() < n {
            None
        } else {
            let sequence = le_u16(data[1], data[2]);
            let small = flag(p, 32);
            let ack = if small {
                ((sequence - data[3]) % 65536) as u16
            } else {
                le_u16(data[3], data[4])
            };
            let q0 = if small { 4int } else { 5int };
            Some(
                (
                    PacketHeader { sequence, ack, ack_bits: read_ack_bits(p, data.skip(q0)) },
                    n,
                ),
            )
        }
    }
}

/// A datagram whose first byte has bit 0 set is a fragment.
pub open spec fn spec_is_fragment(data: Seq<u8>) -> bool {
    data.len() > 0 && flag(data[0], 1)
}

proof fn lemma_ack_byte_present_mask(bits: u32)
    ensures
        ((bits & 0x000000FF) != 0x000000FF) == ack_byte_present(bits, 0),
        ((bits & 0x0000FF00) != 0x0000FF00) == ack_byte_present(bits, 1),
        ((bits & 0x00FF0000) != 0x00FF0000) == ack_byte_present(bits, 2),
        ((bits & 0xFF000000) != 0xFF000000) == ack_byte_present(bits, 3),
{
    assert(((bits & 0x000000FF) != 0x000000FF) == ((bits & 0xff) as u8 != 0xff)) by (bit_vector);
    assert(((bits & 0x0000FF00) != 0x0000FF00) == (((bits >> 8) & 0xff) as u8 != 0xff))
        by (bit_vector);
    assert(((bits & 0x00FF0000) != 0x00FF0000) == (((bits >> 16) & 0xff) as u8 != 0xff))
        by (bit_vector);
    assert(((bits & 0xFF000000) != 0xFF000000) == (((bits >> 24) & 0xff) as u8 != 0xff))
        by (bit_vector);
}

proof fn lemma_prefix_flags(p0: bool, p1: bool, p2: bool, p3: bool, small: bool)
    ensures
        flag(prefix_from_flags(p0, p1, p2, p3, small), 1) == false,
        flag(prefix_from_flags(p0, p1, p2, p3, small), 2) == p0,
        flag(prefix_from_flags(p0, p1, p2, p3, small), 4) == p1,
        flag(prefix_from_flags(p0, p1, p2, p3, small), 8) == p2,
        flag(prefix_from_flags(p0, p1, p2, p3, small), 16) == p3,
        flag(prefix_from_flags(p0, p1, p2, p3, small), 32) == small,
{
    let p = prefix_from_flags(p0, p1, p2, p3, small);
    assert(p == (if p0 { 2u8 } else { 0u8 }) | (if p1 { 4u8 } else { 0u8 }) | (if p2 {
        8u8
    } else {
        0u8
    }) | (if p3 { 16u8 } else { 0u8 }) | (if small { 32u8 } else { 0u8 }));
    assert(p & 1 == 0 && (p & 2 != 0) == p0 && (p & 4 != 0) == p1 && (p & 8 != 0) == p2 && (p & 16
        != 0) == p3 && (p & 32 != 0) == small) by (bit_vector)
        requires
            p == (if p0 { 2u8 } else { 0u8 }) | (if p1 { 4u8 } else { 0u8 }) | (if p2 {
                8u8
            } else {
                0u8
            }) | (if p3 { 16u8 } else { 0u8 }) | (if small { 32u8 } else { 0u8 }),
    ;
}

proof fn lemma_ack_bits_from_own_bytes(bits: u32)
    ensures
        ack_bits_from_bytes(
            ack_byte(bits, 0),
            ack_byte(bits, 1),
            ack_byte(bits, 2),
            ack_byte(bits, 3),
        ) == bits,
{
    assert(((bits & 0xff) as u8 as u32) | ((((bits >> 8) & 0xff) as u8 as u32) << 8) | ((((bits
        >> 16) & 0xff) as u8 as u32) << 16) | ((((bits >> 24) & 0xff) as u8 as u32) << 24) == bits)
        by (bit_vector);
}

proof fn lemma_le_u16_of_bytes(x: u16)
    ensures
        le_u16(lo_byte(x), hi_byte(x)) == x,
{
    assert(((((x & 0xff) as u8) as u16) | ((((x >> 8) as u8) as u16) << 8)) as u16 == x)
        by (bit_vector);
}

/// The encoding of a header is between 4 and [`MAX_PACKET_HEADER_BYTES`]
/// bytes long: three fixed bytes, one or two for the ack, and one for each
/// byte of the ack bitfield that is not 0xFF.
pub proof fn lemma_encoded_header_len(h: PacketHeader)
    ensures
        encode_header(h).len() == 3 + (if ack_fits_in_byte(h) { 1int } else { 2int }) + count(
            ack_byte_present(h.ack_bits, 0),
        ) + count(ack_byte_present(h.ack_bits, 1)) + count(ack_byte_present(h.ack_bits, 2))
            + count(ack_byte_present(h.ack_bits, 3)),
        4 <= encode_header(h).len() <= MAX_PACKET_HEADER_BYTES,
        encode_header(h).len() == header_len_for_prefix(prefix_byte(h)),
{
    lemma_prefix_flags(
        ack_byte_present(h.ack_bits, 0),
        ack_byte_present(h.ack_bits, 1),
        ack_byte_present(h.ack_bits, 2),
        ack_byte_present(h.ack_bits, 3),
        ack_fits_in_byte(h),
    );
}

proof fn lemma_read_ack_bits_of_encoding(p: u8, bits: u32, rest: Seq<u8>)
    requires
        flag(p, 2) == ack_byte_present(bits, 0),
        flag(p, 4) == ack_byte_present(bits, 1),
        flag(p, 8) == ack_byte_present(bits, 2),
        flag(p, 16) == ack_byte_present(bits, 3),
    ensures
        read_ack_bits(p, ack_bits_field(bits) + rest) == bits,
{
    let o0 = optional_ack_byte(bits, 0);
    let o1 = optional_ack_byte(bits, 1);
    let o2 = optional_ack_byte(bits, 2);
    let o3 = optional_ack_byte(bits, 3);
    let d = ack_bits_field(bits) + rest;
    assert(d =~= o0 + (o1 + (o2 + (o3 + rest))));
    let d1 = d.skip(count(flag(p, 2)));
    assert(d1 =~= o1 + (o2 + (o3 + rest)));
    let d2 = d1.skip(count(flag(p, 4)));
    assert(d2 =~= o2 + (o3 + rest));
    let d3 = d2.skip(count(flag(p, 8)));
    assert(d3 =~= o3 + rest);
    lemma_ack_bits_from_own_bytes(bits);
}

/// Round trip: decoding the encoding of any header, followed by any bytes,
/// gives back that header and the length of its encoding; and the encoding
/// never reads as a fragment.
pub proof fn lemma_header_roundtrip(h: PacketHeader, rest: Seq<u8>)
    ensures
        decode_header(encode_header(h) + rest) == Some((h, encode_header(h).len() as int)),
        !spec_is_fragment(encode_header(h) + rest),
{
    let bits = h.ack_bits;
    let p = prefix_byte(h);
    let small = ack_fits_in_byte(h);
    lemma_prefix_flags(
        ack_byte_present(bits, 0),
        ack_byte_present(bits, 1),
        ack_byte_present(bits, 2),
        ack_byte_present(bits, 3),
        small,
    );
    lemma_le_u16_of_bytes(h.sequence);
    lemma_le_u16_of_bytes(h.ack);
    let s0 = header_fixed_part(h);
    let e = encode_header(h);
    let data = e + rest;
    let q0 = if small { 4int } else { 5int };
    assert(s0.len() == q0);
    assert(data.skip(q0) =~= ack_bits_field(bits) + rest);
    lemma_read_ack_bits_of_encoding(p, bits, rest);
    assert(data[0] == p);
    assert(data[1] == lo_byte(h.sequence));
    assert(data[2] == hi_byte(h.sequence));
    if small {
        assert(data[3] == seq_distance(h.sequence, h.ack) as u8);
    } else {
        assert(data[3] == lo_byte(h.ack));
        assert(data[4] == hi_byte(h.ack));
    }
    assert(e.len() == header_len_for_prefix(p));
}

proof fn lemma_splice_after_prefix(prev: Seq<u8>, w: Seq<u8>, orig: Seq<u8>, o: Seq<u8>)
    requires
        prev == w + orig.subrange(w.len() as int, orig.len() as int),
        w.len() + o.len() <= orig.len(),
    ensures
        prev.subrange(0, w.len() as int) + o + prev.subrange(
            (w.len() + o.len()) as int,
            prev.len() as int,
        ) == (w + o) + orig.subrange((w.len() + o.len()) as int, orig.len() as int),
        prev.len() == orig.len(),
{
    assert(prev.subrange(0, w.len() as int) + o + prev.subrange((w.len() + o.len()) as int, prev.len() as int)
        =~= (w + o) + orig.subrange((w.len() + o.len()) as int, orig.len() as int));
}

/// Append byte `k` of the ack bitfield unless it is 0xFF.
fn push_optional_ack_byte(buffer: &mut Vec<u8>, bits: u32, k: u32)
    requires
        k < 4,
    ensures
        final(buffer)@ == old(buffer)@ + optional_ack_byte(bits, k as int),
{
    proof {
        lemma_ack_byte_present_mask(bits);
    }
    if k == 0 {
        if (bits & 0x000000FF) != 0x000000FF {
            buffer.push((bits & 0xFF) as u8);
        }
    } else if k == 1 {
        if (bits & 0x0000FF00) != 0x0000FF00 {
            buffer.push(((bits >> 8) & 0xFF) as u8);
        }
    } else if k == 2 {
        if (bits & 0x00FF0000) != 0x00FF0000 {
            buffer.push(((bits >> 16) & 0xFF) as u8);
        }
    } else {
        if (bits & 0xFF000000) != 0xFF000000 {
            buffer.push(((bits >> 24) & 0xFF) as u8);
        }
    }
    assert(final(buffer)@ =~= old(buffer)@ + optional_ack_byte(bits, k as int));
}

/// Store byte `k` of the ack bitfield at `pos` unless it is 0xFF; returns
/// the position after it.
fn set_optional_ack_byte(buffer: &mut [u8], pos: usize, bits: u32, k: u32) -> (new_pos: usize)
    requires
        k < 4,
        pos < old(buffer)@.len(),
    ensures
        new_pos == pos + optional_ack_byte(bits, k as int).len(),
        final(buffer)@ == old(buffer)@.subrange(0, pos as int) + optional_ack_byte(bits, k as int)
            + old(buffer)@.subrange(new_pos as int, old(buffer)@.len() as int),
{
    proof {
        lemma_ack_byte_present_mask(bits);
    }
    let mut new_pos = pos;
    if k == 0 {
        if (bits & 0x000000FF) != 0x000000FF {
            buffer[pos] = (bits & 0xFF) as u8;
            new_pos = pos + 1;
        }
    } else if k == 1 {
        if (bits & 0x0000FF00) != 0x0000FF00 {
            buffer[pos] = ((bits >> 8) & 0xFF) as u8;
            new_pos = pos + 1;
        }
    } else if k == 2 {
        if (bits & 0x00FF0000) != 0x00FF0000 {
            buffer[pos] = ((bits >> 16) & 0xFF) as u8;
            new_pos = pos + 1;
        }
    } else {
        if (bits & 0xFF000000) != 0xFF000000 {
            buffer[pos] = ((bits >> 24) & 0xFF) as u8;
            new_pos = pos + 1;
        }
    }
    assert(final(buffer)@ =~= old(buffer)@.subrange(0, pos as int) + optional_ack_byte(
        bits,
        k as int,
    ) + old(buffer)@.subrange(new_pos as int, old(buffer)@.len() as int));
    new_pos
}

impl PacketHeader {
    /// Create a new packet header
    pub fn new(sequence: u16, ack: u16, ack_bits: u32) -> (r: Self)
        ensures
            r == (PacketHeader { sequence, ack, ack_bits }),
    {
        Self { sequence, ack, ack_bits }
    }

    /// Distance from the ack forward to the sequence number, in `0..65536`.
    fn sequence_diff(&self) -> (r: i32)
        ensures
            r == seq_distance(self.sequence, self.ack),
    {
        let diff = self.sequence.wrapping_sub(self.ack) as i32;
        if diff < 0 {
            diff + 65536
        } else {
            diff
        }
    }

    /// The prefix byte and the flags it carries.
    fn compute_prefix(&self) -> (r: (u8, i32))
        ensures
            r.0 == prefix_byte(*self),
            r.1 == seq_distance(self.sequence, self.ack),
    {
        let mut prefix_byte: u8 = 0;
        let bits = self.ack_bits;
        proof {
            lemma_ack_byte_present_mask(bits);
        }
        let p0 = (bits & 0x000000FF) != 0x000000FF;
        let p1 = (bits & 0x0000FF00) != 0x0000FF00;
        let p2 = (bits & 0x00FF0000) != 0x00FF0000;
        let p3 = (bits & 0xFF000000) != 0xFF000000;
        if p0 {
            prefix_byte |= 1 << 1;
        }
        if p1 {
            prefix_byte |= 1 << 2;
        }
        if p2 {
            prefix_byte |= 1 << 3;
        }
        if p3 {
            prefix_byte |= 1 << 4;
        }
        let sequence_diff = self.sequence_diff();
        let small = sequence_diff <= 255;
        if small {
            prefix_byte |= 1 << 5;
        }
        assert(prefix_byte == prefix_from_flags(p0, p1, p2, p3, small)) by {
            let b0: u8 = if p0 { 2u8 } else { 0u8 };
            let b1: u8 = if p1 { 4u8 } else { 0u8 };
            let b2: u8 = if p2 { 8u8 } else { 0u8 };
            let b3: u8 = if p3 { 16u8 } else { 0u8 };
            let b4: u8 = if small { 32u8 } else { 0u8 };
            assert(0u8 | b0 | b1 | b2 | b3 | b4 == b0 | b1 | b2 | b3 | b4) by (bit_vector);
            assert((0u8 | (1u8 << 1u8)) == 2u8 && (forall|x: u8| #![auto] x | (1u8 << 1u8) == x | 2u8)
                && (forall|x: u8| #![auto] x | (1u8 << 2u8) == x | 4u8) && (forall|x: u8| #![auto] x
                | (1u8 << 3u8) == x | 8u8) && (forall|x: u8| #![auto] x | (1u8 << 4u8) == x | 16u8)
                && (forall|x: u8| #![auto] x | (1u8 << 5u8) == x | 32u8) && (forall|x: u8| #![auto] x
                | 0u8 == x)) by (bit_vector);
        }
        (prefix_byte, sequence_diff)
    }

    /// Store the prefix byte, the sequence number and the ack field at the
    /// front of `buffer`; returns the number of bytes stored.
    fn set_fixed_part(&self, buffer: &mut [u8]) -> (pos: usize)
        requires
            old(buffer)@.len() >= MAX_PACKET_HEADER_BYTES,
        ensures
            pos == header_fixed_part(*self).len(),
            pos <= 5,
            final(buffer)@ == header_fixed_part(*self) + old(buffer)@.subrange(
                pos as int,
                old(buffer)@.len() as int,
            ),
    {
        let (prefix_byte, sequence_diff) = self.compute_prefix();
        let mut pos: usize = 0;
        buffer[pos] = prefix_byte;
        pos += 1;
        buffer[pos] = (self.sequence & 0xff) as u8;
        buffer[pos + 1] = (self.sequence >> 8) as u8;
        pos += 2;
        if sequence_diff <= 255 {
            buffer[pos] = sequence_diff as u8;
            pos += 1;
        } else {
            buffer[pos] = (self.ack & 0xff) as u8;
            buffer[pos + 1] = (self.ack >> 8) as u8;
            pos += 2;
        }
        assert(final(buffer)@ =~= header_fixed_part(*self) + old(buffer)@.subrange(
            pos as int,
            old(buffer)@.len() as int,
        ));
        pos
    }

    /// Write the packet header to a fixed-size buffer slice (allocation-free)
    ///
    /// Returns the number of bytes written, or None if buffer is too small.
    /// Buffer must be at least MAX_PACKET_HEADER_BYTES (9 bytes).
    pub fn write_to_slice(&self, buffer: &mut [u8]) -> (r: Option<usize>)
        ensures
            old(buffer)@.len() < MAX_PACKET_HEADER_BYTES ==> r is None && final(buffer)@ == old(
                buffer,
            )@,
            old(buffer)@.len() >= MAX_PACKET_HEADER_BYTES ==> {
                &&& r == Some(encode_header(*self).len() as usize)
                &&& final(buffer)@ == encode_header(*self) + old(buffer)@.subrange(
                    encode_header(*self).len() as int,
                    old(buffer)@.len() as int,
                )
            },
    {
        if buffer.len() < MAX_PACKET_HEADER_BYTES {
            return None;
        }
        let ghost old_buf = buffer@;
        let ghost len = old_buf.len() as int;
        let bits = self.ack_bits;
        let mut pos = self.set_fixed_part(buffer);
        let ghost fixed = header_fixed_part(*self);
        let ghost w0 = fixed;
        let ghost prev = buffer@;
        pos = set_optional_ack_byte(buffer, pos, bits, 0);
        proof { lemma_splice_after_prefix(prev, w0, old_buf, optional_ack_byte(bits, 0)); }
        let ghost w1 = w0 + optional_ack_byte(bits, 0);
        let ghost prev = buffer@;
        pos = set_optional_ack_byte(buffer, pos, bits, 1);
        proof { lemma_splice_after_prefix(prev, w1, old_buf, optional_ack_byte(bits, 1)); }
        let ghost w2 = w1 + optional_ack_byte(bits, 1);
        let ghost prev = buffer@;
        pos = set_optional_ack_byte(buffer, pos, bits, 2);
        proof { lemma_splice_after_prefix(prev, w2, old_buf, optional_ack_byte(bits, 2)); }
        let ghost w3 = w2 + optional_ack_byte(bits, 2);
        let ghost prev = buffer@;
        pos = set_optional_ack_byte(buffer, pos, bits, 3);
        proof { lemma_splice_after_prefix(prev, w3, old_buf, optional_ack_byte(bits, 3)); }
        let ghost w4 = w3 + optional_ack_byte(bits, 3);
        assert(w4 =~= encode_header(*self));
        assert(buffer@ == w4 + old_buf.subrange(pos as int, len));
        Some(pos)
    }

    /// Write the packet header to a buffer
    ///
    /// Returns the number of bytes written
    #[verifier::rlimit(40)]
    #[verifier::spinoff_prover]
    pub fn write(&self, buffer: &mut Vec<u8>) -> (r: usize)
        ensures
            final(buffer)@ == old(buffer)@ + encode_header(*self),
            r == encode_header(*self).len(),
    {
        let start_len = buffer.len();
        let (prefix_byte, sequence_diff) = self.compute_prefix();
        let bits = self.ack_bits;
        buffer.push(prefix_byte);
        buffer.push((self.sequence & 0xff) as u8);
        buffer.push((self.sequence >> 8) as u8);
        if sequence_diff <= 255 {
            buffer.push(sequence_diff as u8);
        } else {
            buffer.push((self.ack & 0xff) as u8);
            buffer.push((self.ack >> 8) as u8);
        }
        let ghost fixed = header_fixed_part(*self);
        assert(buffer@ =~= old(buffer)@ + fixed);
        push_optional_ack_byte(buffer, bits, 0);
        push_optional_ack_byte(buffer, bits, 1);
        push_optional_ack_byte(buffer, bits, 2);
        push_optional_ack_byte(buffer, bits, 3);
        proof {
            let o0 = optional_ack_byte(bits, 0);
            let o1 = optional_ack_byte(bits, 1);
            let o2 = optional_ack_byte(bits, 2);
            let o3 = optional_ack_byte(bits, 3);
            assert(buffer@ =~= old(buffer)@ + (fixed + (o0 + (o1 + (o2 + o3)))));
        }
        buffer.len() - start_len
    }

    /// Read a packet header from a buffer
    ///
    /// Returns the header and the number of bytes read, or None if invalid
    pub fn read(data: &[u8]) -> (r: Option<(Self, usize)>)
        ensures
            r is None <==> decode_header(data@) is None,
            r matches Some((h, n)) ==> decode_header(data@) == Some((h, n as int)),
    {
        if data.len() < 3 {
            return None;
        }
        let prefix_byte = data[0];
        if (prefix_byte & 1) != 0 {
            return None;
        }
        let ghost p = prefix_byte;
        let sequence = (data[1] as u16) | ((data[2] as u16) << 8);
        assert(sequence == le_u16(data@[1], data@[2]));
        let mut pos: usize = 3;
        let small = (prefix_byte & (1 << 5)) != 0;
        assert(small == flag(p, 32)) by {
            assert((p & (1u8 << 5u8)) == p & 32u8) by (bit_vector);
        }
        let ack = if small {
            if data.len() < pos + 1 {
                return None;
            }
            let diff = data[pos] as u16;
            pos += 1;
            sequence.wrapping_sub(diff)
        } else {
            if data.len() < pos + 2 {
                return None;
            }
            let ack = (data[pos] as u16) | ((data[pos + 1] as u16) << 8);
            pos += 2;
            ack
        };
        let mut ack_bits: u32 = 0xFFFFFFFF;
        let f1 = (prefix_byte & (1 << 1)) != 0;
        let f2 = (prefix_byte & (1 << 2)) != 0;
        let f3 = (prefix_byte & (1 << 3)) != 0;
        let f4 = (prefix_byte & (1 << 4)) != 0;
        assert(f1 == flag(p, 2) && f2 == flag(p, 4) && f3 == flag(p, 8) && f4 == flag(p, 16)) by {
            assert((p & (1u8 << 1u8)) == p & 2u8 && (p & (1u8 << 2u8)) == p & 4u8 && (p & (1u8 << 3u8))
                == p & 8u8 && (p & (1u8 << 4u8)) == p & 16u8) by (bit_vector);
        }
        let ghost n = header_len_for_prefix(p);
        let ghost q0 = pos as int;
        assert(n == q0 + count(f1) + count(f2) + count(f3) + count(f4));
        let mut b0: u8 = 0xff;
        let mut b1: u8 = 0xff;
        let mut b2: u8 = 0xff;
        let mut b3: u8 = 0xff;
        if f1 {
            if data.len() < pos + 1 {
                return None;
            }
            b0 = data[pos];
            pos += 1;
        }
        let ghost q1 = pos as int;
        if f2 {
            if data.len() < pos + 1 {
                return None;
            }
            b1 = data[pos];
            pos += 1;
        }
        let ghost q2 = pos as int;
        if f3 {
            if data.len() < pos + 1 {
                return None;
            }
            b2 = data[pos];
            pos += 1;
        }
        let ghost q3 = pos as int;
        if f4 {
            if data.len() < pos + 1 {
                return None;
            }
            b3 = data[pos];
            pos += 1;
        }
        ack_bits = (b0 as u32) | ((b1 as u32) << 8) | ((b2 as u32) << 16) | ((b3 as u32) << 24);
        proof {
            let d = data@.skip(q0);
            let d1 = d.skip(count(f1));
            let d2 = d1.skip(count(f2));
            let d3 = d2.skip(count(f3));
            assert(f1 ==> b0 == d[0]);
            assert(f2 ==> b1 == d1[0]);
            assert(f3 ==> b2 == d2[0]);
            assert(f4 ==> b3 == d3[0]);
            assert(ack_bits == read_ack_bits(p, d));
        }
        assert(pos == n);
        let h = Self { sequence, ack, ack_bits };
        assert(decode_header(data@) == Some((h, pos as int)));
        Some((h, pos))
    }
}

/// Check if a buffer contains a fragment packet
pub fn is_fragment_packet(data: &[u8]) -> (r: bool)
    ensures
        r == spec_is_fragment(data@),
{
    !data.is_empty() && (data[0] & 1) != 0
}

} // verus!
