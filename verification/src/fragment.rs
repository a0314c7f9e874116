//! Packet fragmentation and reassembly.
//!
//! Large packets are split into multiple datagrams called fragments. Each
//! fragment carries a [`FragmentHeader`]; the receiver accumulates the
//! pieces in a [`FragmentReassemblyBuffer`] until the whole packet is there,
//! in any order, and then delivers it into the incoming packet queue.
//!
//! ```text
//! Byte 0: 0x01             (fragment flag)
//! Byte 1: seq[0]           (sequence low byte, LE)
//! Byte 2: seq[1]           (sequence high byte, LE)
//! Byte 3: fragment_id      (0 .. num_fragments-1)
//! Byte 4: num_fragments    (1 .. 255)
//! ```
use crate::packet::{flag, hi_byte, le_u16, lo_byte};
use crate::packet_queue::PacketQueue;
use crate::sequence_buffer::{slot_of, slot_window, SequenceBuffer};
use crate::utils::{
    lemma_mask_is_mod, lemma_truncate_u16, seq_add, seq_distance, seq_gt, seq_lt, spec_is_power_of_two,
};
use vstd::prelude::*;

verus! {

broadcast use vstd::array::group_array_axioms;

/// Fragment header size
pub const FRAGMENT_HEADER_BYTES: usize = 5;

/// Fragment header
#[derive(Debug, Clone, Copy, PartialEq, Eq, Structural)]
pub struct FragmentHeader {
    /// Sequence number of the fragmented packet
    pub sequence: u16,
    /// Fragment ID (0 to num_fragments-1)
    pub fragment_id: u8,
    /// Total number of fragments
    pub num_fragments: u8,
}

/// The wire encoding of a fragment header.
pub open spec fn encode_fragment_header(h: FragmentHeader) -> Seq<u8> {
    seq![1u8, lo_byte(h.sequence), hi_byte(h.sequence), h.fragment_id, h.num_fragments]
}

/// The fragment header decoded from the front of `data`, with its length;
/// `None` when `data` is too short or bit 0 of its first byte is clear.
pub open spec fn decode_fragment_header(data: Seq<u8>) -> Option<(FragmentHeader, int)> {
    if data.len() < FRAGMENT_HEADER_BYTES || !flag(data[0], 1) {
        None
    } else {
        Some(
            (
                FragmentHeader {
                    sequence: le_u16(data[1], data[2]),
                    fragment_id: data[3],
                    num_fragments: data[4],
                },
                FRAGMENT_HEADER_BYTES as int,
            ),
        )
    }
}

/// Round trip: decoding the encoding of any fragment header, followed by any
/// bytes, gives back that header.
pub proof fn lemma_fragment_header_roundtrip(h: FragmentHeader, rest: Seq<u8>)
    ensures
        decode_fragment_header(encode_fragment_header(h) + rest) == Some(
            (h, FRAGMENT_HEADER_BYTES as int),
        ),
{
    let data = encode_fragment_header(h) + rest;
    assert(data[0] == 1u8);
    assert(flag(1u8, 1)) by (bit_vector);
    assert(le_u16(lo_byte(h.sequence), hi_byte(h.sequence)) == h.sequence) by {
        let x = h.sequence;
        assert(((((x & 0xff) as u8) as u16) | ((((x >> 8) as u8) as u16) << 8)) as u16 == x)
            by (bit_vector);
    }
    assert(data[1] == lo_byte(h.sequence));
    assert(data[2] == hi_byte(h.sequence));
    assert(data[3] == h.fragment_id);
    assert(data[4] == h.num_fragments);
}

impl FragmentHeader {
    /// Write fragment header to a fixed-size buffer slice (allocation-free).
    ///
    /// Returns the number of bytes written, or `None` if the buffer is too
    /// small. Buffer must be at least [`FRAGMENT_HEADER_BYTES`] (5 bytes).
    pub fn write_to_slice(&self, buffer: &mut [u8]) -> (r: Option<usize>)
        ensures
            old(buffer)@.len() < FRAGMENT_HEADER_BYTES ==> r is None && final(buffer)@ == old(buffer)@,
            old(buffer)@.len() >= FRAGMENT_HEADER_BYTES ==> {
                &&& r == Some(FRAGMENT_HEADER_BYTES)
                &&& final(buffer)@ == encode_fragment_header(*self) + old(buffer)@.subrange(
                    FRAGMENT_HEADER_BYTES as int,
                    old(buffer)@.len() as int,
                )
            },
    {
        if buffer.len() < FRAGMENT_HEADER_BYTES {
            return None;
        }
        buffer[0] = 1;
        buffer[1] = (self.sequence & 0xff) as u8;
        buffer[2] = (self.sequence >> 8) as u8;
        buffer[3] = self.fragment_id;
        buffer[4] = self.num_fragments;
        assert(buffer@ =~= encode_fragment_header(*self) + old(buffer)@.subrange(
            FRAGMENT_HEADER_BYTES as int,
            old(buffer)@.len() as int,
        ));
        Some(FRAGMENT_HEADER_BYTES)
    }

    /// Read fragment header from buffer
    pub fn read(data: &[u8]) -> (r: Option<(Self, usize)>)
        ensures
            r is None <==> decode_fragment_header(data@) is None,
            r matches Some((h, n)) ==> decode_fragment_header(data@) == Some((h, n as int)),
    {
        if data.len() < FRAGMENT_HEADER_BYTES {
            return None;
        }
        if (data[0] & 1) != 1 {
            assert(!flag(data@[0], 1)) by {
                let b = data@[0];
                assert((b & 1) != 1 ==> b & 1 == 0) by (bit_vector);
            }
            return None;
        }
        assert(flag(data@[0], 1));
        let sequence = (data[1] as u16) | ((data[2] as u16) << 8);
        let fragment_id = data[3];
        let num_fragments = data[4];
        Some((Self { sequence, fragment_id, num_fragments }, FRAGMENT_HEADER_BYTES))
    }
}

/// Number of fragments `len` bytes split into, `fragment_size` bytes each.
pub open spec fn fragment_count(len: nat, fragment_size: nat) -> nat
    recommends
        fragment_size > 0,
{
    ((len + fragment_size - 1) / fragment_size as int) as nat
}

/// Fragment `i` of `data` cut into pieces of `fragment_size` bytes.
pub open spec fn fragment_piece(data: Seq<u8>, fragment_size: nat, i: int) -> Seq<u8> {
    let start = i * fragment_size;
    let end = if start + fragment_size < data.len() {
        start + fragment_size
    } else {
        data.len() as int
    };
    data.subrange(start, end)
}

/// Fragment a packet into multiple parts.
///
/// Returns `None` if `data` is empty, `fragment_size` is zero, or the number
/// of fragments would exceed `max_fragments` or 255.
pub fn fragment_packet(sequence: u16, data: &[u8], fragment_size: usize, max_fragments: usize) -> (r:
    Option<Vec<(FragmentHeader, Vec<u8>)>>)
    ensures
        r is None <==> (data@.len() == 0 || fragment_size == 0 || fragment_count(
            data@.len(),
            fragment_size as nat,
        ) > max_fragments || fragment_count(data@.len(), fragment_size as nat) > 255),
        r matches Some(v) ==> {
            &&& v@.len() == fragment_count(data@.len(), fragment_size as nat)
            &&& forall|i: int|
                0 <= i < v@.len() ==> {
                    &&& (#[trigger] v@[i]).0 == FragmentHeader {
                        sequence,
                        fragment_id: i as u8,
                        num_fragments: v@.len() as u8,
                    }
                    &&& v@[i].1@ == fragment_piece(data@, fragment_size as nat, i)
                }
        },
{
    if data.len() == 0 || fragment_size == 0 {
        return None;
    }
    proof {
        lemma_fragment_count(data@.len(), fragment_size as nat);
        let n = fragment_count(data@.len(), fragment_size as nat);
        assert(n <= data@.len()) by (nonlinear_arith)
            requires
                (n - 1) * fragment_size < data@.len(),
                fragment_size >= 1,
        ;
    }
    let num_fragments = data.len() / fragment_size + if data.len() % fragment_size != 0 {
        1
    } else {
        0
    };
    if num_fragments > max_fragments || num_fragments > 255 {
        return None;
    }
    let mut fragments: Vec<(FragmentHeader, Vec<u8>)> = Vec::with_capacity(num_fragments);
    let mut i: usize = 0;
    while i < num_fragments
        invariant
            i <= num_fragments,
            num_fragments == fragment_count(data@.len(), fragment_size as nat),
            num_fragments <= 255,
            fragment_size > 0,
            (num_fragments - 1) * fragment_size < data@.len(),
            fragments@.len() == i,
            forall|j: int|
                0 <= j < i ==> {
                    &&& (#[trigger] fragments@[j]).0 == FragmentHeader {
                        sequence,
                        fragment_id: j as u8,
                        num_fragments: num_fragments as u8,
                    }
                    &&& fragments@[j].1@ == fragment_piece(data@, fragment_size as nat, j)
                },
        decreases num_fragments - i,
    {
        proof {
            assert(i * fragment_size <= (num_fragments - 1) * fragment_size) by (nonlinear_arith)
                requires
                    i < num_fragments,
            ;
            assert(i * fragment_size < data@.len());
            assert(data@.len() == data.len());
        }
        let start = i * fragment_size;
        let end = if data.len() - start > fragment_size {
            start + fragment_size
        } else {
            data.len()
        };
        let header = FragmentHeader {
            sequence,
            fragment_id: i as u8,
            num_fragments: num_fragments as u8,
        };
        let piece = vstd::slice::slice_to_vec(vstd::slice::slice_subrange(data, start, end));
        fragments.push((header, piece));
        i = i + 1;
    }
    Some(fragments)
}

/// `fragment_count` is the rounded-up quotient, and the last fragment starts
/// inside the data.
pub proof fn lemma_fragment_count(len: nat, fs: nat)
    requires
        len > 0,
        fs > 0,
    ensures
        fragment_count(len, fs) == len / fs + (if len % fs != 0 {
            1int
        } else {
            0
        }),
        fragment_count(len, fs) >= 1,
        (fragment_count(len, fs) - 1) * fs < len,
        fragment_count(len, fs) * fs >= len,
{
    let q = len / fs;
    let r = len % fs;
    vstd::arithmetic::div_mod::lemma_fundamental_div_mod(len as int, fs as int);
    if r == 0 {
        assert((len + fs - 1) / (fs as int) == q) by {
            vstd::arithmetic::div_mod::lemma_fundamental_div_mod_converse(
                len + fs - 1,
                fs as int,
                q as int,
                fs - 1,
            );
        }
        assert(q >= 1) by (nonlinear_arith)
            requires
                len == fs * q,
                len > 0,
                fs > 0,
        ;
        assert((q - 1) * fs < len) by (nonlinear_arith)
            requires
                len == fs * q,
                fs > 0,
        ;
        assert(q * fs >= len) by (nonlinear_arith)
            requires
                len == fs * q,
        ;
    } else {
        assert((len + fs - 1) / (fs as int) == q + 1) by {
            vstd::arithmetic::div_mod::lemma_mod_pos_bound(len as int, fs as int);
            assert(0 <= r - 1 < fs);
            assert(len + fs - 1 == fs * (q + 1) + (r - 1)) by (nonlinear_arith)
                requires
                    len == fs * q + r,
            ;
            vstd::arithmetic::div_mod::lemma_fundamental_div_mod_converse(
                len + fs - 1,
                fs as int,
                (q + 1) as int,
                r - 1,
            );
        }
        assert(q * fs < len) by (nonlinear_arith)
            requires
                len == fs * q + r,
                r > 0,
        ;
        assert((q + 1) * fs >= len) by (nonlinear_arith)
            requires
                len == fs * q + r,
                r < fs,
        ;
    }
}

/// Fragment `id` is marked in the received bitmask `words` (bit `id % 32`
/// of word `id / 32`).
pub open spec fn id_marked(words: Seq<u32>, id: int) -> bool {
    (words[id / 32] >> ((id % 32) as u32)) & 1u32 == 1u32
}

/// Number of the fragments `0..n` marked in `words`.
pub open spec fn marked_count(words: Seq<u32>, n: nat) -> nat
    decreases n,
{
    if n == 0 {
        0
    } else {
        marked_count(words, (n - 1) as nat) + (if id_marked(words, n - 1) {
            1nat
        } else {
            0nat
        })
    }
}

/// Bytes of a fragment kept when `len` bytes arrive for a slot of
/// `fragment_size` bytes: at most `fragment_size`, recorded as a `u16`.
pub open spec fn stored_len(len: nat, fragment_size: nat) -> u16 {
    (if len < fragment_size {
        len
    } else {
        fragment_size
    }) as u16
}

/// Per-slot state for reassembling a fragmented packet.
///
/// Each `ReassemblyData` owns a flat slab (`fragment_data`) and a length
/// array (`fragment_lens`) allocated once; resetting a slot for a new
/// sequence clears metadata only.
pub struct ReassemblyData {
    /// Sequence number being reassembled.
    pub sequence: u16,
    /// ACK from first fragment header.
    pub ack: u16,
    /// ACK bits from first fragment header.
    pub ack_bits: u32,
    /// Total fragment count declared on the wire.
    pub num_fragments: u8,
    /// Number of fragments received so far.
    pub num_fragments_received: u8,
    /// Bitmask of received fragment IDs.
    /// Bit `id & 31` of word `id >> 5` is set when fragment `id` arrived.
    pub fragment_received: [u32; 8],
    /// Flat fragment payload slab. Fragment `i` occupies bytes
    /// `[i * fragment_size .. i * fragment_size + fragment_lens[i]]`.
    pub fragment_data: Vec<u8>,
    /// Byte length of each stored fragment.
    pub fragment_lens: Vec<u16>,
    /// Fragment size for offset arithmetic.
    pub fragment_size: usize,
}

impl ReassemblyData {
    /// The fragment size of this slot.
    pub open spec fn spec_fragment_size(&self) -> nat {
        self.fragment_size as nat
    }

    /// The number of fragments this slot has room for.
    pub open spec fn spec_max_fragments(&self) -> nat {
        self.fragment_lens@.len()
    }

    /// Fragment `id` has been marked as received.
    pub open spec fn has(&self, id: int) -> bool {
        id_marked(self.fragment_received@, id)
    }

    /// The bytes stored for fragment `i`.
    pub open spec fn stored(&self, i: int) -> Seq<u8> {
        self.fragment_data@.subrange(
            i * self.fragment_size,
            i * self.fragment_size + self.fragment_lens@[i],
        )
    }

    /// The stored fragments `0..n` in order, concatenated.
    pub open spec fn stored_prefix(&self, n: nat) -> Seq<u8>
        decreases n,
    {
        if n == 0 {
            Seq::empty()
        } else {
            self.stored_prefix((n - 1) as nat) + self.stored((n - 1) as int)
        }
    }

    /// The reassembled payload: fragments `0..num_fragments` in order.
    pub open spec fn payload(&self) -> Seq<u8> {
        self.stored_prefix(self.num_fragments as nat)
    }

    /// Layout invariant of the slab.
    pub open spec fn wf(&self) -> bool {
        &&& self.fragment_data@.len() == self.fragment_lens@.len() * self.fragment_size
        &&& self.num_fragments <= self.fragment_lens@.len()
        &&& forall|i: int|
            0 <= i < self.fragment_lens@.len() ==> #[trigger] self.fragment_lens@[i]
                <= self.fragment_size
    }

    /// The received bitmask and counter agree: only fragments below
    /// `num_fragments` are marked, and the counter is their number.
    pub open spec fn consistent(&self) -> bool {
        &&& forall|id: int| 0 <= id < 256 && #[trigger] self.has(id) ==> id < self.num_fragments
        &&& self.num_fragments_received == marked_count(
            self.fragment_received@,
            self.num_fragments as nat,
        )
    }

    proof fn lemma_stored_len(&self, i: int)
        requires
            self.wf(),
            0 <= i < self.spec_max_fragments(),
        ensures
            self.stored(i).len() == self.fragment_lens@[i],
            self.stored(i).len() <= self.fragment_size,
            (i + 1) * self.fragment_size <= self.fragment_data@.len(),
            0 <= i * self.fragment_size,
            i * self.fragment_size + self.fragment_size <= self.fragment_data@.len(),
    {
        assert((i + 1) * self.fragment_size <= self.fragment_lens@.len() * self.fragment_size)
            by (nonlinear_arith)
            requires
                0 <= i < self.fragment_lens@.len(),
                self.fragment_size >= 0,
        ;
        assert(i * self.fragment_size + self.fragment_size == (i + 1) * self.fragment_size)
            by (nonlinear_arith);
        assert(0 <= i * self.fragment_size) by (nonlinear_arith)
            requires
                0 <= i,
                self.fragment_size >= 0,
        ;
    }

    /// The first `n` stored fragments together hold at most `n` fragments'
    /// worth of bytes.
    pub proof fn lemma_stored_prefix_len(&self, n: nat)
        requires
            self.wf(),
            n <= self.spec_max_fragments(),
        ensures
            self.stored_prefix(n).len() <= n * self.fragment_size,
        decreases n,
    {
        if n > 0 {
            self.lemma_stored_prefix_len((n - 1) as nat);
            self.lemma_stored_len(n - 1);
            assert((n - 1) * self.fragment_size + self.fragment_size == n * self.fragment_size)
                by (nonlinear_arith);
        }
    }

    /// Allocate a new slot with preallocated slab storage.
    pub fn new_preallocated(max_fragments: usize, fragment_size: usize) -> (r: Self)
        requires
            max_fragments * fragment_size <= usize::MAX,
        ensures
            r.wf(),
            r.consistent(),
            r.spec_fragment_size() == fragment_size,
            r.spec_max_fragments() == max_fragments,
            r.sequence == 0,
            r.ack == 0,
            r.ack_bits == 0,
            r.num_fragments == 0,
            r.num_fragments_received == 0,
            forall|id: int| 0 <= id < 256 ==> !#[trigger] r.has(id),
    {
        let r = Self {
            sequence: 0,
            ack: 0,
            ack_bits: 0,
            num_fragments: 0,
            num_fragments_received: 0,
            fragment_received: [0u32; 8],
            fragment_data: vec![0u8; max_fragments * fragment_size],
            fragment_lens: vec![0u16; max_fragments],
            fragment_size,
        };
        proof {
            lemma_no_marks(r.fragment_received@);
        }
        r
    }

    /// Reset this slot for a new sequence number.
    ///
    /// Clears all metadata fields; only the active length entries
    /// (`0..num_fragments`) are zeroed, the slab is kept.
    pub fn reset(&mut self, sequence: u16, ack: u16, ack_bits: u32, num_fragments: u8)
        requires
            old(self).wf(),
            num_fragments <= old(self).spec_max_fragments(),
        ensures
            final(self).wf(),
            final(self).consistent(),
            final(self).spec_fragment_size() == old(self).spec_fragment_size(),
            final(self).spec_max_fragments() == old(self).spec_max_fragments(),
            final(self).sequence == sequence,
            final(self).ack == ack,
            final(self).ack_bits == ack_bits,
            final(self).num_fragments == num_fragments,
            final(self).num_fragments_received == 0,
            forall|id: int| 0 <= id < 256 ==> !#[trigger] final(self).has(id),
            forall|i: int| 0 <= i < num_fragments ==> #[trigger] final(self).stored(i) == Seq::<
                u8,
            >::empty(),
            forall|i: int|
                num_fragments <= i < old(self).spec_max_fragments() ==> #[trigger] final(self).stored(i) == old(self).stored(i),
    {
        self.sequence = sequence;
        self.ack = ack;
        self.ack_bits = ack_bits;
        self.num_fragments = num_fragments;
        self.num_fragments_received = 0;
        self.fragment_received = [0u32; 8];
        assert(forall|k: int| 0 <= k < 8 ==> #[trigger] self.fragment_received@[k] == 0);
        let n = num_fragments as usize;
        let mut i: usize = 0;
        while i < n
            invariant
                i <= n,
                forall|k: int| 0 <= k < 8 ==> #[trigger] self.fragment_received@[k] == 0,
                self.sequence == sequence,
                self.ack == ack,
                self.ack_bits == ack_bits,
                self.num_fragments == num_fragments,
                self.num_fragments_received == 0,
                n == num_fragments,
                n <= self.fragment_lens@.len(),
                self.fragment_lens@.len() == old(self).fragment_lens@.len(),
                self.fragment_data@ == old(self).fragment_data@,
                self.fragment_size == old(self).fragment_size,
                forall|j: int| 0 <= j < i ==> #[trigger] self.fragment_lens@[j] == 0,
                forall|j: int|
                    i <= j < self.fragment_lens@.len() ==> #[trigger] self.fragment_lens@[j]
                        == old(self).fragment_lens@[j],
            decreases n - i,
        {
            self.fragment_lens.set(i, 0);
            i = i + 1;
        }
        proof {
            assert(self.fragment_data@.len() == self.fragment_lens@.len() * self.fragment_size);
            assert(self.num_fragments <= self.fragment_lens@.len());
            assert(self.wf()) by {
                assert forall|j: int| 0 <= j < self.fragment_lens@.len() implies #[trigger] self.fragment_lens@[j]
                    <= self.fragment_size by {
                    if j >= n {
                        assert(old(self).fragment_lens@[j] <= old(self).fragment_size);
                    }
                }
            }
            assert(forall|k: int| 0 <= k < 8 ==> #[trigger] self.fragment_received@[k] == 0);
            lemma_no_marks(self.fragment_received@);
            assert forall|i: int| 0 <= i < num_fragments implies #[trigger] self.stored(i)
                == Seq::<u8>::empty() by {
                self.lemma_stored_len(i);
                assert(self.stored(i) =~= Seq::<u8>::empty());
            }
            assert forall|i: int|
                num_fragments <= i < old(self).spec_max_fragments() implies #[trigger] self.stored(i)
                == old(self).stored(i) by {
                self.lemma_stored_len(i);
                assert(self.stored(i) =~= old(self).stored(i));
            }
        }
    }

    /// Returns `true` if fragment `id` has already been received.
    pub fn has_fragment(&self, id: u8) -> (r: bool)
        ensures
            r == self.has(id as int),
    {
        let word = (id >> 5) as usize;
        let bit = id & 31;
        proof {
            lemma_id_bit(id);
            let w = self.fragment_received@[word as int];
            assert((w & (1u32 << bit)) != 0 <==> (w >> bit) & 1u32 == 1u32) by (bit_vector)
                requires
                    bit < 32,
            ;
        }
        (self.fragment_received[word] & (1u32 << bit)) != 0
    }

    /// The stored fragments depend only on the slab, the lengths and the
    /// fragment size.
    proof fn lemma_prefix_same(a: Self, b: Self, n: nat)
        requires
            a.fragment_data@ == b.fragment_data@,
            a.fragment_lens@ == b.fragment_lens@,
            a.fragment_size == b.fragment_size,
        ensures
            a.stored_prefix(n) == b.stored_prefix(n),
        decreases n,
    {
        if n > 0 {
            Self::lemma_prefix_same(a, b, (n - 1) as nat);
        }
    }

    /// Mark fragment `id` as received in the bitmask.
    pub fn mark_fragment(&mut self, id: u8)
        ensures
            forall|x: int| 0 <= x < 256 ==> #[trigger] final(self).has(x) == (old(self).has(x) || x
                == id),
            final(self).sequence == old(self).sequence,
            final(self).ack == old(self).ack,
            final(self).ack_bits == old(self).ack_bits,
            final(self).num_fragments == old(self).num_fragments,
            final(self).num_fragments_received == old(self).num_fragments_received,
            final(self).fragment_data@ == old(self).fragment_data@,
            final(self).fragment_lens@ == old(self).fragment_lens@,
            final(self).fragment_size == old(self).fragment_size,
            final(self).wf() == old(self).wf(),
            final(self).payload() == old(self).payload(),
    {
        let word = (id >> 5) as usize;
        let bit = id & 31;
        proof {
            lemma_id_bit(id);
        }
        let w = self.fragment_received[word];
        self.fragment_received[word] = w | (1u32 << bit);
        proof {
            Self::lemma_prefix_same(*self, *old(self), self.num_fragments as nat);
            assert forall|x: int| 0 <= x < 256 implies #[trigger] self.has(x) == (old(self).has(x)
                || x == id) by {
                let xw = x / 32;
                let xb = (x % 32) as u32;
                if xw == word {
                    let b = bit as u32;
                    assert(((w | (1u32 << b)) >> xb) & 1u32 == 1u32 <==> ((w >> xb) & 1u32 == 1u32
                        || xb == b)) by (bit_vector)
                        requires
                            b < 32 && xb < 32,
                    ;
                    assert(xb == b <==> x == id);
                }
            }
        }
    }

    /// Returns `true` when all expected fragments have arrived.
    pub fn is_complete(&self) -> (r: bool)
        ensures
            r == (self.num_fragments_received == self.num_fragments),
    {
        self.num_fragments_received == self.num_fragments
    }

    /// Write `src` into the slab at the offset for fragment `id`.
    ///
    /// Bytes beyond `fragment_size` are silently truncated.
    pub fn store_fragment(&mut self, id: u8, src: &[u8])
        requires
            old(self).wf(),
            (id as int) < old(self).spec_max_fragments(),
        ensures
            final(self).wf(),
            final(self).spec_fragment_size() == old(self).spec_fragment_size(),
            final(self).spec_max_fragments() == old(self).spec_max_fragments(),
            final(self).fragment_lens@[id as int] == stored_len(
                src@.len(),
                old(self).spec_fragment_size(),
            ),
            final(self).stored(id as int) == src@.subrange(
                0,
                stored_len(src@.len(), old(self).spec_fragment_size()) as int,
            ),
            forall|i: int|
                0 <= i < old(self).spec_max_fragments() && i != id ==> #[trigger] final(self).stored(i) == old(self).stored(i),
            final(self).sequence == old(self).sequence,
            final(self).ack == old(self).ack,
            final(self).ack_bits == old(self).ack_bits,
            final(self).num_fragments == old(self).num_fragments,
            final(self).num_fragments_received == old(self).num_fragments_received,
            final(self).fragment_received == old(self).fragment_received,
    {
        proof {
            self.lemma_stored_len(id as int);
        }
        let data_len = self.fragment_data.len();
        assert(id * self.fragment_size <= data_len);
        let offset = id as usize * self.fragment_size;
        let len = if src.len() < self.fragment_size {
            src.len()
        } else {
            self.fragment_size
        };
        let ghost fs = self.fragment_size as int;
        let mut k: usize = 0;
        while k < len
            invariant
                k <= len,
                len <= src@.len(),
                len <= fs,
                fs == self.fragment_size,
                offset == id * fs,
                offset + fs <= self.fragment_data@.len(),
                self.fragment_data@.len() == old(self).fragment_data@.len(),
                self.fragment_data@.len() == data_len,
                self.fragment_lens@ == old(self).fragment_lens@,
                self.fragment_size == old(self).fragment_size,
                self.sequence == old(self).sequence,
                self.ack == old(self).ack,
                self.ack_bits == old(self).ack_bits,
                self.num_fragments == old(self).num_fragments,
                self.num_fragments_received == old(self).num_fragments_received,
                self.fragment_received == old(self).fragment_received,
                forall|j: int|
                    0 <= j < self.fragment_data@.len() && !(offset <= j < offset + k)
                        ==> #[trigger] self.fragment_data@[j] == old(self).fragment_data@[j],
                forall|j: int| offset <= j < offset + k ==> #[trigger] self.fragment_data@[j] == src@[j - offset],
            decreases len - k,
        {
            self.fragment_data.set(offset + k, src[k]);
            k = k + 1;
        }
        self.fragment_lens.set(id as usize, len as u16);
        proof {
            assert(self.stored(id as int) =~= src@.subrange(0, (len as u16) as int));
            assert forall|i: int| 0 <= i < old(self).spec_max_fragments() && i != id implies #[trigger] self.stored(i) == old(self).stored(i) by {
                old(self).lemma_stored_len(i);
                lemma_disjoint_slots(i, id as int, fs);
                assert(self.stored(i) =~= old(self).stored(i));
            }
        }
    }

    /// Copy the reassembled payload into `dest`, returning the number of
    /// bytes written.
    pub fn copy_to(&self, dest: &mut [u8]) -> (r: usize)
        requires
            self.wf(),
            self.payload().len() <= old(dest)@.len(),
        ensures
            r == self.payload().len(),
            final(dest)@.len() == old(dest)@.len(),
            final(dest)@.subrange(0, r as int) == self.payload(),
            final(dest)@.subrange(r as int, final(dest)@.len() as int) == old(dest)@.subrange(
                r as int,
                old(dest)@.len() as int,
            ),
    {
        let n = self.num_fragments as usize;
        let dest_len = dest.len();
        let mut pos: usize = 0;
        let mut i: usize = 0;
        proof {
            self.lemma_stored_prefix_monotone(0, n as nat);
        }
        while i < n
            invariant
                i <= n,
                n == self.num_fragments,
                n <= self.fragment_lens@.len(),
                self.wf(),
                self.payload().len() <= dest@.len(),
                dest@.len() == old(dest)@.len(),
                dest@.len() <= usize::MAX,
                pos == self.stored_prefix(i as nat).len(),
                forall|m: nat| i <= m <= n ==> #[trigger] self.stored_prefix(m).len() >= pos,
                dest@.subrange(0, pos as int) == self.stored_prefix(i as nat),
                dest@.subrange(pos as int, dest@.len() as int) == old(dest)@.subrange(
                    pos as int,
                    old(dest)@.len() as int,
                ),
            decreases n - i,
        {
            proof {
                self.lemma_stored_len(i as int);
                self.lemma_stored_prefix_monotone((i + 1) as nat, n as nat);
                assert(self.stored_prefix((i + 1) as nat) == self.stored_prefix(i as nat)
                    + self.stored(i as int));
            }
            let len = self.fragment_lens[i] as usize;
            let data_len = self.fragment_data.len();
            assert(i * self.fragment_size <= data_len);
            let src_off = i * self.fragment_size;
            let ghost before = dest@;
            let mut k: usize = 0;
            while k < len
                invariant
                    k <= len,
                    len == self.fragment_lens@[i as int],
                    src_off == i * self.fragment_size,
                    src_off + len <= self.fragment_data@.len(),
                    self.fragment_data@.len() == data_len,
                    pos + len <= dest@.len(),
                    dest@.len() <= usize::MAX,
                    dest@.len() == before.len(),
                    forall|j: int| 0 <= j < pos ==> #[trigger] dest@[j] == before[j],
                    forall|j: int| pos + len <= j < dest@.len() ==> #[trigger] dest@[j] == before[j],
                    forall|j: int| pos <= j < pos + k ==> #[trigger] dest@[j] == self.fragment_data@[src_off + (j - pos)],
                decreases len - k,
            {
                dest[pos + k] = self.fragment_data[src_off + k];
                k = k + 1;
            }
            proof {
                assert(dest@.subrange(0, (pos + len) as int) =~= before.subrange(0, pos as int)
                    + self.stored(i as int));
                assert(dest@.subrange((pos + len) as int, dest@.len() as int) =~= before.subrange(
                    (pos + len) as int,
                    before.len() as int,
                ));
                assert(before.subrange((pos + len) as int, before.len() as int) =~= old(dest)@.subrange(
                    (pos + len) as int,
                    old(dest)@.len() as int,
                )) by {
                    assert forall|j: int| pos + len <= j < before.len() implies before[j] == old(dest)@[j] by {
                        assert(before[j] == before.subrange(pos as int, before.len() as int)[j - pos]);
                    }
                }
                assert(before.subrange(0, pos as int) == self.stored_prefix(i as nat));
            }
            pos = pos + len;
            i = i + 1;
        }
        pos
    }

    /// Number of bytes of the reassembled payload.
    pub fn payload_len(&self) -> (r: usize)
        requires
            self.wf(),
        ensures
            r == self.payload().len(),
    {
        let n = self.num_fragments as usize;
        let mut total: usize = 0;
        let mut i: usize = 0;
        proof {
            self.lemma_stored_prefix_len(n as nat);
            assert(n * self.fragment_size <= self.fragment_data@.len()) by (nonlinear_arith)
                requires
                    n <= self.fragment_lens@.len(),
                    self.fragment_data@.len() == self.fragment_lens@.len() * self.fragment_size,
            ;
        }
        let data_len = self.fragment_data.len();
        while i < n
            invariant
                i <= n,
                n == self.num_fragments,
                n <= self.fragment_lens@.len(),
                self.wf(),
                total == self.stored_prefix(i as nat).len(),
                self.payload().len() <= data_len,
                forall|m: nat| i <= m <= n ==> #[trigger] self.stored_prefix(m).len() >= total,
            decreases n - i,
        {
            proof {
                self.lemma_stored_len(i as int);
                self.lemma_stored_prefix_monotone((i + 1) as nat, n as nat);
            }
            total = total + self.fragment_lens[i] as usize;
            i = i + 1;
        }
        total
    }

    /// The concatenated prefix only grows.
    proof fn lemma_stored_prefix_monotone(&self, m: nat, n: nat)
        requires
            self.wf(),
            m <= n <= self.spec_max_fragments(),
        ensures
            forall|k: nat| m <= k <= n ==> #[trigger] self.stored_prefix(k).len() >= self.stored_prefix(m).len(),
        decreases n - m,
    {
        if m < n {
            self.lemma_stored_prefix_monotone(m, (n - 1) as nat);
            assert(self.stored_prefix(n).len() == self.stored_prefix((n - 1) as nat).len() + self.stored((n - 1) as int).len());
        }
    }
}

/// The bitmask word and bit of a fragment id.
proof fn lemma_id_bit(id: u8)
    ensures
        (id >> 5) as int == id / 32,
        (id & 31) as int == id % 32,
        (id >> 5) < 8,
        (id & 31) < 32,
{
    assert((id >> 5) as int == id / 32 && (id & 31) as int == id % 32 && (id >> 5) < 8 && (id & 31) < 32) by (bit_vector);
}

/// An all-zero bitmask marks nothing.
proof fn lemma_no_marks(words: Seq<u32>)
    requires
        words.len() == 8,
        forall|i: int| 0 <= i < 8 ==> #[trigger] words[i] == 0,
    ensures
        forall|id: int| 0 <= id < 256 ==> !#[trigger] id_marked(words, id),
        forall|n: nat| n <= 256 ==> #[trigger] marked_count(words, n) == 0,
{
    assert forall|id: int| 0 <= id < 256 implies !#[trigger] id_marked(words, id) by {
        let b = (id % 32) as u32;
        assert((0u32 >> b) & 1u32 == 0u32) by (bit_vector);
    }
    assert forall|n: nat| n <= 256 implies #[trigger] marked_count(words, n) == 0 by {
        lemma_marked_count_zero(words, n);
    }
}

proof fn lemma_marked_count_zero(words: Seq<u32>, n: nat)
    requires
        n <= 256,
        forall|id: int| 0 <= id < 256 ==> !#[trigger] id_marked(words, id),
    ensures
        marked_count(words, n) == 0,
    decreases n,
{
    if n > 0 {
        lemma_marked_count_zero(words, (n - 1) as nat);
    }
}

/// Slots `i` and `j` of `fs` bytes each do not overlap.
proof fn lemma_disjoint_slots(i: int, j: int, fs: int)
    requires
        0 <= i,
        0 <= j,
        i != j,
        fs >= 0,
    ensures
        i * fs + fs <= j * fs || j * fs + fs <= i * fs,
{
    if i < j {
        assert(i * fs + fs <= j * fs) by (nonlinear_arith)
            requires
                i < j,
                fs >= 0,
        ;
    } else {
        assert(j * fs + fs <= i * fs) by (nonlinear_arith)
            requires
                j < i,
                fs >= 0,
        ;
    }
}

/// A fragmented packet in the course of reassembly: the ack fields of its
/// first fragment, its declared fragment count, and the bytes of each
/// fragment received so far, by fragment id.
pub ghost struct PartialPacket {
    pub ack: u16,
    pub ack_bits: u32,
    pub num_fragments: u8,
    pub fragments: Map<int, Seq<u8>>,
}

/// Every fragment `0..num_fragments` of `p` has arrived.
pub open spec fn all_present(p: PartialPacket) -> bool {
    forall|i: int| 0 <= i < p.num_fragments ==> #[trigger] p.fragments.contains_key(i)
}

/// Fragments `0..n` of `fragments`, concatenated in id order.
pub open spec fn assembled(fragments: Map<int, Seq<u8>>, n: nat) -> Seq<u8>
    decreases n,
{
    if n == 0 {
        Seq::empty()
    } else {
        assembled(fragments, (n - 1) as nat) + fragments[n - 1]
    }
}

impl ReassemblyData {
    /// With every fragment present, the payload is the assembled fragments.
    proof fn lemma_payload_assembled(&self, n: nat)
        requires
            n == self.num_fragments,
            forall|i: int| 0 <= i < n ==> #[trigger] self.has(i),
        ensures
            self.payload() == assembled(self.partial().fragments, n),
    {
        self.lemma_prefix_assembled(n);
    }

    proof fn lemma_prefix_assembled(&self, m: nat)
        requires
            m <= self.num_fragments,
            forall|i: int| 0 <= i < self.num_fragments ==> #[trigger] self.has(i),
        ensures
            self.stored_prefix(m) == assembled(self.partial().fragments, m),
        decreases m,
    {
        if m > 0 {
            self.lemma_prefix_assembled((m - 1) as nat);
            assert(self.has(m - 1));
            assert(self.partial().fragments[m - 1] == self.stored(m - 1));
        }
    }

    /// The partial packet this slot holds.
    pub closed spec fn partial(&self) -> PartialPacket {
        PartialPacket {
            ack: self.ack,
            ack_bits: self.ack_bits,
            num_fragments: self.num_fragments,
            fragments: Map::new(
                |i: int| 0 <= i < self.num_fragments && self.has(i),
                |i: int| self.stored(i),
            ),
        }
    }
}

/// Marking counts at most `n` of the fragments `0..n`.
proof fn lemma_marked_count_bound(words: Seq<u32>, n: nat)
    ensures
        marked_count(words, n) <= n,
    decreases n,
{
    if n > 0 {
        lemma_marked_count_bound(words, (n - 1) as nat);
    }
}

/// When all of `0..n` count, all of them are marked.
proof fn lemma_marked_count_full(words: Seq<u32>, n: nat)
    requires
        marked_count(words, n) == n,
    ensures
        forall|i: int| 0 <= i < n ==> #[trigger] id_marked(words, i),
    decreases n,
{
    if n > 0 {
        lemma_marked_count_bound(words, (n - 1) as nat);
        lemma_marked_count_full(words, (n - 1) as nat);
    }
}

/// When all of `0..n` are marked, all of them count.
proof fn lemma_marked_count_all(words: Seq<u32>, n: nat)
    requires
        forall|i: int| 0 <= i < n ==> #[trigger] id_marked(words, i),
    ensures
        marked_count(words, n) == n,
    decreases n,
{
    if n > 0 {
        lemma_marked_count_all(words, (n - 1) as nat);
    }
}

/// Marking one more fragment below `n` adds one to the count.
proof fn lemma_marked_count_mark(a: Seq<u32>, b: Seq<u32>, id: int, n: nat)
    requires
        forall|x: int| 0 <= x < 256 ==> #[trigger] id_marked(b, x) == (id_marked(a, x) || x == id),
        0 <= id < n <= 256,
        !id_marked(a, id),
    ensures
        marked_count(b, n) == marked_count(a, n) + 1,
    decreases n,
{
    if n - 1 > id {
        lemma_marked_count_mark(a, b, id, (n - 1) as nat);
        assert(id_marked(b, n - 1) == id_marked(a, n - 1));
    } else {
        lemma_marked_count_same(a, b, id, (n - 1) as nat);
    }
}

/// Counts below the newly marked fragment do not change.
proof fn lemma_marked_count_same(a: Seq<u32>, b: Seq<u32>, id: int, n: nat)
    requires
        forall|x: int| 0 <= x < 256 ==> #[trigger] id_marked(b, x) == (id_marked(a, x) || x == id),
        n <= id < 256,
    ensures
        marked_count(b, n) == marked_count(a, n),
    decreases n,
{
    if n > 0 {
        lemma_marked_count_same(a, b, id, (n - 1) as nat);
        assert(id_marked(b, n - 1) == id_marked(a, n - 1));
    }
}

/// The first `k` pieces of `data` concatenated are its first `k` pieces'
/// worth of bytes.
proof fn lemma_pieces_prefix(data: Seq<u8>, fs: nat, f: Map<int, Seq<u8>>, k: nat)
    requires
        fs > 0,
        k * fs <= data.len() + fs,
        k == 0 || (k - 1) * fs < data.len(),
        forall|i: int| 0 <= i < k ==> #[trigger] f[i] == fragment_piece(data, fs, i),
    ensures
        assembled(f, k) == data.subrange(
            0,
            if k * fs < data.len() {
                (k * fs) as int
            } else {
                data.len() as int
            },
        ),
    decreases k,
{
    if k == 0 {
        assert(assembled(f, 0) =~= data.subrange(0, 0));
    } else {
        let j = (k - 1) as nat;
        assert(j * fs + fs == k * fs) by (nonlinear_arith)
            requires
                j == k - 1,
        ;
        assert(j * fs <= data.len() + fs);
        if j > 0 {
            assert((j - 1) * fs < data.len()) by (nonlinear_arith)
                requires
                    (k - 1) * fs < data.len(),
                    j == k - 1,
                    fs > 0,
            ;
        }
        lemma_pieces_prefix(data, fs, f, j);
        assert(j * fs < data.len());
        assert(assembled(f, k) == assembled(f, j) + f[j as int]);
        assert(assembled(f, k) =~= data.subrange(
            0,
            if k * fs < data.len() {
                (k * fs) as int
            } else {
                data.len() as int
            },
        ));
    }
}

/// Concatenating the pieces of `data` in fragment order gives back `data`.
pub proof fn lemma_pieces_assemble(data: Seq<u8>, fs: nat, f: Map<int, Seq<u8>>)
    requires
        fs > 0,
        data.len() > 0,
        forall|i: int|
            0 <= i < fragment_count(data.len(), fs) ==> #[trigger] f[i] == fragment_piece(data, fs, i),
    ensures
        assembled(f, fragment_count(data.len(), fs)) == data,
{
    let n = fragment_count(data.len(), fs);
    lemma_fragment_count(data.len(), fs);
    assert(n * fs <= data.len() + fs) by (nonlinear_arith)
        requires
            (n - 1) * fs < data.len(),
            fs > 0,
    ;
    lemma_pieces_prefix(data, fs, f, n);
    assert(data.subrange(0, data.len() as int) =~= data);
}

/// A piece of a fragmented payload is at most `fs` bytes.
proof fn lemma_piece_len(data: Seq<u8>, fs: nat, i: int)
    requires
        fs > 0,
        0 <= i,
        i * fs < data.len(),
    ensures
        fragment_piece(data, fs, i).len() <= fs,
        fragment_piece(data, fs, i).len() == (if i * fs + fs < data.len() {
            fs as int
        } else {
            data.len() - i * fs
        }),
{
}

/// A bitmask like `a` with fragment `id` marked as well.
proof fn lemma_marked_with(a: Seq<u32>, id: int) -> (b: Seq<u32>)
    requires
        a.len() == 8,
        0 <= id < 256,
    ensures
        b.len() == 8,
        forall|x: int| 0 <= x < 256 ==> #[trigger] id_marked(b, x) == (id_marked(a, x) || x == id),
{
    let w = id / 32;
    let bit = (id % 32) as u32;
    let b = a.update(w, a[w] | (1u32 << bit));
    assert forall|x: int| 0 <= x < 256 implies #[trigger] id_marked(b, x) == (id_marked(a, x) || x
        == id) by {
        let xw = x / 32;
        let xb = (x % 32) as u32;
        if xw == w {
            let v = a[w];
            assert(((v | (1u32 << bit)) >> xb) & 1u32 == 1u32 <==> ((v >> xb) & 1u32 == 1u32 || xb
                == bit)) by (bit_vector)
                requires
                    bit < 32 && xb < 32,
            ;
            assert(xb == bit <==> x == id);
        }
    }
    b
}

/// Fragment reassembly buffer.
///
/// A [`SequenceBuffer`] tracks which sequences are in flight and manages
/// the eviction window; the preallocated per-slot payload slabs live in
/// `slots`, indexed by `sequence & (capacity - 1)`.
pub struct FragmentReassemblyBuffer {
    /// Tracks which sequences are active and manages the eviction window.
    tracker: SequenceBuffer<()>,
    /// Preallocated per-slot reassembly state.
    slots: Vec<ReassemblyData>,
    /// Cached buffer capacity (= `slots.len()`). A power of two.
    capacity: usize,
    max_fragments: usize,
}

impl View for FragmentReassemblyBuffer {
    type V = Map<u16, PartialPacket>;

    /// The packets being reassembled, by sequence number.
    closed spec fn view(&self) -> Map<u16, PartialPacket> {
        Map::new(
            |s: u16| self.tracker@.contains_key(s),
            |s: u16| self.slots@[slot_of(s, self.capacity as nat)].partial(),
        )
    }
}

impl FragmentReassemblyBuffer {
    /// Maximum number of fragments of one packet.
    pub closed spec fn spec_max_fragments(&self) -> nat {
        self.max_fragments as nat
    }

    /// Size of each fragment slot in bytes.
    pub closed spec fn spec_fragment_size(&self) -> nat {
        self.slots@[0].spec_fragment_size()
    }

    /// Number of packets that can be in reassembly at once.
    pub closed spec fn spec_capacity(&self) -> nat {
        self.capacity as nat
    }

    /// Well-formedness.
    pub closed spec fn wf(&self) -> bool {
        &&& self.tracker.wf()
        &&& self.tracker.spec_size() == self.capacity
        &&& self.slots@.len() == self.capacity
        &&& spec_is_power_of_two(self.capacity)
        &&& self.max_fragments * self.spec_fragment_size() <= usize::MAX
        &&& forall|i: int|
            0 <= i < self.slots@.len() ==> {
                &&& (#[trigger] self.slots@[i]).wf()
                &&& self.slots@[i].spec_max_fragments() == self.max_fragments
                &&& self.slots@[i].spec_fragment_size() == self.spec_fragment_size()
            }
        &&& forall|s: u16|
            #[trigger] self.tracker@.contains_key(s) ==> {
                let d = self.slots@[slot_of(s, self.capacity as nat)];
                &&& d.sequence == s
                &&& d.consistent()
                &&& 1 <= d.num_fragments <= self.max_fragments
            }
    }

    /// The next expected sequence number of the reassembly window.
    pub closed spec fn window_sequence(&self) -> u16 {
        self.tracker.spec_sequence()
    }

    /// The next expected sequence number of the window after taking the
    /// fragment with header `h`: starting a fresh packet may move it.
    pub closed spec fn window_after(&self, h: FragmentHeader) -> u16 {
        if self.accepts(h) && !self@.contains_key(h.sequence) {
            self.tracker.sequence_after_insert(h.sequence)
        } else {
            self.tracker.spec_sequence()
        }
    }

    /// A fresh sequence number `s` can be taken in: it is not older than the
    /// window ending at the newest sequence tracked.
    pub closed spec fn can_track(&self, s: u16) -> bool {
        self.tracker.spec_can_insert(s)
    }

    /// The packets still in reassembly after starting a fresh one with
    /// sequence `s`: those whose slots starting it clears are dropped.
    pub closed spec fn view_after_start(&self, s: u16) -> Map<u16, PartialPacket> {
        self@.restrict(self.tracker.view_after_insert(s, ()).dom().remove(s))
    }

    /// The fragment with header `h` is taken: its counts are valid, it is
    /// not a duplicate, and its sequence is either in reassembly with the
    /// same fragment count, or fresh and not too old.
    pub open spec fn accepts(&self, h: FragmentHeader) -> bool {
        &&& 1 <= h.num_fragments <= self.spec_max_fragments()
        &&& h.fragment_id < h.num_fragments
        &&& if self@.contains_key(h.sequence) {
            &&& self@[h.sequence].num_fragments == h.num_fragments
            &&& !self@[h.sequence].fragments.contains_key(h.fragment_id as int)
        } else {
            self.can_track(h.sequence)
        }
    }

    /// The packets in reassembly after taking the fragment with header `h`,
    /// bytes `data` and (for a fresh packet) ack fields `ack`, `ack_bits`,
    /// before a completed packet is handed on.
    pub open spec fn after_fragment(
        &self,
        h: FragmentHeader,
        data: Seq<u8>,
        ack: u16,
        ack_bits: u32,
    ) -> Map<u16, PartialPacket> {
        let s = h.sequence;
        let base = if self@.contains_key(s) {
            self@
        } else {
            self.view_after_start(s).insert(
                s,
                PartialPacket { ack, ack_bits, num_fragments: h.num_fragments, fragments: Map::empty() },
            )
        };
        let p = base[s];
        base.insert(
            s,
            PartialPacket {
                fragments: p.fragments.insert(
                    h.fragment_id as int,
                    data.subrange(0, stored_len(data.len(), self.spec_fragment_size()) as int),
                ),
                ..p
            },
        )
    }

    /// The payload that taking this fragment completes, if it does.
    pub open spec fn completed_payload(
        &self,
        h: FragmentHeader,
        data: Seq<u8>,
        ack: u16,
        ack_bits: u32,
    ) -> Option<Seq<u8>> {
        let p = self.after_fragment(h, data, ack, ack_bits)[h.sequence];
        if self.accepts(h) && all_present(p) {
            Some(assembled(p.fragments, h.num_fragments as nat))
        } else {
            None
        }
    }

    /// The packet in reassembly for `k` survives starting a fresh packet for
    /// `s`: its slot is not one that starting `s` clears.
    pub open spec fn survives_start(&self, s: u16, k: u16) -> bool {
        let w = self.window_sequence();
        let size = self.spec_capacity();
        &&& !(seq_gt(seq_add(s, 1), w) && (k - w) % slot_window(size) < seq_distance(
            seq_add(s, 1),
            w,
        ))
        &&& slot_of(k, size) != slot_of(s, size)
    }

    /// What `can_track` and `view_after_start` mean, over the window's next
    /// expected sequence number and the capacity: a fresh sequence number is
    /// tracked when it is not older than the window, and starting it keeps
    /// the packets in reassembly whose slots it does not clear.
    pub proof fn lemma_window(&self, s: u16)
        requires
            self.wf(),
        ensures
            self.can_track(s) == !seq_lt(
                s,
                seq_add(self.window_sequence(), -(self.spec_capacity() % 65536)),
            ),
            self.view_after_start(s) == self@.restrict(
                Set::new(|k: u16| self@.contains_key(k) && k != s && self.survives_start(s, k)),
            ),
    {
        assert(self.view_after_start(s) =~= self@.restrict(
            Set::new(|k: u16| self@.contains_key(k) && k != s && self.survives_start(s, k)),
        ));
    }

    /// Create a new fragment reassembly buffer with all slabs preallocated.
    pub fn new(size: usize, fragment_size: usize, max_fragments: usize) -> (r: Self)
        requires
            spec_is_power_of_two(size),
            max_fragments * fragment_size <= usize::MAX,
        ensures
            r.wf(),
            r@ == Map::<u16, PartialPacket>::empty(),
            r.spec_max_fragments() == max_fragments,
            r.spec_fragment_size() == fragment_size,
            r.spec_capacity() == size,
            r.window_sequence() == 0,
    {
        let mut slots: Vec<ReassemblyData> = Vec::with_capacity(size);
        let mut i: usize = 0;
        while i < size
            invariant
                i <= size,
                slots@.len() == i,
                max_fragments * fragment_size <= usize::MAX,
                forall|j: int|
                    0 <= j < i ==> {
                        &&& (#[trigger] slots@[j]).wf()
                        &&& slots@[j].spec_max_fragments() == max_fragments
                        &&& slots@[j].spec_fragment_size() == fragment_size
                    },
            decreases size - i,
        {
            slots.push(ReassemblyData::new_preallocated(max_fragments, fragment_size));
            i = i + 1;
        }
        let r = Self {
            tracker: SequenceBuffer::new(size),
            slots,
            capacity: size,
            max_fragments,
        };
        assert(r@ =~= Map::<u16, PartialPacket>::empty());
        r
    }

    /// Reset the buffer, discarding all in-progress reassembly.
    ///
    /// Preallocated slabs are retained.
    pub fn reset(&mut self)
        requires
            old(self).wf(),
        ensures
            final(self).wf(),
            final(self)@ == Map::<u16, PartialPacket>::empty(),
            final(self).spec_max_fragments() == old(self).spec_max_fragments(),
            final(self).spec_fragment_size() == old(self).spec_fragment_size(),
            final(self).spec_capacity() == old(self).spec_capacity(),
            final(self).window_sequence() == 0,
    {
        self.tracker.reset();
        assert(self@ =~= Map::<u16, PartialPacket>::empty());
    }

    /// After taking in a fresh sequence `s` (tracker insert and slot reset),
    /// the buffer is well formed and holds the surviving packets plus an
    /// empty one for `s`.
    proof fn lemma_after_start(
        new_self: Self,
        old_self: Self,
        s: u16,
        ack: u16,
        ack_bits: u32,
        num: u8,
    )
        requires
            old_self.wf(),
            !old_self.tracker@.contains_key(s),
            1 <= num <= old_self.max_fragments,
            new_self.capacity == old_self.capacity,
            new_self.max_fragments == old_self.max_fragments,
            new_self.tracker.wf(),
            new_self.tracker.spec_size() == old_self.tracker.spec_size(),
            new_self.tracker@ == old_self.tracker.view_after_insert(s, ()),
            new_self.slots@.len() == old_self.slots@.len(),
            forall|i: int|
                0 <= i < old_self.slots@.len() && i != slot_of(s, old_self.capacity as nat)
                    ==> #[trigger] new_self.slots@[i] == old_self.slots@[i],
            ({
                let d = new_self.slots@[slot_of(s, old_self.capacity as nat)];
                &&& d.wf()
                &&& d.consistent()
                &&& d.spec_max_fragments() == old_self.max_fragments
                &&& d.spec_fragment_size() == old_self.spec_fragment_size()
                &&& d.sequence == s
                &&& d.ack == ack
                &&& d.ack_bits == ack_bits
                &&& d.num_fragments == num
                &&& forall|id: int| 0 <= id < 256 ==> !#[trigger] d.has(id)
            }),
        ensures
            new_self.wf(),
            new_self.spec_fragment_size() == old_self.spec_fragment_size(),
            new_self@ == old_self.view_after_start(s).insert(
                s,
                PartialPacket { ack, ack_bits, num_fragments: num, fragments: Map::empty() },
            ),
    {
        let c = old_self.capacity as nat;
        let idx = slot_of(s, c);
        assert(new_self.spec_fragment_size() == old_self.spec_fragment_size()) by {
            if idx != 0 {
                assert(new_self.slots@[0] == old_self.slots@[0]);
            }
        }
        assert forall|k: u16| #[trigger] new_self.tracker@.contains_key(k) implies {
            let d = new_self.slots@[slot_of(k, c)];
            &&& d.sequence == k
            &&& d.consistent()
            &&& 1 <= d.num_fragments <= new_self.max_fragments
        } by {
            if k != s {
                assert(old_self.tracker@.contains_key(k));
                assert(slot_of(k, c) != idx);
                assert(new_self.slots@[slot_of(k, c)] == old_self.slots@[slot_of(k, c)]);
            }
        }
        assert forall|i: int| 0 <= i < new_self.slots@.len() implies {
            &&& (#[trigger] new_self.slots@[i]).wf()
            &&& new_self.slots@[i].spec_max_fragments() == new_self.max_fragments
            &&& new_self.slots@[i].spec_fragment_size() == new_self.spec_fragment_size()
        } by {
            if i != idx {
                assert(new_self.slots@[i] == old_self.slots@[i]);
            }
        }
        let fresh = PartialPacket { ack, ack_bits, num_fragments: num, fragments: Map::empty() };
        assert(new_self.slots@[idx].partial() == fresh) by {
            assert(new_self.slots@[idx].partial().fragments =~= Map::<int, Seq<u8>>::empty());
        }
        let expected = old_self.view_after_start(s).insert(s, fresh);
        assert forall|k: u16| #[trigger] new_self@.contains_key(k) == expected.contains_key(k) by {}
        assert forall|k: u16| #[trigger] new_self@.contains_key(k) implies new_self@[k] == expected[k] by {
            if k != s {
                assert(slot_of(k, c) != idx);
                assert(new_self.slots@[slot_of(k, c)] == old_self.slots@[slot_of(k, c)]);
            }
        }
        assert(new_self@ =~= expected);
    }

    /// After storing and marking fragment `h.fragment_id` of the packet in
    /// reassembly for `h.sequence` (and counting it), the buffer is well
    /// formed and holds `after_fragment`.
    proof fn lemma_after_store(
        new_self: Self,
        old_self: Self,
        mid_self: Self,
        h: FragmentHeader,
        data: Seq<u8>,
        ack: u16,
        ack_bits: u32,
    )
        requires
            old_self.wf(),
            mid_self.wf(),
            old_self.accepts(h),
            mid_self.capacity == old_self.capacity,
            mid_self.max_fragments == old_self.max_fragments,
            mid_self.spec_fragment_size() == old_self.spec_fragment_size(),
            mid_self.tracker@.contains_key(h.sequence),
            mid_self@ == (if old_self@.contains_key(h.sequence) {
                old_self@
            } else {
                old_self.view_after_start(h.sequence).insert(
                    h.sequence,
                    PartialPacket {
                        ack,
                        ack_bits,
                        num_fragments: h.num_fragments,
                        fragments: Map::empty(),
                    },
                )
            }),
            new_self.capacity == mid_self.capacity,
            new_self.max_fragments == mid_self.max_fragments,
            new_self.tracker == mid_self.tracker,
            new_self.slots@.len() == mid_self.slots@.len(),
            forall|i: int|
                0 <= i < mid_self.slots@.len() && i != slot_of(h.sequence, mid_self.capacity as nat)
                    ==> #[trigger] new_self.slots@[i] == mid_self.slots@[i],
            ({
                let c = mid_self.capacity as nat;
                let before = mid_self.slots@[slot_of(h.sequence, c)];
                let after = new_self.slots@[slot_of(h.sequence, c)];
                &&& !before.has(h.fragment_id as int)
                &&& after.wf()
                &&& after.spec_max_fragments() == before.spec_max_fragments()
                &&& after.spec_fragment_size() == before.spec_fragment_size()
                &&& after.sequence == before.sequence
                &&& after.ack == before.ack
                &&& after.ack_bits == before.ack_bits
                &&& after.num_fragments == before.num_fragments
                &&& after.num_fragments_received == before.num_fragments_received + 1
                &&& after.num_fragments_received == marked_count(
                    after.fragment_received@,
                    after.num_fragments as nat,
                )
                &&& forall|x: int|
                    0 <= x < 256 ==> #[trigger] after.has(x) == (before.has(x) || x
                        == h.fragment_id)
                &&& after.stored(h.fragment_id as int) == data.subrange(
                    0,
                    stored_len(data.len(), before.spec_fragment_size()) as int,
                )
                &&& forall|i: int|
                    0 <= i < before.spec_max_fragments() && i != h.fragment_id
                        ==> #[trigger] after.stored(i) == before.stored(i)
            }),
        ensures
            new_self.wf(),
            new_self.spec_fragment_size() == old_self.spec_fragment_size(),
            new_self@ == old_self.after_fragment(h, data, ack, ack_bits),
    {
        let c = mid_self.capacity as nat;
        let s = h.sequence;
        let idx = slot_of(s, c);
        let before = mid_self.slots@[idx];
        let after = new_self.slots@[idx];
        assert(before.sequence == s && before.consistent());
        assert(mid_self@[s] == before.partial());
        assert(before.num_fragments == h.num_fragments);
        assert(new_self.spec_fragment_size() == mid_self.spec_fragment_size()) by {
            if idx != 0 {
                assert(new_self.slots@[0] == mid_self.slots@[0]);
            }
        }
        assert(after.consistent()) by {
            assert forall|x: int| 0 <= x < 256 && #[trigger] after.has(x) implies x
                < after.num_fragments by {
                if x != h.fragment_id {
                    assert(before.has(x));
                }
            }
        }
        assert forall|k: u16| #[trigger] new_self.tracker@.contains_key(k) implies {
            let d = new_self.slots@[slot_of(k, c)];
            &&& d.sequence == k
            &&& d.consistent()
            &&& 1 <= d.num_fragments <= new_self.max_fragments
        } by {
            assert(mid_self.tracker@.contains_key(k));
            if slot_of(k, c) != idx {
                assert(new_self.slots@[slot_of(k, c)] == mid_self.slots@[slot_of(k, c)]);
            }
        }
        assert forall|i: int| 0 <= i < new_self.slots@.len() implies {
            &&& (#[trigger] new_self.slots@[i]).wf()
            &&& new_self.slots@[i].spec_max_fragments() == new_self.max_fragments
            &&& new_self.slots@[i].spec_fragment_size() == new_self.spec_fragment_size()
        } by {
            if i != idx {
                assert(new_self.slots@[i] == mid_self.slots@[i]);
            }
        }
        let stored_bytes = data.subrange(0, stored_len(data.len(), old_self.spec_fragment_size()) as int);
        assert(mid_self@[s] == before.partial());
        assert(after.partial() == PartialPacket {
            fragments: before.partial().fragments.insert(h.fragment_id as int, stored_bytes),
            ..before.partial()
        }) by {
            assert(after.partial().fragments =~= before.partial().fragments.insert(
                h.fragment_id as int,
                stored_bytes,
            ));
        }
        let expected = old_self.after_fragment(h, data, ack, ack_bits);
        assert forall|k: u16| #[trigger] new_self@.contains_key(k) == expected.contains_key(k) by {}
        assert forall|k: u16| #[trigger] new_self@.contains_key(k) implies new_self@[k] == expected[k] by {
            if k != s {
                assert(slot_of(k, c) != idx) by {
                    assert(mid_self.tracker@.contains_key(k));
                    assert(mid_self.slots@[slot_of(k, c)].sequence == k);
                }
                assert(new_self.slots@[slot_of(k, c)] == mid_self.slots@[slot_of(k, c)]);
                assert(new_self@[k] == mid_self@[k]);
            }
        }
        assert(new_self@ =~= expected);
    }

    /// The length of the payload that taking the fragment with header
    /// `header` and bytes `fragment_data` would complete, if it would.
    pub fn completed_len(&self, header: &FragmentHeader, fragment_data: &[u8]) -> (r: Option<usize>)
        requires
            self.wf(),
        ensures
            forall|ack: u16, ack_bits: u32|
                #![trigger self.completed_payload(*header, fragment_data@, ack, ack_bits)]
                {
                    let c = self.completed_payload(*header, fragment_data@, ack, ack_bits);
                    &&& r is Some <==> c is Some
                    &&& r matches Some(n) ==> c->0.len() == n
                },
    {
        let ghost s = header.sequence;
        let ghost id = header.fragment_id as int;
        let ghost n = header.num_fragments as nat;
        let ghost data = fragment_data@;
        if header.num_fragments == 0 || header.num_fragments as usize > self.max_fragments {
            return None;
        }
        if header.fragment_id >= header.num_fragments {
            return None;
        }
        proof {
            lemma_mask_is_mod(header.sequence as usize, self.capacity);
        }
        let idx = (header.sequence as usize) & (self.capacity - 1);
        assert(idx == slot_of(s, self.capacity as nat));
        let fragment_size = self.slots[idx].fragment_size;
        let kept = if fragment_data.len() < fragment_size {
            fragment_data.len()
        } else {
            fragment_size
        };
        let stored = (kept as u16) as usize;
        proof {
            lemma_truncate_u16(kept);
            assert(stored == stored_len(data.len(), self.spec_fragment_size()));
            assert(stored <= data.len());
            assert(stored <= fragment_size);
        }
        if !self.tracker.entry_exists(header.sequence) {
            if !self.tracker.can_insert(header.sequence) {
                return None;
            }
            proof {
                assert forall|ack: u16, ack_bits: u32| #![trigger self.completed_payload(*header, data, ack, ack_bits)]
                    {
                        let c = self.completed_payload(*header, data, ack, ack_bits);
                        &&& (n == 1) <==> c is Some
                        &&& n == 1 ==> c->0.len() == stored
                    } by {
                    let p = self.after_fragment(*header, data, ack, ack_bits)[s];
                    assert(self.accepts(*header));
                    assert(p.fragments == Map::<int, Seq<u8>>::empty().insert(
                        id,
                        data.subrange(0, stored as int),
                    ));
                    if n == 1 {
                        assert(all_present(p));
                        assert(assembled(p.fragments, 1) =~= assembled(p.fragments, 0) + p.fragments[0]);
                    } else {
                        let missing = if id == 0 {
                            1int
                        } else {
                            0int
                        };
                        assert(!p.fragments.contains_key(missing));
                    }
                }
            }
            if header.num_fragments == 1 {
                return Some(stored);
            } else {
                return None;
            }
        }
        let slot = &self.slots[idx];
        if slot.sequence != header.sequence {
            return None;
        }
        if slot.num_fragments != header.num_fragments {
            return None;
        }
        if slot.has_fragment(header.fragment_id) {
            return None;
        }
        proof {
            assert(self.tracker@.contains_key(s));
            assert(self@[s] == slot.partial());
            assert(self.accepts(*header));
        }
        let ghost a = slot.fragment_received@;
        let ghost b = lemma_marked_with(a, id);
        proof {
            assert(slot.consistent());
            lemma_marked_count_bound(a, n);
            lemma_marked_count_mark(a, b, id, n);
        }
        if slot.num_fragments_received as usize + 1 != header.num_fragments as usize {
            proof {
                assert forall|ack: u16, ack_bits: u32| #![trigger self.completed_payload(*header, data, ack, ack_bits)]
                    self.completed_payload(*header, data, ack, ack_bits) is None by {
                    let p = self.after_fragment(*header, data, ack, ack_bits)[s];
                    if all_present(p) {
                        assert forall|i: int| 0 <= i < n implies #[trigger] id_marked(b, i) by {
                            assert(p.fragments.contains_key(i));
                            if i != id {
                                assert(slot.partial().fragments.contains_key(i));
                            }
                        }
                        lemma_marked_count_all(b, n);
                    }
                }
            }
            return None;
        }
        proof {
            lemma_marked_count_full(b, n);
        }
        let mut total: usize = 0;
        let mut i: usize = 0;
        let ghost f = self.after_fragment(*header, data, 0, 0)[s].fragments;
        proof {
            assert forall|j: int| 0 <= j < n && j != id implies #[trigger] slot.has(j) by {
                assert(id_marked(b, j));
            }
            assert forall|j: int| 0 <= j < n implies #[trigger] f.contains_key(j) by {
                if j != id {
                    assert(slot.has(j));
                }
            }
            assert(f[id] == data.subrange(0, stored as int));
            assert forall|j: int| 0 <= j < n && j != id implies #[trigger] f[j] == slot.stored(j) by {
                assert(slot.has(j));
            }
            assert(n * fragment_size <= self.max_fragments * fragment_size) by (nonlinear_arith)
                requires
                    n <= self.max_fragments,
            ;
        }
        let count = header.num_fragments as usize;
        while i < count
            invariant
                i <= count,
                count == n,
                n <= slot.spec_max_fragments(),
                slot.wf(),
                fragment_size == slot.fragment_size,
                stored <= fragment_size,
                id == header.fragment_id,
                0 <= id < n,
                n * fragment_size <= usize::MAX,
                forall|j: int| 0 <= j < n && j != id ==> #[trigger] f[j] == slot.stored(j),
                f[id] == data.subrange(0, stored as int),
                stored <= data.len(),
                total == assembled(f, i as nat).len(),
                total <= i * fragment_size,
            decreases count - i,
        {
            proof {
                if i != id {
                    slot.lemma_stored_len(i as int);
                }
                assert((i + 1) * fragment_size <= n * fragment_size) by (nonlinear_arith)
                    requires
                        i < n,
                ;
                assert((i + 1) * fragment_size == i * fragment_size + fragment_size) by (nonlinear_arith);
                assert(assembled(f, (i + 1) as nat) == assembled(f, i as nat) + f[i as int]);
            }
            let len = if i == header.fragment_id as usize {
                stored
            } else {
                slot.fragment_lens[i] as usize
            };
            proof {
                if i as int == id {
                    assert(f[i as int].len() == stored);
                } else {
                    assert(f[i as int] == slot.stored(i as int));
                    assert(slot.stored(i as int).len() == slot.fragment_lens@[i as int]);
                }
                assert(len == f[i as int].len());
            }
            total = total + len;
            i = i + 1;
        }
        proof {
            assert forall|ack: u16, ack_bits: u32| #![trigger self.completed_payload(*header, data, ack, ack_bits)]
                {
                    let c = self.completed_payload(*header, data, ack, ack_bits);
                    &&& c is Some
                    &&& c->0.len() == total
                } by {
                let p = self.after_fragment(*header, data, ack, ack_bits)[s];
                assert(p.fragments == f);
                assert(all_present(p));
            }
        }
        Some(total)
    }

    /// Process a received fragment.
    ///
    /// On completion, writes the reassembled payload into `incoming_queue`
    /// and returns `Some(payload_bytes)`. Returns `None` if reassembly is not
    /// yet complete, or the fragment is invalid or duplicate. A completed
    /// payload that the incoming queue cannot take (the queue is full, or the
    /// payload is longer than a slot) is dropped, and `None` returned.
    pub fn process_fragment(
        &mut self,
        header: &FragmentHeader,
        fragment_data: &[u8],
        ack: u16,
        ack_bits: u32,
        incoming_queue: &mut PacketQueue,
    ) -> (r: Option<usize>)
        requires
            old(self).wf(),
            old(incoming_queue).wf(),
        ensures
            final(self).wf(),
            final(self).spec_max_fragments() == old(self).spec_max_fragments(),
            final(self).spec_fragment_size() == old(self).spec_fragment_size(),
            final(self).spec_capacity() == old(self).spec_capacity(),
            final(self).window_sequence() == old(self).window_after(*header),
            final(incoming_queue).wf(),
            final(incoming_queue).spec_capacity() == old(incoming_queue).spec_capacity(),
            final(incoming_queue).spec_slot_capacity() == old(incoming_queue).spec_slot_capacity(),
            !old(self).accepts(*header) ==> {
                &&& r is None
                &&& final(self)@ == old(self)@
                &&& final(incoming_queue)@ == old(incoming_queue)@
            },
            old(self).accepts(*header) && old(self).completed_payload(
                *header,
                fragment_data@,
                ack,
                ack_bits,
            ) is None ==> {
                &&& r is None
                &&& final(self)@ == old(self).after_fragment(*header, fragment_data@, ack, ack_bits)
                &&& final(incoming_queue)@ == old(incoming_queue)@
            },
            old(self).completed_payload(*header, fragment_data@, ack, ack_bits) matches Some(p)
                ==> {
                &&& final(self)@ == old(self).after_fragment(
                    *header,
                    fragment_data@,
                    ack,
                    ack_bits,
                ).remove(header.sequence)
                &&& if old(incoming_queue)@.len() < old(incoming_queue).spec_capacity() && p.len()
                    <= old(incoming_queue).spec_slot_capacity() {
                    &&& r == Some(p.len() as usize)
                    &&& final(incoming_queue)@ == old(incoming_queue)@.push((header.sequence, p))
                } else {
                    &&& r is None
                    &&& final(incoming_queue)@ == old(incoming_queue)@
                }
            },
    {
        let ghost old_self = *self;
        let ghost s = header.sequence;
        let ghost id = header.fragment_id as int;
        let ghost n = header.num_fragments as nat;
        if header.num_fragments == 0 || header.num_fragments as usize > self.max_fragments {
            return None;
        }
        if header.fragment_id >= header.num_fragments {
            return None;
        }
        proof {
            lemma_mask_is_mod(header.sequence as usize, self.capacity);
        }
        let idx = (header.sequence as usize) & (self.capacity - 1);
        assert(idx == slot_of(s, self.capacity as nat));
        let is_new = !self.tracker.entry_exists(header.sequence);
        if is_new {
            if !self.tracker.can_insert(header.sequence) {
                return None;
            }
            let _ = self.tracker.insert(header.sequence);
            self.slots[idx].reset(header.sequence, ack, ack_bits, header.num_fragments);
            proof {
                Self::lemma_after_start(*self, old_self, s, ack, ack_bits, header.num_fragments);
            }
        } else {
            if self.slots[idx].sequence != header.sequence {
                return None;
            }
            if self.slots[idx].num_fragments != header.num_fragments {
                return None;
            }
        }
        let ghost mid_self = *self;
        if self.slots[idx].has_fragment(header.fragment_id) {
            return None;
        }
        assert(old_self.accepts(*header));
        self.slots[idx].store_fragment(header.fragment_id, fragment_data);
        let ghost s1 = self.slots@[idx as int];
        self.slots[idx].mark_fragment(header.fragment_id);
        let ghost s2 = self.slots@[idx as int];
        proof {
            let before = mid_self.slots@[idx as int];
            assert(before.partial() == mid_self@[s]);
            assert(before.num_fragments == header.num_fragments);
            assert(s2.fragment_data@ == s1.fragment_data@);
            assert forall|x: int| 0 <= x < 256 implies #[trigger] id_marked(
                s2.fragment_received@,
                x,
            ) == (id_marked(before.fragment_received@, x) || x == id) by {
                assert(s2.has(x) == (s1.has(x) || x == id));
                assert(s1.fragment_received == before.fragment_received);
            }
            assert(mid_self.tracker@.contains_key(s));
            assert(before.consistent());
            lemma_marked_count_bound(before.fragment_received@, n);
            lemma_marked_count_mark(before.fragment_received@, s2.fragment_received@, id, n);
            lemma_marked_count_bound(s2.fragment_received@, n);
            assert(s2.num_fragments_received == before.num_fragments_received);
        }
        self.slots[idx].num_fragments_received += 1;
        proof {
            let before = mid_self.slots@[idx as int];
            let after = self.slots@[idx as int];
            assert(after.fragment_received == s2.fragment_received);
            assert forall|x: int| 0 <= x < 256 implies #[trigger] after.has(x) == (before.has(x)
                || x == id) by {
                assert(s2.has(x) == (s1.has(x) || x == id));
            }
            assert(after.stored(id) == s1.stored(id));
            assert forall|i: int|
                0 <= i < before.spec_max_fragments() && i != id implies #[trigger] after.stored(i)
                == before.stored(i) by {
                assert(s1.stored(i) == before.stored(i));
            }
            Self::lemma_after_store(*self, old_self, mid_self, *header, fragment_data@, ack, ack_bits);
        }
        if self.slots[idx].is_complete() {
            let slot = &self.slots[idx];
            proof {
                lemma_marked_count_full(slot.fragment_received@, n);
                slot.lemma_payload_assembled(n);
            }
            let payload_len = slot.payload_len();
            let copy = |buf: &mut [u8]| -> (written: usize)
                requires
                    slot.wf(),
                    slot.payload().len() <= old(buf)@.len(),
                ensures
                    written == slot.payload().len(),
                    written <= old(buf)@.len(),
                    final(buf)@.len() == old(buf)@.len(),
                    final(buf)@.subrange(0, written as int) == slot.payload(),
                { slot.copy_to(buf) };
            let delivered = if incoming_queue.is_full() || payload_len > incoming_queue.slot_capacity() {
                false
            } else {
                incoming_queue.write_slot(header.sequence, copy)
            };
            self.tracker.remove(header.sequence);
            proof {
                assert(self@ =~= old_self.after_fragment(*header, fragment_data@, ack, ack_bits).remove(s));
            }
            if delivered {
                Some(payload_len)
            } else {
                None
            }
        } else {
            proof {
                let slot = self.slots@[idx as int];
                assert(self.tracker@.contains_key(s));
                assert(self@[s] == slot.partial());
                if all_present(self@[s]) {
                    assert forall|i: int| 0 <= i < n implies #[trigger] id_marked(
                        slot.fragment_received@,
                        i,
                    ) by {
                        assert(slot.partial().fragments.contains_key(i));
                    }
                    lemma_marked_count_all(slot.fragment_received@, n);
                }
            }
            None
        }
    }
}

impl FragmentReassemblyBuffer {
    /// Reassembly in any order: the pieces of `data`, `fs` bytes each, taken
    /// one at a time in any order under sequence `s` are each accepted and
    /// kept, and the one that completes the set delivers exactly `data`.
    ///
    /// Stated for one step: when the buffer holds, for `s`, only pieces of
    /// `data` (or nothing, with `s` not too old), taking the missing piece
    /// `i` is accepted, the buffer then holds the pieces it held plus piece
    /// `i`, and the completed payload is `data` once every piece is present.
    pub proof fn lemma_reassembly_any_order(
        &self,
        s: u16,
        data: Seq<u8>,
        i: int,
        ack: u16,
        ack_bits: u32,
    )
        requires
            self.wf(),
            0 < self.spec_fragment_size() < 65536,
            data.len() > 0,
            fragment_count(data.len(), self.spec_fragment_size()) <= self.spec_max_fragments(),
            fragment_count(data.len(), self.spec_fragment_size()) <= 255,
            0 <= i < fragment_count(data.len(), self.spec_fragment_size()),
            self@.contains_key(s) ==> {
                let p = self@[s];
                &&& p.num_fragments == fragment_count(data.len(), self.spec_fragment_size())
                &&& !p.fragments.contains_key(i)
                &&& forall|j: int| #[trigger]
                    p.fragments.contains_key(j) ==> p.fragments[j] == fragment_piece(
                        data,
                        self.spec_fragment_size(),
                        j,
                    )
            },
            !self@.contains_key(s) ==> self.can_track(s),
        ensures
            ({
                let fs = self.spec_fragment_size();
                let n = fragment_count(data.len(), fs);
                let h = FragmentHeader { sequence: s, fragment_id: i as u8, num_fragments: n as u8 };
                let piece = fragment_piece(data, fs, i);
                let p = self.after_fragment(h, piece, ack, ack_bits)[s];
                &&& self.accepts(h)
                &&& self.after_fragment(h, piece, ack, ack_bits).contains_key(s)
                &&& p.num_fragments == n
                &&& forall|j: int| #[trigger] p.fragments.contains_key(j) ==> 0 <= j < n
                &&& p.fragments.dom() == (if self@.contains_key(s) {
                    self@[s].fragments.dom()
                } else {
                    Set::<int>::empty()
                }).insert(i)
                &&& forall|j: int| #[trigger]
                    p.fragments.contains_key(j) ==> p.fragments[j] == fragment_piece(data, fs, j)
                &&& self.completed_payload(h, piece, ack, ack_bits) == if all_present(p) {
                    Some(data)
                } else {
                    None
                }
            }),
    {
        let fs = self.spec_fragment_size();
        let n = fragment_count(data.len(), fs);
        let h = FragmentHeader { sequence: s, fragment_id: i as u8, num_fragments: n as u8 };
        let piece = fragment_piece(data, fs, i);
        lemma_fragment_count(data.len(), fs);
        assert(i * fs <= (n - 1) * fs) by (nonlinear_arith)
            requires
                i <= n - 1,
        ;
        lemma_piece_len(data, fs, i);
        assert(stored_len(piece.len(), fs) == piece.len());
        assert(piece.subrange(0, piece.len() as int) =~= piece);
        assert(self.accepts(h));
        let p = self.after_fragment(h, piece, ack, ack_bits)[s];
        if self@.contains_key(s) {
            assert(p.fragments.dom() =~= self@[s].fragments.dom().insert(i));
        } else {
            assert(p.fragments.dom() =~= Set::<int>::empty().insert(i));
        }
        assert forall|j: int| #[trigger] p.fragments.contains_key(j) implies p.fragments[j]
            == fragment_piece(data, fs, j) by {
            if j != i {
                assert(self@.contains_key(s));
            }
        }
        if all_present(p) {
            assert(p.num_fragments == n);
            assert forall|j: int| 0 <= j < n implies #[trigger] p.fragments[j] == fragment_piece(
                data,
                fs,
                j,
            ) by {
                assert(p.fragments.contains_key(j));
            }
            lemma_pieces_assemble(data, fs, p.fragments);
        }
    }
}

/// The header of fragment `i` of `n` of packet `s`.
pub open spec fn piece_header(s: u16, i: int, n: nat) -> FragmentHeader {
    FragmentHeader { sequence: s, fragment_id: i as u8, num_fragments: n as u8 }
}

/// The fragments of `data` taken in the order `order` by the chain of
/// buffers `bufs`, where each buffer is the one before it after taking the
/// next fragment.
pub open spec fn reassembly_chain(
    bufs: Seq<FragmentReassemblyBuffer>,
    order: Seq<int>,
    s: u16,
    data: Seq<u8>,
    ack: u16,
    ack_bits: u32,
) -> bool {
    let fs = bufs[0].spec_fragment_size();
    let n = order.len();
    &&& bufs.len() == n
    &&& forall|k: int|
        0 <= k < bufs.len() ==> {
            &&& (#[trigger] bufs[k]).wf()
            &&& bufs[k].spec_fragment_size() == fs
            &&& bufs[k].spec_max_fragments() == bufs[0].spec_max_fragments()
        }
    &&& forall|k: int|
        0 <= k < n - 1 ==> #[trigger] bufs[k + 1]@ == bufs[k].after_fragment(
            piece_header(s, order[k], n),
            fragment_piece(data, fs, order[k]),
            ack,
            ack_bits,
        )
}

/// The chain up to buffer `k` holds, for `s`, exactly the fragments taken so
/// far, none of them completing the packet.
proof fn lemma_chain_prefix(
    bufs: Seq<FragmentReassemblyBuffer>,
    order: Seq<int>,
    s: u16,
    data: Seq<u8>,
    ack: u16,
    ack_bits: u32,
    k: int,
)
    requires
        order.len() > 0,
        0 < bufs[0].spec_fragment_size() < 65536,
        data.len() > 0,
        order.len() == fragment_count(data.len(), bufs[0].spec_fragment_size()),
        order.len() <= bufs[0].spec_max_fragments(),
        order.len() <= 255,
        order.no_duplicates(),
        forall|j: int| 0 <= j < order.len() ==> 0 <= #[trigger] order[j] < order.len(),
        !bufs[0]@.contains_key(s),
        bufs[0].can_track(s),
        reassembly_chain(bufs, order, s, data, ack, ack_bits),
        0 <= k < order.len(),
    ensures
        k > 0 ==> {
            let p = bufs[k]@[s];
            &&& bufs[k]@.contains_key(s)
            &&& p.num_fragments == order.len()
            &&& p.fragments.dom() == order.subrange(0, k).to_set()
            &&& forall|j: int| #[trigger]
                p.fragments.contains_key(j) ==> p.fragments[j] == fragment_piece(
                    data,
                    bufs[0].spec_fragment_size(),
                    j,
                )
        },
        forall|j: int|
            0 <= j < k ==> (#[trigger] bufs[j]).completed_payload(
                piece_header(s, order[j], order.len()),
                fragment_piece(data, bufs[0].spec_fragment_size(), order[j]),
                ack,
                ack_bits,
            ) is None,
    decreases k,
{
    let fs = bufs[0].spec_fragment_size();
    let n = order.len();
    if k > 0 {
        let j = k - 1;
        lemma_chain_prefix(bufs, order, s, data, ack, ack_bits, j);
        let b = bufs[j];
        assert(b.wf() && b.spec_fragment_size() == fs);
        let i = order[j];
        if j > 0 {
            assert(!order.subrange(0, j).to_set().contains(i)) by {
                if order.subrange(0, j).to_set().contains(i) {
                    let m = choose|m: int| 0 <= m < j && order.subrange(0, j)[m] == i;
                    assert(order[m] == order[j]);
                }
            }
        }
        b.lemma_reassembly_any_order(s, data, i, ack, ack_bits);
        let h = piece_header(s, i, n);
        let p = b.after_fragment(h, fragment_piece(data, fs, i), ack, ack_bits)[s];
        assert(order.subrange(0, k).to_set() =~= order.subrange(0, j).to_set().insert(i)) by {
            assert(order.subrange(0, k) =~= order.subrange(0, j).push(i));
            order.subrange(0, j).lemma_push_to_set_commute(i);
        }
        if j == 0 {
            assert(order.subrange(0, 0).to_set() =~= Set::<int>::empty());
        }
        assert(p.fragments.dom() =~= order.subrange(0, k).to_set());
        if all_present(p) {
            let dom = p.fragments.dom();
            let prefix = order.subrange(0, k);
            assert(prefix.no_duplicates());
            prefix.unique_seq_to_set();
            vstd::set_lib::lemma_int_range(0, n as int);
            assert(vstd::set_lib::set_int_range(0, n as int).subset_of(dom)) by {
                assert forall|x: int| #[trigger] vstd::set_lib::set_int_range(0, n as int).contains(x)
                    implies dom.contains(x) by {
                    assert(p.fragments.contains_key(x));
                }
            }
            vstd::seq_lib::seq_to_set_is_finite(prefix);
            vstd::set_lib::lemma_len_subset(vstd::set_lib::set_int_range(0, n as int), dom);
            assert(false);
        }
        assert(bufs[j + 1]@ == bufs[j].after_fragment(
            piece_header(s, order[j], n),
            fragment_piece(data, fs, order[j]),
            ack,
            ack_bits,
        ));
    }
}

/// Reassembly of a whole packet in any order: the fragments of `data`
/// taken once each, in any order, complete nothing until the last one, and
/// the last one completes the packet with exactly `data`.
pub proof fn lemma_reassembly_permutation(
    bufs: Seq<FragmentReassemblyBuffer>,
    order: Seq<int>,
    s: u16,
    data: Seq<u8>,
    ack: u16,
    ack_bits: u32,
)
    requires
        order.len() > 0,
        0 < bufs[0].spec_fragment_size() < 65536,
        data.len() > 0,
        order.len() == fragment_count(data.len(), bufs[0].spec_fragment_size()),
        order.len() <= bufs[0].spec_max_fragments(),
        order.len() <= 255,
        order.no_duplicates(),
        forall|j: int| 0 <= j < order.len() ==> 0 <= #[trigger] order[j] < order.len(),
        !bufs[0]@.contains_key(s),
        bufs[0].can_track(s),
        reassembly_chain(bufs, order, s, data, ack, ack_bits),
    ensures
        forall|j: int|
            0 <= j < order.len() - 1 ==> (#[trigger] bufs[j]).completed_payload(
                piece_header(s, order[j], order.len()),
                fragment_piece(data, bufs[0].spec_fragment_size(), order[j]),
                ack,
                ack_bits,
            ) is None,
        bufs[order.len() - 1].completed_payload(
            piece_header(s, order[order.len() - 1], order.len()),
            fragment_piece(data, bufs[0].spec_fragment_size(), order[order.len() - 1]),
            ack,
            ack_bits,
        ) == Some(data),
{
    let fs = bufs[0].spec_fragment_size();
    let n = order.len();
    let j = n - 1;
    lemma_chain_prefix(bufs, order, s, data, ack, ack_bits, j);
    let b = bufs[j];
    assert(b.wf() && b.spec_fragment_size() == fs);
    let i = order[j];
    if j > 0 {
        assert(!order.subrange(0, j).to_set().contains(i)) by {
            if order.subrange(0, j).to_set().contains(i) {
                let m = choose|m: int| 0 <= m < j && order.subrange(0, j)[m] == i;
                assert(order[m] == order[j]);
            }
        }
    }
    b.lemma_reassembly_any_order(s, data, i, ack, ack_bits);
    let h = piece_header(s, i, n);
    let p = b.after_fragment(h, fragment_piece(data, fs, i), ack, ack_bits)[s];
    assert(order =~= order.subrange(0, j).push(i));
    order.subrange(0, j).lemma_push_to_set_commute(i);
    assert(order.to_set() =~= order.subrange(0, j).to_set().insert(i));
    if j == 0 {
        assert(order.subrange(0, 0).to_set() =~= Set::<int>::empty());
    }
    assert(p.fragments.dom() =~= order.to_set());
    order.unique_seq_to_set();
    vstd::set_lib::lemma_int_range(0, n as int);
    assert(order.to_set().subset_of(vstd::set_lib::set_int_range(0, n as int)));
    vstd::set_lib::lemma_subset_equality(order.to_set(), vstd::set_lib::set_int_range(0, n as int));
    assert forall|x: int| 0 <= x < p.num_fragments implies #[trigger] p.fragments.contains_key(x) by {
        assert(vstd::set_lib::set_int_range(0, n as int).contains(x));
    }
}

} // verus!
