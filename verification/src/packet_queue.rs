//! Allocation-free packet queue for outgoing and incoming packet staging.
//!
//! [`PacketQueue`] is a fixed-capacity ring buffer where every slot owns a
//! byte buffer allocated once in [`PacketQueue::new`]. The slot index is
//! `position & (capacity - 1)`; the capacity is a power of two.
use crate::utils::{is_power_of_two, lemma_mask_successor, spec_is_power_of_two};
use vstd::prelude::*;

verus! {

/// `f` was handed packet `sequence` with bytes `bytes`: its postcondition
/// holds for a slice with those bytes.
pub open spec fn handed<F: FnMut(u16, &[u8])>(f: F, sequence: u16, bytes: Seq<u8>) -> bool {
    exists|d: &[u8]| d@ == bytes && #[trigger] f.ensures((sequence, d), ())
}

/// One slot in a [`PacketQueue`].
pub struct PacketSlot {
    /// Sequence number of the packet in this slot.
    pub sequence: u16,
    /// Number of valid bytes in `data`.
    pub len: usize,
    /// Preallocated byte buffer. Allocated once at queue init; never reallocated.
    pub data: Vec<u8>,
}

/// Fixed-capacity ring buffer of preallocated packet slots.
///
/// `capacity` is a power of two. Each slot holds a byte buffer of
/// `slot_capacity` bytes allocated once at construction time.
pub struct PacketQueue {
    slots: Vec<PacketSlot>,
    /// Next write position (wrapping). Slot index = `head & (capacity - 1)`.
    head: usize,
    /// Next read position (wrapping). Slot index = `tail & (capacity - 1)`.
    tail: usize,
    count: usize,
    /// Cached `slots.len()`. Always a power of two.
    capacity: usize,
}

impl View for PacketQueue {
    type V = Seq<(u16, Seq<u8>)>;

    /// The queued packets, oldest first: sequence number and bytes.
    closed spec fn view(&self) -> Seq<(u16, Seq<u8>)> {
        Seq::new(self.count as nat, |k: int| self.packet_at(self.slot_after_tail(k)))
    }
}

impl PacketQueue {
    /// The slot `k` places after the read position.
    closed spec fn slot_after_tail(&self, k: int) -> int {
        ((self.tail & ((self.capacity - 1) as usize)) + k) % (self.capacity as int)
    }

    /// The packet held in slot `i`.
    closed spec fn packet_at(&self, i: int) -> (u16, Seq<u8>) {
        let s = self.slots@[i];
        (s.sequence, s.data@.subrange(0, s.len as int))
    }

    /// Number of slots.
    pub closed spec fn spec_capacity(&self) -> nat {
        self.capacity as nat
    }

    /// Size of each slot's byte buffer.
    pub closed spec fn spec_slot_capacity(&self) -> nat {
        self.slots@[0].data@.len()
    }

    /// Well-formedness of the ring.
    pub closed spec fn wf(&self) -> bool {
        &&& self.capacity == self.slots@.len()
        &&& spec_is_power_of_two(self.capacity)
        &&& self.count <= self.capacity
        &&& self.head & ((self.capacity - 1) as usize) == self.slot_after_tail(self.count as int)
        &&& forall|i: int|
            0 <= i < self.slots@.len() ==> (#[trigger] self.slots@[i]).data@.len()
                == self.spec_slot_capacity() && self.slots@[i].len <= self.slots@[i].data@.len()
    }

    /// Create a new queue with all buffers preallocated.
    ///
    /// `queue_size` must be a positive power of two and `slot_capacity`
    /// positive.
    pub fn new(queue_size: usize, slot_capacity: usize) -> (r: Self)
        requires
            spec_is_power_of_two(queue_size),
            slot_capacity > 0,
        ensures
            r.wf(),
            r@ == Seq::<(u16, Seq<u8>)>::empty(),
            r.spec_capacity() == queue_size,
            r.spec_slot_capacity() == slot_capacity,
    {
        let mut slots: Vec<PacketSlot> = Vec::with_capacity(queue_size);
        let mut i: usize = 0;
        while i < queue_size
            invariant
                i <= queue_size,
                slots@.len() == i,
                forall|j: int|
                    0 <= j < i ==> (#[trigger] slots@[j]).data@.len() == slot_capacity
                        && slots@[j].len == 0,
            decreases queue_size - i,
        {
            slots.push(PacketSlot { sequence: 0, len: 0, data: vec![0u8; slot_capacity] });
            i = i + 1;
        }
        let r = Self { slots, head: 0, tail: 0, count: 0, capacity: queue_size };
        proof {
            assert(0usize & ((queue_size - 1) as usize) == 0) by (bit_vector);
            vstd::arithmetic::div_mod::lemma_small_mod(0, queue_size as nat);
        }
        assert(r@ =~= Seq::<(u16, Seq<u8>)>::empty());
        r
    }

    /// Write a packet into the next available slot via an in-place closure.
    ///
    /// The closure receives the slot's preallocated buffer and returns the
    /// number of bytes written. Returns `false` if the queue is full and the
    /// write is dropped.
    pub fn write_slot(&mut self, sequence: u16, f: impl FnOnce(&mut [u8]) -> usize) -> (r: bool)
        requires
            old(self).wf(),
            forall|b: &mut [u8]|
                b@.len() == old(self).spec_slot_capacity() ==> #[trigger] f.requires((b,)),
            forall|b: &mut [u8], n: usize| #[trigger]
                f.ensures((b,), n) ==> n <= b@.len() && final(b)@.len() == b@.len(),
        ensures
            final(self).wf(),
            final(self).spec_capacity() == old(self).spec_capacity(),
            final(self).spec_slot_capacity() == old(self).spec_slot_capacity(),
            r == (old(self)@.len() < old(self).spec_capacity()),
            !r ==> final(self)@ == old(self)@,
            r ==> exists|b: &mut [u8], n: usize|
                #![trigger f.ensures((b,), n)]
                {
                    &&& b@.len() == old(self).spec_slot_capacity()
                    &&& f.ensures((b,), n)
                    &&& final(self)@ == old(self)@.push((sequence, final(b)@.subrange(0, n as int)))
                },
    {
        if self.count >= self.capacity {
            return false;
        }
        let idx = self.head & (self.capacity - 1);
        proof {
            lemma_mask_successor(self.head, self.capacity);
            lemma_mask_successor(self.tail, self.capacity);
        }
        let ghost old_q = *self;
        let mut slot = PacketSlot { sequence: 0, len: 0, data: Vec::new() };
        std::mem::swap(&mut slot, &mut self.slots[idx]);
        let ghost old_slot = slot;
        slot.sequence = sequence;
        let n = f(slot.data.as_mut_slice());
        slot.len = n;
        std::mem::swap(&mut slot, &mut self.slots[idx]);
        self.head = self.head.wrapping_add(1);
        self.count += 1;
        proof {
            let q = *self;
            assert(q.slots@ == old_q.slots@.update(idx as int, q.slots@[idx as int]));
            assert(q.spec_slot_capacity() == old_q.spec_slot_capacity()) by {
                if idx != 0 {
                    assert(q.slots@[0] == old_q.slots@[0]);
                }
            }
            assert forall|k: int| 0 <= k < old_q.count implies q.slot_after_tail(k)
                != idx as int by {
                vstd::arithmetic::div_mod::lemma_small_mod(
                    (old_q.tail & ((old_q.capacity - 1) as usize)) as nat,
                    old_q.capacity as nat,
                );
                lemma_offsets_distinct(
                    (old_q.tail & ((old_q.capacity - 1) as usize)) as int,
                    k,
                    old_q.count as int,
                    old_q.capacity as int,
                );
            }
            assert(q@ =~= old_q@.push((sequence, q.slots@[idx as int].data@.subrange(0, n as int))));
            let c = old_q.capacity as int;
            let t = (old_q.tail & ((old_q.capacity - 1) as usize)) as int;
            let cnt = old_q.count as int;
            vstd::arithmetic::div_mod::lemma_add_mod_noop(t + cnt, 1, c);
            vstd::arithmetic::div_mod::lemma_mod_twice(t + cnt, c);
            vstd::arithmetic::div_mod::lemma_add_mod_noop((t + cnt) % c, 1, c);
            assert(q.head & ((q.capacity - 1) as usize) == q.slot_after_tail(q.count as int));
            assert forall|i: int| 0 <= i < q.slots@.len() implies (#[trigger] q.slots@[i]).data@.len()
                == q.spec_slot_capacity() && q.slots@[i].len <= q.slots@[i].data@.len() by {
                if i != idx {
                    assert(q.slots@[i] == old_q.slots@[i]);
                }
            }
        }
        true
    }

    /// Push a packet by copying `data` into the next available slot
    /// (truncated to the slot capacity).
    ///
    /// Returns `false` if the queue is full.
    pub fn push(&mut self, sequence: u16, data: &[u8]) -> (r: bool)
        requires
            old(self).wf(),
        ensures
            final(self).wf(),
            final(self).spec_capacity() == old(self).spec_capacity(),
            final(self).spec_slot_capacity() == old(self).spec_slot_capacity(),
            r == (old(self)@.len() < old(self).spec_capacity()),
            !r ==> final(self)@ == old(self)@,
            r ==> final(self)@ == old(self)@.push(
                (
                    sequence,
                    data@.subrange(
                        0,
                        if data@.len() < old(self).spec_slot_capacity() {
                            data@.len() as int
                        } else {
                            old(self).spec_slot_capacity() as int
                        },
                    ),
                ),
            ),
    {
        let copy = |buf: &mut [u8]| -> (n: usize)
            ensures
                n <= old(buf)@.len(),
                n == if data@.len() < old(buf)@.len() {
                    data@.len()
                } else {
                    old(buf)@.len()
                },
                final(buf)@.subrange(0, n as int) == data@.subrange(0, n as int),
                final(buf)@.len() == old(buf)@.len(),
            { copy_prefix(buf, data) };
        self.write_slot(sequence, copy)
    }

    /// Drain all packets in FIFO order.
    ///
    /// Calls `f(sequence, &data[..len])` for each queued packet, then leaves
    /// the queue empty.
    pub fn drain(&mut self, mut f: impl FnMut(u16, &[u8]))
        requires
            old(self).wf(),
            forall|s: u16, d: &[u8]| #[trigger] f.requires((s, d)),
        ensures
            final(self).wf(),
            final(self)@ == Seq::<(u16, Seq<u8>)>::empty(),
            final(self).spec_capacity() == old(self).spec_capacity(),
            final(self).spec_slot_capacity() == old(self).spec_slot_capacity(),
            forall|i: int|
                0 <= i < old(self)@.len() ==> handed(f, #[trigger] old(self)@[i].0, old(self)@[i].1),
    {
        broadcast use vstd::function::group_function_axioms;
        let ghost queued = self@;
        let ghost f0 = f;
        let ghost mut done: int = 0;
        while self.count > 0
            invariant
                self.wf(),
                0 <= done <= queued.len(),
                self@ == queued.subrange(done, queued.len() as int),
                self.spec_capacity() == old(self).spec_capacity(),
                self.spec_slot_capacity() == old(self).spec_slot_capacity(),
                forall|s: u16, d: &[u8]| #[trigger] f.requires((s, d)),
                f == f0,
                forall|i: int| 0 <= i < done ==> handed(f0, #[trigger] queued[i].0, queued[i].1),
            decreases self.count,
        {
            let idx = self.tail & (self.capacity - 1);
            proof {
                lemma_mask_successor(self.tail, self.capacity);
            }
            let slot = &self.slots[idx];
            let bytes = vstd::slice::slice_subrange(slot.data.as_slice(), 0, slot.len);
            assert(queued[done] == (slot.sequence, bytes@)) by {
                vstd::arithmetic::div_mod::lemma_small_mod(idx as nat, self.capacity as nat);
                assert(self@.len() > 0);
                assert(self@[0] == queued[done]);
            }
            f(slot.sequence, bytes);
            assert(handed(f0, queued[done].0, queued[done].1));
            let ghost prev = self@;
            self.tail = self.tail.wrapping_add(1);
            self.count -= 1;
            proof {
                let t0 = idx as int;
                let c = self.capacity as int;
                let n = self.count as int;
                assert(self.tail & ((self.capacity - 1) as usize) == (t0 + 1) % c);
                vstd::arithmetic::div_mod::lemma_add_mod_noop(t0 + 1, n, c);
                vstd::arithmetic::div_mod::lemma_mod_twice(t0 + 1, c);
                vstd::arithmetic::div_mod::lemma_add_mod_noop((t0 + 1) % c, n, c);
                assert(((t0 + 1) % c + n) % c == (t0 + 1 + n) % c);
                assert forall|k: int| 0 <= k < self@.len() implies self@[k] == prev[k + 1] by {
                    vstd::arithmetic::div_mod::lemma_add_mod_noop(t0 + 1, k, c);
                    vstd::arithmetic::div_mod::lemma_add_mod_noop((t0 + 1) % c, k, c);
                    vstd::arithmetic::div_mod::lemma_small_mod(idx as nat, self.capacity as nat);
                }
                assert(self@ =~= prev.subrange(1, prev.len() as int));
                done = done + 1;
            }
        }
        assert(self@ =~= Seq::<(u16, Seq<u8>)>::empty());
        assert(done == queued.len());
        assert(queued == old(self)@);
    }

    /// Remove all packets, oldest first, returning copies of them.
    pub fn drain_to_vec(&mut self) -> (r: Vec<(u16, Vec<u8>)>)
        requires
            old(self).wf(),
        ensures
            final(self).wf(),
            final(self)@ == Seq::<(u16, Seq<u8>)>::empty(),
            final(self).spec_capacity() == old(self).spec_capacity(),
            final(self).spec_slot_capacity() == old(self).spec_slot_capacity(),
            r@.len() == old(self)@.len(),
            forall|i: int|
                0 <= i < r@.len() ==> (#[trigger] r@[i]).0 == old(self)@[i].0 && r@[i].1@ == old(
                    self,
                )@[i].1,
    {
        let ghost queued = self@;
        let mut out: Vec<(u16, Vec<u8>)> = Vec::new();
        while self.count > 0
            invariant
                self.wf(),
                out@.len() + self@.len() == queued.len(),
                self@ == queued.subrange(out@.len() as int, queued.len() as int),
                forall|i: int|
                    0 <= i < out@.len() ==> (#[trigger] out@[i]).0 == queued[i].0 && out@[i].1@
                        == queued[i].1,
                self.spec_capacity() == old(self).spec_capacity(),
                self.spec_slot_capacity() == old(self).spec_slot_capacity(),
            decreases self.count,
        {
            let idx = self.tail & (self.capacity - 1);
            proof {
                lemma_mask_successor(self.tail, self.capacity);
            }
            let slot = &self.slots[idx];
            let bytes = vstd::slice::slice_subrange(slot.data.as_slice(), 0, slot.len);
            let ghost done = out@.len() as int;
            assert(queued[done] == (slot.sequence, bytes@)) by {
                vstd::arithmetic::div_mod::lemma_small_mod(idx as nat, self.capacity as nat);
                assert(self@.len() > 0);
                assert(self@[0] == queued[done]);
            }
            out.push((slot.sequence, vstd::slice::slice_to_vec(bytes)));
            let ghost prev = self@;
            self.tail = self.tail.wrapping_add(1);
            self.count -= 1;
            proof {
                let t0 = idx as int;
                let c = self.capacity as int;
                let n = self.count as int;
                assert(self.tail & ((self.capacity - 1) as usize) == (t0 + 1) % c);
                vstd::arithmetic::div_mod::lemma_add_mod_noop(t0 + 1, n, c);
                vstd::arithmetic::div_mod::lemma_mod_twice(t0 + 1, c);
                vstd::arithmetic::div_mod::lemma_add_mod_noop((t0 + 1) % c, n, c);
                assert(((t0 + 1) % c + n) % c == (t0 + 1 + n) % c);
                assert forall|k: int| 0 <= k < self@.len() implies self@[k] == prev[k + 1] by {
                    vstd::arithmetic::div_mod::lemma_add_mod_noop(t0 + 1, k, c);
                    vstd::arithmetic::div_mod::lemma_add_mod_noop((t0 + 1) % c, k, c);
                    vstd::arithmetic::div_mod::lemma_small_mod(idx as nat, self.capacity as nat);
                }
                assert(self@ =~= prev.subrange(1, prev.len() as int));
            }
        }
        assert(self@ =~= Seq::<(u16, Seq<u8>)>::empty());
        out
    }

    /// Reset to empty without touching any buffer contents.
    pub fn clear(&mut self)
        requires
            old(self).wf(),
        ensures
            final(self).wf(),
            final(self)@ == Seq::<(u16, Seq<u8>)>::empty(),
            final(self).spec_capacity() == old(self).spec_capacity(),
            final(self).spec_slot_capacity() == old(self).spec_slot_capacity(),
    {
        self.head = 0;
        self.tail = 0;
        self.count = 0;
        proof {
            assert(0usize & ((self.capacity - 1) as usize) == 0) by (bit_vector);
            vstd::arithmetic::div_mod::lemma_small_mod(0, self.capacity as nat);
        }
        assert(self@ =~= Seq::<(u16, Seq<u8>)>::empty());
    }

    /// Number of packets currently queued.
    pub fn len(&self) -> (r: usize)
        ensures
            r == self@.len(),
    {
        self.count
    }

    /// Returns `true` if no packets are queued.
    pub fn is_empty(&self) -> (r: bool)
        ensures
            r == (self@.len() == 0),
    {
        self.count == 0
    }

    /// Returns `true` if the queue has no free slots.
    pub fn is_full(&self) -> (r: bool)
        ensures
            r == (self@.len() >= self.spec_capacity()),
    {
        self.count >= self.capacity
    }

    /// Size of each slot's byte buffer.
    pub fn slot_capacity(&self) -> (r: usize)
        requires
            self.wf(),
        ensures
            r == self.spec_slot_capacity(),
    {
        proof {
            assert(self.slots@.len() > 0);
        }
        self.slots[0].data.len()
    }

    /// A well-formed queue never holds more packets than it has slots.
    pub proof fn lemma_len_bound(&self)
        requires
            self.wf(),
        ensures
            self@.len() <= self.spec_capacity(),
            self.spec_capacity() > 0,
    {
    }
}

/// Two offsets below `count` from the same start never land on the slot
/// `count` places after it, in a ring of `c >= count + 1` slots.
proof fn lemma_offsets_distinct(t: int, k: int, count: int, c: int)
    requires
        0 <= t < c,
        0 <= k < count,
        count < c,
    ensures
        (t + k) % c != (t + count) % c,
{
    if (t + k) % c == (t + count) % c {
        vstd::arithmetic::div_mod::lemma_fundamental_div_mod(t + k, c);
        vstd::arithmetic::div_mod::lemma_fundamental_div_mod(t + count, c);
        let a = (t + k) / c;
        let b = (t + count) / c;
        assert(count - k == c * (b - a)) by (nonlinear_arith)
            requires
                t + k == c * a + (t + k) % c,
                t + count == c * b + (t + count) % c,
                (t + k) % c == (t + count) % c,
        ;
        assert(false) by (nonlinear_arith)
            requires
                count - k == c * (b - a),
                0 < count - k < c,
        ;
    }
}

/// Copy as much of `src` as fits into the front of `dest`; returns the number
/// of bytes copied.
fn copy_prefix(dest: &mut [u8], src: &[u8]) -> (n: usize)
    ensures
        n == if src@.len() < old(dest)@.len() {
            src@.len()
        } else {
            old(dest)@.len()
        },
        final(dest)@.len() == old(dest)@.len(),
        final(dest)@.subrange(0, n as int) == src@.subrange(0, n as int),
        final(dest)@.subrange(n as int, final(dest)@.len() as int) == old(dest)@.subrange(
            n as int,
            old(dest)@.len() as int,
        ),
{
    let len = if src.len() < dest.len() {
        src.len()
    } else {
        dest.len()
    };
    let mut i: usize = 0;
    while i < len
        invariant
            i <= len,
            len <= src@.len(),
            len <= old(dest)@.len(),
            dest@.len() == old(dest)@.len(),
            forall|j: int| 0 <= j < i ==> dest@[j] == src@[j],
            forall|j: int| len <= j < dest@.len() ==> dest@[j] == old(dest)@[j],
        decreases len - i,
    {
        dest[i] = src[i];
        i = i + 1;
    }
    assert(dest@.subrange(0, len as int) =~= src@.subrange(0, len as int));
    assert(dest@.subrange(len as int, dest@.len() as int) =~= old(dest)@.subrange(
        len as int,
        old(dest)@.len() as int,
    ));
    len
}

} // verus!
