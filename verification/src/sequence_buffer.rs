//! Sequence buffer: a power-of-two ring buffer indexed by wrapping 16-bit
//! sequence numbers, used to track sent and received packets.
use crate::utils::{
    lemma_mask_is_mod, lemma_power_of_two_divides_65536, lemma_seq_distance_step, lemma_seq_gt_by_distance,
    lemma_wrap_mod, seq_add, seq_distance, seq_gt, seq_lt, sequence_greater_than, sequence_less_than,
    spec_is_power_of_two, lemma_seq_walk, seq_walk_len,
};
use vstd::prelude::*;

verus! {

/// Entry in the sequence buffer
pub struct BufferEntry<T> {
    /// Sequence number for this entry
    pub sequence: u16,
    /// Data stored in this entry
    pub data: T,
}

/// A circular buffer indexed by sequence numbers
///
/// This buffer handles sequence number wrap-around and provides
/// O(1) insertion and lookup.
pub struct SequenceBuffer<T: Clone + Default> {
    /// Current sequence number (next expected)
    sequence: u16,
    /// Buffer entries
    entries: Vec<Option<BufferEntry<T>>>,
}

/// The slot that sequence number `s` occupies in a buffer of `len` slots.
pub open spec fn slot_of(s: u16, len: nat) -> int {
    s as int % len as int
}

/// The number of distinct slots that sequence numbers can reach in a buffer
/// of `len` slots.
pub open spec fn slot_window(len: nat) -> int {
    if len <= 65536 {
        len as int
    } else {
        65536
    }
}

/// Bit `i` of `bits` is set.
pub open spec fn bit_set(bits: u32, i: u32) -> bool {
    (bits >> i) & 1u32 == 1u32
}

/// The ack bitfield of the first `n` positions back from `ack`: bit `i`
/// set for each present `ack - i`, `i < n`.
pub open spec fn ack_bits_upto<T>(m: Map<u16, T>, ack: u16, n: nat) -> u32
    decreases n,
{
    if n == 0 {
        0
    } else {
        let prev = ack_bits_upto(m, ack, (n - 1) as nat);
        if m.contains_key(seq_add(ack, -(n - 1))) {
            prev | (1u32 << ((n - 1) as u32))
        } else {
            prev
        }
    }
}

/// Setting bit `i` sets it and leaves the other bits alone.
pub proof fn lemma_set_bit(x: u32, i: u32)
    requires
        i < 32,
    ensures
        bit_set(x | (1u32 << i), i),
        forall|j: u32| j < 32 && j != i ==> bit_set(x | (1u32 << i), j) == bit_set(x, j),
{
    assert(((x | (1u32 << i)) >> i) & 1u32 == 1u32) by (bit_vector)
        requires
            i < 32,
    ;
    assert forall|j: u32| j < 32 && j != i implies bit_set(x | (1u32 << i), j) == bit_set(x, j) by {
        assert((((x | (1u32 << i)) >> j) & 1u32 == 1u32) == ((x >> j) & 1u32 == 1u32))
            by (bit_vector)
            requires
                i < 32 && j < 32 && j != i,
        ;
    }
}

/// The present entries for the sequence numbers `start`, `start + 1`, ...
/// (`n` of them), in that order.
pub open spec fn range_entries<T>(m: Map<u16, T>, start: u16, n: nat) -> Seq<(u16, T)>
    decreases n,
{
    if n == 0 {
        Seq::empty()
    } else {
        let k = seq_add(start, n - 1);
        range_entries(m, start, (n - 1) as nat) + (if m.contains_key(k) {
            seq![(k, m[k])]
        } else {
            Seq::empty()
        })
    }
}

impl<T: Clone + Default> View for SequenceBuffer<T> {
    type V = Map<u16, T>;

    /// The stored entries, by sequence number.
    closed spec fn view(&self) -> Map<u16, T> {
        entries_view(self.entries@)
    }
}

/// The entries of a slot array, by sequence number: the sequence numbers
/// whose slot holds an entry for themselves.
pub closed spec fn entries_view<T>(entries: Seq<Option<BufferEntry<T>>>) -> Map<u16, T> {
    Map::new(
        |s: u16|
            entries[slot_of(s, entries.len())] is Some && entries[slot_of(
                s,
                entries.len(),
            )]->0.sequence == s,
        |s: u16| entries[slot_of(s, entries.len())]->0.data,
    )
}

impl<T: Clone + Default> SequenceBuffer<T> {
    /// The slot of `s` holds an entry for `s` itself.
    closed spec fn holds(&self, s: u16) -> bool {
        let e = self.entries@[slot_of(s, self.entries@.len())];
        e is Some && e->0.sequence == s
    }

    /// The next expected sequence number.
    pub closed spec fn spec_sequence(&self) -> u16 {
        self.sequence
    }

    /// The number of slots.
    pub closed spec fn spec_size(&self) -> nat {
        self.entries@.len()
    }

    /// Well-formedness: a power-of-two number of slots, each entry stored in
    /// the slot of its own sequence number.
    pub closed spec fn wf(&self) -> bool {
        &&& spec_is_power_of_two(self.entries@.len() as usize)
        &&& forall|i: int|
            0 <= i < self.entries@.len() && (#[trigger] self.entries@[i]) is Some ==> slot_of(
                self.entries@[i]->0.sequence,
                self.entries@.len(),
            ) == i
    }

    /// `s` is not older than the window of `size` sequence numbers that ends
    /// at the next expected one.
    pub open spec fn spec_can_insert(&self, s: u16) -> bool {
        !seq_lt(s, seq_add(self.spec_sequence(), -(self.spec_size() % 65536)))
    }

    /// Inserting `s` moves the next expected sequence number forward.
    pub open spec fn advances(&self, s: u16) -> bool {
        seq_gt(seq_add(s, 1), self.spec_sequence())
    }

    /// Inserting `s` clears the slot of `k`: the sequence numbers from the
    /// next expected one through `s` all have their slots emptied.
    pub open spec fn cleared_by_insert(&self, s: u16, k: u16) -> bool {
        &&& self.advances(s)
        &&& (k - self.spec_sequence()) % slot_window(self.spec_size()) < seq_distance(
            seq_add(s, 1),
            self.spec_sequence(),
        )
    }

    /// The entries after inserting `s` with value `v`: the cleared slots and
    /// the slot of `s` lose their old entries.
    pub open spec fn view_after_insert(&self, s: u16, v: T) -> Map<u16, T> {
        Map::new(
            |k: u16|
                self@.contains_key(k) && !self.cleared_by_insert(s, k) && slot_of(k, self.spec_size())
                    != slot_of(s, self.spec_size()),
            |k: u16| self@[k],
        ).insert(s, v)
    }

    /// The next expected sequence number after inserting `s`.
    pub open spec fn sequence_after_insert(&self, s: u16) -> u16 {
        if self.advances(s) {
            seq_add(s, 1)
        } else {
            self.spec_sequence()
        }
    }

    proof fn lemma_view_contains(&self, s: u16)
        ensures
            self@.contains_key(s) == self.holds(s),
            self.holds(s) ==> self@[s] == self.entries@[slot_of(s, self.entries@.len())]->0.data,
    {
    }

    /// Create a new sequence buffer with the given size
    ///
    /// The size must be a power of two (required for O(1) bitwise indexing).
    pub fn new(size: usize) -> (r: Self)
        requires
            spec_is_power_of_two(size),
        ensures
            r.wf(),
            r.spec_sequence() == 0,
            r.spec_size() == size,
            r@ == Map::<u16, T>::empty(),
    {
        let mut entries: Vec<Option<BufferEntry<T>>> = Vec::with_capacity(size);
        let mut i: usize = 0;
        while i < size
            invariant
                i <= size,
                entries@.len() == i,
                forall|j: int| 0 <= j < i ==> (#[trigger] entries@[j]) is None,
            decreases size - i,
        {
            entries.push(None);
            i = i + 1;
        }
        let r = Self { sequence: 0, entries };
        assert(r@ =~= Map::<u16, T>::empty());
        r
    }

    /// Get the current sequence number
    pub fn sequence(&self) -> (r: u16)
        ensures
            r == self.spec_sequence(),
    {
        self.sequence
    }

    /// Get the buffer size
    pub fn size(&self) -> (r: usize)
        ensures
            r == self.spec_size(),
    {
        self.entries.len()
    }

    /// Reset the buffer to initial state
    pub fn reset(&mut self)
        requires
            old(self).wf(),
        ensures
            final(self).wf(),
            final(self).spec_sequence() == 0,
            final(self).spec_size() == old(self).spec_size(),
            final(self)@ == Map::<u16, T>::empty(),
    {
        self.sequence = 0;
        let n = self.entries.len();
        let mut i: usize = 0;
        while i < n
            invariant
                i <= n,
                n == self.entries@.len(),
                n == old(self).entries@.len(),
                spec_is_power_of_two(n),
                self.sequence == 0,
                forall|j: int| 0 <= j < i ==> (#[trigger] self.entries@[j]) is None,
                forall|j: int|
                    i <= j < n ==> (#[trigger] self.entries@[j]) == old(self).entries@[j],
                forall|j: int|
                    0 <= j < n && (#[trigger] self.entries@[j]) is Some ==> slot_of(
                        self.entries@[j]->0.sequence,
                        n as nat,
                    ) == j,
            decreases n - i,
        {
            self.entries.set(i, None);
            i = i + 1;
        }
        assert(self@ =~= Map::<u16, T>::empty());
    }

    /// Check if a sequence number can be inserted
    pub fn can_insert(&self, sequence: u16) -> (r: bool)
        ensures
            r == self.spec_can_insert(sequence),
    {
        let num_entries = (self.entries.len() % 65536) as u16;
        !sequence_less_than(sequence, self.sequence.wrapping_sub(num_entries))
    }

    /// Calculate index in the buffer for a sequence number
    /// (bitwise AND with `capacity - 1`; capacity is a power of two).
    fn index(&self, sequence: u16) -> (r: usize)
        requires
            self.wf(),
        ensures
            r == slot_of(sequence, self.spec_size()),
            r < self.spec_size(),
    {
        proof {
            lemma_mask_is_mod(sequence as usize, self.entries@.len() as usize);
        }
        (sequence as usize) & (self.entries.len() - 1)
    }

    /// The slot of `k` is below the slot window and its offset from `start`
    /// modulo the window is that of `k` itself.
    proof fn lemma_slot_in_window(k: u16, start: u16, len: nat)
        requires
            len > 0,
        ensures
            0 <= slot_of(k, len) < slot_window(len),
            (slot_of(k, len) - start) % slot_window(len) == (k - start) % slot_window(len),
    {
        let w = slot_window(len);
        if len <= 65536 {
            let l = len as int;
            vstd::arithmetic::div_mod::lemma_sub_mod_noop(k as int, start as int, l);
            vstd::arithmetic::div_mod::lemma_sub_mod_noop(k as int % l, start as int, l);
            vstd::arithmetic::div_mod::lemma_mod_mod(k as int, l, 1);
        } else {
            vstd::arithmetic::div_mod::lemma_small_mod(k as nat, len);
        }
    }

    /// Distinct slots below the window have distinct offsets from `s`.
    proof fn lemma_mod_offset_injective(a: int, b: int, s: int, w: int)
        requires
            0 <= a < w,
            0 <= b < w,
            a != b,
        ensures
            (a - s) % w != (b - s) % w,
    {
        if (a - s) % w == (b - s) % w {
            vstd::arithmetic::div_mod::lemma_fundamental_div_mod(a - s, w);
            vstd::arithmetic::div_mod::lemma_fundamental_div_mod(b - s, w);
            let qa = (a - s) / w;
            let qb = (b - s) / w;
            assert(a - b == w * (qa - qb)) by (nonlinear_arith)
                requires
                    a - s == w * qa + (a - s) % w,
                    b - s == w * qb + (b - s) % w,
                    (a - s) % w == (b - s) % w,
            ;
            assert(false) by (nonlinear_arith)
                requires
                    a - b == w * (qa - qb),
                    0 <= a < w,
                    0 <= b < w,
                    a != b,
            ;
        }
    }

    /// Remove entries in a range (exclusive of end): the slots of `start`,
    /// `start + 1`, ... up to but not including `end`.
    fn remove_range(&mut self, start: u16, end: u16)
        requires
            old(self).wf(),
            seq_gt(seq_add(end, 1), start),
        ensures
            final(self).wf(),
            final(self).sequence == old(self).sequence,
            final(self).entries@.len() == old(self).entries@.len(),
            forall|i: int|
                0 <= i < old(self).entries@.len() ==> #[trigger] final(self).entries@[i] == (if i
                    < slot_window(old(self).spec_size()) && (i - start) % slot_window(
                    old(self).spec_size(),
                ) < seq_distance(end, start) {
                    None
                } else {
                    old(self).entries@[i]
                }),
    {
        let ghost len = self.entries@.len();
        let ghost w = slot_window(len);
        let ghost e1 = end;
        let ghost count = seq_distance(e1, start);
        proof {
            lemma_seq_gt_by_distance(seq_add(end, 1), start);
            lemma_wrap_mod(end + 1, start as int, 65536);
            vstd::arithmetic::div_mod::lemma_add_mod_noop(end - start, 1, 65536);
            vstd::arithmetic::div_mod::lemma_mod_bound(end - start, 65536);
            assert(count + 1 == seq_distance(seq_add(end, 1), start));
            if len <= 65536 {
                lemma_power_of_two_divides_65536(len as usize);
            }
        }
        let mut seq = start;
        let ghost mut j: int = 0;
        while sequence_less_than(seq, end)
            invariant
                self.wf(),
                self.sequence == old(self).sequence,
                self.entries@.len() == len,
                len == old(self).entries@.len(),
                w == slot_window(len),
                65536int % w == 0,
                e1 == end,
                count == seq_distance(e1, start),
                0 <= count <= 32767,
                0 <= j <= count,
                seq == seq_add(start, j),
                forall|i: int|
                    0 <= i < len ==> #[trigger] self.entries@[i] == (if i < w && (i - start) % w
                        < j {
                        None
                    } else {
                        old(self).entries@[i]
                    }),
            decreases count - j,
        {
            proof {
                lemma_seq_distance_step(e1, start, j);
                lemma_seq_gt_by_distance(e1, seq);
                assert(j < count);
            }
            let index = self.index(seq);
            proof {
                Self::lemma_slot_in_window(seq, start, len);
                lemma_wrap_mod(start + j, start as int, w);
                if j < w {
                    vstd::arithmetic::div_mod::lemma_small_mod(j as nat, w as nat);
                }
            }
            self.entries.set(index, None);
            seq = seq.wrapping_add(1);
            proof {
                j = j + 1;
                assert(seq == seq_add(start, j));
                assert forall|i: int| 0 <= i < len implies #[trigger] self.entries@[i] == (if i < w
                    && (i - start) % w < j {
                    None
                } else {
                    old(self).entries@[i]
                }) by {
                    if i == index {
                        if j - 1 < w {
                            assert((i - start) % w == j - 1);
                        } else {
                            assert((i - start) % w < w);
                        }
                    } else if i < w && j - 1 < w {
                        Self::lemma_mod_offset_injective(i, index as int, start as int, w);
                    }
                }
            }
        }
        proof {
            if j < count {
                lemma_seq_distance_step(e1, start, j);
                lemma_seq_gt_by_distance(e1, seq);
            }
        }
    }

    /// The view after clearing the advanced-over slots before `s` into `mid`
    /// and then storing `s` in its slot is the one `view_after_insert` describes.
    proof fn lemma_insert_view(old_self: Self, mid: Seq<Option<BufferEntry<T>>>, s: u16)
        requires
            old_self.wf(),
            mid.len() == old_self.entries@.len(),
            forall|i: int|
                0 <= i < mid.len() ==> #[trigger] mid[i] == (if old_self.advances(s) && i
                    < slot_window(old_self.spec_size()) && (i - old_self.sequence) % slot_window(
                    old_self.spec_size(),
                ) < seq_distance(s, old_self.sequence) {
                    None
                } else {
                    old_self.entries@[i]
                }),
        ensures
            forall|v: T|
                #[trigger] entries_view(
                    mid.update(
                        slot_of(s, old_self.spec_size()),
                        Some(BufferEntry { sequence: s, data: v }),
                    ),
                ) == old_self.view_after_insert(s, v),
    {
        let len = old_self.entries@.len();
        let w = slot_window(len);
        let q = old_self.sequence;
        let d = seq_distance(s, q);
        Self::lemma_slot_in_window(s, q, len);
        if len <= 65536 {
            lemma_power_of_two_divides_65536(len as usize);
        }
        lemma_wrap_mod(s - q, 0, w);
        if old_self.advances(s) {
            lemma_seq_gt_by_distance(seq_add(s, 1), q);
            lemma_wrap_mod(s + 1, q as int, 65536);
            vstd::arithmetic::div_mod::lemma_add_mod_noop(s - q, 1, 65536);
            vstd::arithmetic::div_mod::lemma_mod_bound(s - q, 65536);
            assert(d + 1 == seq_distance(seq_add(s, 1), q));
        }
        assert forall|v: T|
            #[trigger] entries_view(
                mid.update(slot_of(s, len), Some(BufferEntry { sequence: s, data: v })),
            ) == old_self.view_after_insert(s, v) by {
            let e2 = mid.update(slot_of(s, len), Some(BufferEntry { sequence: s, data: v }));
            let a = entries_view(e2);
            let b = old_self.view_after_insert(s, v);
            assert forall|k: u16| #[trigger] a.contains_key(k) == b.contains_key(k) by {
                Self::lemma_slot_in_window(k, q, len);
                if slot_of(k, len) != slot_of(s, len) {
                    Self::lemma_mod_offset_injective(slot_of(k, len), slot_of(s, len), q as int, w);
                    if d < w {
                        vstd::arithmetic::div_mod::lemma_small_mod(d as nat, w as nat);
                        assert((k - q) % w != d);
                    }
                }
            }
            assert forall|k: u16| #[trigger] a.contains_key(k) implies a[k] == b[k] by {
                Self::lemma_slot_in_window(k, old_self.sequence, len);
            }
            assert(a =~= b);
        }
    }

    /// Insert an entry at the given sequence number
    ///
    /// Returns a mutable reference to the data if successful
    pub fn insert(&mut self, sequence: u16) -> (r: Option<&mut T>)
        requires
            old(self).wf(),
        ensures
            final(self).wf(),
            final(self).spec_size() == old(self).spec_size(),
            r is None <==> !old(self).spec_can_insert(sequence),
            r is None ==> final(self)@ == old(self)@ && final(self).spec_sequence() == old(
                self,
            ).spec_sequence(),
            r matches Some(d) ==> final(self)@ == old(self).view_after_insert(sequence, *final(d)),
            r matches Some(d) ==> call_ensures(T::default, (), *d),
            r is Some ==> final(self).spec_sequence() == old(self).sequence_after_insert(sequence),
    {
        if !self.can_insert(sequence) {
            return None;
        }
        let ghost old_self = *self;
        let ghost len = self.entries@.len();
        if sequence_greater_than(sequence.wrapping_add(1), self.sequence) {
            self.remove_range(self.sequence, sequence);
            self.sequence = sequence.wrapping_add(1);
        }
        let index = self.index(sequence);
        let ghost mid = self.entries@;
        proof {
            Self::lemma_insert_view(old_self, mid, sequence);
        }
        self.entries.set(index, Some(BufferEntry { sequence, data: T::default() }));
        proof {
            let before = self.entries@;
            assert forall|v: T|
                #[trigger] before.update(index as int, Some(BufferEntry { sequence, data: v }))
                    == mid.update(index as int, Some(BufferEntry { sequence, data: v })) by {
                assert(before.update(index as int, Some(BufferEntry { sequence, data: v })) =~= mid.update(
                    index as int,
                    Some(BufferEntry { sequence, data: v }),
                ));
            }
        }
        match &mut self.entries[index] {
            Some(e) => {
                let r = &mut e.data;
                Some(r)
            },
            None => None,
        }
    }

    /// Insert with existing data
    pub fn insert_with(&mut self, sequence: u16, data: T) -> (r: bool)
        requires
            old(self).wf(),
        ensures
            final(self).wf(),
            final(self).spec_size() == old(self).spec_size(),
            r == old(self).spec_can_insert(sequence),
            !r ==> final(self)@ == old(self)@ && final(self).spec_sequence() == old(
                self,
            ).spec_sequence(),
            r ==> final(self)@ == old(self).view_after_insert(sequence, data)
                && final(self).spec_sequence() == old(self).sequence_after_insert(sequence),
    {
        if let Some(entry_data) = self.insert(sequence) {
            *entry_data = data;
            true
        } else {
            false
        }
    }

    /// Find an entry by sequence number
    pub fn find(&self, sequence: u16) -> (r: Option<&T>)
        requires
            self.wf(),
        ensures
            r is Some <==> self@.contains_key(sequence),
            r matches Some(d) ==> *d == self@[sequence],
    {
        let index = self.index(sequence);
        match &self.entries[index] {
            Some(e) => {
                if e.sequence == sequence {
                    Some(&e.data)
                } else {
                    None
                }
            },
            None => None,
        }
    }

    /// Find a mutable entry by sequence number
    pub fn find_mut(&mut self, sequence: u16) -> (r: Option<&mut T>)
        requires
            old(self).wf(),
        ensures
            final(self).wf(),
            final(self).spec_size() == old(self).spec_size(),
            final(self).spec_sequence() == old(self).spec_sequence(),
            r is Some <==> old(self)@.contains_key(sequence),
            r is None ==> final(self)@ == old(self)@,
            r matches Some(d) ==> {
                &&& *d == old(self)@[sequence]
                &&& final(self)@ == old(self)@.insert(sequence, *final(d))
            },
    {
        let index = self.index(sequence);
        match &mut self.entries[index] {
            Some(e) => {
                if e.sequence == sequence {
                    Some(&mut e.data)
                } else {
                    None
                }
            },
            None => None,
        }
    }

    /// Remove an entry by sequence number
    pub fn remove(&mut self, sequence: u16) -> (r: Option<T>)
        requires
            old(self).wf(),
        ensures
            final(self).wf(),
            final(self).spec_size() == old(self).spec_size(),
            final(self).spec_sequence() == old(self).spec_sequence(),
            r is Some <==> old(self)@.contains_key(sequence),
            r matches Some(d) ==> d == old(self)@[sequence],
            final(self)@ == old(self)@.remove(sequence),
    {
        let index = self.index(sequence);
        let taken = self.entries[index].take();
        if let Some(entry) = taken {
            if entry.sequence == sequence {
                return Some(entry.data);
            }
            self.entries.set(index, Some(entry));
        }
        None
    }

    /// Check if an entry exists at the given sequence
    pub fn entry_exists(&self, sequence: u16) -> (r: bool)
        requires
            self.wf(),
        ensures
            r == self@.contains_key(sequence),
    {
        let index = self.index(sequence);
        match &self.entries[index] {
            Some(e) => e.sequence == sequence,
            None => false,
        }
    }

    /// Generate ACK and ACK bits based on received packets
    ///
    /// Returns (ack, ack_bits) where:
    /// - ack is the most recent received sequence
    /// - ack_bits is a bitfield of the 32 sequences before ack
    pub fn generate_ack_bits(&self) -> (r: (u16, u32))
        requires
            self.wf(),
        ensures
            r.0 == seq_add(self.spec_sequence(), -1),
            r.1 == ack_bits_upto(self@, r.0, 32),
            forall|i: u32|
                i < 32 ==> (#[trigger] bit_set(r.1, i) <==> self@.contains_key(
                    seq_add(r.0, -(i as int)),
                )),
    {
        let ack = self.sequence.wrapping_sub(1);
        let mut ack_bits: u32 = 0;
        proof {
            assert forall|j: u32| j < 32 implies !bit_set(0u32, j) by {
                assert((0u32 >> j) & 1u32 == 0u32) by (bit_vector);
            }
        }
        let mut i: u32 = 0;
        while i < 32
            invariant
                i <= 32,
                self.wf(),
                ack == seq_add(self.spec_sequence(), -1),
                ack_bits == ack_bits_upto(self@, ack, i as nat),
                forall|j: u32|
                    j < i ==> (#[trigger] bit_set(ack_bits, j) <==> self@.contains_key(
                        seq_add(ack, -(j as int)),
                    )),
                forall|j: u32| i <= j < 32 ==> !#[trigger] bit_set(ack_bits, j),
            decreases 32 - i,
        {
            let seq = ack.wrapping_sub(i as u16);
            assert(seq == seq_add(ack, -(i as int)));
            let ghost prev = ack_bits;
            let present = self.entry_exists(seq);
            if present {
                proof {
                    lemma_set_bit(ack_bits, i);
                }
                ack_bits |= 1u32 << i;
            }
            proof {
                if !present {
                    assert(!bit_set(prev, i));
                }
                assert(bit_set(ack_bits, i) == present);
                assert forall|j: u32| j < i + 1 implies (#[trigger] bit_set(ack_bits, j)
                    <==> self@.contains_key(seq_add(ack, -(j as int)))) by {
                    if j < i {
                        assert(bit_set(prev, j) <==> self@.contains_key(seq_add(ack, -(j as int))));
                    }
                }
                assert forall|j: u32| i + 1 <= j < 32 implies !#[trigger] bit_set(ack_bits, j) by {
                    assert(!bit_set(prev, j));
                }
            }
            i = i + 1;
        }
        (ack, ack_bits)
    }

    /// All stored entries, in slot order.
    pub fn iter(&self) -> (r: Vec<(u16, &T)>)
        requires
            self.wf(),
        ensures
            forall|a: int|
                0 <= a < r@.len() ==> self@.contains_key(#[trigger] r@[a].0) && *r@[a].1
                    == self@[r@[a].0],
            forall|k: u16|
                self@.contains_key(k) ==> exists|a: int| 0 <= a < r@.len() && #[trigger] r@[a].0 == k,
            forall|a: int, b: int|
                0 <= a < b < r@.len() ==> slot_of(#[trigger] r@[a].0, self.spec_size()) < slot_of(
                    #[trigger] r@[b].0,
                    self.spec_size(),
                ),
    {
        let mut out: Vec<(u16, &T)> = Vec::new();
        let n = self.entries.len();
        let mut i: usize = 0;
        while i < n
            invariant
                i <= n,
                n == self.entries@.len(),
                self.wf(),
                forall|a: int|
                    0 <= a < out@.len() ==> self@.contains_key(#[trigger] out@[a].0) && *out@[a].1
                        == self@[out@[a].0] && slot_of(out@[a].0, n as nat) < i,
                forall|k: u16|
                    self@.contains_key(k) && slot_of(k, n as nat) < i ==> exists|a: int|
                        0 <= a < out@.len() && #[trigger] out@[a].0 == k,
                forall|a: int, b: int|
                    0 <= a < b < out@.len() ==> slot_of(#[trigger] out@[a].0, n as nat) < slot_of(
                        #[trigger] out@[b].0,
                        n as nat,
                    ),
            decreases n - i,
        {
            match &self.entries[i] {
                Some(e) => {
                    let ghost k = e.sequence;
                    proof {
                        self.lemma_view_contains(k);
                    }
                    let ghost old_out = out@;
                    out.push((e.sequence, &e.data));
                    proof {
                        assert(out@[out@.len() - 1].0 == k);
                        assert forall|k2: u16|
                            self@.contains_key(k2) && slot_of(k2, n as nat) < i + 1 implies exists|
                            a: int,
                        | 0 <= a < out@.len() && #[trigger] out@[a].0 == k2 by {
                            self.lemma_view_contains(k2);
                            if slot_of(k2, n as nat) == i {
                                assert(out@[out@.len() - 1].0 == k2);
                            } else {
                                let a = choose|a: int| 0 <= a < old_out.len() && #[trigger] old_out[a].0 == k2;
                                assert(out@[a] == old_out[a]);
                                assert(out@[a].0 == k2);
                            }
                        }
                    }
                },
                None => {
                    proof {
                        assert forall|k2: u16|
                            self@.contains_key(k2) && slot_of(k2, n as nat) < i + 1 implies exists|
                            a: int,
                        | 0 <= a < out@.len() && #[trigger] out@[a].0 == k2 by {
                            self.lemma_view_contains(k2);
                        }
                    }
                },
            }
            i = i + 1;
        }
        out
    }

    /// The entries for the sequence numbers from `start` forward, for as long
    /// as the sequence number is not ahead of `end`.
    pub fn iter_range(&self, start: u16, end: u16) -> (r: Vec<(u16, &T)>)
        requires
            self.wf(),
        ensures
            r@.len() == range_entries(self@, start, seq_walk_len(start, end) as nat).len(),
            forall|a: int|
                0 <= a < r@.len() ==> #[trigger] r@[a].0 == range_entries(
                    self@,
                    start,
                    seq_walk_len(start, end) as nat,
                )[a].0 && *r@[a].1 == range_entries(
                    self@,
                    start,
                    seq_walk_len(start, end) as nat,
                )[a].1,
    {
        let mut out: Vec<(u16, &T)> = Vec::new();
        let mut seq = start;
        let ghost mut j: int = 0;
        let ghost n = seq_walk_len(start, end);
        proof {
            lemma_seq_walk(start, end, 0);
        }
        while !sequence_greater_than(seq, end)
            invariant
                self.wf(),
                0 <= j <= n,
                n == seq_walk_len(start, end),
                seq == seq_add(start, j),
                (j < n) == !seq_gt(seq, end),
                out@.len() == range_entries(self@, start, j as nat).len(),
                forall|a: int|
                    0 <= a < out@.len() ==> #[trigger] out@[a].0 == range_entries(
                        self@,
                        start,
                        j as nat,
                    )[a].0 && *out@[a].1 == range_entries(self@, start, j as nat)[a].1,
            decreases n - j,
        {
            let current = seq;
            seq = seq.wrapping_add(1);
            let found = self.find(current);
            let ghost old_out = out@;
            if let Some(data) = found {
                out.push((current, data));
            }
            proof {
                let prev = range_entries(self@, start, j as nat);
                let next = range_entries(self@, start, (j + 1) as nat);
                assert(next == prev + (if self@.contains_key(current) {
                    seq![(current, self@[current])]
                } else {
                    Seq::empty()
                }));
                assert forall|a: int| 0 <= a < out@.len() implies #[trigger] out@[a].0 == next[a].0
                    && *out@[a].1 == next[a].1 by {
                    if a < old_out.len() {
                        assert(out@[a] == old_out[a]);
                    }
                }
                j = j + 1;
                assert(seq == seq_add(start, j));
                lemma_seq_walk(start, end, j);
            }
        }
        out
    }
}

impl<T: Clone + Default> SequenceBuffer<T> {
    /// Read after write: right after sequence number `s` is inserted with
    /// value `v`, it is present with that value.
    pub proof fn lemma_insert_then_find(&self, s: u16, v: T)
        ensures
            self.view_after_insert(s, v).contains_key(s),
            self.view_after_insert(s, v)[s] == v,
    {
    }
}

} // verus!
