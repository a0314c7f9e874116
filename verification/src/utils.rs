//! Sequence number helpers: half-range comparison of wrapping 16-bit
//! sequence numbers, and the bit length of an integer range.
use vstd::prelude::*;

verus! {

/// Half-range "greater than": `s1` is ahead of `s2` when it is numerically
/// larger by at most 32768, or numerically smaller by more than 32768
/// (it has wrapped past 65535 -> 0).
pub open spec fn seq_gt(s1: u16, s2: u16) -> bool {
    (s1 > s2 && s1 - s2 <= 32768) || (s1 < s2 && s2 - s1 > 32768)
}

/// Half-range "less than": the mirror image of [`seq_gt`].
pub open spec fn seq_lt(s1: u16, s2: u16) -> bool {
    seq_gt(s2, s1)
}

/// Distance from `b` forward to `a` on the 16-bit circle, in `0..65536`.
pub open spec fn seq_distance(a: u16, b: u16) -> int {
    (a - b) % 65536
}

/// `(a + k) mod 65536`, the sequence number `k` steps after `a`.
pub open spec fn seq_add(a: u16, k: int) -> u16 {
    ((a + k) % 65536) as u16
}

/// Number of bits needed to write `x` in binary (0 for 0).
pub open spec fn bit_length(x: nat) -> nat
    decreases x,
{
    if x == 0 {
        0
    } else {
        1 + bit_length(x / 2)
    }
}

/// Check if sequence s1 is greater than s2, handling wrap-around.
pub fn sequence_greater_than(s1: u16, s2: u16) -> (r: bool)
    ensures
        r == seq_gt(s1, s2),
{
    ((s1 > s2) && (s1.wrapping_sub(s2) <= 32768)) || ((s1 < s2) && (s2.wrapping_sub(s1) > 32768))
}

/// Check if sequence s1 is less than s2, handling wrap-around.
pub fn sequence_less_than(s1: u16, s2: u16) -> (r: bool)
    ensures
        r == seq_lt(s1, s2),
        r == seq_gt(s2, s1),
{
    sequence_greater_than(s2, s1)
}

/// Number of bits required to represent any value of the range `min..=max`
/// as an offset from `min`.
pub fn bits_required(min: u32, max: u32) -> (r: u32)
    requires
        min <= max,
    ensures
        r == bit_length((max - min) as nat),
        r <= 32,
{
    if min == max {
        0
    } else {
        let range = max - min;
        proof {
            vstd::arithmetic::power2::lemma2_to64();
            lemma_bit_length_bound(range as nat, 32);
        }
        let mut rest: u32 = range;
        let mut bits: u32 = 0;
        while rest > 0
            invariant
                bits + bit_length(rest as nat) == bit_length(range as nat),
                bit_length(range as nat) <= 32,
            decreases rest,
        {
            rest = rest / 2;
            bits = bits + 1;
        }
        bits
    }
}

/// Every `u32` value needs at most 32 bits.
pub proof fn lemma_bit_length_bound(x: nat, k: nat)
    requires
        x < vstd::arithmetic::power2::pow2(k),
    ensures
        bit_length(x) <= k,
    decreases x,
{
    vstd::arithmetic::power2::lemma_pow2_pos(k);
    if x > 0 {
        if k == 0 {
            vstd::arithmetic::power2::lemma2_to64();
        } else {
            vstd::arithmetic::power2::lemma_pow2_unfold(k);
            lemma_bit_length_bound(x / 2, (k - 1) as nat);
        }
    }
}

/// `n` is a positive power of two.
pub open spec fn spec_is_power_of_two(n: usize) -> bool {
    n > 0 && n & ((n - 1) as usize) == 0
}

/// Whether `n` is a positive power of two.
pub fn is_power_of_two(n: usize) -> (r: bool)
    ensures
        r == spec_is_power_of_two(n),
{
    n > 0 && (n & (n - 1)) == 0
}

/// The powers of two up to 65536, one by one.
proof fn lemma_small_power_of_two_cases(n: usize)
    requires
        spec_is_power_of_two(n),
        n <= 65536,
    ensures
        n == 1 || n == 2 || n == 4 || n == 8 || n == 16 || n == 32 || n == 64 || n == 128 || n == 256 || n == 512 || n == 1024 || n == 2048 || n == 4096 || n == 8192 || n == 16384 || n == 32768 || n == 65536,
{
    assert(n == 1 || n == 2 || n == 4 || n == 8 || n == 16 || n == 32 || n == 64 || n == 128 || n == 256 || n == 512 || n == 1024 || n == 2048 || n == 4096 || n == 8192 || n == 16384 || n == 32768 || n == 65536) by (bit_vector)
        requires
            n > 0 && n & ((n - 1) as usize) == 0 && n <= 65536,
    ;
}

/// For a power of two `n`, masking a 16-bit value with `n - 1` is reduction
/// modulo `n`.
pub proof fn lemma_mask_is_mod(x: usize, n: usize)
    requires
        spec_is_power_of_two(n),
        x < 65536,
    ensures
        x & ((n - 1) as usize) == x % n,
{
    if n > 65536 {
        assert(x & ((n - 1) as usize) == x) by (bit_vector)
            requires
                n > 65536 && n & ((n - 1) as usize) == 0 && x < 65536,
        ;
        vstd::arithmetic::div_mod::lemma_small_mod(x as nat, n as nat);
    } else {
        lemma_small_power_of_two_cases(n);
        assert(x & 0usize == 0 && x & 1usize == x % 2usize && x & 3usize == x % 4usize &&
            x & 7usize == x % 8usize && x & 15usize == x % 16usize &&
            x & 31usize == x % 32usize && x & 63usize == x % 64usize &&
            x & 127usize == x % 128usize && x & 255usize == x % 256usize &&
            x & 511usize == x % 512usize && x & 1023usize == x % 1024usize &&
            x & 2047usize == x % 2048usize && x & 4095usize == x % 4096usize &&
            x & 8191usize == x % 8192usize && x & 16383usize == x % 16384usize &&
            x & 32767usize == x % 32768usize && x & 65535usize == x % 65536usize) by (bit_vector);
    }
}

/// Masking with `n - 1` keeps a value below the power of two `n`, and
/// masking the wrapping successor steps the masked value forward modulo `n`.
pub proof fn lemma_mask_successor(x: usize, n: usize)
    requires
        spec_is_power_of_two(n),
    ensures
        x & ((n - 1) as usize) < n,
        (if x == usize::MAX {
            0usize
        } else {
            (x + 1) as usize
        }) & ((n - 1) as usize) == ((x & ((n - 1) as usize)) + 1) % (n as int),
{
    let m = (n - 1) as usize;
    assert(x & m <= m) by (bit_vector);
    if x == usize::MAX {
        assert(x | m >= x) by (bit_vector);
        assert(x | m == x);
        assert(x & m == m) by (bit_vector)
            requires
                x | m == x,
        ;
        assert(0usize & m == 0) by (bit_vector);
        vstd::arithmetic::div_mod::lemma_mod_self_0(n as int);
    } else {
        assert(((x + 1) as usize) & m == (((x & m) + 1) as usize) & m) by (bit_vector)
            requires
                n > 0 && n & ((n - 1) as usize) == 0 && m == (n - 1) as usize,
        ;
        let y = ((x & m) + 1) as usize;
        if y < n {
            assert(y & m == y) by (bit_vector)
                requires
                    n > 0 && n & ((n - 1) as usize) == 0 && m == (n - 1) as usize && y < n,
            ;
            vstd::arithmetic::div_mod::lemma_small_mod(y as nat, n as nat);
        } else {
            assert(y == n);
            assert(n & m == 0);
            vstd::arithmetic::div_mod::lemma_mod_self_0(n as int);
        }
    }
}

/// A power of two no larger than 65536 divides 65536.
pub proof fn lemma_power_of_two_divides_65536(n: usize)
    requires
        spec_is_power_of_two(n),
        n <= 65536,
    ensures
        65536int % (n as int) == 0,
{
    lemma_small_power_of_two_cases(n);
}

/// Reduction modulo 65536 is invisible modulo any divisor `w` of 65536.
pub proof fn lemma_wrap_mod(x: int, y: int, w: int)
    requires
        0 < w,
        65536int % w == 0,
    ensures
        ((x % 65536) - y) % w == (x - y) % w,
{
    let t = x / 65536;
    let q = 65536int / w;
    vstd::arithmetic::div_mod::lemma_fundamental_div_mod(x, 65536);
    vstd::arithmetic::div_mod::lemma_fundamental_div_mod(65536, w);
    assert(w * (-(q * t)) == -(65536 * t)) by (nonlinear_arith)
        requires
            65536 == w * q,
    ;
    vstd::arithmetic::div_mod::lemma_mod_multiples_vanish(-(q * t), x - y, w);
    assert((x % 65536) - y == w * (-(q * t)) + (x - y));
}

/// Stepping `j` times forward from `start` shortens the forward distance to
/// `e` by `j`, as long as `j` does not pass it.
pub proof fn lemma_seq_distance_step(e: u16, start: u16, j: int)
    requires
        0 <= j <= seq_distance(e, start),
    ensures
        seq_distance(e, seq_add(start, j)) == seq_distance(e, start) - j,
{
    let d = seq_distance(e, start);
    assert(0 <= d < 65536);
    assert(seq_add(start, j) == (start + j) % 65536);
    lemma_wrap_mod(start + j, e as int, 1);
    vstd::arithmetic::div_mod::lemma_sub_mod_noop(e as int, start + j, 65536);
    vstd::arithmetic::div_mod::lemma_sub_mod_noop(e as int, start as int, 65536);
    vstd::arithmetic::div_mod::lemma_sub_mod_noop(e - start, j, 65536);
    vstd::arithmetic::div_mod::lemma_small_mod((d - j) as nat, 65536);
}

/// Number of steps a walk forward from `start` takes while it is not ahead
/// of `end`.
pub open spec fn seq_walk_len(start: u16, end: u16) -> int {
    if seq_gt(start, end) {
        0
    } else {
        seq_distance(end, start) + 1
    }
}

/// Walking forward from `start`, the sequence number reached after `j` steps
/// is not ahead of `end` exactly while `j` is below `seq_walk_len`.
pub proof fn lemma_seq_walk(start: u16, end: u16, j: int)
    requires
        0 <= j <= seq_walk_len(start, end),
    ensures
        !seq_gt(seq_add(start, j), end) <==> j < seq_walk_len(start, end),
        seq_walk_len(start, end) <= 32769,
{
    lemma_seq_gt_by_distance(start, end);
    if !seq_gt(start, end) {
        let e = seq_distance(end, start);
        vstd::arithmetic::div_mod::lemma_sub_mod_noop(start as int, end as int, 65536);
        assert(seq_distance(start, end) == (65536 - e) % 65536);
        assert(e <= 32768);
        let x = seq_add(start, j);
        assert(x == (start + j) % 65536);
        lemma_wrap_mod(start + j, end as int, 65536);
        assert(seq_distance(x, end) == (start + j - end) % 65536);
        assert((start + j - end) % 65536 == (j - e) % 65536) by {
            let q = (end - start) / 65536;
            vstd::arithmetic::div_mod::lemma_fundamental_div_mod(end - start, 65536);
            assert(start + j - end == 65536 * (-q) + (j - e));
            vstd::arithmetic::div_mod::lemma_mod_multiples_vanish(-q, j - e, 65536);
        }
        lemma_seq_gt_by_distance(x, end);
    }
}

/// Casting to `u16` keeps the value modulo 65536.
pub proof fn lemma_truncate_u16(x: usize)
    ensures
        (x as u16) as int == x as int % 65536,
{
    assert((x as u16) as usize == x % 65536usize) by (bit_vector);
}

/// Asymmetry: two sequence numbers are never each ahead of the other.
pub proof fn lemma_seq_gt_asymmetric(a: u16, b: u16)
    ensures
        !(seq_gt(a, b) && seq_gt(b, a)),
{
}

/// Totality: of two distinct sequence numbers, one is ahead of the other.
pub proof fn lemma_seq_gt_total(a: u16, b: u16)
    requires
        a != b,
    ensures
        seq_gt(a, b) || seq_gt(b, a),
{
}

/// Irreflexivity: no sequence number is ahead of itself.
pub proof fn lemma_seq_gt_irreflexive(a: u16)
    ensures
        !seq_gt(a, a),
{
}

/// Wrap-around: `s1` is ahead of `s2` exactly when the forward distance from
/// `s2` to `s1` is in `1..32768`, unless that distance is exactly half the
/// circle (where the numeric order decides).
pub proof fn lemma_seq_gt_by_distance(s1: u16, s2: u16)
    ensures
        seq_distance(s1, s2) != 32768 ==> (seq_gt(s1, s2) <==> 0 < seq_distance(s1, s2) < 32768),
        seq_distance(s1, s2) == 32768 ==> (seq_gt(s1, s2) <==> s1 > s2),
{
}

/// The next sequence number (with wrap-around) is always ahead.
pub proof fn lemma_seq_successor_greater(a: u16)
    ensures
        seq_gt(seq_add(a, 1), a),
{
}

} // verus!
