//! Single 64-bit words: bits, byte lanes and population count.
//!
//! A word holds 64 bits, bit 0 being the least significant, and 8 byte
//! lanes, lane 0 being the least significant byte.

use vstd::prelude::*;

verus! {

/// Whether bit `k` (least significant first) of `w` is set.
pub open spec fn bit_is_set(w: u64, k: u64) -> bool {
    w & (1u64 << k) != 0
}

/// `w` with bit `k` set to `value` and every other bit as it was.
pub open spec fn with_bit(w: u64, k: u64, value: bool) -> u64 {
    if value {
        w | (1u64 << k)
    } else {
        w & !(1u64 << k)
    }
}

/// Byte lane `lane` of `w`.
pub open spec fn byte_lane(w: u64, lane: u64) -> u8 {
    ((w >> (8 * lane)) & 0xff) as u8
}

/// Whether bit `k` (least significant first) of the byte `b` is set.
pub open spec fn byte_bit_is_set(b: u8, k: u64) -> bool {
    b & (1u8 << k) != 0
}

/// The byte `b` moved into lane `lane` of an otherwise zero word.
pub open spec fn in_lane(b: u8, lane: u64) -> u64 {
    (b as u64) << (8 * lane)
}

/// How many of the bits `0 .. n` of `w` are set.
pub open spec fn ones_below(w: u64, n: nat) -> nat
    decreases n,
{
    if n == 0 {
        0
    } else {
        ones_below(w, (n - 1) as nat) + if bit_is_set(w, (n - 1) as u64) {
            1nat
        } else {
            0nat
        }
    }
}

/// How many of the 64 bits of `w` are set.
pub open spec fn popcount(w: u64) -> nat {
    ones_below(w, 64)
}

/// `u64::count_ones` of the standard library, which documents its result as
/// the number of ones in the binary representation of the word. Taken on
/// trust: the result is `popcount` of the word.
pub assume_specification[ u64::count_ones ](w: u64) -> (r: u32)
    ensures
        r == popcount(w),
;

/// Writing bit `k` gives that bit the value written and leaves the rest.
pub proof fn lemma_with_bit(w: u64, k: u64, value: bool, j: u64)
    requires
        k < 64,
        j < 64,
    ensures
        bit_is_set(with_bit(w, k, value), j) == (if j == k {
            value
        } else {
            bit_is_set(w, j)
        }),
{
    assert(bit_is_set(with_bit(w, k, value), j) == (if j == k {
        value
    } else {
        bit_is_set(w, j)
    })) by (bit_vector)
        requires
            k < 64,
            j < 64,
    ;
}

/// Writing a bit the value it already has changes nothing.
pub proof fn lemma_with_bit_same(w: u64, k: u64)
    requires
        k < 64,
    ensures
        with_bit(w, k, bit_is_set(w, k)) == w,
{
    assert(with_bit(w, k, bit_is_set(w, k)) == w) by (bit_vector)
        requires
            k < 64,
    ;
}

/// No bit of the zero word is set.
pub proof fn lemma_zero_has_no_bit(k: u64)
    requires
        k < 64,
    ensures
        !bit_is_set(0, k),
{
    assert(!bit_is_set(0, k)) by (bit_vector)
        requires
            k < 64,
    ;
}

/// At most `n` of the first `n` bits are set.
pub proof fn lemma_ones_below_bound(w: u64, n: nat)
    ensures
        ones_below(w, n) <= n,
    decreases n,
{
    if n > 0 {
        lemma_ones_below_bound(w, (n - 1) as nat);
    }
}

/// A word has at most 64 set bits.
pub proof fn lemma_popcount_bound(w: u64)
    ensures
        popcount(w) <= 64,
{
    lemma_ones_below_bound(w, 64);
}

proof fn lemma_ones_below_zero(n: nat)
    requires
        n <= 64,
    ensures
        ones_below(0, n) == 0,
    decreases n,
{
    if n > 0 {
        lemma_ones_below_zero((n - 1) as nat);
        lemma_zero_has_no_bit((n - 1) as u64);
    }
}

/// The zero word has no set bit.
pub proof fn lemma_popcount_zero()
    ensures
        popcount(0) == 0,
{
    lemma_ones_below_zero(64);
}

proof fn lemma_ones_below_with_bit(w: u64, k: u64, value: bool, n: nat)
    requires
        k < 64,
        n <= 64,
    ensures
        ones_below(with_bit(w, k, value), n) + (if k < n && bit_is_set(w, k) {
            1nat
        } else {
            0nat
        }) == ones_below(w, n) + (if k < n && value {
            1nat
        } else {
            0nat
        }),
    decreases n,
{
    if n > 0 {
        lemma_ones_below_with_bit(w, k, value, (n - 1) as nat);
        lemma_with_bit(w, k, value, (n - 1) as u64);
    }
}

/// Writing bit `k` moves the population count by the difference between the
/// value written and the value that was there.
pub proof fn lemma_popcount_with_bit(w: u64, k: u64, value: bool)
    requires
        k < 64,
    ensures
        popcount(with_bit(w, k, value)) + (if bit_is_set(w, k) {
            1nat
        } else {
            0nat
        }) == popcount(w) + (if value {
            1nat
        } else {
            0nat
        }),
{
    lemma_ones_below_with_bit(w, k, value, 64);
}

/// A byte lane is a byte.
pub proof fn lemma_byte_lane_fits(w: u64, lane: u64)
    requires
        lane < 8,
    ensures
        (w >> (8 * lane)) & 0xff <= 0xff,
{
    assert((w >> (8 * lane)) & 0xff <= 0xff) by (bit_vector)
        requires
            lane < 8,
    ;
}

/// Bit `k` of a word is bit `k % 8` of its byte lane `k / 8`.
pub proof fn lemma_bit_in_lane(w: u64, k: u64)
    requires
        k < 64,
    ensures
        bit_is_set(w, k) == byte_bit_is_set(byte_lane(w, k / 8), k % 8),
{
    assert(bit_is_set(w, k) == byte_bit_is_set(byte_lane(w, k / 8), k % 8)) by (bit_vector)
        requires
            k < 64,
    ;
}

/// A bit of the OR of two bytes is set exactly when it is set in one of
/// them.
pub proof fn lemma_byte_bit_of_or(x: u8, y: u8, k: u64)
    requires
        k < 8,
    ensures
        byte_bit_is_set(x | y, k) == (byte_bit_is_set(x, k) || byte_bit_is_set(y, k)),
{
    assert(byte_bit_is_set(x | y, k) == (byte_bit_is_set(x, k) || byte_bit_is_set(y, k)))
        by (bit_vector)
        requires
            k < 8,
    ;
}

/// OR-ing a byte into lane `lane` ORs it into that lane's byte and leaves
/// the other seven lanes.
pub proof fn lemma_or_in_lane(w: u64, b: u8, lane: u64, j: u64)
    requires
        lane < 8,
        j < 8,
    ensures
        byte_lane(w | in_lane(b, lane), j) == (if j == lane {
            byte_lane(w, j) | b
        } else {
            byte_lane(w, j)
        }),
{
    assert(byte_lane(w | in_lane(b, lane), j) == (if j == lane {
        byte_lane(w, j) | b
    } else {
        byte_lane(w, j)
    })) by (bit_vector)
        requires
            lane < 8,
            j < 8,
    ;
}

/// The lanes of the OR of two words are the ORs of their lanes.
pub proof fn lemma_byte_lane_of_or(a: u64, b: u64, lane: u64)
    requires
        lane < 8,
    ensures
        byte_lane(a | b, lane) == byte_lane(a, lane) | byte_lane(b, lane),
{
    assert(byte_lane(a | b, lane) == byte_lane(a, lane) | byte_lane(b, lane)) by (bit_vector)
        requires
            lane < 8,
    ;
}

/// Two words with the same eight byte lanes are the same word.
pub proof fn lemma_lanes_determine_word(a: u64, b: u64)
    requires
        forall|lane: u64| lane < 8 ==> byte_lane(a, lane) == byte_lane(b, lane),
    ensures
        a == b,
{
    assert(a == b) by (bit_vector)
        requires
            byte_lane(a, 0) == byte_lane(b, 0),
            byte_lane(a, 1) == byte_lane(b, 1),
            byte_lane(a, 2) == byte_lane(b, 2),
            byte_lane(a, 3) == byte_lane(b, 3),
            byte_lane(a, 4) == byte_lane(b, 4),
            byte_lane(a, 5) == byte_lane(b, 5),
            byte_lane(a, 6) == byte_lane(b, 6),
            byte_lane(a, 7) == byte_lane(b, 7),
    ;
}

} // verus!
