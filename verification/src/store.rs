//! The bit array itself: packed storage, point access and population count.
//!
//! The array is a fixed sequence of 64-bit words. Bit `i` lives in word
//! `i / 64` at bit position `i % 64`, least significant bit first. The number
//! of words is fixed when the array is made; a requested length that is no
//! multiple of 64 is rounded up, and the padding bits are ordinary bits: they
//! start at zero, can be read and written, and are counted.
//!
//! Every operation that changes the array takes it by `&mut`, so no caller
//! sees a word half updated; callers that share one array between threads
//! keep it behind a lock of their own.

use vstd::prelude::*;
use crate::error::BitArrayError;
use crate::word::{
    bit_is_set, lemma_popcount_bound, lemma_popcount_with_bit, lemma_popcount_zero, lemma_with_bit,
    lemma_zero_has_no_bit, popcount, with_bit,
};

verus! {

/// The number of words that hold `bits` bits: `bits / 64`, rounded up.
pub open spec fn words_for(bits: nat) -> nat {
    (bits + 63) / 64
}

/// `n` words with no bit set.
pub open spec fn zero_words(n: nat) -> Seq<u64> {
    Seq::new(n, |i: int| 0u64)
}

/// The number of bits that `words` hold.
pub open spec fn bit_len(words: Seq<u64>) -> nat {
    64 * words.len()
}

/// Bit `i` of `words`.
pub open spec fn bit_at(words: Seq<u64>, i: int) -> bool {
    bit_is_set(words[i / 64], (i % 64) as u64)
}

/// `words` with bit `i` set to `value`.
pub open spec fn with_bit_at(words: Seq<u64>, i: int, value: bool) -> Seq<u64> {
    words.update(i / 64, with_bit(words[i / 64], (i % 64) as u64, value))
}

/// The number of set bits in `words`, padding included.
pub open spec fn count_words(words: Seq<u64>) -> nat
    decreases words.len(),
{
    if words.len() == 0 {
        0
    } else {
        count_words(words.drop_last()) + popcount(words.last())
    }
}

/// Whether no bit of `words` is set: every bit reads false and the count
/// is zero.
pub open spec fn all_clear(words: Seq<u64>) -> bool {
    &&& count_words(words) == 0
    &&& forall|j: int| 0 <= j < bit_len(words) ==> !#[trigger] bit_at(words, j)
}

/// The count of a concatenation is the sum of the counts.
pub proof fn lemma_count_concat(a: Seq<u64>, b: Seq<u64>)
    ensures
        count_words(a + b) == count_words(a) + count_words(b),
    decreases b.len(),
{
    if b.len() > 0 {
        assert((a + b).drop_last() =~= a + b.drop_last());
        lemma_count_concat(a, b.drop_last());
    }
}

/// Zero words have no set bit.
pub proof fn lemma_count_zero_words(n: nat)
    ensures
        count_words(zero_words(n)) == 0,
    decreases n,
{
    if n > 0 {
        assert(zero_words(n).drop_last() =~= zero_words((n - 1) as nat));
        lemma_count_zero_words((n - 1) as nat);
        lemma_popcount_zero();
    }
}

/// Zero words have no set bit at any position.
pub proof fn lemma_zero_words_all_clear(n: nat)
    ensures
        all_clear(zero_words(n)),
{
    lemma_count_zero_words(n);
    assert forall|j: int| 0 <= j < bit_len(zero_words(n)) implies !#[trigger] bit_at(
        zero_words(n),
        j,
    ) by {
        lemma_zero_has_no_bit((j % 64) as u64);
    }
}

/// Replacing one word moves the count by the difference of the two words'
/// population counts.
pub proof fn lemma_count_update(words: Seq<u64>, k: int, w: u64)
    requires
        0 <= k < words.len(),
    ensures
        count_words(words.update(k, w)) + popcount(words[k]) == count_words(words) + popcount(w),
    decreases words.len(),
{
    let updated = words.update(k, w);
    if k == words.len() - 1 {
        assert(updated.drop_last() =~= words.drop_last());
    } else {
        assert(updated.drop_last() =~= words.drop_last().update(k, w));
        lemma_count_update(words.drop_last(), k, w);
    }
}

/// Writing one bit gives that bit the value written and leaves every other
/// bit of the array as it was.
pub proof fn lemma_with_bit_at(words: Seq<u64>, i: int, value: bool, j: int)
    requires
        0 <= i < bit_len(words),
        0 <= j < bit_len(words),
    ensures
        with_bit_at(words, i, value).len() == words.len(),
        bit_at(with_bit_at(words, i, value), j) == (if j == i {
            value
        } else {
            bit_at(words, j)
        }),
{
    if j / 64 == i / 64 {
        lemma_with_bit(words[i / 64], (i % 64) as u64, value, (j % 64) as u64);
    }
}

/// Writing one bit moves the count by the difference between the value
/// written and the value that was there.
pub proof fn lemma_count_with_bit_at(words: Seq<u64>, i: int, value: bool)
    requires
        0 <= i < bit_len(words),
    ensures
        count_words(with_bit_at(words, i, value)) + (if bit_at(words, i) {
            1nat
        } else {
            0nat
        }) == count_words(words) + (if value {
            1nat
        } else {
            0nat
        }),
{
    let k = i / 64;
    let w = with_bit(words[k], (i % 64) as u64, value);
    lemma_count_update(words, k, w);
    lemma_popcount_with_bit(words[k], (i % 64) as u64, value);
}

/// The number of words that hold `length` bits.
fn words_needed(length: usize) -> (r: usize)
    ensures
        r == words_for(length as nat),
{
    if length % 64 == 0 {
        length / 64
    } else {
        length / 64 + 1
    }
}

/// A fixed-length array of bits, packed 64 to a word.
///
/// Its view is the sequence of its words: bit `i` of the array is
/// `bit_at(a@, i)`. The number of words never changes, and the number of bits
/// always fits a `usize`.
#[derive(Debug)]
pub struct BitArray {
    words: Vec<u64>,
}

impl View for BitArray {
    type V = Seq<u64>;

    closed spec fn view(&self) -> Seq<u64> {
        self.words@
    }
}

impl BitArray {
    #[verifier::type_invariant]
    spec fn addressable(&self) -> bool {
        64 * self.words@.len() <= usize::MAX
    }

    /// Makes the array of `length` bits, all zero, in `storage`, whose
    /// contents are dropped and whose allocation is used. The array has
    /// `length / 64` words, rounded up. Fails with `Allocation`, exactly when
    /// the rounded-up number of bits does not fit a `usize`.
    pub fn zeroed_in(storage: Vec<u64>, length: usize) -> (r: Result<BitArray, BitArrayError>)
        ensures
            match r {
                Ok(a) => 64 * words_for(length as nat) <= usize::MAX && a@ == zero_words(
                    words_for(length as nat),
                ) && all_clear(a@),
                Err(e) => 64 * words_for(length as nat) > usize::MAX && e
                    == BitArrayError::Allocation,
            },
    {
        let needed = words_needed(length);
        if needed > usize::MAX / 64 {
            return Err(BitArrayError::Allocation);
        }
        let mut words = storage;
        words.clear();
        let mut filled: usize = 0;
        while filled < needed
            invariant
                filled <= needed,
                words@ == zero_words(filled as nat),
            decreases needed - filled,
        {
            words.push(0);
            filled = filled + 1;
        }
        proof {
            lemma_zero_words_all_clear(needed as nat);
        }
        Ok(BitArray { words })
    }

    /// Makes an array of `length` bits, all zero: `length / 64` words,
    /// rounded up.
    ///
    /// Fails with `Allocation` when the storage cannot be had, which is for
    /// the allocator to say; it is always the case when the rounded-up number
    /// of bits does not fit a `usize`, and never when `length` is 0.
    pub fn new(length: usize) -> (r: Result<BitArray, BitArrayError>)
        ensures
            match r {
                Ok(a) => a@ == zero_words(words_for(length as nat)) && all_clear(a@),
                Err(e) => e == BitArrayError::Allocation,
            },
            length == 0 ==> r is Ok,
            64 * words_for(length as nat) > usize::MAX ==> r is Err,
    {
        let needed = words_needed(length);
        let mut storage: Vec<u64> = Vec::new();
        if 0 < needed && needed <= usize::MAX / 64 {
            match storage.try_reserve(needed) {
                Ok(()) => {},
                Err(_) => {
                    return Err(BitArrayError::Allocation);
                },
            }
        }
        BitArray::zeroed_in(storage, length)
    }

    /// The number of words.
    pub fn word_count(&self) -> (r: usize)
        ensures
            r == self@.len(),
            64 * r <= usize::MAX,
    {
        proof {
            use_type_invariant(self);
        }
        self.words.len()
    }

    /// The number of bits: 64 times the number of words.
    pub fn bit_length(&self) -> (r: usize)
        ensures
            r == bit_len(self@),
    {
        proof {
            use_type_invariant(self);
        }
        self.words.len() * 64
    }

    /// Word `i`.
    pub(crate) fn word(&self, i: usize) -> (r: u64)
        requires
            i < self@.len(),
        ensures
            r == self@[i as int],
    {
        self.words[i]
    }

    /// Replaces word `i`.
    pub(crate) fn set_word(&mut self, i: usize, w: u64)
        requires
            i < old(self)@.len(),
        ensures
            final(self)@ == old(self)@.update(i as int, w),
    {
        proof {
            use_type_invariant(&*self);
        }
        self.words[i] = w;
    }

    /// Whether bit `index` is set.
    ///
    /// Fails with `IndexOutOfRange` exactly when `index` is not below the
    /// number of bits.
    pub fn get(&self, index: usize) -> (r: Result<bool, BitArrayError>)
        ensures
            r == (if index < bit_len(self@) {
                Ok::<bool, BitArrayError>(bit_at(self@, index as int))
            } else {
                Err::<bool, BitArrayError>(BitArrayError::IndexOutOfRange)
            }),
    {
        if index / 64 >= self.words.len() {
            return Err(BitArrayError::IndexOutOfRange);
        }
        let shift: u64 = (index % 64) as u64;
        Ok(self.words[index / 64] & (1u64 << shift) != 0)
    }

    /// Sets bit `index` to `value` and leaves every other bit as it was.
    ///
    /// Fails with `IndexOutOfRange` exactly when `index` is not below the
    /// number of bits, and then changes nothing.
    pub fn put(&mut self, index: usize, value: bool) -> (r: Result<(), BitArrayError>)
        ensures
            index < bit_len(old(self)@) ==> r is Ok && final(self)@ == with_bit_at(
                old(self)@,
                index as int,
                value,
            ),
            index >= bit_len(old(self)@) ==> r == Err::<(), BitArrayError>(
                BitArrayError::IndexOutOfRange,
            ) && final(self)@ == old(self)@,
            final(self)@.len() == old(self)@.len(),
            r is Ok ==> forall|j: int|
                0 <= j < bit_len(old(self)@) ==> #[trigger] bit_at(final(self)@, j) == (if j
                    == index {
                    value
                } else {
                    bit_at(old(self)@, j)
                }),
            r is Ok ==> count_words(final(self)@) + (if bit_at(old(self)@, index as int) {
                1nat
            } else {
                0nat
            }) == count_words(old(self)@) + (if value {
                1nat
            } else {
                0nat
            }),
    {
        proof {
            use_type_invariant(&*self);
        }
        if index / 64 >= self.words.len() {
            return Err(BitArrayError::IndexOutOfRange);
        }
        let shift: u64 = (index % 64) as u64;
        let mut word = self.words[index / 64];
        if value {
            word = word | (1u64 << shift);
        } else {
            word = word & !(1u64 << shift);
        }
        self.words[index / 64] = word;
        proof {
            assert forall|j: int| 0 <= j < bit_len(old(self)@) implies #[trigger] bit_at(
                self@,
                j,
            ) == (if j == index {
                value
            } else {
                bit_at(old(self)@, j)
            }) by {
                lemma_with_bit_at(old(self)@, index as int, value, j);
            }
            lemma_count_with_bit_at(old(self)@, index as int, value);
        }
        Ok(())
    }

    /// The number of set bits among the `len` words from word `start` on.
    pub(crate) fn count_ones_in(&self, start: usize, len: usize) -> (r: usize)
        requires
            start + len <= self@.len(),
        ensures
            r == count_words(self@.subrange(start as int, start + len)),
    {
        proof {
            use_type_invariant(self);
        }
        let ghost part = self@.subrange(start as int, start + len);
        let mut count: usize = 0;
        let mut done: usize = 0;
        while done < len
            invariant
                done <= len,
                start + len <= self.words@.len(),
                64 * self.words@.len() <= usize::MAX,
                part == self.words@.subrange(start as int, start + len),
                count == count_words(part.take(done as int)),
                count <= 64 * done,
            decreases len - done,
        {
            let ones: u32 = self.words[start + done].count_ones();
            proof {
                lemma_popcount_bound(self.words@[start + done]);
                assert(part.take(done + 1).drop_last() =~= part.take(done as int));
            }
            count = count + ones as usize;
            done = done + 1;
        }
        proof {
            assert(part.take(len as int) =~= part);
        }
        count
    }

    /// The number of set bits in the whole array, padding bits included.
    pub fn count_ones(&self) -> (r: usize)
        ensures
            r == count_words(self@),
    {
        let n = self.words.len();
        proof {
            assert(self@.subrange(0, n as int) =~= self@);
        }
        self.count_ones_in(0, n)
    }
}

} // verus!
