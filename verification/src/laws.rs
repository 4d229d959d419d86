//! What holds of the operations taken together, stated over the models that
//! their contracts use and proved once for all arrays.

use vstd::prelude::*;
use crate::store::{
    bit_at, bit_len, count_words, lemma_count_concat, lemma_count_with_bit_at, lemma_with_bit_at,
    lemma_zero_words_all_clear, with_bit_at, words_for, zero_words,
};
use crate::transfer::{
    byte_at, chunk_bytes, chunk_cursor, chunk_is_last, chunk_offset, chunk_remaining, chunk_words,
    incoming_byte, le_bytes, lemma_bit_in_bytes, lemma_bytes_determine_words, lemma_merged_bit,
    lemma_merged_byte, merged, Cursor, CHUNK_WORDS,
};
use crate::word::{
    byte_bit_is_set, lemma_byte_lane_of_or, lemma_popcount_bound, lemma_with_bit_same, ones_below,
};

verus! {

/// A new array for `n` requested bits has 64 bits for each of its
/// `n / 64`, rounded up, words: the least multiple of 64 that is not below
/// `n`.
pub proof fn lemma_new_bit_length(n: nat)
    ensures
        bit_len(zero_words(words_for(n))) == 64 * words_for(n),
        words_for(n) == n / 64 + (if n % 64 == 0 {
            0nat
        } else {
            1nat
        }),
        n <= 64 * words_for(n) < n + 64,
{
}

/// Reading a bit that was just written gives the value written, be it true
/// or false, and reading any other bit gives what it held before the write.
pub proof fn lemma_get_after_put(words: Seq<u64>, i: int, j: int)
    requires
        0 <= i < bit_len(words),
        0 <= j < bit_len(words),
    ensures
        bit_at(with_bit_at(words, i, true), i),
        !bit_at(with_bit_at(words, i, false), i),
        j != i ==> bit_at(with_bit_at(words, i, true), j) == bit_at(words, j),
        j != i ==> bit_at(with_bit_at(words, i, false), j) == bit_at(words, j),
{
    lemma_with_bit_at(words, i, true, i);
    lemma_with_bit_at(words, i, false, i);
    lemma_with_bit_at(words, i, true, j);
    lemma_with_bit_at(words, i, false, j);
}

/// `words` after each of the bits `indices` was set, in order.
pub open spec fn set_all(words: Seq<u64>, indices: Seq<int>) -> Seq<u64>
    decreases indices.len(),
{
    if indices.len() == 0 {
        words
    } else {
        with_bit_at(set_all(words, indices.drop_last()), indices.last(), true)
    }
}

/// After bits were set in an array that started all zero, the set bits are
/// exactly those that were named, and the count is the number of different
/// bits named: naming a bit twice does not count it twice.
pub proof fn lemma_count_after_puts(n: nat, indices: Seq<int>)
    requires
        forall|x: int| 0 <= x < indices.len() ==> 0 <= #[trigger] indices[x] < 64 * n,
    ensures
        set_all(zero_words(n), indices).len() == n,
        forall|j: int|
            0 <= j < 64 * n ==> #[trigger] bit_at(set_all(zero_words(n), indices), j)
                == indices.contains(j),
        count_words(set_all(zero_words(n), indices)) == indices.to_set().len(),
    decreases indices.len(),
{
    let after = set_all(zero_words(n), indices);
    if indices.len() == 0 {
        lemma_zero_words_all_clear(n);
        assert(indices.to_set() =~= Set::<int>::empty());
    } else {
        let earlier_indices = indices.drop_last();
        let last = indices.last();
        let earlier = set_all(zero_words(n), earlier_indices);
        lemma_count_after_puts(n, earlier_indices);
        assert forall|j: int|
            indices.contains(j) == (j == last || earlier_indices.contains(j)) by {
            if indices.contains(j) && j != last {
                let x = choose|x: int| 0 <= x < indices.len() && indices[x] == j;
                assert(earlier_indices[x] == j);
            }
        }
        assert forall|j: int| 0 <= j < 64 * n implies #[trigger] bit_at(after, j)
            == indices.contains(j) by {
            lemma_with_bit_at(earlier, last, true, j);
        }
        lemma_count_with_bit_at(earlier, last, true);
        assert(indices.to_set() =~= earlier_indices.to_set().insert(last));
        vstd::seq_lib::seq_to_set_is_finite(earlier_indices);
    }
}

/// After `k` different bits were set in an array that started all zero, the
/// count is `k`.
pub proof fn lemma_count_after_distinct_puts(n: nat, indices: Seq<int>)
    requires
        forall|x: int| 0 <= x < indices.len() ==> 0 <= #[trigger] indices[x] < 64 * n,
        indices.no_duplicates(),
    ensures
        count_words(set_all(zero_words(n), indices)) == indices.len(),
{
    lemma_count_after_puts(n, indices);
    indices.unique_seq_to_set();
}

/// Setting a bit that is set already changes neither the array nor its
/// count.
pub proof fn lemma_put_twice(words: Seq<u64>, i: int)
    requires
        0 <= i < bit_len(words),
    ensures
        with_bit_at(with_bit_at(words, i, true), i, true) == with_bit_at(words, i, true),
        count_words(with_bit_at(with_bit_at(words, i, true), i, true)) == count_words(
            with_bit_at(words, i, true),
        ),
{
    let once = with_bit_at(words, i, true);
    lemma_with_bit_at(words, i, true, i);
    lemma_count_with_bit_at(once, i, true);
    lemma_with_bit_same(once[i / 64], (i % 64) as u64);
}

/// The positions of the set bits of `words`.
pub open spec fn set_bits(words: Seq<u64>) -> Set<int> {
    Set::new(|i: int| 0 <= i < bit_len(words) && bit_at(words, i))
}

/// The positions below `n` of the set bits of `words`.
spec fn set_bits_below(words: Seq<u64>, n: nat) -> Set<int> {
    Set::new(|i: int| 0 <= i < n && bit_at(words, i))
}

proof fn lemma_set_bits_below(words: Seq<u64>, n: nat)
    requires
        n <= bit_len(words),
    ensures
        set_bits_below(words, n).finite(),
        set_bits_below(words, n).len() == count_words(words.take(n as int / 64)) + ones_below(
            words[n as int / 64],
            n % 64,
        ),
    decreases n,
{
    let below = set_bits_below(words, n);
    if n == 0 {
        assert(below =~= Set::<int>::empty());
    } else {
        let i = (n - 1) as nat;
        let earlier = set_bits_below(words, i);
        lemma_set_bits_below(words, i);
        if bit_at(words, i as int) {
            assert(below =~= earlier.insert(i as int));
        } else {
            assert(below =~= earlier);
        }
        if n % 64 == 0 {
            let m = n as int / 64;
            assert(words.take(m).drop_last() =~= words.take(m - 1));
        }
    }
}

/// The count of an array is the number of positions at which a bit is set.
pub proof fn lemma_count_is_number_of_set_bits(words: Seq<u64>)
    ensures
        set_bits(words).finite(),
        count_words(words) == set_bits(words).len(),
{
    lemma_set_bits_below(words, bit_len(words));
    assert(words.take(words.len() as int) =~= words);
}

/// An array never counts more set bits than it has bits.
pub proof fn lemma_count_bound(words: Seq<u64>)
    ensures
        count_words(words) <= bit_len(words),
    decreases words.len(),
{
    if words.len() > 0 {
        lemma_count_bound(words.drop_last());
        lemma_popcount_bound(words.last());
    }
}

/// The cursor that comes back with a chunk is `Eof` exactly when no word
/// follows the chunk, and else names the chunk after it.
pub proof fn lemma_cursor_steps(total: nat, chunk_num: nat)
    requires
        total <= usize::MAX,
    ensures
        chunk_cursor(total as int, chunk_num as int) == Cursor::Eof <==> chunk_is_last(
            total as int,
            chunk_num as int,
        ),
        !chunk_is_last(total as int, chunk_num as int) ==> chunk_num + 1 <= usize::MAX
            && chunk_cursor(total as int, chunk_num as int) == Cursor::Next(
            (chunk_num + 1) as usize,
        ),
{
}

/// The bytes of two runs of words, one after the other, are the bytes of the
/// runs joined.
pub proof fn lemma_le_bytes_concat(a: Seq<u64>, b: Seq<u64>)
    ensures
        le_bytes(a + b) == le_bytes(a) + le_bytes(b),
{
}

/// The bytes of chunk `chunk_num` and of every chunk after it, in order, up
/// to the chunk that comes back with `Eof`.
pub open spec fn chunks_from(words: Seq<u64>, chunk_num: int) -> Seq<u8>
    decreases chunk_remaining(words.len() as int, chunk_num),
{
    if chunk_is_last(words.len() as int, chunk_num) {
        chunk_bytes(words, chunk_num)
    } else {
        chunk_bytes(words, chunk_num) + chunks_from(words, chunk_num + 1)
    }
}

/// The set bits of chunk `chunk_num` and of every chunk after it, up to the
/// chunk that comes back with `Eof`.
pub open spec fn counts_from(words: Seq<u64>, chunk_num: int) -> nat
    decreases chunk_remaining(words.len() as int, chunk_num),
{
    if chunk_is_last(words.len() as int, chunk_num) {
        count_words(chunk_words(words, chunk_num))
    } else {
        count_words(chunk_words(words, chunk_num)) + counts_from(words, chunk_num + 1)
    }
}

proof fn lemma_chunks_from(words: Seq<u64>, chunk_num: int)
    requires
        0 <= chunk_offset(chunk_num) <= words.len(),
    ensures
        chunks_from(words, chunk_num) == le_bytes(words.skip(chunk_offset(chunk_num))),
        counts_from(words, chunk_num) == count_words(words.skip(chunk_offset(chunk_num))),
    decreases chunk_remaining(words.len() as int, chunk_num),
{
    if !chunk_is_last(words.len() as int, chunk_num) {
        let head = chunk_words(words, chunk_num);
        let tail = words.skip(chunk_offset(chunk_num + 1));
        lemma_chunks_from(words, chunk_num + 1);
        assert(head + tail =~= words.skip(chunk_offset(chunk_num)));
        lemma_le_bytes_concat(head, tail);
        lemma_count_concat(head, tail);
    }
}

/// Bit `j` of an array leaves in the chunk that holds its word, as bit
/// `j % 8` of the byte that lies `j / 8` bytes from the start of the array.
pub proof fn lemma_bit_in_chunk(words: Seq<u64>, j: int)
    requires
        0 <= j < bit_len(words),
    ensures
        ({
            let chunk_num = j / 64 / (CHUNK_WORDS as int);
            let p = j / 8 - 8 * chunk_offset(chunk_num);
            &&& 0 <= p < chunk_bytes(words, chunk_num).len()
            &&& bit_at(words, j) == byte_bit_is_set(
                chunk_bytes(words, chunk_num)[p],
                (j % 8) as u64,
            )
        }),
{
    lemma_bit_in_bytes(words, j);
}

/// The chunks of an array, asked for from chunk 0 on until `Eof` comes back
/// and joined in that order, are the little-endian bytes of all its words in
/// order: eight bytes for each word.
pub proof fn lemma_chunks_round_trip(words: Seq<u64>)
    ensures
        chunks_from(words, 0) == le_bytes(words),
        chunks_from(words, 0).len() == 8 * words.len(),
{
    lemma_chunks_from(words, 0);
}

/// The counts of the chunks of an array, asked for from chunk 0 on until
/// `Eof` comes back, add up to the count of the whole array.
pub proof fn lemma_chunk_counts_add_up(words: Seq<u64>)
    ensures
        counts_from(words, 0) == count_words(words),
{
    lemma_chunks_from(words, 0);
    assert(words.skip(0) =~= words);
}

/// Merging the bytes of an array `b` into an array `a` of as many words, from
/// byte 0 on, leaves in each word the OR of the two words: the union of
/// their bits.
pub proof fn lemma_merge_is_union(a: Seq<u64>, b: Seq<u64>)
    requires
        a.len() == b.len(),
    ensures
        le_bytes(b).len() == bit_len(a) / 8,
        merged(a, le_bytes(b), 0) == Seq::new(a.len(), |k: int| a[k] | b[k]),
{
    let union = Seq::new(a.len(), |k: int| a[k] | b[k]);
    assert forall|p: int| 0 <= p < 8 * a.len() implies #[trigger] byte_at(
        merged(a, le_bytes(b), 0),
        p,
    ) == byte_at(union, p) by {
        lemma_merged_byte(a, le_bytes(b), 0, p);
        lemma_byte_lane_of_or(a[p / 8], b[p / 8], (p % 8) as u64);
    }
    lemma_bytes_determine_words(merged(a, le_bytes(b), 0), union);
}

/// Merging the bytes of an array `b` into an array `a` of as many words, from
/// byte 0 on, is the union of their bits: a bit reads true afterwards exactly
/// when it read true in `a` or in `b`.
pub proof fn lemma_merge_is_union_of_bits(a: Seq<u64>, b: Seq<u64>, j: int)
    requires
        a.len() == b.len(),
        0 <= j < bit_len(a),
    ensures
        bit_at(merged(a, le_bytes(b), 0), j) == (bit_at(a, j) || bit_at(b, j)),
{
    lemma_merged_bit(a, le_bytes(b), 0, j);
    lemma_bit_in_bytes(b, j);
}

/// Merging the bytes of an array into an all-zero array of as many words,
/// from byte 0 on, gives that array.
pub proof fn lemma_merge_into_zero(b: Seq<u64>)
    ensures
        merged(zero_words(b.len()), le_bytes(b), 0) == b,
{
    lemma_merge_is_union(zero_words(b.len()), b);
    assert forall|k: int| 0 <= k < b.len() implies 0u64 | #[trigger] b[k] == b[k] by {
        let w = b[k];
        assert(0u64 | w == w) by (bit_vector);
    }
}

/// Merging the same bytes at the same place a second time changes nothing.
pub proof fn lemma_merge_twice(words: Seq<u64>, bytes: Seq<u8>, offset: int)
    ensures
        merged(merged(words, bytes, offset), bytes, offset) == merged(words, bytes, offset),
{
    let once = merged(words, bytes, offset);
    let twice = merged(once, bytes, offset);
    assert forall|p: int| 0 <= p < 8 * words.len() implies #[trigger] byte_at(twice, p) == byte_at(
        once,
        p,
    ) by {
        lemma_merged_byte(words, bytes, offset, p);
        lemma_merged_byte(once, bytes, offset, p);
        let x = byte_at(words, p);
        let y = incoming_byte(bytes, offset, p);
        assert((x | y) | y == x | y) by (bit_vector);
    }
    lemma_bytes_determine_words(twice, once);
}

/// Merging bytes in two pieces, the second from the position that the first
/// merge returned, is merging them in one piece.
pub proof fn lemma_merge_in_pieces(words: Seq<u64>, first: Seq<u8>, second: Seq<u8>, offset: int)
    ensures
        merged(merged(words, first, offset), second, offset + first.len()) == merged(
            words,
            first + second,
            offset,
        ),
{
    let stepwise = merged(merged(words, first, offset), second, offset + first.len());
    let at_once = merged(words, first + second, offset);
    assert forall|p: int| 0 <= p < 8 * words.len() implies #[trigger] byte_at(stepwise, p)
        == byte_at(at_once, p) by {
        lemma_merged_byte(words, first, offset, p);
        lemma_merged_byte(merged(words, first, offset), second, offset + first.len(), p);
        lemma_merged_byte(words, first + second, offset, p);
        let x = byte_at(words, p);
        let y = incoming_byte(first, offset, p);
        let z = incoming_byte(second, offset + first.len(), p);
        assert((x | y) | 0 == x | y) by (bit_vector);
        assert((x | 0) | z == x | z) by (bit_vector);
    }
    lemma_bytes_determine_words(stepwise, at_once);
}

/// The bytes of an array, cut in two at any byte and merged piece after
/// piece into an all-zero array of as many words, the second piece from the
/// position that the first merge returned, rebuild the array.
pub proof fn lemma_transfer_rebuilds(words: Seq<u64>, cut: int)
    requires
        0 <= cut <= 8 * words.len(),
    ensures
        merged(
            merged(zero_words(words.len()), le_bytes(words).take(cut), 0),
            le_bytes(words).skip(cut),
            cut,
        ) == words,
{
    let bytes = le_bytes(words);
    lemma_merge_in_pieces(zero_words(words.len()), bytes.take(cut), bytes.skip(cut), 0);
    assert(bytes.take(cut) + bytes.skip(cut) =~= bytes);
    lemma_merge_into_zero(words);
}

/// `target` after the chunks of `source` from chunk `chunk_num` on were
/// merged into it one after the other, the first from byte position
/// `offset` on, each later one from the position that the merge before it
/// returned, up to the chunk that comes back with `Eof`.
pub open spec fn merged_from(
    target: Seq<u64>,
    source: Seq<u64>,
    chunk_num: int,
    offset: int,
) -> Seq<u64>
    decreases chunk_remaining(source.len() as int, chunk_num),
{
    let here = merged(target, chunk_bytes(source, chunk_num), offset);
    if chunk_is_last(source.len() as int, chunk_num) {
        here
    } else {
        merged_from(here, source, chunk_num + 1, offset + chunk_bytes(source, chunk_num).len())
    }
}

proof fn lemma_merged_from(target: Seq<u64>, source: Seq<u64>, chunk_num: int, offset: int)
    ensures
        merged_from(target, source, chunk_num, offset) == merged(
            target,
            chunks_from(source, chunk_num),
            offset,
        ),
    decreases chunk_remaining(source.len() as int, chunk_num),
{
    if !chunk_is_last(source.len() as int, chunk_num) {
        let head = chunk_bytes(source, chunk_num);
        let here = merged(target, head, offset);
        lemma_merged_from(here, source, chunk_num + 1, offset + head.len());
        lemma_merge_in_pieces(target, head, chunks_from(source, chunk_num + 1), offset);
    }
}

/// An array moved chunk by chunk rebuilds itself: its chunks, asked for from
/// chunk 0 on until `Eof` comes back and merged in that order into an
/// all-zero array of as many words, the first from byte 0 on and each later
/// one from the position that the merge before it returned, give the array.
pub proof fn lemma_chunked_transfer_rebuilds(source: Seq<u64>)
    ensures
        merged_from(zero_words(source.len()), source, 0, 0) == source,
{
    lemma_merged_from(zero_words(source.len()), source, 0, 0);
    lemma_chunks_round_trip(source);
    lemma_merge_into_zero(source);
}

/// A write shows in the chunk that holds the written bit and in no other
/// chunk: a pass over the chunks sees a write made between two of its calls
/// only where the bit lies in a chunk that the pass has yet to ask for.
pub proof fn lemma_put_touches_one_chunk(words: Seq<u64>, i: int, value: bool, chunk_num: int)
    requires
        0 <= i < bit_len(words),
        0 <= chunk_num,
        i / 64 / (CHUNK_WORDS as int) != chunk_num,
    ensures
        chunk_words(with_bit_at(words, i, value), chunk_num) == chunk_words(words, chunk_num),
        chunk_bytes(with_bit_at(words, i, value), chunk_num) == chunk_bytes(words, chunk_num),
{
}

} // verus!
