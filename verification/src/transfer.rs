//! Chunked bulk transfer: the array's words leave as little-endian bytes one
//! chunk at a time, come in as bytes that are OR-ed into place, and are
//! counted one chunk at a time.
//!
//! A chunk is a run of at most `CHUNK_WORDS` words. Chunk `c` starts at word
//! `c * CHUNK_WORDS`; the last chunk may be shorter, and a chunk that starts
//! at or beyond the end is empty. Nothing is remembered between calls: the
//! caller passes the chunk number and gets back the cursor for the next call.
//!
//! On the wire a word is eight bytes, least significant first, and words
//! follow each other in order with nothing between them.

use vstd::prelude::*;
use crate::error::BitArrayError;
use crate::store::{bit_at, bit_len, count_words, BitArray};
use crate::word::{
    byte_bit_is_set, byte_lane, in_lane, lemma_bit_in_lane, lemma_byte_bit_of_or,
    lemma_byte_lane_fits, lemma_byte_lane_of_or, lemma_lanes_determine_word, lemma_or_in_lane,
};

verus! {

/// The number of words in a full chunk.
pub const CHUNK_WORDS: usize = 1024;

/// Where a chunked pass over an array goes next.
#[derive(Clone, Copy, Debug, PartialEq, Eq, Structural)]
pub enum Cursor {
    /// More chunks follow: ask for the chunk of this number next.
    Next(usize),
    /// The chunk just handled was the last one.
    Eof,
}

/// The word index at which chunk `chunk_num` starts.
pub open spec fn chunk_offset(chunk_num: int) -> int {
    chunk_num * CHUNK_WORDS
}

/// The number of words from the start of chunk `chunk_num` to the end of an
/// array of `total` words: zero if the chunk starts at or beyond the end.
pub open spec fn chunk_remaining(total: int, chunk_num: int) -> int {
    if total > chunk_offset(chunk_num) {
        total - chunk_offset(chunk_num)
    } else {
        0
    }
}

/// The number of words in chunk `chunk_num` of an array of `total` words.
pub open spec fn chunk_size(total: int, chunk_num: int) -> int {
    if chunk_remaining(total, chunk_num) < CHUNK_WORDS {
        chunk_remaining(total, chunk_num)
    } else {
        CHUNK_WORDS as int
    }
}

/// Whether no word follows chunk `chunk_num` in an array of `total` words.
pub open spec fn chunk_is_last(total: int, chunk_num: int) -> bool {
    chunk_remaining(total, chunk_num) <= CHUNK_WORDS
}

/// The cursor handed back with chunk `chunk_num` of an array of `total`
/// words.
pub open spec fn chunk_cursor(total: int, chunk_num: int) -> Cursor {
    if chunk_is_last(total, chunk_num) {
        Cursor::Eof
    } else {
        Cursor::Next((chunk_num + 1) as usize)
    }
}

/// The words of chunk `chunk_num`.
pub open spec fn chunk_words(words: Seq<u64>, chunk_num: int) -> Seq<u64> {
    let start = words.len() - chunk_remaining(words.len() as int, chunk_num);
    words.subrange(start, start + chunk_size(words.len() as int, chunk_num))
}

/// The byte at byte position `p` of `words`: lane `p % 8` of word `p / 8`.
pub open spec fn byte_at(words: Seq<u64>, p: int) -> u8 {
    byte_lane(words[p / 8], (p % 8) as u64)
}

/// `words` as bytes: each word as eight bytes, least significant first.
pub open spec fn le_bytes(words: Seq<u64>) -> Seq<u8> {
    Seq::new(8 * words.len(), |p: int| byte_at(words, p))
}

/// The bytes of chunk `chunk_num`.
pub open spec fn chunk_bytes(words: Seq<u64>, chunk_num: int) -> Seq<u8> {
    le_bytes(chunk_words(words, chunk_num))
}

/// The byte that `bytes`, laid down from byte position `offset` on, bring to
/// byte position `p`: zero where they do not reach.
pub open spec fn incoming_byte(bytes: Seq<u8>, offset: int, p: int) -> u8 {
    if offset <= p < offset + bytes.len() {
        bytes[p - offset]
    } else {
        0
    }
}

/// Whether `bytes`, laid down from byte position `offset` on, bring a set
/// bit to bit position `j` of the array: bit `j % 8` of the byte at byte
/// position `j / 8`.
pub open spec fn incoming_bit(bytes: Seq<u8>, offset: int, j: int) -> bool {
    byte_bit_is_set(incoming_byte(bytes, offset, j / 8), (j % 8) as u64)
}

/// The word made of eight bytes, `b0` in the least significant lane.
pub open spec fn word_of_lanes(
    b0: u8,
    b1: u8,
    b2: u8,
    b3: u8,
    b4: u8,
    b5: u8,
    b6: u8,
    b7: u8,
) -> u64 {
    in_lane(b0, 0) | in_lane(b1, 1) | in_lane(b2, 2) | in_lane(b3, 3) | in_lane(b4, 4) | in_lane(
        b5,
        5,
    ) | in_lane(b6, 6) | in_lane(b7, 7)
}

/// The word that `bytes`, laid down from byte position `offset` on, bring to
/// word `k`.
pub open spec fn incoming_word(bytes: Seq<u8>, offset: int, k: int) -> u64 {
    word_of_lanes(
        incoming_byte(bytes, offset, 8 * k),
        incoming_byte(bytes, offset, 8 * k + 1),
        incoming_byte(bytes, offset, 8 * k + 2),
        incoming_byte(bytes, offset, 8 * k + 3),
        incoming_byte(bytes, offset, 8 * k + 4),
        incoming_byte(bytes, offset, 8 * k + 5),
        incoming_byte(bytes, offset, 8 * k + 6),
        incoming_byte(bytes, offset, 8 * k + 7),
    )
}

/// `words` after `bytes` were OR-ed in from byte position `offset` on: every
/// word is OR-ed with what the bytes bring to it.
pub open spec fn merged(words: Seq<u64>, bytes: Seq<u8>, offset: int) -> Seq<u64> {
    Seq::new(words.len(), |k: int| words[k] | incoming_word(bytes, offset, k))
}

/// Lane `j` of a word made of eight bytes is the `j`-th of them, also after
/// the word was OR-ed into another.
proof fn lemma_or_word_of_lanes(
    w: u64,
    b0: u8,
    b1: u8,
    b2: u8,
    b3: u8,
    b4: u8,
    b5: u8,
    b6: u8,
    b7: u8,
)
    ensures
        byte_lane(w | word_of_lanes(b0, b1, b2, b3, b4, b5, b6, b7), 0) == byte_lane(w, 0) | b0,
        byte_lane(w | word_of_lanes(b0, b1, b2, b3, b4, b5, b6, b7), 1) == byte_lane(w, 1) | b1,
        byte_lane(w | word_of_lanes(b0, b1, b2, b3, b4, b5, b6, b7), 2) == byte_lane(w, 2) | b2,
        byte_lane(w | word_of_lanes(b0, b1, b2, b3, b4, b5, b6, b7), 3) == byte_lane(w, 3) | b3,
        byte_lane(w | word_of_lanes(b0, b1, b2, b3, b4, b5, b6, b7), 4) == byte_lane(w, 4) | b4,
        byte_lane(w | word_of_lanes(b0, b1, b2, b3, b4, b5, b6, b7), 5) == byte_lane(w, 5) | b5,
        byte_lane(w | word_of_lanes(b0, b1, b2, b3, b4, b5, b6, b7), 6) == byte_lane(w, 6) | b6,
        byte_lane(w | word_of_lanes(b0, b1, b2, b3, b4, b5, b6, b7), 7) == byte_lane(w, 7) | b7,
{
    let m = word_of_lanes(b0, b1, b2, b3, b4, b5, b6, b7);
    assert(byte_lane(m, 0) == b0 && byte_lane(m, 1) == b1 && byte_lane(m, 2) == b2 && byte_lane(
        m,
        3,
    ) == b3 && byte_lane(m, 4) == b4 && byte_lane(m, 5) == b5 && byte_lane(m, 6) == b6
        && byte_lane(m, 7) == b7) by (bit_vector)
        requires
            m == word_of_lanes(b0, b1, b2, b3, b4, b5, b6, b7),
    ;
    lemma_byte_lane_of_or(w, m, 0);
    lemma_byte_lane_of_or(w, m, 1);
    lemma_byte_lane_of_or(w, m, 2);
    lemma_byte_lane_of_or(w, m, 3);
    lemma_byte_lane_of_or(w, m, 4);
    lemma_byte_lane_of_or(w, m, 5);
    lemma_byte_lane_of_or(w, m, 6);
    lemma_byte_lane_of_or(w, m, 7);
}

/// Byte by byte, merging ORs each byte of the array with the byte that
/// comes in at its position.
pub proof fn lemma_merged_byte(words: Seq<u64>, bytes: Seq<u8>, offset: int, p: int)
    requires
        0 <= p < 8 * words.len(),
    ensures
        merged(words, bytes, offset).len() == words.len(),
        byte_at(merged(words, bytes, offset), p) == byte_at(words, p) | incoming_byte(
            bytes,
            offset,
            p,
        ),
{
    let k = p / 8;
    lemma_or_word_of_lanes(
        words[k],
        incoming_byte(bytes, offset, 8 * k),
        incoming_byte(bytes, offset, 8 * k + 1),
        incoming_byte(bytes, offset, 8 * k + 2),
        incoming_byte(bytes, offset, 8 * k + 3),
        incoming_byte(bytes, offset, 8 * k + 4),
        incoming_byte(bytes, offset, 8 * k + 5),
        incoming_byte(bytes, offset, 8 * k + 6),
        incoming_byte(bytes, offset, 8 * k + 7),
    );
}

/// Bit `j` of an array is bit `j % 8` of its byte `j / 8`.
pub proof fn lemma_bit_in_bytes(words: Seq<u64>, j: int)
    requires
        0 <= j < bit_len(words),
    ensures
        bit_at(words, j) == byte_bit_is_set(byte_at(words, j / 8), (j % 8) as u64),
{
    lemma_bit_in_lane(words[j / 64], (j % 64) as u64);
}

/// Bit by bit, merging is a union: a bit is set after the merge exactly
/// when it was set before or comes in set.
pub proof fn lemma_merged_bit(words: Seq<u64>, bytes: Seq<u8>, offset: int, j: int)
    requires
        0 <= j < bit_len(words),
    ensures
        bit_at(merged(words, bytes, offset), j) == (bit_at(words, j) || incoming_bit(
            bytes,
            offset,
            j,
        )),
{
    lemma_merged_byte(words, bytes, offset, j / 8);
    lemma_bit_in_bytes(words, j);
    lemma_bit_in_bytes(merged(words, bytes, offset), j);
    lemma_byte_bit_of_or(
        byte_at(words, j / 8),
        incoming_byte(bytes, offset, j / 8),
        (j % 8) as u64,
    );
}

/// Two arrays of the same number of words whose bytes agree are the same.
pub proof fn lemma_bytes_determine_words(a: Seq<u64>, b: Seq<u64>)
    requires
        a.len() == b.len(),
        forall|p: int| 0 <= p < 8 * a.len() ==> #[trigger] byte_at(a, p) == byte_at(b, p),
    ensures
        a == b,
{
    assert forall|k: int| 0 <= k < a.len() implies a[k] == b[k] by {
        assert forall|lane: u64| lane < 8 implies byte_lane(a[k], lane) == byte_lane(
            b[k],
            lane,
        ) by {
            let p = 8 * k + lane;
            assert(byte_at(a, p) == byte_at(b, p));
        }
        lemma_lanes_determine_word(a[k], b[k]);
    }
}

impl BitArray {
    /// Where chunk `chunk_num` starts, how many words it has, and the cursor
    /// that goes back with it.
    fn chunk_range(&self, chunk_num: usize) -> (r: (usize, usize, Cursor))
        ensures
            r.0 == self@.len() - chunk_remaining(self@.len() as int, chunk_num as int),
            r.1 == chunk_size(self@.len() as int, chunk_num as int),
            r.2 == chunk_cursor(self@.len() as int, chunk_num as int),
            r.0 + r.1 <= self@.len() <= usize::MAX,
    {
        let total = self.word_count();
        let remaining = if chunk_num <= total / CHUNK_WORDS {
            total - chunk_num * CHUNK_WORDS
        } else {
            0
        };
        let size = if remaining < CHUNK_WORDS {
            remaining
        } else {
            CHUNK_WORDS
        };
        let cursor = if remaining <= CHUNK_WORDS {
            Cursor::Eof
        } else {
            Cursor::Next(chunk_num + 1)
        };
        (total - remaining, size, cursor)
    }

    /// Appends the bytes of chunk `chunk_num` to `out`: each word of the
    /// chunk as eight bytes, least significant first. Returns `Eof` if no
    /// word follows the chunk, else the number of the next chunk. A chunk
    /// beyond the end is empty and gives `Eof`; chunk 0 of an array of at
    /// most `CHUNK_WORDS` words is the whole array.
    pub fn write_chunk(&self, chunk_num: usize, out: &mut Vec<u8>) -> (cursor: Cursor)
        ensures
            final(out)@ == old(out)@ + chunk_bytes(self@, chunk_num as int),
            cursor == chunk_cursor(self@.len() as int, chunk_num as int),
            chunk_num == 0 && self@.len() <= CHUNK_WORDS ==> final(out)@ == old(out)@ + le_bytes(
                self@,
            ),
    {
        let (start, size, cursor) = self.chunk_range(chunk_num);
        let ghost before = out@;
        let ghost part = chunk_words(self@, chunk_num as int);
        let mut x: usize = 0;
        while x < size
            invariant
                x <= size,
                start + size <= self@.len() <= usize::MAX,
                part == self@.subrange(start as int, start + size),
                out@ == before + le_bytes(part).take(8 * x),
            decreases size - x,
        {
            let w = self.word(start + x);
            let mut lane: u64 = 0;
            while lane < 8
                invariant
                    lane <= 8,
                    x < size,
                    part.len() == size,
                    w == part[x as int],
                    out@ == before + le_bytes(part).take(8 * x + lane),
                decreases 8 - lane,
            {
                proof {
                    lemma_byte_lane_fits(w, lane);
                }
                out.push(((w >> (8 * lane)) & 0xff) as u8);
                lane = lane + 1;
            }
            x = x + 1;
        }
        cursor
    }

    /// Chunk `chunk_num` as bytes, with the cursor for the next call: `Eof`
    /// if no word follows the chunk, else the number of the next chunk. A
    /// chunk beyond the end is empty and gives `Eof`; chunk 0 of an array of
    /// at most `CHUNK_WORDS` words is the whole array.
    ///
    /// Fails with `Allocation` when the buffer cannot be had, which is for
    /// the allocator to say; never for an empty chunk.
    pub fn to_bin_chunked(&self, chunk_num: usize) -> (r: Result<(Cursor, Vec<u8>), BitArrayError>)
        ensures
            match r {
                Ok((cursor, bytes)) => {
                    &&& cursor == chunk_cursor(self@.len() as int, chunk_num as int)
                    &&& bytes@ == chunk_bytes(self@, chunk_num as int)
                    &&& chunk_num == 0 && self@.len() <= CHUNK_WORDS ==> bytes@ == le_bytes(self@)
                },
                Err(e) => e == BitArrayError::Allocation,
            },
            chunk_size(self@.len() as int, chunk_num as int) == 0 ==> r is Ok,
    {
        let (_, size, _) = self.chunk_range(chunk_num);
        let mut out: Vec<u8> = Vec::new();
        if size > 0 {
            match out.try_reserve(size * 8) {
                Ok(()) => {},
                Err(_) => {
                    return Err(BitArrayError::Allocation);
                },
            }
        }
        let cursor = self.write_chunk(chunk_num, &mut out);
        Ok((cursor, out))
    }

    /// ORs `bytes` into the array from byte position `byte_offset` on: byte
    /// `x` of `bytes` goes to lane `(byte_offset + x) % 8` of word
    /// `(byte_offset + x) / 8`. Bits that were set stay set. Returns the
    /// byte position after the last byte, which is the offset for the bytes
    /// that follow.
    ///
    /// Fails with `IndexOutOfRange` exactly when `byte_offset` plus the
    /// number of bytes is more than eight times the number of words, and then
    /// changes nothing.
    pub fn or_chunk(&mut self, bytes: &[u8], byte_offset: usize) -> (r: Result<
        usize,
        BitArrayError,
    >)
        ensures
            byte_offset + bytes@.len() <= 8 * old(self)@.len() ==> r == Ok::<usize, BitArrayError>(
                (byte_offset + bytes@.len()) as usize,
            ) && final(self)@ == merged(old(self)@, bytes@, byte_offset as int),
            byte_offset + bytes@.len() > 8 * old(self)@.len() ==> r == Err::<usize, BitArrayError>(
                BitArrayError::IndexOutOfRange,
            ) && final(self)@ == old(self)@,
            final(self)@.len() == old(self)@.len(),
            r is Ok ==> forall|j: int|
                0 <= j < bit_len(old(self)@) ==> #[trigger] bit_at(final(self)@, j) == (bit_at(
                    old(self)@,
                    j,
                ) || incoming_bit(bytes@, byte_offset as int, j)),
    {
        let capacity = self.word_count() * 8;
        let count = bytes.len();
        if count > capacity || byte_offset > capacity - count {
            return Err(BitArrayError::IndexOutOfRange);
        }
        let ghost before = self@;
        assert forall|p: int| 0 <= p < 8 * before.len() implies #[trigger] byte_at(self@, p)
            == byte_at(before, p) | incoming_byte(bytes@.take(0), byte_offset as int, p) by {
            let b = byte_at(before, p);
            assert(b | 0 == b) by (bit_vector);
        }
        let mut x: usize = 0;
        while x < count
            invariant
                x <= count,
                count == bytes@.len(),
                byte_offset + count <= 8 * before.len() <= usize::MAX,
                self@.len() == before.len(),
                forall|p: int|
                    0 <= p < 8 * before.len() ==> #[trigger] byte_at(self@, p) == byte_at(before, p)
                        | incoming_byte(bytes@.take(x as int), byte_offset as int, p),
            decreases count - x,
        {
            let position = byte_offset + x;
            let k = position / 8;
            let lane: u64 = (position % 8) as u64;
            let byte = bytes[x];
            let w = self.word(k);
            let ghost earlier = self@;
            self.set_word(k, w | ((byte as u64) << (8 * lane)));
            proof {
                assert forall|p: int| 0 <= p < 8 * before.len() implies #[trigger] byte_at(
                    self@,
                    p,
                ) == byte_at(before, p) | incoming_byte(
                    bytes@.take(x + 1),
                    byte_offset as int,
                    p,
                ) by {
                    assert(byte_at(earlier, p) == byte_at(before, p) | incoming_byte(
                        bytes@.take(x as int),
                        byte_offset as int,
                        p,
                    ));
                    if p / 8 == k {
                        lemma_or_in_lane(w, byte, lane, (p % 8) as u64);
                    }
                    if p == position {
                        let b = byte_at(before, p);
                        assert((b | 0) | byte == b | byte) by (bit_vector);
                    }
                }
            }
            x = x + 1;
        }
        proof {
            assert forall|p: int| 0 <= p < 8 * before.len() implies #[trigger] byte_at(self@, p)
                == byte_at(merged(before, bytes@, byte_offset as int), p) by {
                lemma_merged_byte(before, bytes@, byte_offset as int, p);
            }
            lemma_bytes_determine_words(self@, merged(before, bytes@, byte_offset as int));
            assert forall|j: int| 0 <= j < bit_len(before) implies #[trigger] bit_at(self@, j)
                == (bit_at(before, j) || incoming_bit(bytes@, byte_offset as int, j)) by {
                lemma_merged_bit(before, bytes@, byte_offset as int, j);
            }
        }
        Ok(byte_offset + count)
    }

    /// The number of set bits in chunk `chunk_num`, with the cursor for the
    /// next call: `Eof` if no word follows the chunk, else the number of the
    /// next chunk. A chunk beyond the end counts zero and gives `Eof`; chunk
    /// 0 of an array of at most `CHUNK_WORDS` words counts the whole array.
    pub fn count_ones_chunked(&self, chunk_num: usize) -> (r: (Cursor, usize))
        ensures
            r.0 == chunk_cursor(self@.len() as int, chunk_num as int),
            r.1 == count_words(chunk_words(self@, chunk_num as int)),
            chunk_num == 0 && self@.len() <= CHUNK_WORDS ==> r.1 == count_words(self@),
    {
        let (start, size, cursor) = self.chunk_range(chunk_num);
        proof {
            if chunk_num == 0 && self@.len() <= CHUNK_WORDS {
                assert(chunk_words(self@, 0) =~= self@);
            }
        }
        (cursor, self.count_ones_in(start, size))
    }
}

} // verus!
