use bitarray::error::BitArrayError;
use bitarray::store::BitArray;
use bitarray::transfer::{Cursor, CHUNK_WORDS};

fn zeroed(length: usize) -> BitArray {
    match BitArray::new(length) {
        Ok(a) => a,
        Err(e) => panic!("no array of {} bits: {}", length, e.message()),
    }
}

fn chunk(a: &BitArray, chunk_num: usize) -> (Cursor, Vec<u8>) {
    match a.to_bin_chunked(chunk_num) {
        Ok(pair) => pair,
        Err(e) => panic!("no chunk {}: {}", chunk_num, e.message()),
    }
}

/// Word `k` of a fixed pattern that differs from word to word and from lane
/// to lane.
fn pattern_word(k: usize) -> u64 {
    let k64: u64 = k as u64;
    (k64 + 1).wrapping_mul(0x9e37_79b9_7f4a_7c15) ^ (k64 << 7)
}

fn pattern_words(count: usize) -> Vec<u64> {
    let mut words: Vec<u64> = Vec::new();
    let mut k: usize = 0;
    while k < count {
        words.push(pattern_word(k));
        k += 1;
    }
    words
}

fn little_endian(words: &[u64]) -> Vec<u8> {
    let mut bytes: Vec<u8> = Vec::new();
    for w in words.iter() {
        bytes.extend_from_slice(&w.to_le_bytes());
    }
    bytes
}

fn ones_in(words: &[u64]) -> usize {
    let mut ones: usize = 0;
    for w in words.iter() {
        ones += w.count_ones() as usize;
    }
    ones
}

/// An array that holds exactly `words`, written bit by bit.
fn array_of(words: &[u64]) -> BitArray {
    let mut a = zeroed(words.len() * 64);
    let mut i: usize = 0;
    while i < words.len() * 64 {
        if (words[i / 64] >> (i % 64)) & 1 == 1 {
            assert_eq!(a.put(i, true), Ok(()));
        }
        i += 1;
    }
    a
}

/// All chunks from chunk 0 on until `Eof`, joined, and the number of calls.
fn all_chunks(a: &BitArray) -> (Vec<u8>, usize) {
    let mut bytes: Vec<u8> = Vec::new();
    let mut chunk_num: usize = 0;
    let mut calls: usize = 0;
    loop {
        let (cursor, part) = chunk(a, chunk_num);
        bytes.extend_from_slice(&part);
        calls += 1;
        match cursor {
            Cursor::Eof => {
                return (bytes, calls);
            }
            Cursor::Next(next) => {
                assert_eq!(next, chunk_num + 1);
                chunk_num = next;
            }
        }
    }
}

#[test]
fn chunk_is_1024_words() {
    assert_eq!(CHUNK_WORDS, 1024);
}

#[test]
fn exactly_one_chunk_ends_at_once() {
    let a = zeroed(1024 * 64);
    let (cursor, bytes) = chunk(&a, 0);
    assert_eq!(cursor, Cursor::Eof);
    assert_eq!(bytes.len(), 8192);
    assert!(bytes.iter().all(|&b| b == 0));
}

#[test]
fn one_word_more_than_a_chunk_takes_two_calls() {
    let a = zeroed(1024 * 64 + 64);
    assert_eq!(a.word_count(), 1025);
    let (cursor, bytes) = chunk(&a, 0);
    assert_eq!(cursor, Cursor::Next(1));
    assert_eq!(bytes.len(), 1024 * 8);
    let (cursor, bytes) = chunk(&a, 1);
    assert_eq!(cursor, Cursor::Eof);
    assert_eq!(bytes.len(), 8);
}

#[test]
fn chunk_beyond_the_end_is_empty_and_eof() {
    let a = zeroed(1024 * 64 + 64);
    assert_eq!(chunk(&a, 2), (Cursor::Eof, Vec::new()));
    assert_eq!(chunk(&a, 3), (Cursor::Eof, Vec::new()));
    assert_eq!(chunk(&a, usize::MAX), (Cursor::Eof, Vec::new()));
    assert_eq!(chunk(&a, usize::MAX / 1024 + 1), (Cursor::Eof, Vec::new()));
    let one = zeroed(1024 * 64);
    assert_eq!(chunk(&one, 1), (Cursor::Eof, Vec::new()));
    let none = zeroed(0);
    assert_eq!(chunk(&none, 0), (Cursor::Eof, Vec::new()));
    assert_eq!(chunk(&none, 1), (Cursor::Eof, Vec::new()));
}

#[test]
fn cursors_of_three_chunks() {
    let a = zeroed(3 * 1024 * 64);
    assert_eq!(chunk(&a, 0).0, Cursor::Next(1));
    assert_eq!(chunk(&a, 1).0, Cursor::Next(2));
    assert_eq!(chunk(&a, 2).0, Cursor::Eof);
    assert_eq!(chunk(&a, 0).1.len(), 8192);
    assert_eq!(chunk(&a, 1).1.len(), 8192);
    assert_eq!(chunk(&a, 2).1.len(), 8192);
    let b = zeroed(2 * 1024 * 64 + 1);
    assert_eq!(chunk(&b, 1).0, Cursor::Next(2));
    assert_eq!(chunk(&b, 2), (Cursor::Eof, vec![0u8; 8]));
}

#[test]
fn words_leave_least_significant_byte_first() {
    let mut a = zeroed(128);
    assert_eq!(a.put(0, true), Ok(()));
    assert_eq!(a.put(9, true), Ok(()));
    assert_eq!(a.put(63, true), Ok(()));
    assert_eq!(a.put(64 + 16, true), Ok(()));
    assert_eq!(a.put(64 + 17, true), Ok(()));
    let (cursor, bytes) = chunk(&a, 0);
    assert_eq!(cursor, Cursor::Eof);
    assert_eq!(bytes, vec![0x01, 0x02, 0, 0, 0, 0, 0, 0x80, 0, 0, 0x03, 0, 0, 0, 0, 0]);
}

#[test]
fn one_word_as_bytes() {
    let word: u64 = 0x0123_4567_89ab_cdef;
    let a = array_of(&[word]);
    assert_eq!(
        chunk(&a, 0),
        (Cursor::Eof, vec![0xef, 0xcd, 0xab, 0x89, 0x67, 0x45, 0x23, 0x01])
    );
}

#[test]
fn chunks_joined_are_all_words_in_order() {
    let counts: Vec<usize> = vec![0, 1, 2, 1023, 1024, 1025, 2048, 2500];
    for &count in counts.iter() {
        let words = pattern_words(count);
        let mut a = zeroed(count * 64);
        assert_eq!(a.or_chunk(&little_endian(&words), 0), Ok(count * 8));
        let (bytes, calls) = all_chunks(&a);
        assert_eq!(bytes.len(), count * 8);
        assert_eq!(bytes, little_endian(&words));
        let expected_calls: usize = if count == 0 { 1 } else { (count + 1023) / 1024 };
        assert_eq!(calls, expected_calls);
    }
}

#[test]
fn chunks_of_an_array_written_bit_by_bit() {
    let words = pattern_words(3);
    let a = array_of(&words);
    assert_eq!(all_chunks(&a).0, little_endian(&words));
}

#[test]
fn write_chunk_appends() {
    let words = pattern_words(1030);
    let mut a = zeroed(1030 * 64);
    assert_eq!(a.or_chunk(&little_endian(&words), 0), Ok(1030 * 8));
    let mut out: Vec<u8> = vec![0xaa, 0xbb];
    assert_eq!(a.write_chunk(1, &mut out), Cursor::Eof);
    let mut expected: Vec<u8> = vec![0xaa, 0xbb];
    expected.extend_from_slice(&little_endian(&words[1024..]));
    assert_eq!(out, expected);
    assert_eq!(a.write_chunk(0, &mut out), Cursor::Next(1));
    expected.extend_from_slice(&little_endian(&words[..1024]));
    assert_eq!(out, expected);
    assert_eq!(a.write_chunk(7, &mut out), Cursor::Eof);
    assert_eq!(out, expected);
}

#[test]
fn merge_into_zero_array_copies() {
    let words = pattern_words(1500);
    let b = array_of(&words);
    let (bytes, _) = all_chunks(&b);
    let mut a = zeroed(1500 * 64);
    assert_eq!(bytes.len(), a.bit_length() / 8);
    assert_eq!(a.or_chunk(&bytes, 0), Ok(1500 * 8));
    assert_eq!(all_chunks(&a).0, bytes);
    assert_eq!(a.count_ones(), b.count_ones());
    let mut i: usize = 0;
    while i < a.bit_length() {
        assert_eq!(a.get(i), b.get(i));
        i += 1;
    }
    assert_eq!(a.or_chunk(&bytes, 0), Ok(1500 * 8));
    assert_eq!(all_chunks(&a).0, bytes);
    assert_eq!(a.count_ones(), ones_in(&words));
}

#[test]
fn merge_is_a_union_of_bits() {
    let mut a = zeroed(128);
    assert_eq!(a.put(0, true), Ok(()));
    assert_eq!(a.put(1, true), Ok(()));
    assert_eq!(a.put(127, true), Ok(()));
    let incoming: Vec<u8> = vec![0x06, 0, 0, 0, 0, 0, 0, 0, 0x10, 0, 0, 0, 0, 0, 0, 0];
    assert_eq!(a.or_chunk(&incoming, 0), Ok(16));
    assert_eq!(
        chunk(&a, 0).1,
        vec![0x07, 0, 0, 0, 0, 0, 0, 0, 0x10, 0, 0, 0, 0, 0, 0, 0x80]
    );
    assert_eq!(a.count_ones(), 5);
    assert_eq!(a.get(0), Ok(true));
    assert_eq!(a.get(2), Ok(true));
    assert_eq!(a.get(68), Ok(true));
    assert_eq!(a.get(127), Ok(true));
    let x = pattern_words(40);
    let y = pattern_words(80);
    let mut u = array_of(&x);
    assert_eq!(u.or_chunk(&little_endian(&y[40..]), 0), Ok(320));
    let mut union: Vec<u64> = Vec::new();
    let mut k: usize = 0;
    while k < 40 {
        union.push(x[k] | y[40 + k]);
        k += 1;
    }
    assert_eq!(all_chunks(&u).0, little_endian(&union));
}

#[test]
fn merge_never_clears() {
    let mut a = zeroed(64);
    assert_eq!(a.or_chunk(&[0xff, 0xff], 3), Ok(5));
    assert_eq!(a.or_chunk(&[0x00, 0x00, 0x00], 2), Ok(5));
    assert_eq!(chunk(&a, 0).1, vec![0, 0, 0, 0xff, 0xff, 0, 0, 0]);
    assert_eq!(a.count_ones(), 16);
}

#[test]
fn merge_at_a_byte_offset_across_words() {
    let mut a = zeroed(192);
    assert_eq!(a.or_chunk(&[0x11, 0x22, 0x33, 0x44], 6), Ok(10));
    assert_eq!(
        chunk(&a, 0).1,
        vec![0, 0, 0, 0, 0, 0, 0x11, 0x22, 0x33, 0x44, 0, 0, 0, 0, 0, 0, 0, 0, 0, 0, 0, 0, 0, 0]
    );
    assert_eq!(a.get(48), Ok(true));
    assert_eq!(a.get(52), Ok(true));
    assert_eq!(a.get(49), Ok(false));
    assert_eq!(a.get(64), Ok(true));
    assert_eq!(a.get(65), Ok(true));
    assert_eq!(a.get(66), Ok(false));
    assert_eq!(a.or_chunk(&[0x80], 23), Ok(24));
    assert_eq!(a.get(191), Ok(true));
    assert_eq!(a.count_ones(), 2 + 2 + 4 + 2 + 1);
}

#[test]
fn merge_in_pieces_is_merge_at_once() {
    let words = pattern_words(300);
    let bytes = little_endian(&words);
    let mut at_once = zeroed(300 * 64);
    assert_eq!(at_once.or_chunk(&bytes, 0), Ok(2400));
    let mut piecewise = zeroed(300 * 64);
    let cuts: Vec<usize> = vec![0, 1, 8, 13, 1000, 1001, 2399, 2400];
    let mut offset: usize = 0;
    let mut c: usize = 1;
    while c < cuts.len() {
        let next = piecewise.or_chunk(&bytes[cuts[c - 1]..cuts[c]], offset);
        assert_eq!(next, Ok(cuts[c]));
        offset = cuts[c];
        c += 1;
    }
    assert_eq!(all_chunks(&piecewise).0, all_chunks(&at_once).0);
    assert_eq!(all_chunks(&piecewise).0, bytes);
}

#[test]
fn transfer_chunk_by_chunk_between_arrays() {
    let words = pattern_words(2100);
    let source = array_of(&words);
    let mut target = zeroed(2100 * 64);
    let mut chunk_num: usize = 0;
    let mut offset: usize = 0;
    loop {
        let (cursor, bytes) = chunk(&source, chunk_num);
        offset = match target.or_chunk(&bytes, offset) {
            Ok(next) => next,
            Err(e) => panic!("{}", e.message()),
        };
        match cursor {
            Cursor::Eof => break,
            Cursor::Next(next) => chunk_num = next,
        }
    }
    assert_eq!(offset, 2100 * 8);
    assert_eq!(all_chunks(&target).0, little_endian(&words));
    assert_eq!(target.count_ones(), ones_in(&words));
}

#[test]
fn merge_beyond_the_end_is_reported_and_changes_nothing() {
    let mut a = zeroed(128);
    assert_eq!(a.put(7, true), Ok(()));
    assert_eq!(a.or_chunk(&[0xff], 16), Err(BitArrayError::IndexOutOfRange));
    assert_eq!(a.or_chunk(&[0xff, 0xff], 15), Err(BitArrayError::IndexOutOfRange));
    assert_eq!(a.or_chunk(&[0xff; 17], 0), Err(BitArrayError::IndexOutOfRange));
    assert_eq!(a.or_chunk(&[0xff], usize::MAX), Err(BitArrayError::IndexOutOfRange));
    assert_eq!(a.or_chunk(&[0xff, 0xff], usize::MAX), Err(BitArrayError::IndexOutOfRange));
    assert_eq!(a.or_chunk(&[], 17), Err(BitArrayError::IndexOutOfRange));
    assert_eq!(a.count_ones(), 1);
    assert_eq!(chunk(&a, 0).1, vec![0x80, 0, 0, 0, 0, 0, 0, 0, 0, 0, 0, 0, 0, 0, 0, 0]);
    let mut none = zeroed(0);
    assert_eq!(none.or_chunk(&[1], 0), Err(BitArrayError::IndexOutOfRange));
}

#[test]
fn merge_up_to_the_end_is_accepted() {
    let mut a = zeroed(128);
    assert_eq!(a.or_chunk(&[0x01], 15), Ok(16));
    assert_eq!(a.get(120), Ok(true));
    assert_eq!(a.or_chunk(&[], 16), Ok(16));
    assert_eq!(a.or_chunk(&[], 0), Ok(0));
    assert_eq!(a.or_chunk(&[0x02; 16], 0), Ok(16));
    assert_eq!(a.count_ones(), 17);
    let mut none = zeroed(0);
    assert_eq!(none.or_chunk(&[], 0), Ok(0));
}

#[test]
fn chunk_counts_add_up_to_the_whole() {
    let counts: Vec<usize> = vec![0, 1, 1024, 1025, 2048, 3000];
    for &count in counts.iter() {
        let words = pattern_words(count);
        let mut a = zeroed(count * 64);
        assert_eq!(a.or_chunk(&little_endian(&words), 0), Ok(count * 8));
        let mut total: usize = 0;
        let mut chunk_num: usize = 0;
        loop {
            let (cursor, partial) = a.count_ones_chunked(chunk_num);
            let first: usize = chunk_num * 1024;
            let last: usize = if first + 1024 < count { first + 1024 } else { count };
            assert_eq!(partial, ones_in(&words[first..last]));
            total += partial;
            match cursor {
                Cursor::Eof => break,
                Cursor::Next(next) => {
                    assert_eq!(next, chunk_num + 1);
                    chunk_num = next;
                }
            }
        }
        assert_eq!(total, a.count_ones());
        assert_eq!(total, ones_in(&words));
        let expected_last: usize = if count == 0 { 0 } else { (count - 1) / 1024 };
        assert_eq!(chunk_num, expected_last);
    }
}

#[test]
fn count_cursors_match_serialize_cursors() {
    let a = zeroed(1024 * 64 + 64);
    assert_eq!(a.count_ones_chunked(0), (Cursor::Next(1), 0));
    assert_eq!(a.count_ones_chunked(1), (Cursor::Eof, 0));
    assert_eq!(a.count_ones_chunked(2), (Cursor::Eof, 0));
    assert_eq!(a.count_ones_chunked(usize::MAX), (Cursor::Eof, 0));
    let one = zeroed(1024 * 64);
    assert_eq!(one.count_ones_chunked(0), (Cursor::Eof, 0));
}

#[test]
fn count_of_one_chunk_sees_only_that_chunk() {
    let mut a = zeroed(2 * 1024 * 64 + 64);
    assert_eq!(a.put(0, true), Ok(()));
    assert_eq!(a.put(1024 * 64 - 1, true), Ok(()));
    assert_eq!(a.put(1024 * 64, true), Ok(()));
    assert_eq!(a.put(2 * 1024 * 64, true), Ok(()));
    assert_eq!(a.put(2 * 1024 * 64 + 63, true), Ok(()));
    assert_eq!(a.put(2 * 1024 * 64 + 5, true), Ok(()));
    assert_eq!(a.count_ones_chunked(0), (Cursor::Next(1), 2));
    assert_eq!(a.count_ones_chunked(1), (Cursor::Next(2), 1));
    assert_eq!(a.count_ones_chunked(2), (Cursor::Eof, 3));
    assert_eq!(a.count_ones_chunked(3), (Cursor::Eof, 0));
    assert_eq!(a.count_ones(), 6);
}

#[test]
fn a_write_between_chunk_calls_shows_in_later_chunks_only() {
    let mut a = zeroed(2 * 1024 * 64);
    let (cursor, first) = a.count_ones_chunked(0);
    assert_eq!((cursor, first), (Cursor::Next(1), 0));
    assert_eq!(a.put(3, true), Ok(()));
    assert_eq!(a.put(1024 * 64 + 3, true), Ok(()));
    let (cursor, second) = a.count_ones_chunked(1);
    assert_eq!((cursor, second), (Cursor::Eof, 1));
    assert_eq!(first + second, 1);
    assert_eq!(a.count_ones(), 2);
}
