//! Dimensions of bitmaps with one bit per physical row.

use vstd::prelude::*;

use crate::bits::bit;
#[allow(unused_imports)]
use crate::bits::{lemma_bit_test, lemma_high_bits};
use crate::error::Error;

verus! {

/// The number of 64-row words of `nrows` rows.
pub open spec fn words_for(nrows: int) -> int {
    (nrows + 63) / 64
}

/// Words that hold exactly `nrows` rows, with no bit set beyond them.
pub open spec fn valid_words(nrows: int, words: Seq<u64>) -> bool {
    &&& words.len() == words_for(nrows)
    &&& forall|row: int|
        nrows <= row < 64 * words.len() ==> !(#[trigger] bit(words[row / 64], row % 64))
}

/// The rows of a bitmap, one flag each.
pub open spec fn word_flags(nrows: int, words: Seq<u64>) -> Seq<bool> {
    Seq::new(nrows as nat, |row: int| bit(words[row / 64], row % 64))
}

/// The number of 64-row words of `nrows` rows.
pub fn word_count(nrows: usize) -> (count: usize)
    ensures
        count == words_for(nrows as int),
{
    let full: usize = nrows / 64;
    if nrows % 64 == 0 {
        full
    } else {
        full + 1
    }
}

/// Check the number of words and the padding of the last one.
pub fn validate_words(nrows: usize, words: &[u64]) -> (result: Result<(), Error>)
    ensures
        result is Ok <==> valid_words(nrows as int, words@),
        result matches Err(error) ==> error == (if words@.len() != words_for(nrows as int) {
            Error::WordCount { expected: words_for(nrows as int) as usize, actual: words@.len() as usize }
        } else {
            Error::PaddingBits
        }),
{
    let expected = word_count(nrows);
    if words.len() != expected {
        return Err(Error::WordCount { expected, actual: words.len() });
    }
    let tail: usize = nrows % 64;
    if tail == 0 {
        assert(nrows as int == 64 * words@.len());
        return Ok(());
    }
    let last = words[expected - 1];
    proof {
        lemma_high_bits(last, tail as u64);
    }
    if last >> (tail as u64) == 0 {
        assert forall|row: int| nrows <= row < 64 * words@.len() implies !(#[trigger] bit(
            words@[row / 64],
            row % 64,
        )) by {
            assert(row / 64 == expected - 1);
            assert(tail <= row % 64);
        }
        Ok(())
    } else {
        proof {
            let i = choose|i: int| tail <= i < 64 && bit(last, i);
            let row = 64 * (expected - 1) + i;
            assert(row / 64 == expected - 1 && row % 64 == i);
            assert(bit(words@[row / 64], row % 64));
            assert(nrows <= row < 64 * words@.len());
        }
        Err(Error::PaddingBits)
    }
}

/// Check that a row exists.
pub fn validate_row(row: usize, nrows: usize) -> (result: Result<(), Error>)
    ensures
        result is Ok <==> row < nrows,
        result matches Err(error) ==> error == (Error::RowOutOfBounds { row, nrows }),
{
    if row < nrows {
        Ok(())
    } else {
        Err(Error::RowOutOfBounds { row, nrows })
    }
}

/// A bitmap of `nrows` rows takes the fewest words that hold them, and its flags
/// are the bits of those words, the lowest bit first.
pub proof fn lemma_bitmap_rows(nrows: int, words: Seq<u64>)
    requires
        0 <= nrows,
    ensures
        64 * (words_for(nrows) - 1) < nrows <= 64 * words_for(nrows),
        word_flags(nrows, words).len() == nrows,
        forall|row: int|
            0 <= row < nrows ==> #[trigger] word_flags(nrows, words)[row] == (words[row / 64] & (1u64
                << ((row % 64) as u64)) != 0),
        valid_words(nrows, words) <==> {
            &&& 64 * (words.len() - 1) < nrows <= 64 * words.len()
            &&& forall|row: int| #![trigger words[row / 64]]
                nrows <= row < 64 * words.len() ==> words[row / 64] & (1u64 << ((row % 64) as u64))
                    == 0
        },
{
    assert forall|row: int| 0 <= row implies #[trigger] bit(words[row / 64], row % 64) == (words[row
        / 64] & (1u64 << ((row % 64) as u64)) != 0) by {
        lemma_bit_test(words[row / 64], (row % 64) as u64);
    }
    assert forall|row: int| 0 <= row < nrows implies #[trigger] word_flags(nrows, words)[row] == (
    words[row / 64] & (1u64 << ((row % 64) as u64)) != 0) by {
        assert(word_flags(nrows, words)[row] == bit(words[row / 64], row % 64));
    }
    if 64 * (words.len() - 1) < nrows <= 64 * words.len() && (forall|row: int|
        #![trigger words[row / 64]]
        nrows <= row < 64 * words.len() ==> words[row / 64] & (1u64 << ((row % 64) as u64)) == 0) {
        assert forall|row: int| nrows <= row < 64 * words.len() implies !(#[trigger] bit(
            words[row / 64],
            row % 64,
        )) by {
            assert(words[row / 64] & (1u64 << ((row % 64) as u64)) == 0);
        }
    }
    if valid_words(nrows, words) {
        assert forall|row: int| #![trigger words[row / 64]]
            nrows <= row < 64 * words.len() implies words[row / 64] & (1u64 << ((row % 64) as u64))
            == 0 by {
            assert(!bit(words[row / 64], row % 64));
        }
    }
}

} // verus!
