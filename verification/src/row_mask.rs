//! Borrowed bitmaps of physical rows.

use vstd::prelude::*;
#[allow(unused_imports)]
use vstd::std_specs::bits::u64_trailing_zeros;
#[allow(unused_imports)]
use vstd::std_specs::iter::IteratorSpec;

use crate::bitmap::{valid_words, validate_row, validate_words, word_count, word_flags, words_for};
use crate::bits::{bit, count_ones, covers, selected_rows, word_rows};
#[allow(unused_imports)]
use crate::bits::{
    lemma_bit_and, lemma_bit_constants, lemma_bit_flag, lemma_bit_not, lemma_bit_or, lemma_bit_test,
    lemma_bits_ext, lemma_high_bits, lemma_lowest_bit, lemma_rows_members, lemma_rows_split,
    lemma_word_rows_cover, lemma_word_rows_empty, lemma_word_rows_len, lemma_word_rows_pop,
};
use crate::error::Error;

verus! {

/// Bit `i` of a byte, least significant first.
pub open spec fn byte_bit(byte: u8, i: int) -> bool {
    0 <= i < 8 && (byte >> (i as u8)) & 1u8 == 1u8
}

/// The flags of `nrows` bits of `bytes` that start at bit `offset`.
pub open spec fn window_flags(nrows: int, bytes: Seq<u8>, offset: int) -> Seq<bool> {
    Seq::new(
        nrows as nat,
        |row: int| byte_bit(bytes[(offset + row) / 8], (offset + row) % 8),
    )
}

/// The rows without one, which may be absent or out of bounds.
pub open spec fn cleared(flags: Seq<bool>, row: int) -> Seq<bool> {
    if row < flags.len() {
        flags.update(row, false)
    } else {
        flags
    }
}

/// The rows that two masks have in common.
pub open spec fn intersection(a: Seq<bool>, b: Seq<bool>) -> Seq<bool> {
    Seq::new(a.len(), |row: int| a[row] && b[row])
}

#[derive(Clone, Copy, Debug)]
enum Storage<'a> {
    Words(&'a [u64]),
    Bytes { bytes: &'a [u8], bit_offset: usize },
}

/// A right shift moves every bit down.
proof fn lemma_shift_right(word: u64, by: u64, i: int)
    requires
        by < 64,
        0 <= i < 64,
    ensures
        bit(word >> by, i) == bit(word, i + by),
{
    let k = i as u64;
    assert(((word >> by) >> k) & 1u64 == 1u64 <==> k + by < 64 && (word >> ((k + by) as u64)) & 1u64
        == 1u64) by (bit_vector)
        requires
            by < 64,
            k < 64,
    ;
}

/// The bits of a byte that was moved up within a word.
proof fn lemma_shifted_byte(byte: u8, by: u64, i: int)
    requires
        by < 64,
        0 <= i < 64,
    ensures
        bit((byte as u64) << by, i) == byte_bit(byte, i - by),
{
    let k = i as u64;
    let j = (i - by) as u8;
    if by <= i < by + 8 {
        assert((((byte as u64) << by) >> k) & 1u64 == 1u64 <==> (byte >> ((k - by) as u8)) & 1u8
            == 1u8) by (bit_vector)
            requires
                by < 64,
                by <= k < by + 8,
                k < 64,
        ;
    } else {
        assert((((byte as u64) << by) >> k) & 1u64 == 0u64) by (bit_vector)
            requires
                by < 64,
                k < by || k >= by + 8,
                k < 64,
        ;
    }
}

/// The low `valid` bits of a word.
proof fn lemma_low_bits(valid: u64, i: int)
    requires
        0 < valid <= 64,
        0 <= i < 64,
    ensures
        bit(u64::MAX >> ((64 - valid) as u64), i) == (i < valid),
{
    let k = i as u64;
    assert(((u64::MAX >> ((64 - valid) as u64)) >> k) & 1u64 == 1u64 <==> k < valid)
        by (bit_vector)
        requires
            0 < valid <= 64,
            k < 64,
    ;
}

/// A single-bit test of a byte reads one bit.
proof fn lemma_byte_test(byte: u8, k: u8)
    requires
        k < 8,
    ensures
        (byte & (1u8 << k) != 0) == byte_bit(byte, k as int),
{
    assert((byte & (1u8 << k) != 0) == ((byte >> k) & 1u8 == 1u8)) by (bit_vector)
        requires
            k < 8,
    ;
}

/// The little-endian word of `count` bytes from `start` on.
fn le_word(bytes: &[u8], start: usize, count: usize) -> (word: u64)
    requires
        count <= 8,
        start + count <= bytes.len(),
    ensures
        forall|i: int|
            0 <= i < 64 ==> #[trigger] bit(word, i) == (i / 8 < count && byte_bit(
                bytes@[start + i / 8],
                i % 8,
            )),
{
    let mut word: u64 = 0;
    let mut k: usize = 0;
    proof {
        assert forall|i: int| !(#[trigger] bit(0, i)) by {
            lemma_bit_constants(i);
        }
    }
    while k < count
        invariant
            k <= count <= 8,
            start + count <= bytes.len(),
            forall|i: int|
                0 <= i < 64 ==> #[trigger] bit(word, i) == (i / 8 < k && byte_bit(
                    bytes@[start + i / 8],
                    i % 8,
                )),
        decreases count - k,
    {
        let byte = bytes[start + k];
        let by: u64 = 8 * k as u64;
        let next = word | ((byte as u64) << by);
        proof {
            assert forall|i: int| 0 <= i < 64 implies #[trigger] bit(next, i) == (i / 8 < k + 1
                && byte_bit(bytes@[start + i / 8], i % 8)) by {
                lemma_bit_or(word, (byte as u64) << by, i);
                lemma_shifted_byte(byte, by, i);
                if i / 8 == k {
                    assert(i - by == i % 8);
                } else {
                    assert(!byte_bit(byte, i - by));
                }
            }
        }
        word = next;
        k = k + 1;
    }
    word
}

/// One word of a byte window that is shifted or short: the bits that the
/// window holds, moved to the word's start, with zero padding.
fn byte_word(bytes: &[u8], bit_offset: usize, word_index: usize, nrows: usize) -> (word: u64)
    requires
        bit_offset < 8,
        64 * word_index < nrows,
        bytes@.len() == (bit_offset + nrows + 7) / 8,
    ensures
        covers(word, window_flags(nrows as int, bytes@, bit_offset as int), word_index as int),
{
    let start = word_index * 8;
    let length = bytes.len() - start;
    let ghost flags = window_flags(nrows as int, bytes@, bit_offset as int);
    let bits: u64 = if length >= 9 {
        let low = le_word(bytes, start, 8);
        if bit_offset == 0 {
            proof {
                assert forall|i: int| 0 <= i < 64 implies #[trigger] bit(low, i) == byte_bit(
                    bytes@[start + (bit_offset + i) / 8],
                    (bit_offset + i) % 8,
                ) by {}
            }
            low
        } else {
            let high = bytes[start + 8];
            let shifted = (low >> (bit_offset as u64)) | ((high as u64) << ((64 - bit_offset)
                as u64));
            proof {
                assert forall|i: int| 0 <= i < 64 implies #[trigger] bit(shifted, i) == byte_bit(
                    bytes@[start + (bit_offset + i) / 8],
                    (bit_offset + i) % 8,
                ) by {
                    let up = (64 - bit_offset) as u64;
                    lemma_bit_or(low >> (bit_offset as u64), (high as u64) << up, i);
                    lemma_shift_right(low, bit_offset as u64, i);
                    lemma_shifted_byte(high, up, i);
                    if i + bit_offset < 64 {
                        assert(bit(low, i + bit_offset) == ((i + bit_offset) / 8 < 8 && byte_bit(
                            bytes@[start + (i + bit_offset) / 8],
                            (i + bit_offset) % 8,
                        )));
                        assert(i - up < 0);
                    } else {
                        assert((i + bit_offset) / 8 == 8);
                        assert(i - up == (i + bit_offset) % 8);
                        assert(!bit(low, i + bit_offset));
                    }
                }
            }
            shifted
        }
    } else {
        let low = le_word(bytes, start, length);
        let shifted = low >> (bit_offset as u64);
        proof {
            assert forall|i: int|
                0 <= i < 64 && 64 * word_index + i < nrows implies #[trigger] bit(shifted, i)
                == byte_bit(
                bytes@[start + (bit_offset + i) / 8],
                (bit_offset + i) % 8,
            ) by {
                lemma_shift_right(low, bit_offset as u64, i);
                assert((bit_offset + i) / 8 < length);
                assert(bit_offset + i < 64);
                assert(bit(low, i + bit_offset) == ((i + bit_offset) / 8 < length && byte_bit(
                    bytes@[start + (i + bit_offset) / 8],
                    (i + bit_offset) % 8,
                )));
            }
        }
        shifted
    };
    let rest = nrows - word_index * 64;
    let valid: u64 = if rest < 64 {
        rest as u64
    } else {
        64
    };
    let low_mask = u64::MAX >> (64 - valid);
    let word = bits & low_mask;
    proof {
        assert forall|i: int| 0 <= i < 64 implies #[trigger] bit(word, i) == (64 * word_index + i
            < flags.len() && flags[64 * word_index + i]) by {
            lemma_bit_and(bits, low_mask, i);
            lemma_low_bits(valid, i);
            if i < valid {
                let at = bit_offset + 64 * word_index + i;
                assert(at / 8 == start + (bit_offset + i) / 8);
                assert(at % 8 == (bit_offset + i) % 8);
                assert(bit(bits, i) == byte_bit(
                    bytes@[start + (bit_offset + i) / 8],
                    (bit_offset + i) % 8,
                ));
            }
        }
    }
    word
}

/// One word of a valid bitmap covers its rows.
proof fn lemma_words_cover(nrows: int, words: Seq<u64>, index: int)
    requires
        valid_words(nrows, words),
        0 <= index < words.len(),
        0 <= nrows,
    ensures
        covers(words[index], word_flags(nrows, words), index),
{
    assert forall|i: int| 0 <= i < 64 implies #[trigger] bit(words[index], i) == (64 * index + i
        < nrows && word_flags(nrows, words)[64 * index + i]) by {
        let row = 64 * index + i;
        assert(row / 64 == index && row % 64 == i);
        if row >= nrows {
            assert(!bit(words[row / 64], row % 64));
        }
    }
}

/// Replacing one word by one without set padding bits keeps a bitmap valid
/// and changes only the rows of that word.
proof fn lemma_word_update(nrows: int, words: Seq<u64>, index: int, word: u64)
    requires
        valid_words(nrows, words),
        0 <= index < words.len(),
        0 <= nrows,
        forall|i: int| 0 <= i < 64 && #[trigger] bit(word, i) ==> 64 * index + i < nrows,
    ensures
        valid_words(nrows, words.update(index, word)),
        forall|row: int|
            0 <= row < nrows ==> #[trigger] word_flags(nrows, words.update(index, word))[row] == (
            if row / 64 == index {
                bit(word, row % 64)
            } else {
                word_flags(nrows, words)[row]
            }),
{
    let after = words.update(index, word);
    assert forall|row: int| nrows <= row < 64 * after.len() implies !(#[trigger] bit(
        after[row / 64],
        row % 64,
    )) by {
        if row / 64 == index {
            assert(64 * index + row % 64 == row);
        } else {
            assert(!bit(words[row / 64], row % 64));
        }
    }
}

/// A read-only, borrowed bitmap of physical rows.
///
/// Set bits can represent active rows or non-NULL values. Row selection and
/// non-NULL tracking use separate bitmaps, even though they share this view
/// type. Its view is one flag per physical row.
///
/// Bits are numbered least significant first in both words and bytes.
/// [`Self::try_new`] accepts words without padding bits.
/// [`Self::try_from_bytes`] borrows an arbitrary bit window, such as a sliced
/// non-NULL mask. Neither constructor copies or owns storage.
#[derive(Clone, Copy, Debug)]
pub struct RowMaskView<'a> {
    nrows: usize,
    storage: Storage<'a>,
}

impl<'a> View for RowMaskView<'a> {
    type V = Seq<bool>;

    closed spec fn view(&self) -> Seq<bool> {
        match self.storage {
            Storage::Words(words) => word_flags(self.nrows as int, words@),
            Storage::Bytes { bytes, bit_offset } => window_flags(
                self.nrows as int,
                bytes@,
                bit_offset as int,
            ),
        }
    }
}

impl<'a> RowMaskView<'a> {
    #[verifier::type_invariant]
    spec fn inv(self) -> bool {
        match self.storage {
            Storage::Words(words) => valid_words(self.nrows as int, words@),
            Storage::Bytes { bytes, bit_offset } => {
                &&& bit_offset < 8
                &&& bit_offset + self.nrows <= usize::MAX
                &&& bytes@.len() == (bit_offset + self.nrows + 7) / 8
            },
        }
    }

    /// The row count of a mask is a machine integer.
    pub proof fn lemma_row_count(self)
        ensures
            self@.len() <= usize::MAX,
    {
    }

    /// Borrow words, rejecting an incorrect word count or nonzero padding bits.
    pub fn try_new(nrows: usize, words: &'a [u64]) -> (result: Result<Self, Error>)
        ensures
            result is Ok <==> valid_words(nrows as int, words@),
            result matches Ok(mask) ==> mask@ == word_flags(nrows as int, words@),
            result matches Err(error) ==> error == (if words@.len() != words_for(nrows as int) {
                Error::WordCount {
                    expected: words_for(nrows as int) as usize,
                    actual: words@.len() as usize,
                }
            } else {
                Error::PaddingBits
            }),
    {
        match validate_words(nrows, words) {
            Ok(()) => Ok(RowMaskView { nrows, storage: Storage::Words(words) }),
            Err(error) => Err(error),
        }
    }

    /// Borrow `nrows` bits starting at `bit_offset`, without alignment needs.
    ///
    /// Bits outside the window are ignored, including nonzero padding.
    /// Overflow or a window beyond the buffer returns an error. An empty
    /// window may start at any valid position, including the buffer's end.
    pub fn try_from_bytes(nrows: usize, bytes: &'a [u8], bit_offset: usize) -> (result: Result<
        Self,
        Error,
    >)
        ensures
            result is Ok <==> bit_offset + nrows <= usize::MAX && (bit_offset + nrows + 7) / 8
                <= bytes@.len(),
            result matches Ok(mask) ==> mask@ == window_flags(
                nrows as int,
                bytes@,
                bit_offset as int,
            ),
            result matches Err(error) ==> error == (if bit_offset + nrows > usize::MAX {
                Error::BitRangeOverflow
            } else {
                Error::BitRangeExceedsBuffer
            }),
    {
        let end = match bit_offset.checked_add(nrows) {
            Some(end) => end,
            None => {
                return Err(Error::BitRangeOverflow);
            },
        };
        let end_byte: usize = end / 8 + if end % 8 == 0 {
            0
        } else {
            1
        };
        if end_byte > bytes.len() {
            return Err(Error::BitRangeExceedsBuffer);
        }
        let first: usize = bit_offset / 8;
        let offset: usize = bit_offset % 8;
        let window = vstd::slice::slice_subrange(bytes, first, end_byte);
        let mask = RowMaskView { nrows, storage: Storage::Bytes { bytes: window, bit_offset: offset } };
        proof {
            assert forall|row: int| 0 <= row < nrows implies window_flags(
                nrows as int,
                window@,
                offset as int,
            )[row] == window_flags(nrows as int, bytes@, bit_offset as int)[row] by {
                assert((bit_offset + row) / 8 == first + (offset + row) / 8);
                assert((bit_offset + row) % 8 == (offset + row) % 8);
                assert((offset + row) / 8 < window@.len());
            }
            assert(mask@ =~= window_flags(nrows as int, bytes@, bit_offset as int));
        }
        Ok(mask)
    }

    /// Return a logical 64-row word, or `None` beyond the row count.
    ///
    /// The last word's padding is always zero, independent of backing format.
    pub fn word(&self, word_index: usize) -> (word: Option<u64>)
        ensures
            word is Some <==> word_index < words_for(self@.len() as int),
            word matches Some(word) ==> covers(word, self@, word_index as int),
    {
        proof {
            use_type_invariant(self);
        }
        if word_index >= word_count(self.nrows) {
            return None;
        }
        match self.storage {
            Storage::Words(words) => {
                proof {
                    lemma_words_cover(self.nrows as int, words@, word_index as int);
                }
                Some(words[word_index])
            },
            Storage::Bytes { bytes, bit_offset } => {
                if bit_offset == 0 && self.nrows - word_index * 64 >= 64 {
                    let start = word_index * 8;
                    let word = le_word(bytes, start, 8);
                    proof {
                        assert forall|i: int| 0 <= i < 64 implies #[trigger] bit(word, i) == (64
                            * word_index + i < self@.len() && self@[64 * word_index + i]) by {
                            let row = 64 * word_index + i;
                            assert(row / 8 == start + i / 8 && row % 8 == i % 8);
                        }
                    }
                    Some(word)
                } else {
                    Some(byte_word(bytes, bit_offset, word_index, self.nrows))
                }
            },
        }
    }

    /// Return the number of physical rows, including unselected rows.
    pub fn nrows(&self) -> (nrows: usize)
        ensures
            nrows == self@.len(),
    {
        self.nrows
    }

    /// Return the number of selected rows, not the physical row count.
    pub fn selected_count(&self) -> (count: usize)
        ensures
            count == selected_rows(self@, 0, self@.len() as int).len(),
    {
        let words = word_count(self.nrows);
        let mut index: usize = 0;
        let mut count: usize = 0;
        let ghost flags = self@;
        let ghost p = |row: int| flags[row];
        let ghost mut end: int = 0;
        while index < words
            invariant
                index <= words,
                words == words_for(flags.len() as int),
                flags == self@,
                flags.len() == self.nrows,
                p == (|row: int| flags[row]),
                end == (if 64 * index <= flags.len() {
                    64 * index
                } else {
                    flags.len() as int
                }),
                count == selected_rows(flags, 0, end).len(),
            decreases words - index,
        {
            let word = self.word(index).unwrap();
            proof {
                let next = if end + 64 <= flags.len() {
                    end + 64
                } else {
                    flags.len() as int
                };
                lemma_word_rows_cover(word, flags, index as int);
                lemma_word_rows_len(64 * index, word);
                lemma_rows_split(p, 0, end, next);
                lemma_rows_members(p, 0, next);
                end = next;
            }
            count = count + count_ones(word) as usize;
            index = index + 1;
        }
        count
    }

    /// Check a physical row, returning an error if `row >= self.nrows()`.
    pub fn contains(&self, row: usize) -> (result: Result<bool, Error>)
        ensures
            result is Ok <==> row < self@.len(),
            result matches Ok(selected) ==> selected == self@[row as int],
            result matches Err(error) ==> error == (Error::RowOutOfBounds {
                row,
                nrows: self@.len() as usize,
            }),
    {
        proof {
            use_type_invariant(self);
        }
        if let Err(error) = validate_row(row, self.nrows) {
            return Err(error);
        }
        match self.storage {
            Storage::Words(words) => {
                let word = words[row / 64];
                proof {
                    lemma_bit_test(word, (row % 64) as u64);
                }
                Ok(word & (1u64 << ((row % 64) as u64)) != 0)
            },
            Storage::Bytes { bytes, bit_offset } => {
                let at = row + bit_offset;
                let byte = bytes[at / 8];
                proof {
                    lemma_byte_test(byte, (at % 8) as u8);
                }
                Ok(byte & (1u8 << ((at % 8) as u8)) != 0)
            },
        }
    }

    /// Visit selected physical indices in increasing order without allocating.
    ///
    /// Only set bits are visited within each word. Once exhausted, the
    /// iterator keeps returning `None`.
    pub fn selected_indices(&self) -> (indices: SelectedIndices<'a>)
        ensures
            indices.obeys_prophetic_iter_laws(),
            indices.decrease() is Some,
            indices.remaining() == row_indices(selected_rows(self@, 0, self@.len() as int)),
    {
        let indices = SelectedIndices { mask: *self, next_word: 0, remaining: 0 };
        proof {
            lemma_word_rows_empty(-64);
            assert(indices.remaining() =~= row_indices(
                selected_rows(self@, 0, self@.len() as int),
            ));
        }
        indices
    }
}

/// Rows as indices.
pub open spec fn row_indices(rows: Seq<int>) -> Seq<usize> {
    rows.map_values(|row: int| row as usize)
}

/// The selected rows of a mask, in increasing order.
#[derive(Clone, Copy, Debug)]
pub struct SelectedIndices<'a> {
    mask: RowMaskView<'a>,
    /// The first word that has not been opened.
    next_word: usize,
    /// The rows of the open word that have not been visited.
    remaining: u64,
}

impl<'a> SelectedIndices<'a> {
    #[verifier::type_invariant]
    spec fn inv(self) -> bool {
        &&& self.next_word <= words_for(self.mask@.len() as int)
        &&& self.mask@.len() <= usize::MAX
        &&& self.next_word == 0 ==> self.remaining == 0
        &&& forall|i: int|
            #[trigger] bit(self.remaining, i) ==> 64 * (self.next_word - 1) + i < self.mask@.len()
    }

    /// The first row of the words that have not been opened.
    spec fn unopened(self) -> int {
        if 64 * self.next_word <= self.mask@.len() {
            64 * self.next_word
        } else {
            self.mask@.len() as int
        }
    }

    /// The rows that have not been visited.
    spec fn rows(self) -> Seq<int> {
        word_rows(64 * (self.next_word - 1), self.remaining) + selected_rows(
            self.mask@,
            self.unopened(),
            self.mask@.len() as int,
        )
    }
}

impl<'a> vstd::std_specs::iter::IteratorSpecImpl for SelectedIndices<'a> {
    open spec fn obeys_prophetic_iter_laws(&self) -> bool {
        true
    }

    closed spec fn remaining(&self) -> Seq<usize> {
        row_indices(self.rows())
    }

    open spec fn will_return_none(&self) -> bool {
        true
    }

    closed spec fn decrease(&self) -> Option<nat> {
        Some(self.rows().len())
    }

    closed spec fn initial_value_relation(&self, init: &Self) -> bool {
        self.rows() == init.rows()
    }

    open spec fn peek(&self, index: int) -> Option<usize> {
        None
    }
}

impl<'a> Iterator for SelectedIndices<'a> {
    type Item = usize;

    fn next(&mut self) -> (ret: Option<usize>) {
        proof {
            use_type_invariant(&*self);
        }
        let words = word_count(self.mask.nrows());
        let ghost start = *self;
        while self.remaining == 0
            invariant_except_break
                self.rows() == start.rows(),
            invariant
                words == words_for(self.mask@.len() as int),
                self.mask == start.mask,
            ensures
                self.rows() == start.rows(),
                self.remaining == 0 ==> self.next_word == words,
            decreases words - self.next_word,
        {
            proof {
                use_type_invariant(&*self);
            }
            if self.next_word >= words {
                break;
            }
            let index = self.next_word;
            let word = self.mask.word(index).unwrap();
            proof {
                let flags = self.mask@;
                lemma_word_rows_empty(64 * (index - 1));
                lemma_word_rows_cover(word, flags, index as int);
                let next = if 64 * index + 64 <= flags.len() {
                    64 * index + 64
                } else {
                    flags.len() as int
                };
                lemma_rows_split(|row: int| flags[row], 64 * index, next, flags.len() as int);
            }
            *self = SelectedIndices { mask: self.mask, next_word: index + 1, remaining: word };
            assert(self.rows() =~= start.rows());
        }
        proof {
            use_type_invariant(&*self);
        }
        if self.remaining == 0 {
            proof {
                lemma_word_rows_empty(64 * (self.next_word - 1));
                assert(self.rows() =~= Seq::<int>::empty());
            }
            return None;
        }
        let word = self.remaining;
        proof {
            lemma_lowest_bit(word);
            lemma_word_rows_pop(64 * (self.next_word - 1), word);
            assert(bit(word, u64_trailing_zeros(word) as int));
        }
        let row = (self.next_word - 1) * 64 + word.trailing_zeros() as usize;
        self.remaining = word & (word - 1);
        assert(self.rows() =~= start.rows().drop_first());
        Some(row)
    }
}

/// An exclusively borrowed row bitmap that can only remove rows, except by
/// [`Self::set_word`].
///
/// Construction validates the invariants of [`RowMaskView::try_new`]. No
/// operation frees or resizes the backing storage. Dropping the mask ends the
/// borrow; changes remain in the caller's words. Its view is one flag per
/// physical row.
#[derive(Debug)]
pub struct RowMask<'a> {
    nrows: usize,
    words: &'a mut [u64],
}

impl<'a> View for RowMask<'a> {
    type V = Seq<bool>;

    open spec fn view(&self) -> Seq<bool> {
        word_flags(self.rows(), self.words())
    }
}

impl<'a> RowMask<'a> {
    #[verifier::type_invariant]
    spec fn inv(self) -> bool {
        valid_words(self.nrows as int, self.words@)
    }

    /// The number of physical rows.
    pub closed spec fn rows(self) -> int {
        self.nrows as int
    }

    /// The borrow of the caller's words.
    pub closed spec fn borrowed(self) -> &'a mut [u64] {
        self.words
    }

    /// The current contents of the borrowed words.
    pub open spec fn words(self) -> Seq<u64> {
        self.borrowed()@
    }

    /// Dropping a mask ends its borrow: what the mask held last remains in the
    /// caller's words.
    pub proof fn lemma_released(self)
        requires
            has_resolved(self),
        ensures
            final(self.borrowed())@ == self.words(),
    {
    }

    /// Borrow words exclusively, rejecting bad dimensions or padding bits.
    ///
    /// Validation never modifies the supplied words, including on error.
    pub fn try_new(nrows: usize, words: &'a mut [u64]) -> (result: Result<Self, Error>)
        ensures
            result is Ok <==> valid_words(nrows as int, old(words)@),
            result matches Ok(mask) ==> {
                &&& mask.rows() == nrows
                &&& mask.words() == old(words)@
                &&& final(mask.borrowed())@ == final(words)@
            },
            result matches Err(error) ==> error == (if old(words)@.len() != words_for(
                nrows as int,
            ) {
                Error::WordCount {
                    expected: words_for(nrows as int) as usize,
                    actual: old(words)@.len() as usize,
                }
            } else {
                Error::PaddingBits
            }),
            result is Err ==> final(words)@ == old(words)@,
    {
        match validate_words(nrows, words) {
            Ok(()) => Ok(RowMask { nrows, words }),
            Err(error) => Err(error),
        }
    }

    /// Reborrow for reading; mutation is forbidden while that view is in use.
    pub fn as_view(&self) -> (view: RowMaskView<'_>)
        ensures
            view@ == self@,
            valid_words(self.rows(), self.words()),
            self.rows() == self@.len(),
    {
        proof {
            use_type_invariant(self);
        }
        RowMaskView { nrows: self.nrows, storage: Storage::Words(&*self.words) }
    }

    /// Remove a physical row; an absent or out-of-bounds row is ignored.
    ///
    /// Padding bits are already zero after construction, so clearing one
    /// leaves the words unchanged. Indices beyond the words are also ignored.
    pub fn clear(&mut self, row: usize)
        ensures
            final(self).rows() == old(self).rows(),
            final(self)@ == cleared(old(self)@, row as int),
            row >= old(self)@.len() ==> final(self).words() == old(self).words(),
            valid_words(final(self).rows(), final(self).words()),
            final(final(self).borrowed())@ == final(old(self).borrowed())@,
    {
        proof {
            use_type_invariant(&*self);
        }
        let index = row / 64;
        if index < self.words.len() {
            let word = self.words[index];
            let k = (row % 64) as u64;
            let cleared = word & !(1u64 << k);
            proof {
                lemma_words_cover(self.nrows as int, self.words@, index as int);
                assert forall|i: int| 0 <= i < 64 implies #[trigger] bit(cleared, i) == (bit(word, i)
                    && i != k) by {
                    lemma_bit_and(word, !(1u64 << k), i);
                    lemma_bit_not(1u64 << k, i);
                    lemma_bit_flag(1, k, i);
                }
                lemma_word_update(self.nrows as int, self.words@, index as int, cleared);
                if row >= self.nrows {
                    assert(!bit(self.words@[row as int / 64], row as int % 64));
                    lemma_bits_ext(word, cleared);
                    assert(self.words@.update(index as int, cleared) =~= self.words@);
                }
            }
            self.words[index] = cleared;
        }
        assert(self@ =~= cleared(old(self)@, row as int));
    }

    /// Intersect one 64-row word, without restoring any cleared row.
    ///
    /// An absent word returns an error before any mutation, even when `bits`
    /// is zero. Other words stay unchanged. Padding bits in `bits` are harmless:
    /// intersection preserves the zero padding validated by the constructor.
    pub fn intersect_word(&mut self, index: usize, bits: u64) -> (result: Result<(), Error>)
        ensures
            result is Ok <==> index < words_for(old(self)@.len() as int),
            result matches Err(error) ==> error == Error::MaskWordOutOfBounds
                && final(self).words() == old(self).words(),
            final(self).rows() == old(self).rows(),
            final(self)@.len() == old(self)@.len(),
            result is Ok ==> forall|row: int|
                0 <= row < old(self)@.len() ==> #[trigger] final(self)@[row] == (old(self)@[row] && (
                row / 64 == index ==> bit(bits, row % 64))),
            valid_words(final(self).rows(), final(self).words()),
            final(final(self).borrowed())@ == final(old(self).borrowed())@,
    {
        proof {
            use_type_invariant(&*self);
        }
        if index >= self.words.len() {
            return Err(Error::MaskWordOutOfBounds);
        }
        let word = self.words[index];
        let narrowed = word & bits;
        proof {
            lemma_words_cover(self.nrows as int, self.words@, index as int);
            assert forall|i: int| #[trigger] bit(narrowed, i) == (bit(word, i) && bit(bits, i)) by {
                lemma_bit_and(word, bits, i);
            }
            lemma_word_update(self.nrows as int, self.words@, index as int, narrowed);
        }
        self.words[index] = narrowed;
        Ok(())
    }

    /// Replace one 64-row word; this is the one operation that can restore
    /// rows, for masks a kernel produces rather than narrows.
    ///
    /// An absent word or set padding bits in `bits` return an error before
    /// any mutation. Other words stay unchanged.
    pub fn set_word(&mut self, index: usize, bits: u64) -> (result: Result<(), Error>)
        ensures
            result is Ok <==> index < words_for(old(self)@.len() as int) && (forall|i: int| #[trigger]
                bit(bits, i) ==> 64 * index + i < old(self)@.len()),
            result matches Err(error) ==> error == (if index >= words_for(
                old(self)@.len() as int,
            ) {
                Error::MaskWordOutOfBounds
            } else {
                Error::MaskWordPadding
            }) && final(self).words() == old(self).words(),
            final(self).rows() == old(self).rows(),
            final(self)@.len() == old(self)@.len(),
            result is Ok ==> forall|row: int|
                0 <= row < old(self)@.len() ==> #[trigger] final(self)@[row] == (if row / 64 == index {
                    bit(bits, row % 64)
                } else {
                    old(self)@[row]
                }),
            valid_words(final(self).rows(), final(self).words()),
            final(final(self).borrowed())@ == final(old(self).borrowed())@,
    {
        proof {
            use_type_invariant(&*self);
        }
        if index >= self.words.len() {
            return Err(Error::MaskWordOutOfBounds);
        }
        let rest: usize = self.nrows - index * 64;
        if rest < 64 {
            proof {
                lemma_high_bits(bits, rest as u64);
            }
            if bits >> (rest as u64) != 0 {
                proof {
                    let i = choose|i: int| rest <= i < 64 && bit(bits, i);
                    assert(bit(bits, i) && 64 * index + i >= self@.len());
                }
                return Err(Error::MaskWordPadding);
            }
        }
        proof {
            lemma_word_update(self.nrows as int, self.words@, index as int, bits);
        }
        self.words[index] = bits;
        Ok(())
    }

    /// Remove rows absent from `other`, without restoring any cleared row.
    ///
    /// Different physical row counts return an error before any mutation.
    pub fn intersect(&mut self, other: RowMaskView<'_>) -> (result: Result<(), Error>)
        ensures
            result is Ok <==> old(self)@.len() == other@.len(),
            result matches Err(error) ==> error == (Error::RowCount {
                expected: old(self)@.len() as usize,
                actual: other@.len() as usize,
            }) && final(self).words() == old(self).words(),
            final(self).rows() == old(self).rows(),
            result is Ok ==> final(self)@ == intersection(old(self)@, other@),
            valid_words(final(self).rows(), final(self).words()),
            final(final(self).borrowed())@ == final(old(self).borrowed())@,
    {
        proof {
            use_type_invariant(&*self);
        }
        if self.nrows != other.nrows() {
            return Err(Error::RowCount { expected: self.nrows, actual: other.nrows() });
        }
        let count = self.words.len();
        let mut index: usize = 0;
        while index < count
            invariant
                index <= count,
                count == self.words@.len(),
                count == words_for(other@.len() as int),
                self.rows() == old(self).rows(),
                self@.len() == old(self)@.len(),
                old(self)@.len() == other@.len(),
                forall|row: int|
                    0 <= row < old(self)@.len() ==> #[trigger] self@[row] == (old(self)@[row] && (row
                        / 64 < index ==> other@[row])),
                final(self.borrowed())@ == final(old(self).borrowed())@,
            decreases count - index,
        {
            proof {
                use_type_invariant(&*self);
            }
            let kept = other.word(index).unwrap();
            let word = self.words[index];
            let narrowed = word & kept;
            proof {
                lemma_words_cover(self.nrows as int, self.words@, index as int);
                assert forall|i: int| #[trigger] bit(narrowed, i) == (bit(word, i) && bit(kept, i)) by {
                    lemma_bit_and(word, kept, i);
                }
                lemma_word_update(self.nrows as int, self.words@, index as int, narrowed);
            }
            let ghost before = self@;
            self.words[index] = narrowed;
            proof {
                assert forall|row: int| 0 <= row < old(self)@.len() implies #[trigger] self@[row] == (
                old(self)@[row] && (row / 64 < index + 1 ==> other@[row])) by {
                    assert(before[row] == (old(self)@[row] && (row / 64 < index ==> other@[row])));
                    if row / 64 == index {
                        assert(64 * index + row % 64 == row);
                        assert(bit(kept, row % 64) == other@[row]);
                        assert(bit(word, row % 64) == before[row]);
                        assert(self@[row] == bit(narrowed, row % 64));
                    }
                }
            }
            index = index + 1;
        }
        proof {
            use_type_invariant(&*self);
            assert(self@ =~= intersection(old(self)@, other@));
        }
        Ok(())
    }
}

/// Clearing takes away one row and no other; clearing it twice is clearing it
/// once, and the order of clearing does not matter.
pub proof fn lemma_clear(flags: Seq<bool>, a: int, b: int)
    requires
        0 <= a,
        0 <= b,
    ensures
        cleared(cleared(flags, a), a) == cleared(flags, a),
        cleared(cleared(flags, a), b) == cleared(cleared(flags, b), a),
        cleared(flags, a).len() == flags.len(),
        forall|row: int|
            0 <= row < flags.len() ==> #[trigger] cleared(flags, a)[row] == (flags[row] && row != a),
{
    assert(cleared(cleared(flags, a), a) =~= cleared(flags, a));
    assert(cleared(cleared(flags, a), b) =~= cleared(cleared(flags, b), a));
}

/// An intersection holds exactly the rows that both masks hold, so that it
/// never restores a row and neither order nor repetition matters.
pub proof fn lemma_intersection(a: Seq<bool>, b: Seq<bool>, c: Seq<bool>)
    requires
        a.len() == b.len(),
        a.len() == c.len(),
    ensures
        intersection(a, b).len() == a.len(),
        forall|row: int|
            0 <= row < a.len() ==> #[trigger] intersection(a, b)[row] == (a[row] && b[row]),
        intersection(a, b) == intersection(b, a),
        intersection(intersection(a, b), b) == intersection(a, b),
        intersection(intersection(a, b), c) == intersection(a, intersection(b, c)),
{
    assert(intersection(a, b) =~= intersection(b, a));
    assert(intersection(intersection(a, b), b) =~= intersection(a, b));
    assert(intersection(intersection(a, b), c) =~= intersection(a, intersection(b, c)));
}

/// The rows of a mask determine each of its words, whatever holds them.
pub proof fn lemma_word_determined(flags: Seq<bool>, index: int, a: u64, b: u64)
    requires
        covers(a, flags, index),
        covers(b, flags, index),
    ensures
        a == b,
{
    lemma_bits_ext(a, b);
}

/// The rows of a mask determine its words.
pub proof fn lemma_words_determined(nrows: int, a: Seq<u64>, b: Seq<u64>)
    requires
        0 <= nrows,
        valid_words(nrows, a),
        valid_words(nrows, b),
        word_flags(nrows, a) == word_flags(nrows, b),
    ensures
        a == b,
{
    assert forall|index: int| 0 <= index < a.len() implies a[index] == b[index] by {
        lemma_words_cover(nrows, a, index);
        lemma_words_cover(nrows, b, index);
        lemma_word_determined(word_flags(nrows, a), index, a[index], b[index]);
    }
    assert(a =~= b);
}

/// The selected indices are exactly the selected rows, each once, in increasing
/// order.
pub proof fn lemma_selected(flags: Seq<bool>)
    ensures
        ({
            let rows = selected_rows(flags, 0, flags.len() as int);
            &&& forall|k: int|
                0 <= k < rows.len() ==> 0 <= #[trigger] rows[k] < flags.len() && flags[rows[k]]
            &&& forall|j: int, k: int| 0 <= j < k < rows.len() ==> rows[j] < rows[k]
            &&& forall|row: int| 0 <= row < flags.len() && #[trigger] flags[row] ==> rows.contains(row)
            &&& rows.len() <= flags.len()
            &&& row_indices(rows).len() == rows.len()
            &&& flags.len() <= usize::MAX ==> forall|k: int|
                0 <= k < rows.len() ==> #[trigger] row_indices(rows)[k] as int == rows[k]
        }),
{
    let p = |row: int| flags[row];
    let rows = selected_rows(flags, 0, flags.len() as int);
    lemma_rows_members(p, 0, flags.len() as int);
    assert forall|row: int| 0 <= row < flags.len() && #[trigger] flags[row] implies rows.contains(
        row,
    ) by {
        assert(p(row));
    }
}

/// Byte `i` of a word, least significant first.
pub open spec fn word_byte(word: u64, i: int) -> u8 {
    ((word >> (8 * i) as u64) & 0xff) as u8
}

/// Words and the bytes that they are made of hold the same rows.
pub proof fn lemma_backings_agree(nrows: int, words: Seq<u64>, bytes: Seq<u8>)
    requires
        0 <= nrows <= 64 * words.len(),
        bytes.len() == 8 * words.len(),
        forall|k: int| 0 <= k < bytes.len() ==> #[trigger] bytes[k] == word_byte(words[k / 8], k % 8),
    ensures
        window_flags(nrows, bytes, 0) == word_flags(nrows, words),
{
    assert forall|row: int| 0 <= row < nrows implies #[trigger] window_flags(nrows, bytes, 0)[row]
        == word_flags(nrows, words)[row] by {
        let k = row / 8;
        let word = words[row / 64];
        assert(k / 8 == row / 64);
        assert(bytes[k] == word_byte(word, k % 8));
        let j = (k % 8) as u64;
        let i = (row % 8) as u64;
        let byte = word_byte(word, k % 8);
        let by = (8 * (k % 8)) as u64;
        assert(8 * j + i == row % 64);
        let at = (row % 64) as u64;
        assert((byte >> (i as u8)) & 1u8 == 1u8 <==> (word >> at) & 1u64 == 1u64) by (bit_vector)
            requires
                byte == ((word >> by) & 0xff) as u8,
                by == 8 * j,
                at == 8 * j + i,
                j < 8,
                i < 8,
        ;
    }
    assert(window_flags(nrows, bytes, 0) =~= word_flags(nrows, words));
}

/// A window that starts later holds the later rows of the longer window.
pub proof fn lemma_window_shift(nrows: int, bytes: Seq<u8>, offset: int, by: int)
    requires
        0 <= nrows,
        0 <= by,
    ensures
        window_flags(nrows, bytes, offset + by) == window_flags(nrows + by, bytes, offset).skip(by),
{
    assert forall|row: int| 0 <= row < nrows implies #[trigger] window_flags(
        nrows,
        bytes,
        offset + by,
    )[row] == window_flags(nrows + by, bytes, offset).skip(by)[row] by {
        assert(offset + by + row == offset + (row + by));
    }
    assert(window_flags(nrows, bytes, offset + by) =~= window_flags(nrows + by, bytes, offset).skip(
        by,
    ));
}

/// The flags of a bit window are the bits of its bytes from the offset on, the
/// lowest bit first.
pub proof fn lemma_window_rows(nrows: int, bytes: Seq<u8>, offset: int)
    requires
        0 <= nrows,
        0 <= offset,
    ensures
        window_flags(nrows, bytes, offset).len() == nrows,
        forall|row: int|
            0 <= row < nrows ==> #[trigger] window_flags(nrows, bytes, offset)[row] == (bytes[(offset
                + row) / 8] & (1u8 << (((offset + row) % 8) as u8)) != 0),
{
    assert forall|row: int| 0 <= row < nrows implies #[trigger] window_flags(
        nrows,
        bytes,
        offset,
    )[row] == (bytes[(offset + row) / 8] & (1u8 << (((offset + row) % 8) as u8)) != 0) by {
        lemma_byte_test(bytes[(offset + row) / 8], ((offset + row) % 8) as u8);
    }
}

} // verus!
