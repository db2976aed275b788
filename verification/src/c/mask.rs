//! Row masks of the C interface and their borrowed views.

use vstd::prelude::*;

#[allow(unused_imports)]
use crate::bitmap::lemma_bitmap_rows;
use crate::bitmap::{valid_words, word_count, word_flags, words_for};
use crate::error::Error;
use crate::row_mask::{RowMask, RowMaskView};

verus! {

/// A row count and borrowed words with one bit per row, none set beyond the
/// row count.
#[derive(Debug)]
pub struct Mask<'a> {
    /// The number of rows the bits describe.
    pub nrows: i32,
    /// One word per 64 rows; may be absent when there are no rows.
    pub bits: Option<&'a mut [u64]>,
}

impl<'a> Mask<'a> {
    /// The size of the structure in the C interface.
    pub const SIZE: usize = 16;

    /// The offset of `bits`.
    pub const BITS_OFFSET: usize = 8;

    /// The words have the number that the row count needs.
    pub open spec fn sized(self) -> bool {
        self.nrows > 0 && self.bits is Some ==> self.bits->0@.len() == words_for(self.nrows as int)
    }

    /// The words that describe rows.
    pub open spec fn words(self) -> Seq<u64> {
        if self.nrows <= 0 {
            Seq::empty()
        } else {
            self.bits->0@
        }
    }

    /// The rows of the mask.
    pub open spec fn flags(self) -> Seq<bool> {
        word_flags(self.nrows as int, self.words())
    }

    /// Why the mask cannot be borrowed, if it cannot.
    pub open spec fn refusal(self) -> Option<Error> {
        if self.nrows < 0 {
            Some(Error::MaskNegativeRows)
        } else if self.nrows > 0 && self.bits is None {
            Some(Error::MaskNullBits)
        } else if !valid_words(self.nrows as int, self.words()) {
            Some(Error::PaddingBits)
        } else {
            None
        }
    }

    /// The row count and the number of words.
    fn dimensions(&self) -> (result: Result<(usize, usize), Error>)
        ensures
            result is Ok <==> self.nrows >= 0 && (self.nrows > 0 ==> self.bits is Some),
            result matches Ok((nrows, words)) ==> nrows == self.nrows && words == words_for(
                self.nrows as int,
            ),
            result matches Err(error) ==> error == (if self.nrows < 0 {
                Error::MaskNegativeRows
            } else {
                Error::MaskNullBits
            }),
    {
        if self.nrows < 0 {
            return Err(Error::MaskNegativeRows);
        }
        let nrows = self.nrows as usize;
        let words = word_count(nrows);
        if words != 0 && self.bits.is_none() {
            return Err(Error::MaskNullBits);
        }
        Ok((nrows, words))
    }

    /// Borrow the mask for reading.
    pub fn view(&self) -> (result: Result<RowMaskView<'_>, Error>)
        requires
            self.sized(),
        ensures
            result is Ok <==> self.refusal() is None,
            result matches Ok(view) ==> view@ == self.flags(),
            result matches Err(error) ==> Some(error) == self.refusal(),
    {
        let (nrows, words) = match self.dimensions() {
            Ok(dimensions) => dimensions,
            Err(error) => {
                return Err(error);
            },
        };
        if words == 0 {
            let empty: &[u64] = &[];
            proof {
                assert(empty@ =~= self.words());
            }
            return RowMaskView::try_new(nrows, empty);
        }
        match &self.bits {
            Some(bits) => RowMaskView::try_new(nrows, &**bits),
            None => Err(Error::MaskNullBits),
        }
    }

    /// Borrow the mask for narrowing.
    pub fn mask(self) -> (result: Result<RowMask<'a>, Error>)
        requires
            self.sized(),
        ensures
            result is Ok <==> self.refusal() is None,
            result matches Ok(mask) ==> {
                &&& mask.rows() == self.nrows
                &&& mask.words() == self.words()
                &&& self.nrows > 0 ==> final(mask.borrowed())@ == final(self.bits->0)@
                &&& self.nrows <= 0 && self.bits is Some ==> final(self.bits->0)@ == self.bits->0@
            },
            result matches Err(error) ==> Some(error) == self.refusal() && (self.bits is Some
                ==> final(self.bits->0)@ == self.bits->0@),
    {
        let (nrows, words) = match self.dimensions() {
            Ok(dimensions) => dimensions,
            Err(error) => {
                return Err(error);
            },
        };
        if words == 0 {
            let empty: &'a mut [u64] = &mut [];
            proof {
                assert(empty@ =~= self.words());
            }
            return RowMask::try_new(nrows, empty);
        }
        match self.bits {
            Some(bits) => RowMask::try_new(nrows, bits),
            None => Err(Error::MaskNullBits),
        }
    }

    /// Borrow an optional mask for reading: its absence means no mask.
    pub fn view_optional<'b>(mask: Option<&'b Mask<'a>>) -> (result: Result<
        Option<RowMaskView<'b>>,
        Error,
    >)
        requires
            mask matches Some(mask) ==> mask.sized(),
        ensures
            result is Ok <==> (mask matches Some(mask) ==> mask.refusal() is None),
            result matches Ok(view) ==> (view is Some <==> mask is Some),
            result matches Ok(Some(view)) ==> view@ == mask->0.flags(),
            result matches Err(error) ==> Some(error) == mask->0.refusal(),
    {
        match mask {
            Some(mask) => match mask.view() {
                Ok(view) => Ok(Some(view)),
                Err(error) => Err(error),
            },
            None => Ok(None),
        }
    }
}

/// The rows of a mask are the bits of its words, the lowest bit first, and a mask
/// is refused for a negative row count, for missing words, or for a bit set beyond
/// the last row.
pub proof fn lemma_mask_bits(mask: Mask<'_>)
    requires
        mask.sized(),
    ensures
        mask.nrows < 0 <==> mask.refusal() == Some(Error::MaskNegativeRows),
        mask.nrows > 0 && mask.bits is None <==> mask.refusal() == Some(Error::MaskNullBits),
        mask.nrows == 0 ==> mask.refusal() is None && mask.flags().len() == 0,
        mask.nrows > 0 && mask.bits is Some ==> {
            let words = mask.bits->0@;
            &&& mask.flags().len() == mask.nrows
            &&& forall|row: int|
                0 <= row < mask.nrows ==> #[trigger] mask.flags()[row] == (words[row / 64] & (1u64
                    << ((row % 64) as u64)) != 0)
            &&& mask.refusal() is None || mask.refusal() == Some(Error::PaddingBits)
            &&& mask.refusal() is None <==> forall|row: int| #![trigger words[row / 64]]
                mask.nrows <= row < 64 * words.len() ==> words[row / 64] & (1u64 << ((row
                    % 64) as u64)) == 0
        },
{
    if mask.nrows >= 0 {
        lemma_bitmap_rows(mask.nrows as int, mask.words());
    }
}

} // verus!
