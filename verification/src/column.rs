//! Columns over borrowed, initialized values.

use vstd::prelude::*;

use crate::bitmap::validate_row;
use crate::bits::bit;
#[allow(unused_imports)]
use crate::bits::{lemma_bit_constants, lemma_bit_test};
use crate::error::Error;
use crate::lanes::Lanes;
#[allow(unused_imports)]
use crate::reader::{block_value, ready, value_at, word_ready, Cells, ColumnReader, WordBlock};
use crate::row_mask::RowMaskView;
use crate::storage::{mask_flag, mask_word, word_slots};
#[allow(unused_imports)]
use crate::storage::{lemma_accepted, lemma_word_items};
use crate::word_values::{refusal, ReadRow, WordValues};
#[allow(unused_imports)]
use crate::word_values::{lemma_word_refused, lemma_yields};

verus! {

/// Read-only access to borrowed, initialized values and their nullness.
///
/// The view neither copies values nor owns or frees their storage. Every
/// element of the slice is initialized, including positions marked NULL; those
/// elements are not exposed by `get`. Active-row selection is separate, and
/// indices always refer to physical rows.
///
/// The optional `non_nulls` mask has set bits for non-NULL values. Without
/// this mask, every value is non-NULL.
#[derive(Debug)]
pub struct ColumnView<'a, T> {
    values: &'a [T],
    non_nulls: Option<RowMaskView<'a>>,
}

/// Values with their nullness, `None` for NULL.
pub open spec fn nullable<T>(values: Seq<T>, non_nulls: Option<RowMaskView<'_>>) -> Seq<Option<T>> {
    Seq::new(
        values.len(),
        |row: int|
            if mask_flag(non_nulls, row) {
                Some(values[row])
            } else {
                None
            },
    )
}

impl<'a, T> View for ColumnView<'a, T> {
    type V = Seq<Option<T>>;

    closed spec fn view(&self) -> Seq<Option<T>> {
        nullable(self.values@, self.non_nulls)
    }
}

impl<'a, T> ColumnView<'a, T> {
    #[verifier::type_invariant]
    spec fn inv(self) -> bool {
        self.non_nulls matches Some(mask) ==> mask@.len() == self.values@.len()
    }

    /// The borrowed values, those of NULL rows included.
    pub closed spec fn stored(self) -> Seq<T> {
        self.values@
    }

    /// Borrow values and a non-NULL mask, rejecting different physical row counts.
    ///
    /// `None` means all values are non-NULL; their count comes from `values`.
    pub fn try_new(values: &'a [T], non_nulls: Option<RowMaskView<'a>>) -> (result: Result<
        Self,
        Error,
    >)
        ensures
            result is Ok <==> (non_nulls matches Some(mask) ==> mask@.len() == values@.len()),
            result matches Ok(column) ==> column@ == nullable(values@, non_nulls)
                && column.stored() == values@,
            result matches Err(error) ==> error == (Error::RowCount {
                expected: values@.len() as usize,
                actual: non_nulls->0@.len() as usize,
            }),
    {
        if let Some(mask) = non_nulls {
            if values.len() != mask.nrows() {
                return Err(Error::RowCount { expected: values.len(), actual: mask.nrows() });
            }
        }
        Ok(ColumnView { values, non_nulls })
    }

    /// Return the number of physical rows, including null values.
    pub fn nrows(&self) -> (nrows: usize)
        ensures
            nrows == self@.len(),
    {
        self.values.len()
    }

    /// Return the original value's reference, or `None` for NULL.
    ///
    /// An out-of-bounds index returns an error, distinct from NULL. Nullness
    /// is checked before accessing the values slice. No `Copy` bound is needed.
    pub fn get(&self, row: usize) -> (result: Result<Option<&T>, Error>)
        ensures
            result is Ok <==> row < self@.len(),
            result matches Ok(Some(value)) ==> Some(*value) == self@[row as int],
            result matches Ok(None) ==> self@[row as int] is None,
            result matches Err(error) ==> error == (Error::RowOutOfBounds {
                row,
                nrows: self@.len() as usize,
            }),
    {
        proof {
            use_type_invariant(self);
        }
        match self.non_nulls {
            Some(mask) => match mask.contains(row) {
                Err(error) => {
                    return Err(error);
                },
                Ok(present) => if !present {
                    return Ok(None);
                },
            },
            None => if let Err(error) = validate_row(row, self.values.len()) {
                return Err(error);
            },
        }
        Ok(Some(&self.values[row]))
    }
}

/// Reading of the rows of one word of a `ColumnView`.
pub struct ViewRows<'a, T> {
    values: &'a [T],
    non_nulls: u64,
}

impl<'a, T: Copy> ReadRow for ViewRows<'a, T> {
    type Value = T;

    closed spec fn readable(&self, row: int) -> bool {
        0 <= row < self.values@.len()
    }

    closed spec fn reads(&self, row: int, value: Option<T>) -> bool {
        value == if bit(self.non_nulls, row % 64) {
            Some(self.values@[row])
        } else {
            None
        }
    }

    fn read(&mut self, row: usize) -> (value: Option<T>) {
        proof {
            lemma_bit_test(self.non_nulls, (row % 64) as u64);
        }
        if self.non_nulls & (1u64 << ((row % 64) as u64)) != 0 {
            Some(self.values[row])
        } else {
            None
        }
    }
}

impl<'a, T: Copy> ColumnReader for ColumnView<'a, T> {
    type Value = T;

    type Words<'b> = WordValues<ViewRows<'a, T>>;

    open spec fn cells(&self) -> Cells<T> {
        Seq::new(self@.len(), |row: int| Some(self@[row]))
    }

    open spec fn row_error(&self, row: int) -> Error {
        Error::RowOutOfBounds { row: row as usize, nrows: self@.len() as usize }
    }

    open spec fn word_error(&self, word_index: int, selected: u64) -> Error {
        refusal(self@.len() as int, word_index, selected)
    }

    open spec fn datum_value(&self, datum: u64) -> Option<T> {
        None
    }

    fn nrows(&self) -> (nrows: usize) {
        self.values.len()
    }

    fn get(&self, row: usize) -> (result: Result<Option<T>, Error>) {
        match ColumnView::get(self, row) {
            Ok(Some(value)) => Ok(Some(*value)),
            Ok(None) => Ok(None),
            Err(error) => Err(error),
        }
    }

    fn word_values<'b>(&'b self, word_index: usize, selected: u64) -> (result: Result<
        WordValues<ViewRows<'a, T>>,
        Error,
    >) {
        proof {
            use_type_invariant(self);
        }
        let non_nulls = mask_word(self.non_nulls, word_index);
        let reader = ViewRows { values: self.values, non_nulls };
        let nrows = self.values.len();
        let ghost cells = self.cells();
        let ghost w = word_index as int;
        proof {
            assert forall|i: int| 0 <= i < 64 implies #[trigger] bit(u64::MAX, i) by {
                lemma_bit_constants(i);
            }
            lemma_accepted(cells, w, selected, u64::MAX);
        }
        let result = WordValues::over(nrows, word_index, selected, u64::MAX, reader);
        proof {
            if word_ready(cells, w, selected) {
                assert forall|i: int| #[trigger] bit(selected, i) implies reader.reads(
                    64 * w + i,
                    value_at(cells, 64 * w + i),
                ) by {
                    assert((64 * w + i) % 64 == i);
                }
                lemma_word_items(reader, cells, w, selected);
                lemma_yields(result->Ok_0);
            }
        }
        result
    }

    fn fold_word<'b, B, G: FnMut(B, (usize, Option<T>)) -> B>(
        words: WordValues<ViewRows<'a, T>>,
        init: B,
        fold: G,
    ) -> (acc: B) {
        proof {
            lemma_yields(words);
        }
        words.fold_read(init, fold)
    }

    /// Every row is prepared and initialized, so every full word is a block.
    fn word_block(&self, word_index: usize) -> (block: Option<WordBlock<'_, T>>)
        ensures
            block is Some <==> 64 * word_index + 64 <= self@.len(),
            block matches Some(block) ==> (block matches WordBlock::Dense { values, .. } && values@
                == self.stored().subrange(64 * word_index, 64 * word_index + 64)),
    {
        proof {
            use_type_invariant(self);
        }
        let values = match word_slots(self.values, word_index) {
            Some(slots) => match Lanes::new(slots) {
                Some(values) => values,
                None => {
                    return None;
                },
            },
            None => {
                return None;
            },
        };
        let non_nulls = mask_word(self.non_nulls, word_index);
        let block = WordBlock::Dense { values, non_nulls };
        proof {
            let datum = |datum: u64| self.datum_value(datum);
            assert forall|i: int| 0 <= i < 64 implies ready(self.cells(), 64 * word_index + i)
                && #[trigger] block_value(block, datum, i) == value_at(
                self.cells(),
                64 * word_index + i,
            ) by {
                assert(bit(non_nulls, i) == mask_flag(self.non_nulls, 64 * word_index + i));
            }
        }
        Some(block)
    }
}

/// The rows of initialized values, one by one: NULL where the non-NULL mask is
/// clear, and else the value.
pub proof fn lemma_nullable_rows<T>(values: Seq<T>, non_nulls: Option<RowMaskView<'_>>, row: int)
    requires
        0 <= row < values.len(),
        non_nulls matches Some(mask) ==> mask@.len() == values.len(),
    ensures
        nullable(values, non_nulls).len() == values.len(),
        nullable(values, non_nulls)[row] == if non_nulls is Some && !non_nulls->0@[row] {
            None
        } else {
            Some(values[row])
        },
{
}

/// The rows of a view are all prepared, and it refuses only rows and words that
/// do not exist.
pub proof fn lemma_view_reader<T: Copy>(column: &ColumnView<'_, T>, row: usize, selected: u64)
    ensures
        column.cells().len() == column@.len(),
        row < column@.len() ==> column.cells()[row as int] == Some(column@[row as int]),
        column.row_error(row as int) == (Error::RowOutOfBounds {
            row,
            nrows: column@.len() as usize,
        }),
        64 * row >= column@.len() ==> column.word_error(row as int, selected)
            == Error::SelectionWordOutOfBounds,
        64 * row < column@.len() && (exists|i: int| #[trigger]
            bit(selected, i) && 64 * row + i >= column@.len()) ==> column.word_error(
            row as int,
            selected,
        ) == Error::SelectionPadding,
{
    lemma_word_refused(column@.len() as int, row as int, selected, u64::MAX);
}

} // verus!
