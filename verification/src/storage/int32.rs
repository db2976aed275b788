//! Borrowed int32 storage with readiness masks.
//!
//! A slot is `None` while it is uninitialized. Constructors take storage whose
//! prepared rows are all initialized, NULL rows included; readers check
//! readiness before they expose a value.

use vstd::prelude::*;

use crate::bits::bit;
#[allow(unused_imports)]
use crate::bits::{lemma_bit_constants, lemma_bit_test, lemma_bits_ext};
#[allow(unused_imports)]
use crate::column::{nullable, ColumnView};
use crate::error::Error;
use crate::lanes::Lanes;
#[allow(unused_imports)]
use crate::reader::{block_value, ready, value_at, word_ready, Cells, ColumnReader, WordBlock};
use crate::row_mask::RowMaskView;
use crate::storage::{
    mask_fits, mask_flag, mask_word, try_fold_words, validate_mask, validate_ready, word_slots,
};
#[allow(unused_imports)]
use crate::storage::{lemma_accepted, lemma_word_items};
use crate::word_values::{refusal, ReadRow, WordValues};
#[allow(unused_imports)]
use crate::word_values::{lemma_word_refused, lemma_yields};

verus! {

/// Whether every row of the word is prepared (an absent word is not).
fn fully_prepared(prepared: Option<RowMaskView<'_>>, word_index: usize) -> (full: bool)
    ensures
        full <==> (forall|i: int|
            0 <= i < 64 ==> #[trigger] mask_flag(prepared, 64 * word_index + i)),
{
    let word = mask_word(prepared, word_index);
    proof {
        if word == u64::MAX {
            assert forall|i: int| 0 <= i < 64 implies #[trigger] mask_flag(
                prepared,
                64 * word_index + i,
            ) by {
                lemma_bit_constants(i);
                assert(bit(word, i));
            }
        }
        if forall|i: int| 0 <= i < 64 ==> #[trigger] mask_flag(prepared, 64 * word_index + i) {
            assert forall|i: int| 0 <= i < 64 implies bit(word, i) == bit(u64::MAX, i) by {
                lemma_bit_constants(i);
                assert(mask_flag(prepared, 64 * word_index + i));
            }
            lemma_bits_ext(word, u64::MAX);
        }
    }
    word == u64::MAX
}

/// Read one dense slot of a word whose non-NULL flags are `bits`.
fn read_masked(values: &[Option<i32>], row: usize, bits: u64) -> (value: Option<i32>)
    requires
        row < values@.len(),
    ensures
        value == (if bit(bits, row as int % 64) {
            values@[row as int]
        } else {
            None
        }),
{
    proof {
        lemma_bit_test(bits, (row % 64) as u64);
    }
    let present = bits & (1u64 << ((row % 64) as u64)) != 0;
    let value = values[row];
    if present {
        value
    } else {
        None
    }
}

/// Borrowed dense int32 storage with independent non-NULL and readiness masks.
///
/// This is a physical format, not a declaration of PostgreSQL type semantics.
/// Sliced inputs use a sliced values buffer and correspondingly offset masks.
/// No view owns, frees, or copies its buffers, including uninitialized gaps.
/// Arrow-style primitive buffers can use this layout without an Arrow
/// dependency; encoded arrays such as dictionary arrays are not dense slices.
/// Construct offset masks with `RowMaskView::try_from_bytes`.
///
/// `try_fold_selected` chooses its NULL mode once and runs one loop per
/// selection word; without a NULL mask every read is unconditional.
#[derive(Debug)]
pub struct DenseInt32Column<'a> {
    values: &'a [Option<i32>],
    non_nulls: Option<RowMaskView<'a>>,
    prepared: Option<RowMaskView<'a>>,
}

/// Every prepared row of a buffer is initialized.
pub open spec fn initialized<T>(slots: Seq<Option<T>>, prepared: Option<RowMaskView<'_>>) -> bool {
    forall|row: int|
        0 <= row < slots.len() && mask_flag(prepared, row) ==> #[trigger] slots[row] is Some
}

/// The rows of dense storage.
pub open spec fn dense_cells(
    values: Seq<Option<i32>>,
    non_nulls: Option<RowMaskView<'_>>,
    prepared: Option<RowMaskView<'_>>,
) -> Cells<i32> {
    Seq::new(
        values.len(),
        |row: int|
            if !mask_flag(prepared, row) {
                None
            } else if mask_flag(non_nulls, row) {
                Some(values[row])
            } else {
                Some(None)
            },
    )
}

impl<'a> View for DenseInt32Column<'a> {
    type V = Cells<i32>;

    closed spec fn view(&self) -> Cells<i32> {
        dense_cells(self.values@, self.non_nulls, self.prepared)
    }
}

impl<'a> DenseInt32Column<'a> {
    #[verifier::type_invariant]
    spec fn inv(self) -> bool {
        &&& mask_fits(self.values@.len() as int, self.non_nulls)
        &&& mask_fits(self.values@.len() as int, self.prepared)
        &&& initialized(self.values@, self.prepared)
    }

    /// The borrowed slots, those of NULL and unprepared rows included.
    pub closed spec fn stored(self) -> Seq<Option<i32>> {
        self.values@
    }

    /// Borrow dense values, rejecting masks with different physical row counts.
    ///
    /// Without `non_nulls`, all prepared rows are non-NULL. Without `prepared`,
    /// every row is prepared. A prepared NULL row holds an initialized value
    /// of no meaning; unprepared rows may be uninitialized.
    pub fn try_new(
        values: &'a [Option<i32>],
        non_nulls: Option<RowMaskView<'a>>,
        prepared: Option<RowMaskView<'a>>,
    ) -> (result: Result<Self, Error>)
        requires
            initialized(values@, prepared),
        ensures
            result is Ok <==> mask_fits(values@.len() as int, non_nulls) && mask_fits(
                values@.len() as int,
                prepared,
            ),
            result matches Ok(column) ==> column@ == dense_cells(values@, non_nulls, prepared)
                && column.stored() == values@,
            result matches Err(error) ==> error == Error::ColumnMaskRows,
    {
        if let Err(error) = validate_mask(values.len(), non_nulls) {
            return Err(error);
        }
        if let Err(error) = validate_mask(values.len(), prepared) {
            return Err(error);
        }
        Ok(DenseInt32Column { values, non_nulls, prepared })
    }
}

/// Reading of the rows of one word of a `DenseInt32Column`.
pub struct DenseRows<'a> {
    values: &'a [Option<i32>],
    non_nulls: u64,
}

impl<'a> ReadRow for DenseRows<'a> {
    type Value = i32;

    closed spec fn readable(&self, row: int) -> bool {
        0 <= row < self.values@.len()
    }

    closed spec fn reads(&self, row: int, value: Option<i32>) -> bool {
        value == if bit(self.non_nulls, row % 64) {
            self.values@[row]
        } else {
            None
        }
    }

    fn read(&mut self, row: usize) -> (value: Option<i32>) {
        read_masked(self.values, row, self.non_nulls)
    }
}

/// A full word with every row prepared.
pub open spec fn word_prepared(cells: Cells<i32>, word_index: int) -> bool {
    &&& 64 * word_index + 64 <= cells.len()
    &&& forall|i: int| 0 <= i < 64 ==> ready(cells, #[trigger] (64 * word_index + i))
}

/// The lanes of a block hold the initialized slots of a word.
pub open spec fn holds_slots<T>(
    lanes: Seq<T>,
    slots: Seq<Option<T>>,
    word_index: int,
) -> bool {
    forall|i: int| 0 <= i < 64 ==> slots[64 * word_index + i] == Some(#[trigger] lanes[i])
}

/// Why a row that is out of bounds or unprepared cannot be read.
pub open spec fn unready_error(row: int, nrows: int) -> Error {
    if row >= nrows {
        Error::RowOutOfBounds { row: row as usize, nrows: nrows as usize }
    } else {
        Error::RowUnprepared { row: row as usize }
    }
}

impl<'a> ColumnReader for DenseInt32Column<'a> {
    type Value = i32;

    type Words<'b> = WordValues<DenseRows<'a>>;

    open spec fn cells(&self) -> Cells<i32> {
        self@
    }

    open spec fn row_error(&self, row: int) -> Error {
        unready_error(row, self@.len() as int)
    }

    open spec fn word_error(&self, word_index: int, selected: u64) -> Error {
        refusal(self@.len() as int, word_index, selected)
    }

    open spec fn datum_value(&self, datum: u64) -> Option<i32> {
        None
    }

    fn nrows(&self) -> (nrows: usize) {
        self.values.len()
    }

    fn get(&self, row: usize) -> (result: Result<Option<i32>, Error>) {
        proof {
            use_type_invariant(self);
        }
        if let Err(error) = validate_ready(self.values.len(), self.prepared, row) {
            return Err(error);
        }
        if let Some(mask) = self.non_nulls {
            if !mask.contains(row).unwrap() {
                return Ok(None);
            }
        }
        Ok(self.values[row])
    }

    fn word_values<'b>(&'b self, word_index: usize, selected: u64) -> (result: Result<
        WordValues<DenseRows<'a>>,
        Error,
    >) {
        proof {
            use_type_invariant(self);
        }
        let prepared = mask_word(self.prepared, word_index);
        // Without a NULL mask every flag is set and the read is unconditional.
        let non_nulls = mask_word(self.non_nulls, word_index);
        let reader = DenseRows { values: self.values, non_nulls };
        let ghost cells = self@;
        let ghost w = word_index as int;
        proof {
            assert forall|i: int| 0 <= i < 64 && 64 * w + i < cells.len() implies #[trigger] bit(
                prepared,
                i,
            ) == (cells[64 * w + i] is Some) by {
                assert(bit(prepared, i) == mask_flag(self.prepared, 64 * w + i));
            }
            lemma_accepted(cells, w, selected, prepared);
        }
        let result = WordValues::over(self.values.len(), word_index, selected, prepared, reader);
        proof {
            if word_ready(cells, w, selected) {
                assert forall|i: int| #[trigger] bit(selected, i) implies reader.reads(
                    64 * w + i,
                    value_at(cells, 64 * w + i),
                ) by {
                    assert((64 * w + i) % 64 == i);
                    assert(bit(non_nulls, i) == mask_flag(self.non_nulls, 64 * w + i));
                }
                lemma_word_items(reader, cells, w, selected);
                lemma_yields(result->Ok_0);
            }
        }
        result
    }

    fn fold_word<'b, B, G: FnMut(B, (usize, Option<i32>)) -> B>(
        words: WordValues<DenseRows<'a>>,
        init: B,
        fold: G,
    ) -> (acc: B) {
        proof {
            lemma_yields(words);
        }
        words.fold_read(init, fold)
    }

    fn word_block(&self, word_index: usize) -> (block: Option<WordBlock<'_, i32>>)
        ensures
            block is Some <==> word_prepared(self@, word_index as int),
            block matches Some(block) ==> (block matches WordBlock::Dense { values, .. }
                && holds_slots(values@, self.stored(), word_index as int)),
    {
        proof {
            use_type_invariant(self);
        }
        if !fully_prepared(self.prepared, word_index) {
            proof {
                let i = choose|i: int|
                    0 <= i < 64 && !(#[trigger] mask_flag(self.prepared, 64 * word_index + i));
                assert(!ready(self@, 64 * word_index + i));
            }
            return None;
        }
        let slots = match word_slots(self.values, word_index) {
            Some(slots) => slots,
            None => {
                return None;
            },
        };
        proof {
            assert forall|i: int| 0 <= i < 64 implies #[trigger] slots@[i] is Some by {
                assert(mask_flag(self.prepared, 64 * word_index + i));
                assert(slots@[i] == self.values@[64 * word_index + i]);
            }
        }
        let values = Lanes::of_slots(slots);
        let non_nulls = mask_word(self.non_nulls, word_index);
        let block = WordBlock::Dense { values, non_nulls };
        proof {
            let datum = |datum: u64| self.datum_value(datum);
            assert forall|i: int| 0 <= i < 64 implies ready(self@, 64 * word_index + i)
                && #[trigger] block_value(block, datum, i) == value_at(self@, 64 * word_index + i) by {
                assert(mask_flag(self.prepared, 64 * word_index + i));
                assert(slots@[i] == self.values@[64 * word_index + i]);
                assert(bit(non_nulls, i) == mask_flag(self.non_nulls, 64 * word_index + i));
            }
            assert forall|i: int| 0 <= i < 64 implies self.stored()[64 * word_index + i] == Some(
                #[trigger] values@[i],
            ) by {
                assert(slots@[i] == self.values@[64 * word_index + i]);
            }
        }
        Some(block)
    }

    fn try_fold_selected<B, F: FnMut(B, usize, Option<i32>) -> Result<B, Error>>(
        &self,
        rows: &RowMaskView<'_>,
        init: B,
        fold: F,
    ) -> (result: Result<B, Error>) {
        proof {
            use_type_invariant(self);
        }
        let values = self.values;
        if self.non_nulls.is_none() {
            let read = |row: usize, _bits: u64| -> (value: Option<i32>)
                requires
                    row < values@.len(),
                ensures
                    value == values@[row as int],
                { values[row] };
            return try_fold_words(
                rows,
                self.prepared,
                None,
                values.len(),
                read,
                init,
                fold,
                Ghost(self@),
            );
        }
        let read = |row: usize, bits: u64| -> (value: Option<i32>)
            requires
                row < values@.len(),
            ensures
                value == (if bit(bits, row as int % 64) {
                    values@[row as int]
                } else {
                    None
                }),
            { read_masked(values, row, bits) };
        try_fold_words(
            rows,
            self.prepared,
            self.non_nulls,
            values.len(),
            read,
            init,
            fold,
            Ghost(self@),
        )
    }
}

/// The rows of Datum storage, as the low 32 bits of each Datum.
pub open spec fn datum_cells(
    values: Seq<Option<u64>>,
    isnull: Seq<Option<bool>>,
    prepared: Option<RowMaskView<'_>>,
) -> Cells<i32> {
    Seq::new(
        values.len(),
        |row: int|
            if !mask_flag(prepared, row) {
                None
            } else if isnull[row]->0 {
                Some(None)
            } else {
                Some(Some(values[row]->0 as i32))
            },
    )
}

/// Borrowed PostgreSQL Datum storage interpreted as int4 values.
///
/// The targeted PostgreSQL defines Datum as `uint64_t`, even on 32-bit
/// targets. Conversion takes its low 32 bits, matching `DatumGetInt32`.
/// Other logical PostgreSQL types require their own compatible interpretation.
#[derive(Debug)]
pub struct DatumInt32Column<'a> {
    values: &'a [Option<u64>],
    isnull: &'a [Option<bool>],
    prepared: Option<RowMaskView<'a>>,
}

impl<'a> View for DatumInt32Column<'a> {
    type V = Cells<i32>;

    closed spec fn view(&self) -> Cells<i32> {
        datum_cells(self.values@, self.isnull@, self.prepared)
    }
}

impl<'a> DatumInt32Column<'a> {
    #[verifier::type_invariant]
    spec fn inv(self) -> bool {
        &&& self.isnull@.len() == self.values@.len()
        &&& mask_fits(self.values@.len() as int, self.prepared)
        &&& initialized(self.values@, self.prepared)
        &&& initialized(self.isnull@, self.prepared)
    }

    /// The borrowed Datum slots, those of NULL and unprepared rows included.
    pub closed spec fn stored(self) -> Seq<Option<u64>> {
        self.values@
    }

    /// The borrowed NULL flags, those of unprepared rows included.
    pub closed spec fn stored_nulls(self) -> Seq<Option<bool>> {
        self.isnull@
    }

    /// Borrow Datum values and NULL flags, rejecting mismatched dimensions.
    ///
    /// Without `prepared`, every row is prepared. Both buffers may contain
    /// uninitialized unprepared rows; a prepared NULL row holds an initialized
    /// Datum of no meaning, as PostgreSQL slots provide.
    pub fn try_new(
        values: &'a [Option<u64>],
        isnull: &'a [Option<bool>],
        prepared: Option<RowMaskView<'a>>,
    ) -> (result: Result<Self, Error>)
        requires
            initialized(values@, prepared),
            initialized(isnull@, prepared),
        ensures
            result is Ok <==> values@.len() == isnull@.len() && mask_fits(
                values@.len() as int,
                prepared,
            ),
            result matches Ok(column) ==> column@ == datum_cells(values@, isnull@, prepared)
                && column.stored() == values@ && column.stored_nulls() == isnull@,
            result matches Err(error) ==> error == (if values@.len() != isnull@.len() {
                Error::ColumnFlagRows
            } else {
                Error::ColumnMaskRows
            }),
    {
        if values.len() != isnull.len() {
            return Err(Error::ColumnFlagRows);
        }
        if let Err(error) = validate_mask(values.len(), prepared) {
            return Err(error);
        }
        Ok(DatumInt32Column { values, isnull, prepared })
    }
}

/// Read one initialized row: flag and Datum are loaded unconditionally and the
/// flag selects the result.
fn read_prepared(values: &[Option<u64>], isnull: &[Option<bool>], row: usize) -> (value: Option<i32>)
    requires
        row < values@.len(),
        row < isnull@.len(),
        values@[row as int] is Some,
        isnull@[row as int] is Some,
    ensures
        value == (if isnull@[row as int]->0 {
            None
        } else {
            Some(values@[row as int]->0 as i32)
        }),
{
    let null = isnull[row].unwrap();
    let value = values[row].unwrap() as i32;
    if null {
        None
    } else {
        Some(value)
    }
}

/// Reading of the rows of one word of a `DatumInt32Column`.
pub struct DatumRows<'a> {
    values: &'a [Option<u64>],
    isnull: &'a [Option<bool>],
}

impl<'a> ReadRow for DatumRows<'a> {
    type Value = i32;

    closed spec fn readable(&self, row: int) -> bool {
        &&& 0 <= row < self.values@.len()
        &&& row < self.isnull@.len()
        &&& self.values@[row] is Some
        &&& self.isnull@[row] is Some
    }

    closed spec fn reads(&self, row: int, value: Option<i32>) -> bool {
        value == if self.isnull@[row]->0 {
            None
        } else {
            Some(self.values@[row]->0 as i32)
        }
    }

    fn read(&mut self, row: usize) -> (value: Option<i32>) {
        read_prepared(self.values, self.isnull, row)
    }
}

impl<'a> ColumnReader for DatumInt32Column<'a> {
    type Value = i32;

    type Words<'b> = WordValues<DatumRows<'a>>;

    open spec fn cells(&self) -> Cells<i32> {
        self@
    }

    open spec fn row_error(&self, row: int) -> Error {
        unready_error(row, self@.len() as int)
    }

    open spec fn word_error(&self, word_index: int, selected: u64) -> Error {
        refusal(self@.len() as int, word_index, selected)
    }

    open spec fn datum_value(&self, datum: u64) -> Option<i32> {
        Some(datum as i32)
    }

    fn nrows(&self) -> (nrows: usize) {
        self.values.len()
    }

    fn get(&self, row: usize) -> (result: Result<Option<i32>, Error>) {
        proof {
            use_type_invariant(self);
        }
        if let Err(error) = validate_ready(self.values.len(), self.prepared, row) {
            return Err(error);
        }
        Ok(read_prepared(self.values, self.isnull, row))
    }

    fn word_values<'b>(&'b self, word_index: usize, selected: u64) -> (result: Result<
        WordValues<DatumRows<'a>>,
        Error,
    >) {
        proof {
            use_type_invariant(self);
        }
        let prepared = mask_word(self.prepared, word_index);
        let reader = DatumRows { values: self.values, isnull: self.isnull };
        let ghost cells = self@;
        let ghost w = word_index as int;
        proof {
            assert forall|i: int| 0 <= i < 64 && 64 * w + i < cells.len() implies #[trigger] bit(
                prepared,
                i,
            ) == (cells[64 * w + i] is Some) by {
                assert(bit(prepared, i) == mask_flag(self.prepared, 64 * w + i));
            }
            lemma_accepted(cells, w, selected, prepared);
            if word_ready(cells, w, selected) {
                assert forall|i: int| #[trigger] bit(selected, i) implies reader.readable(64 * w + i)
                    && reader.reads(64 * w + i, value_at(cells, 64 * w + i)) by {
                    assert(ready(cells, 64 * w + i));
                    assert(self.values@[64 * w + i] is Some);
                    assert(self.isnull@[64 * w + i] is Some);
                }
                lemma_word_items(reader, cells, w, selected);
            }
        }
        let result = WordValues::over(self.values.len(), word_index, selected, prepared, reader);
        proof {
            if word_ready(cells, w, selected) {
                lemma_yields(result->Ok_0);
            }
        }
        result
    }

    fn fold_word<'b, B, G: FnMut(B, (usize, Option<i32>)) -> B>(
        words: WordValues<DatumRows<'a>>,
        init: B,
        fold: G,
    ) -> (acc: B) {
        proof {
            lemma_yields(words);
        }
        words.fold_read(init, fold)
    }

    fn word_block(&self, word_index: usize) -> (block: Option<WordBlock<'_, i32>>)
        ensures
            block is Some <==> word_prepared(self@, word_index as int),
            block matches Some(block) ==> (block matches WordBlock::Datum { values, isnull }
                && holds_slots(values@, self.stored(), word_index as int) && holds_slots(
                isnull@,
                self.stored_nulls(),
                word_index as int,
            )),
    {
        proof {
            use_type_invariant(self);
        }
        if !fully_prepared(self.prepared, word_index) {
            proof {
                let i = choose|i: int|
                    0 <= i < 64 && !(#[trigger] mask_flag(self.prepared, 64 * word_index + i));
                assert(!ready(self@, 64 * word_index + i));
            }
            return None;
        }
        let values = match word_slots(self.values, word_index) {
            Some(slots) => slots,
            None => {
                return None;
            },
        };
        let isnull = match word_slots(self.isnull, word_index) {
            Some(slots) => slots,
            None => {
                return None;
            },
        };
        proof {
            assert forall|i: int| 0 <= i < 64 implies #[trigger] values@[i] is Some by {
                assert(mask_flag(self.prepared, 64 * word_index + i));
                assert(values@[i] == self.values@[64 * word_index + i]);
            }
            assert forall|i: int| 0 <= i < 64 implies #[trigger] isnull@[i] is Some by {
                assert(mask_flag(self.prepared, 64 * word_index + i));
                assert(isnull@[i] == self.isnull@[64 * word_index + i]);
            }
        }
        let datums = Lanes::of_slots(values);
        let nulls = Lanes::of_slots(isnull);
        let block = WordBlock::Datum { values: datums, isnull: nulls };
        proof {
            let datum = |datum: u64| self.datum_value(datum);
            assert forall|i: int| 0 <= i < 64 implies ready(self@, 64 * word_index + i)
                && #[trigger] block_value(block, datum, i) == value_at(self@, 64 * word_index + i) by {
                assert(mask_flag(self.prepared, 64 * word_index + i));
                assert(values@[i] == self.values@[64 * word_index + i]);
                assert(isnull@[i] == self.isnull@[64 * word_index + i]);
            }
            assert forall|i: int| 0 <= i < 64 implies self.stored()[64 * word_index + i] == Some(
                #[trigger] datums@[i],
            ) by {
                assert(values@[i] == self.values@[64 * word_index + i]);
            }
            assert forall|i: int|
                0 <= i < 64 implies self.stored_nulls()[64 * word_index + i] == Some(
                #[trigger] nulls@[i],
            ) by {
                assert(isnull@[i] == self.isnull@[64 * word_index + i]);
            }
        }
        Some(block)
    }

    fn try_fold_selected<B, F: FnMut(B, usize, Option<i32>) -> Result<B, Error>>(
        &self,
        rows: &RowMaskView<'_>,
        init: B,
        fold: F,
    ) -> (result: Result<B, Error>) {
        proof {
            use_type_invariant(self);
        }
        let values = self.values;
        let isnull = self.isnull;
        let read = |row: usize, _bits: u64| -> (value: Option<i32>)
            requires
                row < values@.len(),
                row < isnull@.len(),
                values@[row as int] is Some,
                isnull@[row as int] is Some,
            ensures
                value == (if isnull@[row as int]->0 {
                    None
                } else {
                    Some(values@[row as int]->0 as i32)
                }),
            { read_prepared(values, isnull, row) };
        try_fold_words(
            rows,
            self.prepared,
            None,
            values.len(),
            read,
            init,
            fold,
            Ghost(self@),
        )
    }
}

/// Sign-extended and zero-extended Datums hold the same int4, and the high bits
/// of a Datum are no part of it.
pub proof fn lemma_datum_encodings(value: i32, datum: u64, high: u32)
    ensures
        (value as u64) as i32 == value,
        ((value as u32) as u64) as i32 == value,
        ((datum & 0xffff_ffff) | ((high as u64) << 32u64)) as i32 == datum as i32,
{
    assert((value as u64) as i32 == value) by (bit_vector);
    assert(((value as u32) as u64) as i32 == value) by (bit_vector);
    assert(((datum & 0xffff_ffff) | ((high as u64) << 32u64)) as i32 == datum as i32)
        by (bit_vector);
}

/// Dense and Datum storage of the same values hold the same rows, whatever
/// their NULL rows and unprepared rows hold.
pub proof fn lemma_representations_agree(
    values: Seq<Option<i32>>,
    non_nulls: Option<RowMaskView<'_>>,
    datums: Seq<Option<u64>>,
    isnull: Seq<Option<bool>>,
    prepared: Option<RowMaskView<'_>>,
)
    requires
        datums.len() == values.len(),
        isnull.len() == values.len(),
        forall|row: int|
            0 <= row < values.len() && mask_flag(prepared, row) ==> #[trigger] isnull[row] == Some(
                !mask_flag(non_nulls, row),
            ),
        forall|row: int|
            0 <= row < values.len() && mask_flag(prepared, row) && mask_flag(non_nulls, row)
                ==> #[trigger] datums[row] is Some && values[row] == Some(datums[row]->0 as i32),
    ensures
        dense_cells(values, non_nulls, prepared) == datum_cells(datums, isnull, prepared),
{
    let dense = dense_cells(values, non_nulls, prepared);
    let datum = datum_cells(datums, isnull, prepared);
    assert forall|row: int| 0 <= row < values.len() implies #[trigger] dense[row] == datum[row] by {
        if mask_flag(prepared, row) {
            assert(isnull[row] == Some(!mask_flag(non_nulls, row)));
            if mask_flag(non_nulls, row) {
                assert(datums[row] is Some);
            }
        }
    }
    assert(dense =~= datum);
}

/// Initialized values and dense storage of them hold the same rows.
pub proof fn lemma_view_agrees(
    column: ColumnView<'_, i32>,
    values: Seq<i32>,
    non_nulls: Option<RowMaskView<'_>>,
)
    requires
        column@ == nullable(values, non_nulls),
    ensures
        column.cells() == dense_cells(values.map_values(|value: i32| Some(value)), non_nulls, None),
{
    assert(column.cells() =~= dense_cells(
        values.map_values(|value: i32| Some(value)),
        non_nulls,
        None,
    ));
}

/// A Datum's int4 is its low 32 bits in two's complement.
pub proof fn lemma_datum_low(datum: u64)
    ensures
        ({
            let value = datum as i32;
            let low = datum % 0x1_0000_0000;
            low == value || low == value + 0x1_0000_0000
        }),
{
    assert(datum % 0x1_0000_0000 == datum as i32 || datum % 0x1_0000_0000 == (datum as i32)
        + 0x1_0000_0000) by (bit_vector);
}

/// The rows of dense storage, one by one: unprepared where the readiness mask is
/// clear, NULL where the non-NULL mask is, and else the initialized value.
pub proof fn lemma_dense_rows(
    values: Seq<Option<i32>>,
    non_nulls: Option<RowMaskView<'_>>,
    prepared: Option<RowMaskView<'_>>,
    row: int,
)
    requires
        0 <= row < values.len(),
        mask_fits(values.len() as int, non_nulls),
        mask_fits(values.len() as int, prepared),
        initialized(values, prepared),
    ensures
        ({
            let cells = dense_cells(values, non_nulls, prepared);
            let is_ready = prepared is None || prepared->0@[row];
            let is_null = non_nulls is Some && !non_nulls->0@[row];
            &&& cells.len() == values.len()
            &&& cells[row] is Some <==> is_ready
            &&& is_ready ==> values[row] is Some
            &&& is_ready && is_null ==> cells[row] == Some(None::<i32>)
            &&& is_ready && !is_null ==> cells[row] == Some(Some(values[row]->0))
        }),
{
    assert(mask_flag(prepared, row) ==> values[row] is Some);
}

/// The rows of Datum storage, one by one: unprepared where the readiness mask is
/// clear, NULL where the flag is set, and else the int4 in the low 32 bits.
pub proof fn lemma_datum_rows(
    values: Seq<Option<u64>>,
    isnull: Seq<Option<bool>>,
    prepared: Option<RowMaskView<'_>>,
    row: int,
)
    requires
        0 <= row < values.len(),
        isnull.len() == values.len(),
        mask_fits(values.len() as int, prepared),
        initialized(values, prepared),
        initialized(isnull, prepared),
    ensures
        ({
            let cells = datum_cells(values, isnull, prepared);
            let is_ready = prepared is None || prepared->0@[row];
            &&& cells.len() == values.len()
            &&& cells[row] is Some <==> is_ready
            &&& is_ready ==> values[row] is Some && isnull[row] is Some
            &&& is_ready && isnull[row] == Some(true) ==> cells[row] == Some(None::<i32>)
            &&& is_ready && isnull[row] == Some(false) ==> (cells[row] matches Some(Some(v)) && {
                let low = values[row]->0 % 0x1_0000_0000;
                low == v || low == v + 0x1_0000_0000
            })
        }),
{
    assert(mask_flag(prepared, row) ==> values[row] is Some && isnull[row] is Some);
    lemma_datum_low(values[row]->0);
}

/// Why a row cannot be read: it does not exist, or else is not prepared.
pub proof fn lemma_unready(row: usize, nrows: usize)
    ensures
        row >= nrows ==> unready_error(row as int, nrows as int) == (Error::RowOutOfBounds {
            row,
            nrows,
        }),
        row < nrows ==> unready_error(row as int, nrows as int) == (Error::RowUnprepared { row }),
{
}

/// Why the stored columns refuse a row or a word: it does not exist, names a row
/// that does not, or else one that is not prepared.
pub proof fn lemma_stored_readers(
    dense: &DenseInt32Column<'_>,
    datum: &DatumInt32Column<'_>,
    row: usize,
    selected: u64,
    bits: u64,
)
    requires
        dense@.len() == datum@.len(),
        dense@.len() <= usize::MAX,
    ensures
        dense.cells() == dense@,
        datum.cells() == datum@,
        dense.row_error(row as int) == if row >= dense@.len() {
            Error::RowOutOfBounds { row, nrows: dense@.len() as usize }
        } else {
            Error::RowUnprepared { row }
        },
        dense.row_error(row as int) == datum.row_error(row as int),
        dense.word_error(row as int, selected) == datum.word_error(row as int, selected),
        64 * row >= dense@.len() ==> dense.word_error(row as int, selected)
            == Error::SelectionWordOutOfBounds,
        64 * row < dense@.len() && (exists|i: int| #[trigger]
            bit(selected, i) && 64 * row + i >= dense@.len()) ==> dense.word_error(
            row as int,
            selected,
        ) == Error::SelectionPadding,
        64 * row < dense@.len() && (forall|i: int| #[trigger]
            bit(selected, i) ==> 64 * row + i < dense@.len()) ==> dense.word_error(
            row as int,
            selected,
        ) == Error::SelectionUnprepared,
        dense.datum_value(bits) is None,
        datum.datum_value(bits) matches Some(v) && (bits % 0x1_0000_0000 == v || bits
            % 0x1_0000_0000 == v + 0x1_0000_0000),
{
    lemma_word_refused(dense@.len() as int, row as int, selected, u64::MAX);
    lemma_datum_low(bits);
}

/// A word is exposed when it is full and each of its rows is prepared, and its
/// lanes are what the slots of those rows hold.
pub proof fn lemma_exposed(
    cells: Cells<i32>,
    lanes: Seq<i32>,
    slots: Seq<Option<i32>>,
    index: int,
    i: int,
)
    requires
        0 <= index,
        0 <= i < 64,
    ensures
        word_prepared(cells, index) ==> 64 * index + 64 <= cells.len() && cells[64 * index
            + i] is Some,
        holds_slots(lanes, slots, index) ==> slots[64 * index + i] == Some(lanes[i]),
{
    if word_prepared(cells, index) {
        assert(ready(cells, 64 * index + i));
    }
}

} // verus!
