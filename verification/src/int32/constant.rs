//! A scalar as a column.

use vstd::prelude::*;

use crate::bitmap::validate_row;
#[allow(unused_imports)]
use crate::bits::{bit, lemma_bit_constants};
use crate::error::Error;
#[allow(unused_imports)]
use crate::reader::{word_ready, Cells, ColumnReader};
#[allow(unused_imports)]
use crate::storage::{lemma_accepted, lemma_word_items};
#[allow(unused_imports)]
use crate::word_values::lemma_yields;
use crate::word_values::{refusal, ReadRow, WordValues};

verus! {

/// Rows that all hold the same non-NULL value.
pub struct ConstantColumn {
    /// The value of every row.
    pub value: i32,
    /// The number of rows.
    pub nrows: usize,
}

/// Reading of the rows of one word of a `ConstantColumn`.
pub struct ConstantRows {
    value: i32,
}

impl ReadRow for ConstantRows {
    type Value = i32;

    closed spec fn readable(&self, row: int) -> bool {
        true
    }

    closed spec fn reads(&self, row: int, value: Option<i32>) -> bool {
        value == Some(self.value)
    }

    fn read(&mut self, _row: usize) -> (value: Option<i32>) {
        Some(self.value)
    }
}

impl ColumnReader for ConstantColumn {
    type Value = i32;

    type Words<'b> = WordValues<ConstantRows>;

    open spec fn cells(&self) -> Cells<i32> {
        Seq::new(self.nrows as nat, |row: int| Some(Some(self.value)))
    }

    open spec fn row_error(&self, row: int) -> Error {
        Error::RowOutOfBounds { row: row as usize, nrows: self.nrows }
    }

    open spec fn word_error(&self, word_index: int, selected: u64) -> Error {
        refusal(self.nrows as int, word_index, selected)
    }

    fn nrows(&self) -> (nrows: usize) {
        self.nrows
    }

    fn get(&self, row: usize) -> (result: Result<Option<i32>, Error>) {
        match validate_row(row, self.nrows) {
            Ok(()) => Ok(Some(self.value)),
            Err(error) => Err(error),
        }
    }

    fn word_values<'b>(&'b self, word_index: usize, selected: u64) -> (result: Result<
        WordValues<ConstantRows>,
        Error,
    >) {
        let reader = ConstantRows { value: self.value };
        let ghost cells = self.cells();
        let ghost w = word_index as int;
        proof {
            assert forall|i: int| 0 <= i < 64 implies #[trigger] bit(u64::MAX, i) by {
                lemma_bit_constants(i);
            }
            lemma_accepted(cells, w, selected, u64::MAX);
        }
        let result = WordValues::over(self.nrows, word_index, selected, u64::MAX, reader);
        proof {
            if word_ready(cells, w, selected) {
                lemma_word_items(reader, cells, w, selected);
                lemma_yields(result->Ok_0);
            }
        }
        result
    }
}

} // verus!
