//! Datum columns of the C interface and their reader.

use vstd::prelude::*;

use crate::error::Error;
use crate::row_mask::RowMaskView;
use crate::storage::int32::{datum_cells, initialized, DatumInt32Column};
use crate::storage::mask_fits;

verus! {

/// Borrowed Datum values and NULL flags indexed by physical row.
#[derive(Debug)]
pub struct DatumColumn<'a> {
    /// The size the caller allocated, at least `DatumColumn::MIN_SIZE`.
    pub struct_size: usize,
    /// One Datum per row; may be absent when there are no rows.
    pub values: Option<&'a [Option<u64>]>,
    /// One flag per row; may be absent when there are no rows.
    pub isnull: Option<&'a [Option<bool>]>,
    /// The number of rows.
    pub nrows: i32,
}

impl<'a> DatumColumn<'a> {
    /// The size of the structure in the C interface.
    pub const SIZE: usize = 32;

    /// The size through `nrows`.
    pub const MIN_SIZE: usize = 28;

    /// The offset of `nrows`.
    pub const NROWS_OFFSET: usize = 24;

    /// The Datums of the rows.
    pub open spec fn datums(self) -> Seq<Option<u64>> {
        if self.nrows <= 0 {
            Seq::empty()
        } else {
            self.values->0@
        }
    }

    /// The NULL flags of the rows.
    pub open spec fn flags(self) -> Seq<Option<bool>> {
        if self.nrows <= 0 {
            Seq::empty()
        } else {
            self.isnull->0@
        }
    }

    /// The buffers are read: the column says that it has rows, and where.
    pub open spec fn has_buffers(self) -> bool {
        &&& self.struct_size >= DatumColumn::MIN_SIZE
        &&& self.nrows > 0
        &&& self.values is Some
        &&& self.isnull is Some
    }

    /// The buffers hold as many rows as the count says, initialized for every
    /// row of `prepared` (every row, without it).
    pub open spec fn sized(self, prepared: Option<RowMaskView<'_>>) -> bool {
        self.has_buffers() ==> {
            &&& self.values->0@.len() == self.nrows
            &&& self.isnull->0@.len() == self.nrows
            &&& initialized(self.values->0@, prepared)
            &&& initialized(self.isnull->0@, prepared)
        }
    }

    /// Why the column cannot be read with `prepared` as its readiness, if it
    /// cannot.
    pub open spec fn refusal(self, prepared: Option<RowMaskView<'_>>) -> Option<Error> {
        if self.struct_size < DatumColumn::MIN_SIZE {
            Some(Error::ColumnTooSmall)
        } else if self.nrows < 0 {
            Some(Error::ColumnNegativeRows)
        } else if self.nrows > 0 && (self.values is None || self.isnull is None) {
            Some(Error::ColumnNullBuffers)
        } else if !mask_fits(self.nrows as int, prepared) {
            Some(Error::ColumnMaskRows)
        } else {
            None
        }
    }

    /// Read the column as int4 with `prepared` as its readiness.
    pub fn int32(&self, prepared: Option<RowMaskView<'a>>) -> (result: Result<
        DatumInt32Column<'a>,
        Error,
    >)
        requires
            self.sized(prepared),
        ensures
            result is Ok <==> self.refusal(prepared) is None,
            result matches Ok(column) ==> column@ == datum_cells(
                self.datums(),
                self.flags(),
                prepared,
            ) && column.stored() == self.datums() && column.stored_nulls() == self.flags(),
            result matches Err(error) ==> Some(error) == self.refusal(prepared),
    {
        if self.struct_size < DatumColumn::MIN_SIZE {
            return Err(Error::ColumnTooSmall);
        }
        if self.nrows < 0 {
            return Err(Error::ColumnNegativeRows);
        }
        if self.nrows == 0 {
            let values: &'a [Option<u64>] = &[];
            let isnull: &'a [Option<bool>] = &[];
            proof {
                assert(values@ =~= self.datums());
                assert(isnull@ =~= self.flags());
            }
            return DatumInt32Column::try_new(values, isnull, prepared);
        }
        match (self.values, self.isnull) {
            (Some(values), Some(isnull)) => DatumInt32Column::try_new(values, isnull, prepared),
            _ => Err(Error::ColumnNullBuffers),
        }
    }
}

/// Why a column is refused, in this order: it is too small for its fields, has a
/// negative row count, lacks a buffer for its rows, or differs from its readiness
/// mask in the number of rows.
pub proof fn lemma_column_refused(column: DatumColumn<'_>, prepared: Option<RowMaskView<'_>>)
    ensures
        ({
            let refusal = column.refusal(prepared);
            let small = column.struct_size < 28;
            let missing = column.nrows > 0 && (column.values is None || column.isnull is None);
            let unequal = prepared is Some && prepared->0@.len() != column.nrows;
            &&& small ==> refusal == Some(Error::ColumnTooSmall)
            &&& !small && column.nrows < 0 ==> refusal == Some(Error::ColumnNegativeRows)
            &&& !small && missing ==> refusal == Some(Error::ColumnNullBuffers)
            &&& !small && column.nrows >= 0 && !missing && unequal ==> refusal == Some(
                Error::ColumnMaskRows,
            )
            &&& !small && column.nrows >= 0 && !missing && !unequal ==> refusal is None
        }),
{
}

} // verus!
