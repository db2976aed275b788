//! The int4 entry points.

use vstd::prelude::*;

#[allow(unused_imports)]
use crate::bitmap::lemma_bitmap_rows;
use crate::bitmap::{valid_words, word_flags, words_for};
use crate::bits::{bit, covers, ones, word_rows};
#[allow(unused_imports)]
use crate::bits::lemma_word_rows_contains;
use crate::c::column::DatumColumn;
#[allow(unused_imports)]
use crate::c::mask::lemma_mask_bits;
use crate::c::mask::Mask;
use crate::c::status::{guard, recorded, Code, Outcome, Status};
use crate::error::Error;
use crate::int32;
#[allow(unused_imports)]
use crate::int32::aggregate::{
    aggregate_failed, lemma_counted, lemma_greatest, lemma_least, lemma_sums_fit, max_value, min_value,
    selected_values, sum_value, total,
};
#[allow(unused_imports)]
use crate::int32::filter::{filtered, word_failure};
use crate::int32::CompareOp;
#[allow(unused_imports)]
use crate::reader::{
    ready_before, selection_ready, word_ready, Cells, ColumnReader,
};
#[allow(unused_imports)]
use crate::row_mask::lemma_selected;
use crate::row_mask::RowMaskView;
#[allow(unused_imports)]
use crate::storage::int32::lemma_datum_low;
use crate::storage::int32::{datum_cells, DatumInt32Column};
#[allow(unused_imports)]
use crate::storage::mask_flag;

verus! {

/// The ABI version that this library implements.
const ABI_VERSION: u32 = 0;

/// The ABI version.
pub fn tess_kernels_abi_version() -> (version: u32)
    ensures
        version == 0,
{
    ABI_VERSION
}

/// The size or offset of a kind of layout, or 0 for an unknown kind.
pub fn tess_kernels_layout(kind: u32) -> (layout: usize)
    ensures
        layout == (match kind {
            0 => 16usize,
            1 => 32,
            2 => 24,
            3 => 144,
            4 => 18,
            _ => 0,
        }),
{
    match kind {
        0 => Mask::SIZE,
        1 => DatumColumn::SIZE,
        2 => DatumColumn::NROWS_OFFSET,
        3 => Status::SIZE,
        4 => Status::MESSAGE_OFFSET,
        _ => 0,
    }
}

/// The comparison that a number of the C interface names.
pub open spec fn comparison(op: u32) -> Option<CompareOp> {
    match op {
        0 => Some(CompareOp::Eq),
        1 => Some(CompareOp::Ne),
        2 => Some(CompareOp::Lt),
        3 => Some(CompareOp::Le),
        4 => Some(CompareOp::Gt),
        5 => Some(CompareOp::Ge),
        _ => None,
    }
}

/// The comparison that a number of the C interface names.
fn compare_op(op: u32) -> (result: Result<CompareOp, Error>)
    ensures
        result matches Ok(compare) ==> comparison(op) == Some(compare),
        result matches Err(error) ==> comparison(op) is None && error == (Error::UnknownCompareOp {
            op,
        }),
{
    match op {
        0 => Ok(CompareOp::Eq),
        1 => Ok(CompareOp::Ne),
        2 => Ok(CompareOp::Lt),
        3 => Ok(CompareOp::Le),
        4 => Ok(CompareOp::Gt),
        5 => Ok(CompareOp::Ge),
        _ => Err(Error::UnknownCompareOp { op }),
    }
}

/// A row of an optional mask; without a mask every row is set.
pub open spec fn mask_row(mask: Option<&Mask<'_>>, row: int) -> bool {
    match mask {
        Some(mask) => 0 <= row < mask.flags().len() && mask.flags()[row],
        None => true,
    }
}

/// What an entry point may rely on: masks with the words that their row counts
/// need, and a column whose buffers hold its rows, initialized where a `prepared`
/// that can be borrowed says so.
pub open spec fn inputs_sized(
    column: Option<&DatumColumn<'_>>,
    prepared: Option<&Mask<'_>>,
) -> bool {
    &&& prepared matches Some(mask) ==> mask.sized()
    &&& column matches Some(column) ==> {
        column.has_buffers() ==> {
            &&& column.values->0@.len() == column.nrows
            &&& column.isnull->0@.len() == column.nrows
            &&& (prepared matches Some(mask) ==> mask.refusal() is None) ==> forall|row: int|
                0 <= row < column.nrows && mask_row(prepared, row)
                    ==> #[trigger] column.values->0@[row] is Some && column.isnull->0@[row] is Some
        }
    }
}

/// The rows of a column with `prepared` as its readiness.
pub open spec fn column_cells(column: &DatumColumn<'_>, prepared: Option<&Mask<'_>>) -> Cells<i32> {
    Seq::new(
        column.datums().len(),
        |row: int|
            if !mask_row(prepared, row) {
                None
            } else if column.flags()[row]->0 {
                Some(None)
            } else {
                Some(Some(column.datums()[row]->0 as i32))
            },
    )
}

/// Why a column cannot be read with `prepared` as its readiness, if it cannot.
pub open spec fn column_refusal(
    column: Option<&DatumColumn<'_>>,
    prepared: Option<&Mask<'_>>,
) -> Option<Error> {
    match column {
        None => Some(Error::NullColumn),
        Some(column) => if prepared is Some && prepared->0.refusal() is Some {
            prepared->0.refusal()
        } else if column.struct_size < DatumColumn::MIN_SIZE {
            Some(Error::ColumnTooSmall)
        } else if column.nrows < 0 {
            Some(Error::ColumnNegativeRows)
        } else if column.nrows > 0 && (column.values is None || column.isnull is None) {
            Some(Error::ColumnNullBuffers)
        } else if prepared is Some && prepared->0.nrows != column.nrows {
            Some(Error::ColumnMaskRows)
        } else {
            None
        },
    }
}

/// Borrow a column with `prepared` as its readiness.
fn borrow_column<'a>(
    column: Option<&'a DatumColumn<'a>>,
    prepared: Option<&'a Mask<'a>>,
) -> (result: Result<DatumInt32Column<'a>, Error>)
    requires
        inputs_sized(column, prepared),
    ensures
        result is Ok <==> column_refusal(column, prepared) is None,
        result matches Ok(reader) ==> reader@ == column_cells(column->0, prepared),
        result matches Err(error) ==> Some(error) == column_refusal(column, prepared),
{
    let column = match column {
        Some(column) => column,
        None => {
            return Err(Error::NullColumn);
        },
    };
    let view = match Mask::view_optional(prepared) {
        Ok(view) => view,
        Err(error) => {
            return Err(error);
        },
    };
    proof {
        assert forall|row: int| #[trigger] mask_flag(view, row) == mask_row(prepared, row) by {}
        assert(datum_cells(column.datums(), column.flags(), view) =~= column_cells(
            column,
            prepared,
        ));
        if column.has_buffers() {
            let values = column.values->0@;
            let isnull = column.isnull->0@;
            assert forall|row: int|
                0 <= row < isnull.len() && mask_flag(view, row) implies #[trigger] isnull[row] is Some by {
                assert(values[row] is Some);
            }
        }
    }
    column.int32(view)
}

/// The error of a selection with an unprepared row: that of the first word with
/// such a row, or of the row where it is the only selected one of its word and
/// single rows are read by themselves.
pub open spec fn unprepared_error(
    cells: Cells<i32>,
    flags: Seq<bool>,
    index: int,
    selected: u64,
    single_rows: bool,
    error: Error,
) -> bool {
    &&& 0 <= index < words_for(flags.len() as int)
    &&& covers(selected, flags, index)
    &&& ready_before(cells, flags, 64 * index)
    &&& !word_ready(cells, index, selected)
    &&& error == if single_rows && ones(selected) == 1 {
        Error::RowUnprepared { row: word_rows(64 * index, selected)[0] as usize }
    } else {
        Error::SelectionUnprepared
    }
}

/// The outcome of filtering the rows of a mask: its words afterwards and the
/// result.
pub open spec fn filter_call(
    column: Option<&DatumColumn<'_>>,
    prepared: Option<&Mask<'_>>,
    rows: Option<Mask<'_>>,
    op: u32,
    scalar: i32,
    after: Seq<u64>,
    result: Result<(), Error>,
) -> bool {
    let refusal = if comparison(op) is None {
        Some(Error::UnknownCompareOp { op })
    } else if column_refusal(column, prepared) is Some {
        column_refusal(column, prepared)
    } else if rows is None {
        Some(Error::NullRowMask)
    } else if rows->0.refusal() is Some {
        rows->0.refusal()
    } else if column->0.nrows != rows->0.nrows {
        Some(Error::ColumnSelectionRows)
    } else {
        None
    };
    let cells = column_cells(column->0, prepared);
    let mask = rows->0;
    let before = mask.flags();
    let kept = word_flags(mask.nrows as int, after);
    match refusal {
        Some(refusal) => {
            &&& result matches Err(error) && error == refusal
            &&& rows is Some && mask.bits is Some ==> after == mask.bits->0@
        },
        None => {
            &&& mask.nrows > 0 ==> valid_words(mask.nrows as int, after)
            &&& mask.nrows <= 0 && mask.bits is Some ==> after == mask.bits->0@
            &&& match result {
                Ok(()) => selection_ready(cells, before) && filtered(
                    cells,
                    before,
                    kept,
                    before.len() as int,
                    comparison(op)->0,
                    scalar,
                ),
                Err(error) => exists|index: int, selected: u64| #[trigger]
                    unprepared_error(cells, before, index, selected, true, error) && filtered(
                        cells,
                        before,
                        kept,
                        64 * index,
                        comparison(op)->0,
                        scalar,
                    ),
            }
        },
    }
}

/// What a column of Datums says of a refused word.
proof fn lemma_unprepared(
    column: &DatumInt32Column<'_>,
    flags: Seq<bool>,
    index: int,
    selected: u64,
)
    requires
        column@.len() == flags.len(),
        0 <= index < words_for(flags.len() as int),
        covers(selected, flags, index),
        ready_before(column@, flags, 64 * index),
        !word_ready(column@, index, selected),
    ensures
        unprepared_error(
            column@,
            flags,
            index,
            selected,
            true,
            word_failure(column, index, selected),
        ),
        column.word_error(index, selected) == Error::SelectionUnprepared,
        ones(selected) == 1 ==> column.row_error(word_rows(64 * index, selected)[0]) == (
        Error::RowUnprepared { row: word_rows(64 * index, selected)[0] as usize }),
{
    let rows = word_rows(64 * index, selected);
    lemma_word_rows_contains(64 * index, selected);
    crate::bits::lemma_word_rows_len(64 * index, selected);
    assert forall|i: int| #[trigger] bit(selected, i) implies 64 * index + i < flags.len() by {
        assert(bit(selected, i) == (64 * index + i < flags.len() && flags[64 * index + i]));
    }
    if ones(selected) == 1 {
        assert(bit(selected, rows[0] - 64 * index));
    }
}

/// Filter the rows of a mask.
fn filter_rows(
    column: Option<&DatumColumn<'_>>,
    prepared: Option<&Mask<'_>>,
    rows: Option<Mask<'_>>,
    op: u32,
    scalar: i32,
) -> (result: Result<(), Error>)
    requires
        inputs_sized(column, prepared),
        rows matches Some(rows) ==> rows.sized(),
    ensures
        filter_call(
            column,
            prepared,
            rows,
            op,
            scalar,
            final(rows->0.bits->0)@,
            result,
        ),
{
    let compare = match compare_op(op) {
        Ok(compare) => compare,
        Err(error) => {
            return Err(error);
        },
    };
    let reader = match borrow_column(column, prepared) {
        Ok(reader) => reader,
        Err(error) => {
            return Err(error);
        },
    };
    let given = match rows {
        Some(mask) => mask,
        None => {
            return Err(Error::NullRowMask);
        },
    };
    let mut mask = match given.mask() {
        Ok(mask) => mask,
        Err(error) => {
            return Err(error);
        },
    };
    let ghost before = mask@;
    let result = int32::filter(&reader, &mut mask, compare, scalar);
    proof {
        mask.lemma_released();
        let after = final(given.bits->0)@;
        assert(before == given.flags());
        assert(given.nrows > 0 ==> after == mask.words());
        assert(mask@ =~= word_flags(given.nrows as int, after));
        if result is Err && reader@.len() == before.len() {
            let error = result->Err_0;
            let (index, selected) = choose|index: int, selected: u64|
                {
                    &&& 0 <= index < words_for(before.len() as int)
                    &&& #[trigger] covers(selected, before, index)
                    &&& ready_before(reader@, before, 64 * index)
                    &&& !word_ready(reader@, index, selected)
                    &&& filtered(reader@, before, mask@, 64 * index, compare, scalar)
                    &&& error == word_failure(&reader, index, selected)
                };
            lemma_unprepared(&reader, before, index, selected);
            assert(unprepared_error(reader@, before, index, selected, true, error));
        }
    }
    result
}

/// Report the result of a body in the code and the status.
fn finish<V>(status: Option<&mut Status>, result: Result<V, Error>) -> (code: Code)
    ensures
        code == outcome_of(result).code(),
        status matches Some(status) ==> recorded(*status, *final(status), outcome_of(result)),
{
    let outcome = match result {
        Ok(_) => Outcome::Done,
        Err(error) => Outcome::Failed(error),
    };
    guard(status, outcome)
}

/// How a body with this result ended.
pub open spec fn outcome_of<V>(result: Result<V, Error>) -> Outcome {
    match result {
        Ok(_) => Outcome::Done,
        Err(error) => Outcome::Failed(error),
    }
}

/// Keep in `rows` the selected rows whose non-NULL value satisfies
/// `value op scalar`.
pub fn tess_int4_filter(
    column: Option<&DatumColumn<'_>>,
    prepared: Option<&Mask<'_>>,
    rows: Option<Mask<'_>>,
    op: u32,
    scalar: i32,
    status: Option<&mut Status>,
) -> (code: Code)
    requires
        inputs_sized(column, prepared),
        rows matches Some(rows) ==> rows.sized(),
    ensures
        exists|result: Result<(), Error>|
            {
                &&& #[trigger] filter_call(
                    column,
                    prepared,
                    rows,
                    op,
                    scalar,
                    final(rows->0.bits->0)@,
                    result,
                )
                &&& code == outcome_of(result).code()
                &&& status matches Some(status) ==> recorded(
                    *status,
                    *final(status),
                    outcome_of(result),
                )
            },
{
    let result = filter_rows(column, prepared, rows, op, scalar);
    finish(status, result)
}

/// Why an aggregate cannot read its inputs, if it cannot.
pub open spec fn aggregate_refusal(
    column: Option<&DatumColumn<'_>>,
    prepared: Option<&Mask<'_>>,
    rows: Option<&Mask<'_>>,
) -> Option<Error> {
    if column_refusal(column, prepared) is Some {
        column_refusal(column, prepared)
    } else if rows is None {
        Some(Error::NullRowMask)
    } else if rows->0.refusal() is Some {
        rows->0.refusal()
    } else if column->0.nrows != rows->0.nrows {
        Some(Error::ColumnSelectionRows)
    } else {
        None
    }
}

/// The result of an aggregate over the selected rows, where `value` is that of
/// their non-NULL values.
pub open spec fn aggregate_call<V>(
    column: Option<&DatumColumn<'_>>,
    prepared: Option<&Mask<'_>>,
    rows: Option<&Mask<'_>>,
    value: spec_fn(Seq<i32>) -> V,
    result: Result<V, Error>,
) -> bool {
    let cells = column_cells(column->0, prepared);
    let flags = rows->0.flags();
    match aggregate_refusal(column, prepared, rows) {
        Some(refusal) => result matches Err(error) && error == refusal,
        None => match result {
            Ok(aggregate) => selection_ready(cells, flags) && aggregate == value(
                selected_values(cells, flags),
            ),
            Err(error) => aggregate_unprepared(cells, flags, error),
        },
    }
}

/// The error of an aggregate over a selection with an unprepared row.
pub open spec fn aggregate_unprepared(cells: Cells<i32>, flags: Seq<bool>, error: Error) -> bool {
    exists|index: int, selected: u64| #[trigger]
        unprepared_error(cells, flags, index, selected, false, error)
}

/// Borrow the inputs of an aggregate.
fn borrow_inputs<'a>(
    column: Option<&'a DatumColumn<'a>>,
    prepared: Option<&'a Mask<'a>>,
    rows: Option<&'a Mask<'a>>,
) -> (result: Result<(DatumInt32Column<'a>, RowMaskView<'a>), Error>)
    requires
        inputs_sized(column, prepared),
        rows matches Some(rows) ==> rows.sized(),
    ensures
        match result {
            Ok((reader, view)) => {
                &&& column_refusal(column, prepared) is None
                &&& rows is Some && rows->0.refusal() is None
                &&& reader@ == column_cells(column->0, prepared)
                &&& view@ == rows->0.flags()
                &&& reader@.len() == column->0.nrows
                &&& view@.len() == rows->0.nrows
            },
            Err(error) => aggregate_refusal(column, prepared, rows) == Some(error)
                && !(column_refusal(column, prepared) is None && rows is Some
                && rows->0.refusal() is None),
        },
{
    let reader = match borrow_column(column, prepared) {
        Ok(reader) => reader,
        Err(error) => {
            return Err(error);
        },
    };
    let rows = match rows {
        Some(rows) => rows,
        None => {
            return Err(Error::NullRowMask);
        },
    };
    match rows.view() {
        Ok(view) => Ok((reader, view)),
        Err(error) => Err(error),
    }
}

/// What a column of Datums says of a failed aggregate.
proof fn lemma_aggregate_failed(column: &DatumInt32Column<'_>, flags: Seq<bool>, error: Error)
    requires
        column@.len() == flags.len(),
        aggregate_failed(column, flags, error),
    ensures
        aggregate_unprepared(column@, flags, error),
{
    let (index, selected) = choose|index: int, selected: u64|
        {
            &&& 0 <= index < words_for(flags.len() as int)
            &&& #[trigger] covers(selected, flags, index)
            &&& ready_before(column@, flags, 64 * index)
            &&& !word_ready(column@, index, selected)
            &&& error == column.word_error(index, selected)
        };
    lemma_unprepared(column, flags, index, selected);
    assert(unprepared_error(column@, flags, index, selected, false, error));
}

/// The number of values.
pub open spec fn count_of() -> spec_fn(Seq<i32>) -> usize {
    |values: Seq<i32>| values.len() as usize
}

/// The sum of values, `None` without any.
pub open spec fn sum_of() -> spec_fn(Seq<i32>) -> Option<i64> {
    |values: Seq<i32>| sum_value(values)
}

/// The least value, `None` without any.
pub open spec fn min_of() -> spec_fn(Seq<i32>) -> Option<i32> {
    |values: Seq<i32>| min_value(values)
}

/// The greatest value, `None` without any.
pub open spec fn max_of() -> spec_fn(Seq<i32>) -> Option<i32> {
    |values: Seq<i32>| max_value(values)
}

/// Count of the selected non-NULL rows of a mask.
fn count_rows(
    column: Option<&DatumColumn<'_>>,
    prepared: Option<&Mask<'_>>,
    rows: Option<&Mask<'_>>,
) -> (result: Result<usize, Error>)
    requires
        inputs_sized(column, prepared),
        rows matches Some(rows) ==> rows.sized(),
    ensures
        aggregate_call(column, prepared, rows, count_of(), result),
        result matches Ok(count) ==> count <= i32::MAX && count == selected_values(
            column_cells(column->0, prepared),
            rows->0.flags(),
        ).len(),
{
    let (reader, view) = match borrow_inputs(column, prepared, rows) {
        Ok(inputs) => inputs,
        Err(error) => {
            return Err(error);
        },
    };
    let result = int32::count(&reader, &view);
    proof {
        lemma_counted(reader@, view@);
        lemma_selected(view@);
        if result is Err && reader@.len() == view@.len() {
            lemma_aggregate_failed(&reader, view@, result->Err_0);
        }
    }
    result
}

/// The sum of the selected non-NULL rows of a mask.
fn sum_rows(
    column: Option<&DatumColumn<'_>>,
    prepared: Option<&Mask<'_>>,
    rows: Option<&Mask<'_>>,
) -> (result: Result<Option<i64>, Error>)
    requires
        inputs_sized(column, prepared),
        rows matches Some(rows) ==> rows.sized(),
    ensures
        aggregate_call(column, prepared, rows, sum_of(), result),
{
    let (reader, view) = match borrow_inputs(column, prepared, rows) {
        Ok(inputs) => inputs,
        Err(error) => {
            return Err(error);
        },
    };
    proof {
        if reader@.len() == view@.len() {
            lemma_sums_fit(reader@, view@);
        }
    }
    let result = int32::sum(&reader, &view);
    proof {
        if result is Err && reader@.len() == view@.len() {
            lemma_aggregate_failed(&reader, view@, result->Err_0);
        }
    }
    result
}

/// The least value of the selected non-NULL rows of a mask.
fn min_rows(
    column: Option<&DatumColumn<'_>>,
    prepared: Option<&Mask<'_>>,
    rows: Option<&Mask<'_>>,
) -> (result: Result<Option<i32>, Error>)
    requires
        inputs_sized(column, prepared),
        rows matches Some(rows) ==> rows.sized(),
    ensures
        aggregate_call(column, prepared, rows, min_of(), result),
{
    let (reader, view) = match borrow_inputs(column, prepared, rows) {
        Ok(inputs) => inputs,
        Err(error) => {
            return Err(error);
        },
    };
    let result = int32::min(&reader, &view);
    proof {
        if result is Err && reader@.len() == view@.len() {
            lemma_aggregate_failed(&reader, view@, result->Err_0);
        }
    }
    result
}

/// The greatest value of the selected non-NULL rows of a mask.
fn max_rows(
    column: Option<&DatumColumn<'_>>,
    prepared: Option<&Mask<'_>>,
    rows: Option<&Mask<'_>>,
) -> (result: Result<Option<i32>, Error>)
    requires
        inputs_sized(column, prepared),
        rows matches Some(rows) ==> rows.sized(),
    ensures
        aggregate_call(column, prepared, rows, max_of(), result),
{
    let (reader, view) = match borrow_inputs(column, prepared, rows) {
        Ok(inputs) => inputs,
        Err(error) => {
            return Err(error);
        },
    };
    let result = int32::max(&reader, &view);
    proof {
        if result is Err && reader@.len() == view@.len() {
            lemma_aggregate_failed(&reader, view@, result->Err_0);
        }
    }
    result
}

/// Count the selected non-NULL rows into `count`; nothing is written on failure.
pub fn tess_int4_count(
    column: Option<&DatumColumn<'_>>,
    prepared: Option<&Mask<'_>>,
    rows: Option<&Mask<'_>>,
    count: Option<&mut i64>,
    status: Option<&mut Status>,
) -> (code: Code)
    requires
        inputs_sized(column, prepared),
        rows matches Some(rows) ==> rows.sized(),
    ensures
        exists|result: Result<usize, Error>|
            {
                &&& if count is None {
                    result == Err::<usize, Error>(Error::NullResult)
                } else {
                    aggregate_call(column, prepared, rows, count_of(), result)
                }
                &&& count matches Some(count) ==> *final(count) == match result {
                    Ok(value) => value as i64,
                    Err(_) => *count,
                }
                &&& count matches Some(count) ==> result is Ok ==> *final(count) == selected_values(
                    column_cells(column->0, prepared),
                    rows->0.flags(),
                ).len()
                &&& code == (#[trigger] outcome_of(result)).code()
                &&& status matches Some(status) ==> recorded(
                    *status,
                    *final(status),
                    outcome_of(result),
                )
            },
{
    match count {
        None => finish::<usize>(status, Err(Error::NullResult)),
        Some(count) => {
            let result = count_rows(column, prepared, rows);
            if let Ok(value) = &result {
                *count = *value as i64;
            }
            finish(status, result)
        },
    }
}

/// The sum of the selected non-NULL values, as int8, into `isnull` and `value`: NULL
/// with the value 0 without such a row. Nothing is written on failure.
pub fn tess_int4_sum(
    column: Option<&DatumColumn<'_>>,
    prepared: Option<&Mask<'_>>,
    rows: Option<&Mask<'_>>,
    isnull: Option<&mut bool>,
    value: Option<&mut i64>,
    status: Option<&mut Status>,
) -> (code: Code)
    requires
        inputs_sized(column, prepared),
        rows matches Some(rows) ==> rows.sized(),
    ensures
        exists|result: Result<Option<i64>, Error>|
            {
                &&& if isnull is None || value is None {
                    result == Err::<Option<i64>, Error>(Error::NullResult)
                } else {
                    aggregate_call(column, prepared, rows, sum_of(), result)
                }
                &&& isnull matches Some(isnull) ==> *final(isnull) == match result {
                    Ok(aggregate) => aggregate is None,
                    Err(_) => *isnull,
                }
                &&& value matches Some(value) ==> *final(value) == match result {
                    Ok(Some(aggregate)) => aggregate,
                    Ok(None) => 0,
                    Err(_) => *value,
                }
                &&& code == (#[trigger] outcome_of(result)).code()
                &&& status matches Some(status) ==> recorded(
                    *status,
                    *final(status),
                    outcome_of(result),
                )
            },
{
    match (isnull, value) {
        (Some(isnull), Some(value)) => {
            let result = sum_rows(column, prepared, rows);
            if let Ok(aggregate) = &result {
                match aggregate {
                    Some(aggregate) => {
                        *isnull = false;
                        *value = *aggregate;
                    },
                    None => {
                        *isnull = true;
                        *value = 0;
                    },
                }
            }
            finish(status, result)
        },
        _ => finish::<Option<i64>>(status, Err(Error::NullResult)),
    }
}

/// The least selected non-NULL value, into `isnull` and `value`: NULL
/// with the value 0 without such a row. Nothing is written on failure.
pub fn tess_int4_min(
    column: Option<&DatumColumn<'_>>,
    prepared: Option<&Mask<'_>>,
    rows: Option<&Mask<'_>>,
    isnull: Option<&mut bool>,
    value: Option<&mut i32>,
    status: Option<&mut Status>,
) -> (code: Code)
    requires
        inputs_sized(column, prepared),
        rows matches Some(rows) ==> rows.sized(),
    ensures
        exists|result: Result<Option<i32>, Error>|
            {
                &&& if isnull is None || value is None {
                    result == Err::<Option<i32>, Error>(Error::NullResult)
                } else {
                    aggregate_call(column, prepared, rows, min_of(), result)
                }
                &&& isnull matches Some(isnull) ==> *final(isnull) == match result {
                    Ok(aggregate) => aggregate is None,
                    Err(_) => *isnull,
                }
                &&& value matches Some(value) ==> *final(value) == match result {
                    Ok(Some(aggregate)) => aggregate,
                    Ok(None) => 0,
                    Err(_) => *value,
                }
                &&& code == (#[trigger] outcome_of(result)).code()
                &&& status matches Some(status) ==> recorded(
                    *status,
                    *final(status),
                    outcome_of(result),
                )
            },
{
    match (isnull, value) {
        (Some(isnull), Some(value)) => {
            let result = min_rows(column, prepared, rows);
            if let Ok(aggregate) = &result {
                match aggregate {
                    Some(aggregate) => {
                        *isnull = false;
                        *value = *aggregate;
                    },
                    None => {
                        *isnull = true;
                        *value = 0;
                    },
                }
            }
            finish(status, result)
        },
        _ => finish::<Option<i32>>(status, Err(Error::NullResult)),
    }
}

/// The greatest selected non-NULL value, into `isnull` and `value`: NULL
/// with the value 0 without such a row. Nothing is written on failure.
pub fn tess_int4_max(
    column: Option<&DatumColumn<'_>>,
    prepared: Option<&Mask<'_>>,
    rows: Option<&Mask<'_>>,
    isnull: Option<&mut bool>,
    value: Option<&mut i32>,
    status: Option<&mut Status>,
) -> (code: Code)
    requires
        inputs_sized(column, prepared),
        rows matches Some(rows) ==> rows.sized(),
    ensures
        exists|result: Result<Option<i32>, Error>|
            {
                &&& if isnull is None || value is None {
                    result == Err::<Option<i32>, Error>(Error::NullResult)
                } else {
                    aggregate_call(column, prepared, rows, max_of(), result)
                }
                &&& isnull matches Some(isnull) ==> *final(isnull) == match result {
                    Ok(aggregate) => aggregate is None,
                    Err(_) => *isnull,
                }
                &&& value matches Some(value) ==> *final(value) == match result {
                    Ok(Some(aggregate)) => aggregate,
                    Ok(None) => 0,
                    Err(_) => *value,
                }
                &&& code == (#[trigger] outcome_of(result)).code()
                &&& status matches Some(status) ==> recorded(
                    *status,
                    *final(status),
                    outcome_of(result),
                )
            },
{
    match (isnull, value) {
        (Some(isnull), Some(value)) => {
            let result = max_rows(column, prepared, rows);
            if let Ok(aggregate) = &result {
                match aggregate {
                    Some(aggregate) => {
                        *isnull = false;
                        *value = *aggregate;
                    },
                    None => {
                        *isnull = true;
                        *value = 0;
                    },
                }
            }
            finish(status, result)
        },
        _ => finish::<Option<i32>>(status, Err(Error::NullResult)),
    }
}

/// The numbers of the comparisons: each of the six names its own, and no other
/// number names one.
pub proof fn lemma_comparison_numbers(a: u32, b: u32)
    ensures
        comparison(a) is Some <==> a <= 5,
        a <= 5 && comparison(a) == comparison(b) ==> a == b,
        forall|value: i32, scalar: i32| #![trigger comparison(a)->0.holds(value, scalar)]
            a <= 5 ==> comparison(a)->0.holds(value, scalar) == (match a {
                0 => value == scalar,
                1 => value < scalar || value > scalar,
                2 => value < scalar,
                3 => value < scalar || value == scalar,
                4 => value > scalar,
                _ => value > scalar || value == scalar,
            }),
{
}

/// The rows of a column that is not refused, one by one: prepared where the
/// readiness mask is set, NULL where the flag is, and else the int4 in the low 32
/// bits of the Datum.
pub proof fn lemma_column_rows(
    column: &DatumColumn<'_>,
    prepared: Option<&Mask<'_>>,
    row: int,
    value: i32,
)
    requires
        inputs_sized(Some(column), prepared),
        column_refusal(Some(column), prepared) is None,
        0 <= row < column.nrows,
    ensures
        column.values is Some,
        column.isnull is Some,
        column_cells(column, prepared).len() == column.nrows,
        ({
            let cell = column_cells(column, prepared)[row];
            let is_ready = prepared is None || prepared->0.bits->0@[row / 64] & (1u64 << ((row
                % 64) as u64)) != 0;
            let datum = column.values->0@[row];
            let isnull = column.isnull->0@[row];
            &&& cell is Some <==> is_ready
            &&& is_ready ==> datum is Some && isnull is Some
            &&& is_ready && isnull == Some(true) ==> cell == Some(None::<i32>)
            &&& is_ready && isnull == Some(false) && (datum->0 % 0x1_0000_0000 == value || datum->0
                % 0x1_0000_0000 == value + 0x1_0000_0000) ==> cell == Some(Some(value))
        }),
{
    if let Some(mask) = prepared {
        lemma_mask_bits(*mask);
        assert(mask.flags()[row] == (mask.bits->0@[row / 64] & (1u64 << ((row % 64) as u64)) != 0));
    }
    assert(mask_row(prepared, row) ==> column.values->0@[row] is Some);
    lemma_datum_low(column.values->0@[row]->0);
}

/// What the filter entry point keeps, by the number of its comparison and on the
/// bits of the mask: after a successful call a row is set exactly when it was, is
/// not NULL, and the integer that its Datum holds is in that order with the
/// scalar.
pub proof fn lemma_filter_entry(
    column: &DatumColumn<'_>,
    prepared: Option<&Mask<'_>>,
    rows: Mask<'_>,
    op: u32,
    scalar: i32,
    after: Seq<u64>,
    row: int,
    value: i32,
)
    requires
        inputs_sized(Some(column), prepared),
        rows.sized(),
        filter_call(Some(column), prepared, Some(rows), op, scalar, after, Ok(())),
        0 <= row < rows.nrows,
    ensures
        op <= 5,
        column.nrows == rows.nrows,
        rows.bits is Some,
        ({
            let was = rows.bits->0@[row / 64] & (1u64 << ((row % 64) as u64)) != 0;
            let kept = after[row / 64] & (1u64 << ((row % 64) as u64)) != 0;
            let datum = column.values->0@[row];
            let isnull = column.isnull->0@[row];
            &&& after.len() == rows.bits->0@.len()
            &&& kept ==> was
            &&& was ==> datum is Some && isnull is Some
            &&& was && isnull == Some(true) ==> !kept
            &&& was && isnull == Some(false) && (datum->0 % 0x1_0000_0000 == value || datum->0
                % 0x1_0000_0000 == value + 0x1_0000_0000) ==> (kept <==> match op {
                0 => value == scalar,
                1 => value < scalar || value > scalar,
                2 => value < scalar,
                3 => value < scalar || value == scalar,
                4 => value > scalar,
                _ => value > scalar || value == scalar,
            })
        }),
{
    let cells = column_cells(column, prepared);
    let before = rows.flags();
    let flags = word_flags(rows.nrows as int, after);
    lemma_mask_bits(rows);
    lemma_bitmap_rows(rows.nrows as int, after);
    lemma_column_rows(column, prepared, row, value);
    lemma_comparison_numbers(op, op);
    assert(before[row] == (rows.bits->0@[row / 64] & (1u64 << ((row % 64) as u64)) != 0));
    assert(flags[row] == (after[row / 64] & (1u64 << ((row % 64) as u64)) != 0));
    assert(flags[row] == (before[row] && crate::int32::filter::passes(
        cells,
        row,
        comparison(op)->0,
        scalar,
    )));
    if before[row] {
        assert(crate::reader::ready(cells, row));
    }
    let order = comparison(op)->0.holds(value, scalar);
}

/// Why a call is refused before anything is read or written, in this order: an
/// unknown comparison, a missing column, an unfit readiness mask, an unfit
/// column, a missing or unfit row mask, and row counts that differ.
pub proof fn lemma_filter_refused(
    column: Option<&DatumColumn<'_>>,
    prepared: Option<&Mask<'_>>,
    rows: Option<Mask<'_>>,
    op: u32,
    scalar: i32,
    after: Seq<u64>,
    result: Result<(), Error>,
)
    requires
        filter_call(column, prepared, rows, op, scalar, after, result),
    ensures
        op > 5 ==> result == Err::<(), Error>(Error::UnknownCompareOp { op }),
        op <= 5 && column is None ==> result == Err::<(), Error>(Error::NullColumn),
        op <= 5 && column is Some ==> {
            let fields = column->0;
            let unready = prepared is Some && prepared->0.refusal() is Some;
            let small = fields.struct_size < 28;
            let missing = fields.nrows > 0 && (fields.values is None || fields.isnull is None);
            let unequal = prepared is Some && prepared->0.nrows != fields.nrows;
            &&& unready ==> result == Err::<(), Error>(prepared->0.refusal()->0)
            &&& !unready && small ==> result == Err::<(), Error>(Error::ColumnTooSmall)
            &&& !unready && !small && fields.nrows < 0 ==> result == Err::<(), Error>(
                Error::ColumnNegativeRows,
            )
            &&& !unready && !small && missing ==> result == Err::<(), Error>(
                Error::ColumnNullBuffers,
            )
            &&& !unready && !small && fields.nrows >= 0 && !missing && unequal ==> result == Err::<
                (),
                Error,
            >(Error::ColumnMaskRows)
            &&& !unready && !small && fields.nrows >= 0 && !missing && !unequal ==> {
                &&& rows is None ==> result == Err::<(), Error>(Error::NullRowMask)
                &&& rows matches Some(mask) ==> {
                    &&& mask.refusal() is Some ==> result == Err::<(), Error>(mask.refusal()->0)
                    &&& mask.refusal() is None && mask.nrows != fields.nrows ==> result == Err::<
                        (),
                        Error,
                    >(Error::ColumnSelectionRows)
                }
            }
        },
        op > 5 || column is None ==> (rows matches Some(mask) ==> mask.bits is Some ==> after
            == mask.bits->0@),
{
}

/// What the aggregate entry points return of values: their number, their integer
/// sum where it fits an int8, and extremes that are among them and bound them.
pub proof fn lemma_entry_values(values: Seq<i32>)
    ensures
        values.len() <= usize::MAX ==> count_of()(values) as int == values.len(),
        sum_of()(values) is None <==> values.len() == 0,
        min_of()(values) is None <==> values.len() == 0,
        max_of()(values) is None <==> values.len() == 0,
        i64::MIN <= total(values) <= i64::MAX ==> (sum_of()(values) matches Some(sum) ==> sum as int
            == total(values)),
        min_of()(values) matches Some(min) ==> values.contains(min) && forall|k: int|
            0 <= k < values.len() ==> min <= #[trigger] values[k],
        max_of()(values) matches Some(max) ==> values.contains(max) && forall|k: int|
            0 <= k < values.len() ==> #[trigger] values[k] <= max,
{
    if values.len() > 0 {
        lemma_least(values);
        lemma_greatest(values);
    }
}

/// An aggregate that returns has read every selected row: its value is that of
/// the non-NULL values of the selected rows, and its inputs were fit.
pub proof fn lemma_entry_aggregate<V>(
    column: &DatumColumn<'_>,
    prepared: Option<&Mask<'_>>,
    rows: &Mask<'_>,
    value: spec_fn(Seq<i32>) -> V,
    result: V,
)
    requires
        inputs_sized(Some(column), prepared),
        rows.sized(),
        aggregate_call(Some(column), prepared, Some(rows), value, Ok(result)),
    ensures
        result == value(selected_values(column_cells(column, prepared), rows.flags())),
        column.nrows == rows.nrows,
        rows.refusal() is None,
        forall|row: int|
            0 <= row < rows.nrows && #[trigger] rows.flags()[row] ==> column_cells(
                column,
                prepared,
            )[row] is Some,
        column_refusal(Some(column), prepared) is None,
{
    let cells = column_cells(column, prepared);
    assert forall|row: int|
        0 <= row < rows.nrows && #[trigger] rows.flags()[row] implies cells[row] is Some by {
        lemma_mask_bits(*rows);
        assert(crate::reader::ready(cells, row));
    }
}

/// A call whose inputs are fit fails for an unprepared selected row alone: an
/// aggregate names the selection, and the filter names the row where it is the
/// only selected one of its word.
pub proof fn lemma_entry_unprepared(
    cells: Cells<i32>,
    flags: Seq<bool>,
    index: int,
    selected: u64,
    single_rows: bool,
    error: Error,
)
    requires
        cells.len() == flags.len(),
        flags.len() <= usize::MAX,
        unprepared_error(cells, flags, index, selected, single_rows, error),
    ensures
        exists|row: int| 0 <= row < flags.len() && #[trigger] flags[row] && cells[row] is None,
        !single_rows ==> error == Error::SelectionUnprepared,
        error == Error::SelectionUnprepared || exists|row: int|
            0 <= row < flags.len() && #[trigger] flags[row] && cells[row] is None && error == (
            Error::RowUnprepared { row: row as usize }),
{
    let rows = word_rows(64 * index, selected);
    let i = choose|i: int| #[trigger]
        bit(selected, i) && !crate::reader::ready(cells, 64 * index + i);
    lemma_word_rows_contains(64 * index, selected);
    crate::bits::lemma_word_rows_len(64 * index, selected);
    assert(bit(selected, i) == (64 * index + i < flags.len() && flags[64 * index + i]));
    assert(flags[64 * index + i]);
    assert(rows.contains(64 * index + i));
    if single_rows && ones(selected) == 1 {
        let k = choose|k: int| 0 <= k < rows.len() && rows[k] == 64 * index + i;
        assert(rows[0] == 64 * index + i);
    }
}

/// A body that returned a value is done, and one that returned an error failed
/// with it.
pub proof fn lemma_outcomes<V>(result: Result<V, Error>)
    ensures
        result is Ok <==> outcome_of(result) == Outcome::Done,
        result matches Err(error) ==> outcome_of(result) == Outcome::Failed(error),
{
}

/// Why an aggregate is refused before anything is read, in this order: a missing
/// column, an unfit readiness mask, an unfit column, a missing or unfit row mask,
/// and row counts that differ.
pub proof fn lemma_aggregate_refused(
    column: Option<&DatumColumn<'_>>,
    prepared: Option<&Mask<'_>>,
    rows: Option<&Mask<'_>>,
)
    ensures
        column is None ==> aggregate_refusal(column, prepared, rows) == Some(Error::NullColumn),
        column is Some ==> {
            let refusal = aggregate_refusal(column, prepared, rows);
            let fields = column->0;
            let unready = prepared is Some && prepared->0.refusal() is Some;
            let small = fields.struct_size < 28;
            let missing = fields.nrows > 0 && (fields.values is None || fields.isnull is None);
            let unequal = prepared is Some && prepared->0.nrows != fields.nrows;
            &&& unready ==> refusal == prepared->0.refusal()
            &&& !unready && small ==> refusal == Some(Error::ColumnTooSmall)
            &&& !unready && !small && fields.nrows < 0 ==> refusal == Some(
                Error::ColumnNegativeRows,
            )
            &&& !unready && !small && missing ==> refusal == Some(Error::ColumnNullBuffers)
            &&& !unready && !small && fields.nrows >= 0 && !missing && unequal ==> refusal == Some(
                Error::ColumnMaskRows,
            )
            &&& !unready && !small && fields.nrows >= 0 && !missing && !unequal ==> {
                &&& rows is None ==> refusal == Some(Error::NullRowMask)
                &&& rows matches Some(mask) ==> {
                    &&& mask.refusal() is Some ==> refusal == mask.refusal()
                    &&& mask.refusal() is None ==> refusal == if mask.nrows != fields.nrows {
                        Some(Error::ColumnSelectionRows)
                    } else {
                        None
                    }
                }
            }
        },
{
}

/// An aggregate over fit inputs returns for a prepared selection, and else fails
/// with the error of the selection.
pub proof fn lemma_aggregate_entry<V>(
    column: &DatumColumn<'_>,
    prepared: Option<&Mask<'_>>,
    rows: &Mask<'_>,
    value: spec_fn(Seq<i32>) -> V,
    result: Result<V, Error>,
)
    requires
        aggregate_call(Some(column), prepared, Some(rows), value, result),
    ensures
        aggregate_refusal(Some(column), prepared, Some(rows)) matches Some(refusal) ==> result
            == Err::<V, Error>(refusal),
        aggregate_refusal(Some(column), prepared, Some(rows)) is None ==> (
        result matches Err(error) ==> error == Error::SelectionUnprepared),
        aggregate_refusal(Some(column), prepared, Some(rows)) is None && result is Ok ==> result
            == Ok::<V, Error>(
            value(selected_values(column_cells(column, prepared), rows.flags())),
        ),
{
}

} // verus!
