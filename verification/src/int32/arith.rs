//! int4 arithmetic with PostgreSQL's rules, producing a dense column.
//!
//! `+`, `-` and `*` fail with `IntegerOutOfRange` on overflow; `/` and `%` fail
//! with `DivisionByZero` on a zero divisor, `/` also with `IntegerOutOfRange`
//! for `i32::MIN / -1`, and `x % -1` is 0, as PostgreSQL defines it to avoid
//! that trap. Division truncates toward zero and the remainder takes the
//! dividend's sign, as in C, Rust and PostgreSQL. A NULL operand makes a NULL
//! result, and the checks apply to selected non-NULL rows only. An error
//! anywhere in the selection fails the whole call; the result is then partly
//! written and the caller discards it.
//!
//! The result is a dense column in the caller's buffers: for every word with
//! selected rows the kernel writes the word of `non_nulls` (selected rows whose
//! operands are non-NULL) and the values of those rows; NULL rows get an
//! initialized placeholder, rows outside the selection keep what they held and
//! may stay uninitialized, and words without selected rows have their
//! `non_nulls` word cleared. The result reads as a `DenseInt32Column` with the
//! selection as its readiness mask.

use vstd::arithmetic::div_mod::lemma_fundamental_div_mod;
use vstd::prelude::*;
#[allow(unused_imports)]
use vstd::std_specs::iter::IteratorSpec;

use crate::bitmap::{valid_words, word_count, words_for};
use crate::bits::{bit, covers, word_rows};
#[allow(unused_imports)]
use crate::bits::{
    lemma_bit_constants, lemma_rows_members, lemma_set_flag, lemma_word_rows_contains,
};
use crate::error::Error;
#[allow(unused_imports)]
use crate::int32::divisor::{lemma_halved, lemma_truncated};
use crate::int32::constant::ConstantColumn;
use crate::int32::divisor::{magnitude, truncated_quotient, truncated_remainder, Divisor};
#[allow(unused_imports)]
use crate::reader::{
    items, lemma_word_ready, ready, ready_before, value_at, word_ready, word_start, Cells,
    ColumnReader,
};
#[allow(unused_imports)]
use crate::row_mask::lemma_word_determined;
use crate::row_mask::{RowMask, RowMaskView};
use crate::storage::int32::{dense_cells, initialized};
use crate::storage::mask_fits;

verus! {

/// A binary int4 operation.
#[derive(Clone, Copy, Debug, Eq, PartialEq, Structural)]
pub enum ArithOp {
    /// `+`
    Add,
    /// `-`
    Sub,
    /// `*`
    Mul,
    /// `/`, truncating toward zero.
    Div,
    /// `%`, with the dividend's sign.
    Mod,
}

/// An arithmetic failure with the SQLSTATE PostgreSQL reports for it.
#[derive(Clone, Copy, Debug, Eq, PartialEq, Structural)]
pub enum ArithmeticError {
    /// SQLSTATE 22003: an int4 result does not fit.
    IntegerOutOfRange,
    /// SQLSTATE 22012: a zero divisor.
    DivisionByZero,
}

impl ArithmeticError {
    /// The SQLSTATE of the error.
    pub open spec fn state(self) -> Seq<char> {
        match self {
            ArithmeticError::IntegerOutOfRange => "22003"@,
            ArithmeticError::DivisionByZero => "22012"@,
        }
    }

    /// The message of the error.
    pub open spec fn text(self) -> Seq<char> {
        match self {
            ArithmeticError::IntegerOutOfRange => "integer out of range"@,
            ArithmeticError::DivisionByZero => "division by zero"@,
        }
    }

    /// The five-character SQLSTATE of the error.
    pub fn sqlstate(self) -> (state: &'static str)
        ensures
            state@ == self.state(),
    {
        match self {
            ArithmeticError::IntegerOutOfRange => "22003",
            ArithmeticError::DivisionByZero => "22012",
        }
    }

    /// The message of the error, as PostgreSQL words it.
    pub fn message(self) -> (message: &'static str)
        ensures
            message@ == self.text(),
    {
        match self {
            ArithmeticError::IntegerOutOfRange => "integer out of range",
            ArithmeticError::DivisionByZero => "division by zero",
        }
    }
}

/// The int4 value of an exact result, unless it does not fit.
pub open spec fn checked(exact: int) -> Result<i32, ArithmeticError> {
    if i32::MIN <= exact <= i32::MAX {
        Ok(exact as i32)
    } else {
        Err(ArithmeticError::IntegerOutOfRange)
    }
}

impl ArithOp {
    /// What PostgreSQL computes for `a op b`.
    pub open spec fn result(self, a: i32, b: i32) -> Result<i32, ArithmeticError> {
        match self {
            ArithOp::Add => checked(a + b),
            ArithOp::Sub => checked(a - b),
            ArithOp::Mul => checked(a * b),
            ArithOp::Div => if b == 0 {
                Err(ArithmeticError::DivisionByZero)
            } else {
                checked(truncated_quotient(a as int, b as int))
            },
            ArithOp::Mod => if b == 0 {
                Err(ArithmeticError::DivisionByZero)
            } else {
                checked(truncated_remainder(a as int, b as int))
            },
        }
    }

    /// Compute `a op b`.
    pub fn evaluate(self, a: i32, b: i32) -> (result: Result<i32, ArithmeticError>)
        ensures
            result == self.result(a, b),
    {
        let value = match self {
            ArithOp::Add => a.checked_add(b),
            ArithOp::Sub => a.checked_sub(b),
            ArithOp::Mul => a.checked_mul(b),
            ArithOp::Div => {
                if b == 0 {
                    return Err(ArithmeticError::DivisionByZero);
                }
                a.checked_div(b)
            },
            ArithOp::Mod => {
                if b == 0 {
                    return Err(ArithmeticError::DivisionByZero);
                }
                proof {
                    lemma_remainder(a as int, b as int);
                }
                // The one remainder that traps is zero.
                match a.checked_rem(b) {
                    Some(value) => Some(value),
                    None => Some(0),
                }
            },
        };
        match value {
            Some(value) => Ok(value),
            None => Err(ArithmeticError::IntegerOutOfRange),
        }
    }
}

/// The truncated remainder is what the truncated quotient leaves of the
/// dividend.
proof fn lemma_remainder(a: int, b: int)
    requires
        b != 0,
    ensures
        truncated_remainder(a, b) == a - truncated_quotient(a, b) * b,
        0 <= magnitude(a) % magnitude(b) < magnitude(b),
        magnitude(a) % magnitude(b) <= magnitude(a),
        magnitude(b) == 1 ==> magnitude(a) % magnitude(b) == 0,
{
    let p = magnitude(a);
    let size = magnitude(b);
    let k = p / size;
    lemma_fundamental_div_mod(p, size);
    assert(truncated_quotient(a, b) * b == if a < 0 {
        -(size * k)
    } else {
        size * k
    }) by (nonlinear_arith)
        requires
            truncated_quotient(a, b) == if (a < 0) == (b < 0) {
                k
            } else {
                -k
            },
            size == if b < 0 {
                -b
            } else {
                b
            },
    ;
    vstd::arithmetic::div_mod::lemma_mod_decreases(p as nat, size as nat);
}

/// The operands of each row: unprepared where a column is, NULL where either
/// operand is.
pub open spec fn paired(left: Option<Option<i32>>, right: Option<Option<i32>>) -> Option<
    Option<(i32, i32)>,
> {
    match (left, right) {
        (Some(Some(a)), Some(Some(b))) => Some(Some((a, b))),
        (Some(_), Some(_)) => Some(None),
        _ => None,
    }
}

/// The operands of `column op scalar`.
pub open spec fn pairs_right(cells: Cells<i32>, scalar: i32) -> Cells<(i32, i32)> {
    Seq::new(cells.len(), |row: int| paired(cells[row], Some(Some(scalar))))
}

/// The operands of `scalar op column`.
pub open spec fn pairs_left(scalar: i32, cells: Cells<i32>) -> Cells<(i32, i32)> {
    Seq::new(cells.len(), |row: int| paired(Some(Some(scalar)), cells[row]))
}

/// The operands of two columns with the same rows.
pub open spec fn pairs_of(left: Cells<i32>, right: Cells<i32>) -> Cells<(i32, i32)> {
    Seq::new(left.len(), |row: int| paired(left[row], right[row]))
}

/// What a row computes: a NULL row takes a placeholder from operands that no
/// operation rejects.
pub open spec fn computed(op: ArithOp, pair: Option<(i32, i32)>) -> Result<i32, ArithmeticError> {
    match pair {
        Some((a, b)) => op.result(a, b),
        None => op.result(0, 1),
    }
}

/// The selected rows of `start..end` are prepared and compute a value.
pub open spec fn computes(
    op: ArithOp,
    pairs: Cells<(i32, i32)>,
    flags: Seq<bool>,
    start: int,
    end: int,
) -> bool {
    forall|row: int|
        start <= row < end && 0 <= row < flags.len() && #[trigger] flags[row] ==> ready(pairs, row)
            && computed(op, value_at(pairs, row)) is Ok
}

/// The result values of the rows before `stop`: selected rows have their
/// computed values; the others, and the rows from there on, keep what they held.
pub open spec fn values_written(
    op: ArithOp,
    pairs: Cells<(i32, i32)>,
    flags: Seq<bool>,
    stop: int,
    old_values: Seq<Option<i32>>,
    values: Seq<Option<i32>>,
) -> bool {
    &&& values.len() == old_values.len()
    &&& forall|row: int|
        0 <= row < flags.len() ==> #[trigger] values[row] == if row < stop && flags[row] {
            Some(computed(op, value_at(pairs, row))->Ok_0)
        } else {
            old_values[row]
        }
}

/// The result flags of the rows before `end`: set for selected rows whose
/// operands are not NULL. From there on they are unchanged.
pub open spec fn flags_written(
    pairs: Cells<(i32, i32)>,
    flags: Seq<bool>,
    end: int,
    old_non_nulls: Seq<bool>,
    non_nulls: Seq<bool>,
) -> bool {
    &&& non_nulls.len() == old_non_nulls.len()
    &&& forall|row: int|
        0 <= row < flags.len() ==> #[trigger] non_nulls[row] == if row < end {
            flags[row] && value_at(pairs, row) is Some
        } else {
            old_non_nulls[row]
        }
}

/// The result buffers hold the rows before `end` and are unchanged from there
/// on.
pub open spec fn written(
    op: ArithOp,
    pairs: Cells<(i32, i32)>,
    flags: Seq<bool>,
    end: int,
    old_values: Seq<Option<i32>>,
    values: Seq<Option<i32>>,
    old_non_nulls: Seq<bool>,
    non_nulls: Seq<bool>,
) -> bool {
    &&& values_written(op, pairs, flags, end, old_values, values)
    &&& flags_written(pairs, flags, end, old_non_nulls, non_nulls)
}

/// A computation failed at a word, the first one that does not compute, before
/// it wrote row `stop`: a reader refused the word, or else that row of it
/// failed after the rows before it computed.
pub open spec fn fails_at(
    op: ArithOp,
    pairs: Cells<(i32, i32)>,
    flags: Seq<bool>,
    word_error: spec_fn(int, u64) -> Error,
    index: int,
    selected: u64,
    stop: int,
    error: Error,
) -> bool {
    &&& 0 <= index < words_for(flags.len() as int)
    &&& covers(selected, flags, index)
    &&& computes(op, pairs, flags, 0, 64 * index)
    &&& if word_ready(pairs, index, selected) {
        &&& 64 * index <= stop < 64 * index + 64
        &&& stop < flags.len()
        &&& flags[stop]
        &&& computes(op, pairs, flags, 64 * index, stop)
        &&& computed(op, value_at(pairs, stop)) matches Err(arithmetic) && error
            == Error::Arithmetic(arithmetic)
    } else {
        stop == 64 * index && error == word_error(index, selected)
    }
}

/// The outcome of a computation whose dimensions agree. After a failure the
/// values are written before the row that failed, the flags before its word.
pub open spec fn arith_outcome(
    op: ArithOp,
    pairs: Cells<(i32, i32)>,
    flags: Seq<bool>,
    word_error: spec_fn(int, u64) -> Error,
    old_values: Seq<Option<i32>>,
    values: Seq<Option<i32>>,
    old_non_nulls: Seq<bool>,
    non_nulls: Seq<bool>,
    result: Result<(), Error>,
) -> bool {
    match result {
        Ok(()) => {
            &&& computes(op, pairs, flags, 0, flags.len() as int)
            &&& written(
                op,
                pairs,
                flags,
                flags.len() as int,
                old_values,
                values,
                old_non_nulls,
                non_nulls,
            )
        },
        Err(error) => exists|index: int, selected: u64, stop: int|
            {
                &&& #[trigger] fails_at(
                    op,
                    pairs,
                    flags,
                    word_error,
                    index,
                    selected,
                    stop,
                    error,
                )
                &&& values_written(op, pairs, flags, stop, old_values, values)
                &&& flags_written(pairs, flags, 64 * index, old_non_nulls, non_nulls)
            },
    }
}

/// The outcome of a call: rows that disagree are refused before anything is
/// written, the result's first; otherwise the call succeeds exactly when every
/// selected row computes.
pub open spec fn arith_call(
    op: ArithOp,
    pairs: Cells<(i32, i32)>,
    columns_fit: bool,
    flags: Seq<bool>,
    word_error: spec_fn(int, u64) -> Error,
    old_values: Seq<Option<i32>>,
    values: Seq<Option<i32>>,
    old_non_nulls: RowMask<'_>,
    non_nulls: RowMask<'_>,
    result: Result<(), Error>,
) -> bool {
    let result_fits = old_values.len() == flags.len() && old_non_nulls@.len() == flags.len();
    if !result_fits || !columns_fit {
        &&& result matches Err(error) && error == if !result_fits {
            Error::ResultSelectionRows
        } else {
            Error::ColumnSelectionRows
        }
        &&& values == old_values
        &&& non_nulls.words() == old_non_nulls.words()
    } else {
        &&& result is Ok <==> computes(op, pairs, flags, 0, flags.len() as int)
        &&& arith_outcome(
            op,
            pairs,
            flags,
            word_error,
            old_values,
            values,
            old_non_nulls@,
            non_nulls@,
            result,
        )
    }
}

/// Check every dimension before anything is written.
fn validate_output(
    rows: &RowMaskView<'_>,
    values: &[Option<i32>],
    non_nulls: &RowMask<'_>,
    column_rows: &[usize],
) -> (result: Result<(), Error>)
    ensures
        result is Ok <==> values@.len() == rows@.len() && non_nulls@.len() == rows@.len() && forall|
            k: int,
        |
            0 <= k < column_rows@.len() ==> #[trigger] column_rows@[k] == rows@.len(),
        result matches Err(error) ==> error == (if values@.len() != rows@.len() || non_nulls@.len()
            != rows@.len() {
            Error::ResultSelectionRows
        } else {
            Error::ColumnSelectionRows
        }),
        valid_words(non_nulls.rows(), non_nulls.words()),
{
    let nrows = rows.nrows();
    let mask_rows = non_nulls.as_view().nrows();
    if values.len() != nrows || mask_rows != nrows {
        return Err(Error::ResultSelectionRows);
    }
    let mut k: usize = 0;
    while k < column_rows.len()
        invariant
            nrows == rows@.len(),
            values@.len() == nrows,
            non_nulls@.len() == nrows,
            valid_words(non_nulls.rows(), non_nulls.words()),
            k <= column_rows@.len(),
            forall|j: int| 0 <= j < k ==> #[trigger] column_rows@[j] == nrows,
        decreases column_rows@.len() - k,
    {
        if column_rows[k] != nrows {
            return Err(Error::ColumnSelectionRows);
        }
        k = k + 1;
    }
    Ok(())
}

/// The rows of a word that have been computed, within the word at `base`.
spec fn word_written(
    op: ArithOp,
    pairs: Cells<(i32, i32)>,
    base: int,
    done: Seq<int>,
    before: Seq<Option<i32>>,
    values: Seq<Option<i32>>,
    present: u64,
) -> bool {
    &&& values.len() == before.len()
    &&& forall|row: int|
        0 <= row < values.len() ==> #[trigger] values[row] == if done.contains(row) {
            Some(computed(op, value_at(pairs, row))->Ok_0)
        } else {
            before[row]
        }
    &&& forall|i: int|
        0 <= i < 64 ==> #[trigger] bit(present, i) == (done.contains(base + i) && value_at(
            pairs,
            base + i,
        ) is Some)
    &&& forall|k: int|
        0 <= k < done.len() ==> computed(op, value_at(pairs, #[trigger] done[k])) is Ok
}

/// Compute one row into its slot and its non-NULL bit.
fn write_row(
    op: ArithOp,
    row: usize,
    pair: Option<(i32, i32)>,
    values: &mut [Option<i32>],
    present: u64,
    Ghost(pairs): Ghost<Cells<(i32, i32)>>,
    Ghost(base): Ghost<int>,
    Ghost(done): Ghost<Seq<int>>,
    Ghost(before): Ghost<Seq<Option<i32>>>,
) -> (result: Result<u64, Error>)
    requires
        row < old(values)@.len(),
        base % 64 == 0,
        base <= row < base + 64,
        pair == value_at(pairs, row as int),
        word_written(op, pairs, base, done, before, old(values)@, present),
    ensures
        result is Ok <==> computed(op, pair) is Ok,
        result matches Ok(present) ==> word_written(
            op,
            pairs,
            base,
            done.push(row as int),
            before,
            final(values)@,
            present,
        ),
        result matches Err(error) ==> computed(op, pair) matches Err(arithmetic) && error
            == Error::Arithmetic(arithmetic) && final(values)@ == old(values)@,
        final(values)@.len() == old(values)@.len(),
{
    let (a, b): (i32, i32) = match pair {
        Some(pair) => pair,
        None => (0, 1),
    };
    let flag: u64 = if pair.is_some() {
        1
    } else {
        0
    };
    match op.evaluate(a, b) {
        Ok(value) => {
            values[row] = Some(value);
            let k = (row % 64) as u64;
            let next = present | (flag << k);
            proof {
                let more = done.push(row as int);
                lemma_set_flag(present, flag, k);
                assert forall|r: int| #[trigger] more.contains(r) == (done.contains(r) || r == row) by {
                    if done.contains(r) {
                        let j = choose|j: int| 0 <= j < done.len() && done[j] == r;
                        assert(more[j] == r);
                    }
                    if r == row {
                        assert(more[done.len() as int] == r);
                    }
                }
                assert forall|i: int| 0 <= i < 64 implies #[trigger] bit(next, i) == (more.contains(
                    base + i,
                ) && value_at(pairs, base + i) is Some) by {
                    assert(bit(present, i) == (done.contains(base + i) && value_at(pairs, base + i) is Some));
                    assert(k == row - base);
                }
                assert forall|r: int| 0 <= r < values@.len() implies #[trigger] values@[r] == if more.contains(
                    r,
                ) {
                    Some(computed(op, value_at(pairs, r))->Ok_0)
                } else {
                    before[r]
                } by {
                    assert(old(values)@[r] == if done.contains(r) {
                        Some(computed(op, value_at(pairs, r))->Ok_0)
                    } else {
                        before[r]
                    });
                }
            }
            Ok(next)
        },
        Err(arithmetic) => Err(Error::Arithmetic(arithmetic)),
    }
}

/// The rows of one more word have been computed.
proof fn lemma_word_written(
    op: ArithOp,
    pairs: Cells<(i32, i32)>,
    flags: Seq<bool>,
    index: int,
    selected: u64,
    present: u64,
    old_values: Seq<Option<i32>>,
    before: Seq<Option<i32>>,
    values: Seq<Option<i32>>,
    old_non_nulls: Seq<bool>,
    mask_before: Seq<bool>,
    mask: Seq<bool>,
)
    requires
        0 <= index < words_for(flags.len() as int),
        covers(selected, flags, index),
        pairs.len() == flags.len(),
        old_values.len() == flags.len(),
        word_ready(pairs, index, selected),
        computes(op, pairs, flags, 0, 64 * index),
        written(op, pairs, flags, 64 * index, old_values, before, old_non_nulls, mask_before),
        word_written(
            op,
            pairs,
            64 * index,
            word_rows(64 * index, selected),
            before,
            values,
            present,
        ),
        mask.len() == mask_before.len(),
        forall|row: int|
            0 <= row < flags.len() ==> #[trigger] mask[row] == if row / 64 == index {
                bit(present, row % 64)
            } else {
                mask_before[row]
            },
    ensures
        computes(op, pairs, flags, 0, 64 * index + 64),
        written(op, pairs, flags, 64 * index + 64, old_values, values, old_non_nulls, mask),
{
    let rows = word_rows(64 * index, selected);
    lemma_word_rows_contains(64 * index, selected);
    assert forall|row: int| 64 * index <= row < 64 * index + 64 && row < flags.len() implies (
    #[trigger] rows.contains(row)) == flags[row] by {
        let i = row - 64 * index;
        assert(rows.contains(64 * index + i) <==> bit(selected, i));
        assert(bit(selected, i) == (64 * index + i < flags.len() && flags[64 * index + i]));
    }
    assert forall|row: int|
        0 <= row < 64 * index + 64 && 0 <= row < flags.len() && #[trigger] flags[row] implies ready(
        pairs,
        row,
    ) && computed(op, value_at(pairs, row)) is Ok by {
        if row >= 64 * index {
            assert(rows.contains(row));
            let k = choose|k: int| 0 <= k < rows.len() && rows[k] == row;
            assert(computed(op, value_at(pairs, rows[k])) is Ok);
            assert(bit(selected, rows[k] - 64 * index));
        }
    }
    assert forall|row: int| 0 <= row < flags.len() implies #[trigger] values[row] == if row < 64
        * index + 64 && flags[row] {
        Some(computed(op, value_at(pairs, row))->Ok_0)
    } else {
        old_values[row]
    } by {
        assert(before[row] == if row < 64 * index && flags[row] {
            Some(computed(op, value_at(pairs, row))->Ok_0)
        } else {
            old_values[row]
        });
        if rows.contains(row) {
            let k = choose|k: int| 0 <= k < rows.len() && rows[k] == row;
            assert(64 * index <= rows[k] < 64 * index + 64);
        }
    }
    assert forall|row: int| 0 <= row < flags.len() implies #[trigger] mask[row] == if row < 64 * index
        + 64 {
        flags[row] && value_at(pairs, row) is Some
    } else {
        old_non_nulls[row]
    } by {
        assert(mask_before[row] == if row < 64 * index {
            flags[row] && value_at(pairs, row) is Some
        } else {
            old_non_nulls[row]
        });
        if row / 64 == index {
            let i = row % 64;
            assert(64 * index + i == row);
            assert(bit(present, i) == (rows.contains(64 * index + i) && value_at(
                pairs,
                64 * index + i,
            ) is Some));
        }
    }
}

/// The bits of the computed rows stay within the row count.
proof fn lemma_present_within(
    op: ArithOp,
    pairs: Cells<(i32, i32)>,
    flags: Seq<bool>,
    index: int,
    selected: u64,
    before: Seq<Option<i32>>,
    values: Seq<Option<i32>>,
    present: u64,
)
    requires
        covers(selected, flags, index),
        word_written(
            op,
            pairs,
            64 * index,
            word_rows(64 * index, selected),
            before,
            values,
            present,
        ),
    ensures
        forall|i: int| #[trigger] bit(present, i) ==> 64 * index + i < flags.len(),
{
    lemma_word_rows_contains(64 * index, selected);
    assert forall|i: int| #[trigger] bit(present, i) implies 64 * index + i < flags.len() by {
        assert(word_rows(64 * index, selected).contains(64 * index + i));
        assert(bit(selected, i));
    }
}

/// The next row of a prepared selection word.
proof fn lemma_next_row<V>(
    cells: Cells<V>,
    flags: Seq<bool>,
    index: int,
    selected: u64,
    taken: int,
)
    requires
        0 <= index,
        covers(selected, flags, index),
        word_ready(cells, index, selected),
        0 <= taken,
    ensures
        taken < word_rows(64 * index, selected).len() ==> {
            let row = word_rows(64 * index, selected)[taken];
            &&& 64 * index <= row < 64 * index + 64
            &&& row < flags.len()
            &&& flags[row]
            &&& ready(cells, row)
        },
{
    let rows = word_rows(64 * index, selected);
    lemma_word_rows_contains(64 * index, selected);
    if taken < rows.len() {
        let i = rows[taken] - 64 * index;
        assert(bit(selected, i));
        assert(bit(selected, i) == (64 * index + i < flags.len() && flags[64 * index + i]));
        assert(64 * index + i == rows[taken]);
    }
}

/// A reader refused a word after the words before it computed.
proof fn lemma_word_refused(
    op: ArithOp,
    pairs: Cells<(i32, i32)>,
    flags: Seq<bool>,
    index: int,
    selected: u64,
    word_error: spec_fn(int, u64) -> Error,
    error: Error,
)
    requires
        0 <= index < words_for(flags.len() as int),
        covers(selected, flags, index),
        computes(op, pairs, flags, 0, 64 * index),
        !word_ready(pairs, index, selected),
        error == word_error(index, selected),
    ensures
        fails_at(op, pairs, flags, word_error, index, selected, 64 * index, error),
{
}

/// A row of a word failed after the rows before it computed.
proof fn lemma_row_failed(
    op: ArithOp,
    pairs: Cells<(i32, i32)>,
    flags: Seq<bool>,
    index: int,
    selected: u64,
    taken: int,
    word_error: spec_fn(int, u64) -> Error,
    error: Error,
    old_values: Seq<Option<i32>>,
    before: Seq<Option<i32>>,
    values: Seq<Option<i32>>,
    present: u64,
)
    requires
        0 <= index < words_for(flags.len() as int),
        covers(selected, flags, index),
        word_ready(pairs, index, selected),
        computes(op, pairs, flags, 0, 64 * index),
        old_values.len() == flags.len(),
        values_written(op, pairs, flags, 64 * index, old_values, before),
        0 <= taken < word_rows(64 * index, selected).len(),
        word_written(
            op,
            pairs,
            64 * index,
            word_rows(64 * index, selected).take(taken),
            before,
            values,
            present,
        ),
        computed(op, value_at(pairs, word_rows(64 * index, selected)[taken])) matches Err(
            arithmetic,
        ) && error == Error::Arithmetic(arithmetic),
    ensures
        ({
            let stop = word_rows(64 * index, selected)[taken];
            &&& fails_at(op, pairs, flags, word_error, index, selected, stop, error)
            &&& values_written(op, pairs, flags, stop, old_values, values)
        }),
{
    let rows = word_rows(64 * index, selected);
    let done = rows.take(taken);
    let failed = rows[taken];
    lemma_next_row(pairs, flags, index, selected, taken);
    lemma_word_rows_contains(64 * index, selected);
    lemma_rows_members(|row: int| bit(selected, row - 64 * index), 64 * index, 64 * index + 64);
    assert forall|row: int| 64 * index <= row < 64 * index + 64 && row < flags.len() implies (
    #[trigger] done.contains(row)) == (row < failed && flags[row]) by {
        let i = row - 64 * index;
        assert(bit(selected, i) == (64 * index + i < flags.len() && flags[64 * index + i]));
        assert(rows.contains(64 * index + i) <==> bit(selected, i));
        if done.contains(row) {
            let k = choose|k: int| 0 <= k < done.len() && done[k] == row;
            assert(rows[k] == row);
        }
        if row < failed && flags[row] {
            let k = choose|k: int| 0 <= k < rows.len() && rows[k] == row;
            assert(k < taken);
            assert(done[k] == row);
        }
    }
    assert forall|row: int|
        64 * index <= row < failed && 0 <= row < flags.len() && #[trigger] flags[row] implies ready(
        pairs,
        row,
    ) && computed(op, value_at(pairs, row)) is Ok by {
        assert(done.contains(row));
        let k = choose|k: int| 0 <= k < done.len() && done[k] == row;
        assert(computed(op, value_at(pairs, done[k])) is Ok);
        lemma_next_row(pairs, flags, index, selected, k);
    }
    assert forall|row: int| 0 <= row < flags.len() implies #[trigger] values[row] == if row < failed
        && flags[row] {
        Some(computed(op, value_at(pairs, row))->Ok_0)
    } else {
        old_values[row]
    } by {
        assert(before[row] == if row < 64 * index && flags[row] {
            Some(computed(op, value_at(pairs, row))->Ok_0)
        } else {
            old_values[row]
        });
        if done.contains(row) {
            let k = choose|k: int| 0 <= k < done.len() && done[k] == row;
            lemma_next_row(pairs, flags, index, selected, k);
            assert(done.contains(row) == (row < failed && flags[row]));
        }
    }
}

/// A computation that failed has a selected row that does not compute, by the
/// end of the word where it failed.
proof fn lemma_failed(
    op: ArithOp,
    pairs: Cells<(i32, i32)>,
    flags: Seq<bool>,
    word_error: spec_fn(int, u64) -> Error,
    index: int,
    selected: u64,
    stop: int,
    error: Error,
)
    requires
        pairs.len() == flags.len(),
        fails_at(op, pairs, flags, word_error, index, selected, stop, error),
    ensures
        !computes(op, pairs, flags, 0, 64 * index + 64),
        !computes(op, pairs, flags, 0, flags.len() as int),
{
    lemma_word_ready(pairs, flags, index, selected);
    if computes(op, pairs, flags, 0, 64 * index + 64) || computes(
        op,
        pairs,
        flags,
        0,
        flags.len() as int,
    ) {
        assert(ready_before(pairs, flags, word_start(flags.len() as int, index + 1)));
    }
}

/// Computations that fail only where the outcome says fail exactly when some
/// selected row does not compute.
proof fn lemma_outcome(
    op: ArithOp,
    pairs: Cells<(i32, i32)>,
    flags: Seq<bool>,
    word_error: spec_fn(int, u64) -> Error,
    old_values: Seq<Option<i32>>,
    values: Seq<Option<i32>>,
    old_non_nulls: Seq<bool>,
    non_nulls: Seq<bool>,
    result: Result<(), Error>,
)
    requires
        pairs.len() == flags.len(),
        arith_outcome(
            op,
            pairs,
            flags,
            word_error,
            old_values,
            values,
            old_non_nulls,
            non_nulls,
            result,
        ),
    ensures
        result is Ok <==> computes(op, pairs, flags, 0, flags.len() as int),
{
    if let Err(error) = result {
        let (index, selected, stop) = choose|index: int, selected: u64, stop: int| #[trigger]
            fails_at(op, pairs, flags, word_error, index, selected, stop, error);
        lemma_failed(op, pairs, flags, word_error, index, selected, stop, error);
    }
}

/// The results of the selected rows of a computation that succeeds.
proof fn lemma_results(
    op: ArithOp,
    pairs: Cells<(i32, i32)>,
    flags: Seq<bool>,
    old_values: Seq<Option<i32>>,
    values: Seq<Option<i32>>,
    old_non_nulls: Seq<bool>,
    non_nulls: Seq<bool>,
)
    requires
        computes(op, pairs, flags, 0, flags.len() as int),
        written(
            op,
            pairs,
            flags,
            flags.len() as int,
            old_values,
            values,
            old_non_nulls,
            non_nulls,
        ),
    ensures
        forall|row: int|
            0 <= row < flags.len() && flags[row] ==> (#[trigger] values[row]) is Some && pairs[row]
                is Some && (pairs[row] matches Some(Some((a, b))) ==> non_nulls[row] && op.result(
                a,
                b,
            ) == Ok::<i32, ArithmeticError>(values[row]->0)),
{
    assert forall|row: int| 0 <= row < flags.len() && flags[row] implies (
    #[trigger] values[row]) is Some && pairs[row] is Some && (pairs[row] matches Some(Some((a, b)))
        ==> non_nulls[row] && op.result(a, b) == Ok::<i32, ArithmeticError>(values[row]->0)) by {
        assert(ready(pairs, row) && computed(op, value_at(pairs, row)) is Ok);
        assert(non_nulls[row] == (row < flags.len() && flags[row] && value_at(
            pairs,
            row,
        ) is Some));
    }
}

/// Only the errors of the words that are refused decide an outcome.
proof fn lemma_outcome_errors(
    op: ArithOp,
    pairs: Cells<(i32, i32)>,
    flags: Seq<bool>,
    first: spec_fn(int, u64) -> Error,
    second: spec_fn(int, u64) -> Error,
    old_values: Seq<Option<i32>>,
    values: Seq<Option<i32>>,
    old_non_nulls: Seq<bool>,
    non_nulls: Seq<bool>,
    result: Result<(), Error>,
)
    requires
        forall|index: int, selected: u64|
            0 <= index < words_for(flags.len() as int) && #[trigger] covers(selected, flags, index)
                && !word_ready(pairs, index, selected) ==> first(index, selected) == second(
                index,
                selected,
            ),
        arith_outcome(
            op,
            pairs,
            flags,
            first,
            old_values,
            values,
            old_non_nulls,
            non_nulls,
            result,
        ),
    ensures
        arith_outcome(
            op,
            pairs,
            flags,
            second,
            old_values,
            values,
            old_non_nulls,
            non_nulls,
            result,
        ),
{
    if let Err(error) = result {
        let (index, selected, stop) = choose|index: int, selected: u64, stop: int|
            {
                &&& #[trigger] fails_at(op, pairs, flags, first, index, selected, stop, error)
                &&& values_written(op, pairs, flags, stop, old_values, values)
                &&& flags_written(pairs, flags, 64 * index, old_non_nulls, non_nulls)
            };
        assert(covers(selected, flags, index));
        assert(fails_at(op, pairs, flags, second, index, selected, stop, error));
    }
}

/// The error of two columns read together: that of the left one first.
pub open spec fn columns_error<L: ColumnReader<Value = i32>, R: ColumnReader<Value = i32>>(
    left: &L,
    right: &R,
    index: int,
    selected: u64,
) -> Error {
    if word_ready(left.cells(), index, selected) {
        right.word_error(index, selected)
    } else {
        left.word_error(index, selected)
    }
}

/// The operands of two columns are prepared when both rows are.
proof fn lemma_columns_ready(left: Cells<i32>, right: Cells<i32>, index: int, selected: u64)
    requires
        left.len() == right.len(),
    ensures
        word_ready(pairs_of(left, right), index, selected) == (word_ready(left, index, selected)
            && word_ready(right, index, selected)),
{
    let pairs = pairs_of(left, right);
    if word_ready(left, index, selected) && word_ready(right, index, selected) {
        assert forall|i: int| #[trigger] bit(selected, i) implies ready(pairs, 64 * index + i) by {
            assert(ready(left, 64 * index + i));
            assert(ready(right, 64 * index + i));
        }
    }
    if word_ready(pairs, index, selected) {
        assert forall|i: int| #[trigger] bit(selected, i) implies ready(left, 64 * index + i)
            && ready(right, 64 * index + i) by {
            assert(ready(pairs, 64 * index + i));
        }
    }
}

/// The operands of a column and a scalar are prepared when the column's rows
/// are, on either side of it.
proof fn lemma_scalar_ready(cells: Cells<i32>, constant: &ConstantColumn, flags: Seq<bool>)
    requires
        cells.len() == flags.len(),
        constant.nrows == flags.len(),
    ensures
        forall|index: int, selected: u64|
            0 <= index < words_for(flags.len() as int) && #[trigger] covers(selected, flags, index)
                ==> {
                &&& word_ready(constant.cells(), index, selected)
                &&& word_ready(pairs_right(cells, constant.value), index, selected) == word_ready(
                    cells,
                    index,
                    selected,
                )
                &&& word_ready(pairs_left(constant.value, cells), index, selected) == word_ready(
                    cells,
                    index,
                    selected,
                )
            },
{
    assert(pairs_of(cells, constant.cells()) =~= pairs_right(cells, constant.value));
    assert(pairs_of(constant.cells(), cells) =~= pairs_left(constant.value, cells));
    assert forall|index: int, selected: u64|
        0 <= index < words_for(flags.len() as int) && #[trigger] covers(
            selected,
            flags,
            index,
        ) implies word_ready(constant.cells(), index, selected) && word_ready(
        pairs_right(cells, constant.value),
        index,
        selected,
    ) == word_ready(cells, index, selected) && word_ready(
        pairs_left(constant.value, cells),
        index,
        selected,
    ) == word_ready(cells, index, selected) by {
        lemma_columns_ready(cells, constant.cells(), index, selected);
        lemma_columns_ready(constant.cells(), cells, index, selected);
    }
}

/// Compute two columns row by row, a scalar as a column that holds it in every
/// row. For one selection word their iterators yield the same rows in the same
/// order.
fn evaluate<L: ColumnReader<Value = i32>, R: ColumnReader<Value = i32>>(
    op: ArithOp,
    left: &L,
    right: &R,
    rows: &RowMaskView<'_>,
    values: &mut [Option<i32>],
    non_nulls: &mut RowMask<'_>,
    Ghost(pairs): Ghost<Cells<(i32, i32)>>,
) -> (result: Result<(), Error>)
    requires
        left.cells().len() == rows@.len(),
        right.cells().len() == rows@.len(),
        old(values)@.len() == rows@.len(),
        old(non_nulls)@.len() == rows@.len(),
        pairs == pairs_of(left.cells(), right.cells()),
    ensures
        arith_outcome(
            op,
            pairs,
            rows@,
            |index: int, selected: u64| columns_error(left, right, index, selected),
            old(values)@,
            final(values)@,
            old(non_nulls)@,
            final(non_nulls)@,
            result,
        ),
        final(values)@.len() == old(values)@.len(),
        final(non_nulls).rows() == old(non_nulls).rows(),
        valid_words(final(non_nulls).rows(), final(non_nulls).words()),
        final(final(non_nulls).borrowed())@ == final(old(non_nulls).borrowed())@,
{
    let ghost cells = left.cells();
    let ghost others = right.cells();
    let ghost flags = rows@;
    let ghost word_error = |index: int, selected: u64|
        columns_error(left, right, index, selected);
    let count = word_count(non_nulls.as_view().nrows());
    let mut index: usize = 0;
    while index < count
        invariant
            index <= count,
            count == words_for(flags.len() as int),
            cells == left.cells(),
            others == right.cells(),
            others.len() == flags.len(),
            flags == rows@,
            cells.len() == flags.len(),
            pairs.len() == flags.len(),
            flags.len() <= usize::MAX,
            pairs == pairs_of(cells, others),
            word_error == (|index: int, selected: u64|
                columns_error(left, right, index, selected)),
            old(values)@.len() == flags.len(),
            values@.len() == flags.len(),
            old(non_nulls)@.len() == flags.len(),
            non_nulls@.len() == flags.len(),
            computes(op, pairs, flags, 0, 64 * index),
            written(
                op,
                pairs,
                flags,
                64 * index,
                old(values)@,
                values@,
                old(non_nulls)@,
                non_nulls@,
            ),
            non_nulls.rows() == old(non_nulls).rows(),
            valid_words(non_nulls.rows(), non_nulls.words()),
            final(non_nulls.borrowed())@ == final(old(non_nulls).borrowed())@,
        decreases count - index,
    {
        let selected = rows.word(index).unwrap();
        let ghost base = 64 * index as int;
        let ghost inner = word_rows(base, selected);
        let ghost before = values@;
        let ghost mask_before = non_nulls@;
        let ghost mut taken: int = 0;
        let mut present: u64 = 0;
        proof {
            lemma_columns_ready(cells, others, index as int, selected);
            lemma_word_rows_contains(base, selected);
            lemma_word_ready(pairs, flags, index as int, selected);
            assert forall|i: int| !(#[trigger] bit(0, i)) by {
                lemma_bit_constants(i);
            }
            assert(inner.take(0) =~= Seq::<int>::empty());
            assert(inner.skip(0) =~= inner);
        }
        if selected != 0 {
            let mut lefts = match left.word_values(index, selected) {
                Ok(words) => words,
                Err(error) => {
                    proof {
                        lemma_word_refused(
                            op,
                            pairs,
                            flags,
                            index as int,
                            selected,
                            word_error,
                            error,
                        );
                    }
                    return Err(error);
                },
            };
            let mut rights = match right.word_values(index, selected) {
                Ok(words) => words,
                Err(error) => {
                    proof {
                        lemma_word_refused(
                            op,
                            pairs,
                            flags,
                            index as int,
                            selected,
                            word_error,
                            error,
                        );
                    }
                    return Err(error);
                },
            };
            loop
                invariant
                    0 <= index < words_for(flags.len() as int),
                    covers(selected, flags, index as int),
                    base == 64 * index,
                    cells == left.cells(),
                    others == right.cells(),
                    others.len() == flags.len(),
                    flags == rows@,
                    cells.len() == flags.len(),
                    pairs.len() == flags.len(),
                    flags.len() <= usize::MAX,
                    pairs == pairs_of(cells, others),
                    word_error == (|index: int, selected: u64|
                columns_error(left, right, index, selected)),
                    word_ready(pairs, index as int, selected),
                    computes(op, pairs, flags, 0, base),
                    inner == word_rows(base, selected),
                    0 <= taken <= inner.len(),
                    lefts.obeys_prophetic_iter_laws(),
                    lefts.decrease() is Some,
                    lefts.remaining() == items(cells, inner.skip(taken)),
                    rights.obeys_prophetic_iter_laws(),
                    rights.remaining() == items(others, inner.skip(taken)),
                    values@.len() == flags.len(),
                    old(values)@.len() == flags.len(),
                    word_written(op, pairs, base, inner.take(taken), before, values@, present),
                    values_written(op, pairs, flags, base, old(values)@, before),
                    flags_written(pairs, flags, base, old(non_nulls)@, non_nulls@),
                    non_nulls.rows() == old(non_nulls).rows(),
                    valid_words(non_nulls.rows(), non_nulls.words()),
                    final(non_nulls.borrowed())@ == final(old(non_nulls).borrowed())@,
                ensures
                    taken == inner.len(),
                decreases lefts.decrease()->0,
            {
                match (lefts.next(), rights.next()) {
                    (Some((row, a)), Some((_, b))) => {
                        proof {
                            lemma_next_row(pairs, flags, index as int, selected, taken);
                            assert(inner.skip(taken)[0] == inner[taken]);
                            assert(inner.skip(taken).drop_first() =~= inner.skip(taken + 1));
                            assert(items(cells, inner.skip(taken)).drop_first() =~= items(
                                cells,
                                inner.skip(taken + 1),
                            ));
                            assert(items(others, inner.skip(taken)).drop_first() =~= items(
                                others,
                                inner.skip(taken + 1),
                            ));
                            assert(inner.take(taken + 1) =~= inner.take(taken).push(row as int));
                        }
                        let pair = match (a, b) {
                            (Some(a), Some(b)) => Some((a, b)),
                            _ => None,
                        };
                        match write_row(
                            op,
                            row,
                            pair,
                            values,
                            present,
                            Ghost(pairs),
                            Ghost(base),
                            Ghost(inner.take(taken)),
                            Ghost(before),
                        ) {
                            Ok(next) => {
                                present = next;
                            },
                            Err(error) => {
                                proof {
                                    lemma_row_failed(
                                        op,
                                        pairs,
                                        flags,
                                        index as int,
                                        selected,
                                        taken,
                                        word_error,
                                        error,
                                        old(values)@,
                                        before,
                                        values@,
                                        present,
                                    );
                                }
                                return Err(error);
                            },
                        }
                        proof {
                            taken = taken + 1;
                        }
                    },
                    _ => {
                        break;
                    },
                }
            }
        }
        proof {
            if selected == 0 {
                crate::bits::lemma_word_rows_empty(base);
            }
            assert(inner.take(taken) =~= inner);
            lemma_present_within(
                op,
                pairs,
                flags,
                index as int,
                selected,
                before,
                values@,
                present,
            );
        }
        let _ = non_nulls.set_word(index, present);
        proof {
            lemma_word_written(
                op,
                pairs,
                flags,
                index as int,
                selected,
                present,
                old(values)@,
                before,
                values@,
                old(non_nulls)@,
                mask_before,
                non_nulls@,
            );
        }
        index = index + 1;
    }
    Ok(())
}

/// Compute `column op scalar` for the selected rows into `values` and
/// `non_nulls`.
///
/// `values` and `non_nulls` have the batch's row count, and so must the column.
///
/// Dimension errors fail before any mutation. A reader error (including an
/// unprepared selected row) and an arithmetic error fail the call with the
/// result written up to the row, or the word, that failed.
pub fn arith_scalar<C: ColumnReader<Value = i32>>(
    op: ArithOp,
    column: &C,
    scalar: i32,
    rows: &RowMaskView<'_>,
    values: &mut [Option<i32>],
    non_nulls: &mut RowMask<'_>,
) -> (result: Result<(), Error>)
    ensures
        final(values)@.len() == old(values)@.len(),
        final(non_nulls).rows() == old(non_nulls).rows(),
        valid_words(final(non_nulls).rows(), final(non_nulls).words()),
        final(final(non_nulls).borrowed())@ == final(old(non_nulls).borrowed())@,
        arith_call(
            op,
            pairs_right(column.cells(), scalar),
            column.cells().len() == rows@.len(),
            rows@,
            |index: int, selected: u64| column.word_error(index, selected),
            old(values)@,
            final(values)@,
            *old(non_nulls),
            *final(non_nulls),
            result,
        ),
        result is Ok ==> forall|row: int|
            0 <= row < rows@.len() && rows@[row] ==> (#[trigger] final(values)@[row]) is Some
                && (column.cells()[row] matches Some(Some(a)) ==> final(non_nulls)@[row] && op.result(
                a,
                scalar,
            ) == Ok::<i32, ArithmeticError>(final(values)@[row]->0)),
{
    let column_rows = [column.nrows()];
    if let Err(error) = validate_output(rows, values, non_nulls, column_rows.as_slice()) {
        return Err(error);
    }
    let constant = ConstantColumn { value: scalar, nrows: rows.nrows() };
    proof {
        assert(pairs_of(column.cells(), constant.cells()) =~= pairs_right(column.cells(), scalar));
        lemma_scalar_ready(column.cells(), &constant, rows@);
    }
    let result = evaluate(
        op,
        column,
        &constant,
        rows,
        values,
        non_nulls,
        Ghost(pairs_right(column.cells(), scalar)),
    );
    proof {
        lemma_outcome_errors(
            op,
            pairs_right(column.cells(), scalar),
            rows@,
            |index: int, selected: u64| columns_error(column, &constant, index, selected),
            |index: int, selected: u64| column.word_error(index, selected),
            old(values)@,
            values@,
            old(non_nulls)@,
            non_nulls@,
            result,
        );
        lemma_outcome(
            op,
            pairs_right(column.cells(), scalar),
            rows@,
            |index: int, selected: u64| column.word_error(index, selected),
            old(values)@,
            values@,
            old(non_nulls)@,
            non_nulls@,
            result,
        );
        if result is Ok {
            lemma_results(
                op,
                pairs_right(column.cells(), scalar),
                rows@,
                old(values)@,
                values@,
                old(non_nulls)@,
                non_nulls@,
            );
        }
    }
    result
}

/// Compute `scalar op column`, for the operations where the order matters.
///
/// Errors are those of `arith_scalar`.
pub fn arith_scalar_left<C: ColumnReader<Value = i32>>(
    op: ArithOp,
    scalar: i32,
    column: &C,
    rows: &RowMaskView<'_>,
    values: &mut [Option<i32>],
    non_nulls: &mut RowMask<'_>,
) -> (result: Result<(), Error>)
    ensures
        final(values)@.len() == old(values)@.len(),
        final(non_nulls).rows() == old(non_nulls).rows(),
        valid_words(final(non_nulls).rows(), final(non_nulls).words()),
        final(final(non_nulls).borrowed())@ == final(old(non_nulls).borrowed())@,
        arith_call(
            op,
            pairs_left(scalar, column.cells()),
            column.cells().len() == rows@.len(),
            rows@,
            |index: int, selected: u64| column.word_error(index, selected),
            old(values)@,
            final(values)@,
            *old(non_nulls),
            *final(non_nulls),
            result,
        ),
        result is Ok ==> forall|row: int|
            0 <= row < rows@.len() && rows@[row] ==> (#[trigger] final(values)@[row]) is Some
                && (column.cells()[row] matches Some(Some(b)) ==> final(non_nulls)@[row] && op.result(
                scalar,
                b,
            ) == Ok::<i32, ArithmeticError>(final(values)@[row]->0)),
{
    let column_rows = [column.nrows()];
    if let Err(error) = validate_output(rows, values, non_nulls, column_rows.as_slice()) {
        return Err(error);
    }
    let constant = ConstantColumn { value: scalar, nrows: rows.nrows() };
    proof {
        assert(pairs_of(constant.cells(), column.cells()) =~= pairs_left(scalar, column.cells()));
        lemma_scalar_ready(column.cells(), &constant, rows@);
    }
    let result = evaluate(
        op,
        &constant,
        column,
        rows,
        values,
        non_nulls,
        Ghost(pairs_left(scalar, column.cells())),
    );
    proof {
        lemma_outcome_errors(
            op,
            pairs_left(scalar, column.cells()),
            rows@,
            |index: int, selected: u64| columns_error(&constant, column, index, selected),
            |index: int, selected: u64| column.word_error(index, selected),
            old(values)@,
            values@,
            old(non_nulls)@,
            non_nulls@,
            result,
        );
        lemma_outcome(
            op,
            pairs_left(scalar, column.cells()),
            rows@,
            |index: int, selected: u64| column.word_error(index, selected),
            old(values)@,
            values@,
            old(non_nulls)@,
            non_nulls@,
            result,
        );
        if result is Ok {
            lemma_results(
                op,
                pairs_left(scalar, column.cells()),
                rows@,
                old(values)@,
                values@,
                old(non_nulls)@,
                non_nulls@,
            );
        }
    }
    result
}

/// Compute `left op right` row by row for two columns of the batch; a NULL on
/// either side makes a NULL.
///
/// Errors are those of `arith_scalar`; both columns must have the batch's row
/// count.
pub fn arith_columns<L: ColumnReader<Value = i32>, R: ColumnReader<Value = i32>>(
    op: ArithOp,
    left: &L,
    right: &R,
    rows: &RowMaskView<'_>,
    values: &mut [Option<i32>],
    non_nulls: &mut RowMask<'_>,
) -> (result: Result<(), Error>)
    ensures
        final(values)@.len() == old(values)@.len(),
        final(non_nulls).rows() == old(non_nulls).rows(),
        valid_words(final(non_nulls).rows(), final(non_nulls).words()),
        final(final(non_nulls).borrowed())@ == final(old(non_nulls).borrowed())@,
        arith_call(
            op,
            pairs_of(left.cells(), right.cells()),
            left.cells().len() == rows@.len() && right.cells().len() == rows@.len(),
            rows@,
            |index: int, selected: u64| columns_error(left, right, index, selected),
            old(values)@,
            final(values)@,
            *old(non_nulls),
            *final(non_nulls),
            result,
        ),
        result is Ok ==> forall|row: int|
            0 <= row < rows@.len() && rows@[row] ==> (#[trigger] final(values)@[row]) is Some
                && (left.cells()[row] matches Some(Some(a)) ==> right.cells()[row] matches Some(Some(b))
                ==> final(non_nulls)@[row] && op.result(a, b) == Ok::<i32, ArithmeticError>(
                final(values)@[row]->0,
            )),
{
    let column_rows = [left.nrows(), right.nrows()];
    if let Err(error) = validate_output(rows, values, non_nulls, column_rows.as_slice()) {
        return Err(error);
    }
    let result = evaluate(
        op,
        left,
        right,
        rows,
        values,
        non_nulls,
        Ghost(pairs_of(left.cells(), right.cells())),
    );
    proof {
        lemma_outcome(
            op,
            pairs_of(left.cells(), right.cells()),
            rows@,
            |index: int, selected: u64| columns_error(left, right, index, selected),
            old(values)@,
            values@,
            old(non_nulls)@,
            non_nulls@,
            result,
        );
        if result is Ok {
            lemma_results(
                op,
                pairs_of(left.cells(), right.cells()),
                rows@,
                old(values)@,
                values@,
                old(non_nulls)@,
                non_nulls@,
            );
        }
    }
    result
}

/// The column that a computation leaves: the selected rows are prepared and
/// hold their results, NULL where an operand is.
pub open spec fn result_cells(
    op: ArithOp,
    pairs: Cells<(i32, i32)>,
    flags: Seq<bool>,
) -> Cells<i32> {
    Seq::new(
        flags.len(),
        |row: int|
            if !flags[row] {
                None
            } else {
                Some(
                    match value_at(pairs, row) {
                        Some((a, b)) => Some(op.result(a, b)->Ok_0),
                        None => None,
                    },
                )
            },
    )
}

/// The result reads as a dense column with the selection as its readiness.
pub proof fn lemma_result_reads_back(
    op: ArithOp,
    pairs: Cells<(i32, i32)>,
    rows: RowMaskView<'_>,
    old_values: Seq<Option<i32>>,
    values: Seq<Option<i32>>,
    old_non_nulls: Seq<bool>,
    non_nulls: RowMaskView<'_>,
)
    requires
        old_values.len() == rows@.len(),
        old_non_nulls.len() == rows@.len(),
        written(
            op,
            pairs,
            rows@,
            rows@.len() as int,
            old_values,
            values,
            old_non_nulls,
            non_nulls@,
        ),
    ensures
        initialized(values, Some(rows)),
        mask_fits(values.len() as int, Some(rows)),
        mask_fits(values.len() as int, Some(non_nulls)),
        dense_cells(values, Some(non_nulls), Some(rows)) == result_cells(op, pairs, rows@),
{
    let cells = dense_cells(values, Some(non_nulls), Some(rows));
    assert forall|row: int| 0 <= row < values.len() implies #[trigger] cells[row] == result_cells(
        op,
        pairs,
        rows@,
    )[row] by {
        assert(non_nulls@[row] == (rows@[row] && value_at(pairs, row) is Some));
        assert(rows@[row] ==> values[row] == Some(computed(op, value_at(pairs, row))->Ok_0));
    }
    assert(cells =~= result_cells(op, pairs, rows@));
}

/// Division by a divisor of magnitude at least two never fails, so that a
/// prepared divisor computes what the operations do.
pub proof fn lemma_prepared_division(n: i32, divisor: Divisor)
    requires
        divisor.wf(),
    ensures
        ArithOp::Div.result(n, divisor.value) == Ok::<i32, ArithmeticError>(
            truncated_quotient(n as int, divisor.value as int) as i32,
        ),
        ArithOp::Mod.result(n, divisor.value) == Ok::<i32, ArithmeticError>(
            truncated_remainder(n as int, divisor.value as int) as i32,
        ),
{
    let p = magnitude(n as int);
    let size = magnitude(divisor.value as int);
    lemma_halved(p, size);
    lemma_remainder(n as int, divisor.value as int);
}

/// The order of the operands does not matter to additions and multiplications:
/// a scalar computes the same on either side of a column.
pub proof fn lemma_either_side(op: ArithOp, cells: Cells<i32>, scalar: i32, flags: Seq<bool>)
    requires
        op == ArithOp::Add || op == ArithOp::Mul,
        cells.len() == flags.len(),
    ensures
        forall|a: i32, b: i32| #[trigger] op.result(a, b) == op.result(b, a),
        computes(op, pairs_left(scalar, cells), flags, 0, flags.len() as int) == computes(
            op,
            pairs_right(cells, scalar),
            flags,
            0,
            flags.len() as int,
        ),
        result_cells(op, pairs_left(scalar, cells), flags) == result_cells(
            op,
            pairs_right(cells, scalar),
            flags,
        ),
{
    let left = pairs_left(scalar, cells);
    let right = pairs_right(cells, scalar);
    assert forall|a: i32, b: i32| #[trigger] op.result(a, b) == op.result(b, a) by {
        assert(a * b == b * a) by (nonlinear_arith);
    }
    assert forall|row: int| 0 <= row < flags.len() && ready(left, row) implies computed(
        op,
        #[trigger] value_at(left, row),
    ) == computed(op, value_at(right, row)) && result_cells(op, left, flags)[row] == result_cells(
        op,
        right,
        flags,
    )[row] by {
        if let Some(Some(value)) = cells[row] {
            assert(op.result(scalar, value) == op.result(value, scalar));
        }
    }
    assert(result_cells(op, left, flags) =~= result_cells(op, right, flags));
}

/// A nonzero divisor always leaves a remainder, smaller than itself and with
/// the dividend's sign, zero for `-1`; the quotient fails for `i32::MIN / -1`
/// alone, and else makes up the dividend with the remainder.
pub proof fn lemma_division(a: i32, b: i32)
    requires
        b != 0,
    ensures
        ({
            let quotient = ArithOp::Div.result(a, b);
            let remainder = ArithOp::Mod.result(a, b);
            &&& remainder matches Ok(r) && magnitude(r as int) < magnitude(b as int) && (r < 0 ==> a
                < 0) && (r > 0 ==> a > 0)
            &&& b == -1 ==> remainder == Ok::<i32, ArithmeticError>(0)
            &&& quotient is Err <==> a == i32::MIN && b == -1
            &&& quotient matches Ok(q) ==> q * b + remainder->Ok_0 == a
        }),
{
    let p = magnitude(a as int);
    let size = magnitude(b as int);
    lemma_remainder(a as int, b as int);
    if size >= 2 {
        lemma_halved(p, size);
    } else {
        assert(p / 1 == p);
    }
}

/// The operands of the rows decide a computation: the same operands give the
/// same result, and on failure the same error and the same partial result.
pub proof fn lemma_arith_determined(
    op: ArithOp,
    pairs: Cells<(i32, i32)>,
    flags: Seq<bool>,
    word_error: spec_fn(int, u64) -> Error,
    old_values: Seq<Option<i32>>,
    values: (Seq<Option<i32>>, Seq<Option<i32>>),
    old_non_nulls: Seq<bool>,
    non_nulls: (Seq<bool>, Seq<bool>),
    first: Result<(), Error>,
    second: Result<(), Error>,
)
    requires
        pairs.len() == flags.len(),
        old_values.len() == flags.len(),
        old_non_nulls.len() == flags.len(),
        arith_outcome(
            op,
            pairs,
            flags,
            word_error,
            old_values,
            values.0,
            old_non_nulls,
            non_nulls.0,
            first,
        ),
        arith_outcome(
            op,
            pairs,
            flags,
            word_error,
            old_values,
            values.1,
            old_non_nulls,
            non_nulls.1,
            second,
        ),
    ensures
        first is Ok <==> second is Ok,
        first is Err ==> first->Err_0 == second->Err_0,
        values.0 == values.1,
        non_nulls.0 == non_nulls.1,
{
    lemma_outcome(
        op,
        pairs,
        flags,
        word_error,
        old_values,
        values.0,
        old_non_nulls,
        non_nulls.0,
        first,
    );
    lemma_outcome(
        op,
        pairs,
        flags,
        word_error,
        old_values,
        values.1,
        old_non_nulls,
        non_nulls.1,
        second,
    );
    if first is Err {
        let (a, b) = (first->Err_0, second->Err_0);
        let (i, v, k) = choose|index: int, selected: u64, stop: int|
            {
                &&& #[trigger] fails_at(op, pairs, flags, word_error, index, selected, stop, a)
                &&& values_written(op, pairs, flags, stop, old_values, values.0)
                &&& flags_written(pairs, flags, 64 * index, old_non_nulls, non_nulls.0)
            };
        let (j, w, l) = choose|index: int, selected: u64, stop: int|
            {
                &&& #[trigger] fails_at(op, pairs, flags, word_error, index, selected, stop, b)
                &&& values_written(op, pairs, flags, stop, old_values, values.1)
                &&& flags_written(pairs, flags, 64 * index, old_non_nulls, non_nulls.1)
            };
        lemma_failed(op, pairs, flags, word_error, i, v, k, a);
        lemma_failed(op, pairs, flags, word_error, j, w, l, b);
        assert(i == j);
        lemma_word_determined(flags, i, v, w);
        assert(k == l);
    }
    assert(values.0 =~= values.1);
    assert(non_nulls.0 =~= non_nulls.1);
}

/// What the operations compute, in the integers: sums, differences and products
/// are exact, a quotient is truncated toward zero, and a remainder is what that
/// leaves. They fail on a zero divisor, and else where the exact result is no
/// int4.
pub proof fn lemma_operation(op: ArithOp, a: i32, b: i32)
    ensures
        op.result(a, b) is Ok <==> match op {
            ArithOp::Add => i32::MIN <= a + b <= i32::MAX,
            ArithOp::Sub => i32::MIN <= a - b <= i32::MAX,
            ArithOp::Mul => i32::MIN <= a * b <= i32::MAX,
            ArithOp::Div => b != 0 && !(a == i32::MIN && b == -1),
            ArithOp::Mod => b != 0,
        },
        op.result(a, b) matches Ok(v) ==> match op {
            ArithOp::Add => v == a + b,
            ArithOp::Sub => v == a - b,
            ArithOp::Mul => v == a * b,
            ArithOp::Div => {
                &&& b != 0
                &&& b > 0 ==> -b < a - v * b < b
                &&& b < 0 ==> b < a - v * b < -b
                &&& a - v * b > 0 ==> a > 0
                &&& a - v * b < 0 ==> a < 0
            },
            ArithOp::Mod => {
                &&& b != 0
                &&& b > 0 ==> -b < v < b
                &&& b < 0 ==> b < v < -b
                &&& v > 0 ==> a > 0
                &&& v < 0 ==> a < 0
                &&& exists|q: int| #[trigger] (q * b) == a - v
            },
            },
        op.result(a, b) matches Err(error) ==> (error == ArithmeticError::DivisionByZero <==> b == 0
            && (op == ArithOp::Div || op == ArithOp::Mod)),
{
    if b != 0 {
        lemma_division(a, b);
        lemma_truncated(a as int, b as int);
        let q = truncated_quotient(a as int, b as int);
        assert(q * b == a - truncated_remainder(a as int, b as int));
        lemma_remainder(a as int, b as int);
    }
}

/// The operands of a row: the cell of the left column first and that of the
/// right one second, a scalar in the place of its column; prepared where both
/// are, and NULL where either is.
pub proof fn lemma_operands(left: Cells<i32>, right: Cells<i32>, scalar: i32, row: int)
    requires
        0 <= row < left.len(),
        left.len() == right.len(),
    ensures
        pairs_of(left, right).len() == left.len(),
        pairs_right(left, scalar).len() == left.len(),
        pairs_left(scalar, left).len() == left.len(),
        left[row] is None || right[row] is None <==> pairs_of(left, right)[row] is None,
        left[row] is None <==> pairs_right(left, scalar)[row] is None,
        left[row] is None <==> pairs_left(scalar, left)[row] is None,
        left[row] matches Some(x) && right[row] matches Some(y) && (x is None || y is None)
            ==> pairs_of(left, right)[row] == Some(None::<(i32, i32)>),
        left[row] == Some(None::<i32>) ==> pairs_right(left, scalar)[row] == Some(
            None::<(i32, i32)>,
        ) && pairs_left(scalar, left)[row] == Some(None::<(i32, i32)>),
        left[row] matches Some(Some(a)) ==> right[row] matches Some(Some(b)) ==> pairs_of(
            left,
            right,
        )[row] == Some(Some((a, b))),
        left[row] matches Some(Some(a)) ==> pairs_right(left, scalar)[row] == Some(
            Some((a, scalar)),
        ) && pairs_left(scalar, left)[row] == Some(Some((scalar, a))),
{
}

/// A computation succeeds exactly when every selected row is prepared and, where
/// its operands are not NULL, its exact result exists and fits.
pub proof fn lemma_succeeds(op: ArithOp, pairs: Cells<(i32, i32)>, flags: Seq<bool>)
    requires
        pairs.len() == flags.len(),
    ensures
        computes(op, pairs, flags, 0, flags.len() as int) <==> forall|row: int|
            0 <= row < flags.len() && #[trigger] flags[row] ==> pairs[row] is Some && (
            pairs[row] matches Some(Some((a, b))) ==> match op {
                ArithOp::Add => i32::MIN <= a + b <= i32::MAX,
                ArithOp::Sub => i32::MIN <= a - b <= i32::MAX,
                ArithOp::Mul => i32::MIN <= a * b <= i32::MAX,
                ArithOp::Div => b != 0 && !(a == i32::MIN && b == -1),
                ArithOp::Mod => b != 0,
            }),
{
    assert forall|row: int| 0 <= row < flags.len() && #[trigger] flags[row] implies (ready(
        pairs,
        row,
    ) && computed(op, value_at(pairs, row)) is Ok) == (pairs[row] is Some && (
    pairs[row] matches Some(Some((a, b))) ==> match op {
                ArithOp::Add => i32::MIN <= a + b <= i32::MAX,
                ArithOp::Sub => i32::MIN <= a - b <= i32::MAX,
                ArithOp::Mul => i32::MIN <= a * b <= i32::MAX,
                ArithOp::Div => b != 0 && !(a == i32::MIN && b == -1),
                ArithOp::Mod => b != 0,
            })) by {
        if let Some(Some((a, b))) = pairs[row] {
            lemma_operation(op, a, b);
        } else {
            lemma_operation(op, 0, 1);
        }
    }
    if computes(op, pairs, flags, 0, flags.len() as int) {
        assert forall|row: int| 0 <= row < flags.len() && #[trigger] flags[row] implies
            pairs[row] is Some && (pairs[row] matches Some(Some((a, b))) ==> match op {
                ArithOp::Add => i32::MIN <= a + b <= i32::MAX,
                ArithOp::Sub => i32::MIN <= a - b <= i32::MAX,
                ArithOp::Mul => i32::MIN <= a * b <= i32::MAX,
                ArithOp::Div => b != 0 && !(a == i32::MIN && b == -1),
                ArithOp::Mod => b != 0,
            }) by {
            assert(ready(pairs, row) && computed(op, value_at(pairs, row)) is Ok);
        }
    }
}

/// What a successful computation of two columns leaves, row by row: `left op right`
/// in the integers where both cells hold one, NULL where either is NULL, and what
/// it held in a row that is not selected.
pub proof fn lemma_columns_rows(
    op: ArithOp,
    left: Cells<i32>,
    right: Cells<i32>,
    flags: Seq<bool>,
    word_error: spec_fn(int, u64) -> Error,
    old_values: Seq<Option<i32>>,
    values: Seq<Option<i32>>,
    old_non_nulls: RowMask<'_>,
    non_nulls: RowMask<'_>,
    row: int,
)
    requires
        left.len() == flags.len(),
        right.len() == flags.len(),
        arith_call(
            op,
            pairs_of(left, right),
            true,
            flags,
            word_error,
            old_values,
            values,
            old_non_nulls,
            non_nulls,
            Ok(()),
        ),
        0 <= row < flags.len(),
    ensures
        !flags[row] ==> values[row] == old_values[row] && !non_nulls@[row],
        flags[row] ==> values[row] is Some,
        flags[row] ==> left[row] is Some && right[row] is Some,
        flags[row] && (left[row] == Some(None::<i32>) || right[row] == Some(None::<i32>))
            ==> !non_nulls@[row],
        flags[row] ==> (left[row] matches Some(Some(a)) ==> right[row] matches Some(Some(b)) ==> {
            let v = values[row]->0;
            &&& non_nulls@[row]
            &&& match op {
                ArithOp::Add => v == a + b,
                ArithOp::Sub => v == a - b,
                ArithOp::Mul => v == a * b,
                ArithOp::Div => {
                    &&& b != 0
                    &&& b > 0 ==> -b < a - v * b < b
                    &&& b < 0 ==> b < a - v * b < -b
                    &&& a - v * b > 0 ==> a > 0
                    &&& a - v * b < 0 ==> a < 0
                },
                ArithOp::Mod => {
                    &&& b != 0
                    &&& b > 0 ==> -b < v < b
                    &&& b < 0 ==> b < v < -b
                    &&& v > 0 ==> a > 0
                    &&& v < 0 ==> a < 0
                    &&& exists|q: int| #[trigger] (q * b) == a - v
                },
            }
        }),
{
    let pairs = pairs_of(left, right);
    assert(values[row] == if row < flags.len() && flags[row] {
        Some(computed(op, value_at(pairs, row))->Ok_0)
    } else {
        old_values[row]
    });
    assert(non_nulls@[row] == (row < flags.len() && flags[row] && value_at(pairs, row) is Some));
    if flags[row] {
        assert(ready(pairs, row));
        if let Some(Some((a, b))) = pairs[row] {
            lemma_operation(op, a, b);
        }
    }
}

/// What a successful computation of a column with a scalar on its right leaves,
/// row by row, in the integers.
pub proof fn lemma_scalar_rows(
    op: ArithOp,
    cells: Cells<i32>,
    scalar: i32,
    flags: Seq<bool>,
    word_error: spec_fn(int, u64) -> Error,
    old_values: Seq<Option<i32>>,
    values: Seq<Option<i32>>,
    old_non_nulls: RowMask<'_>,
    non_nulls: RowMask<'_>,
    row: int,
)
    requires
        cells.len() == flags.len(),
        arith_call(
            op,
            pairs_right(cells, scalar),
            true,
            flags,
            word_error,
            old_values,
            values,
            old_non_nulls,
            non_nulls,
            Ok(()),
        ),
        0 <= row < flags.len(),
    ensures
        !flags[row] ==> values[row] == old_values[row] && !non_nulls@[row],
        flags[row] ==> values[row] is Some,
        flags[row] ==> cells[row] is Some,
        flags[row] && cells[row] == Some(None::<i32>) ==> !non_nulls@[row],
        flags[row] ==> (cells[row] matches Some(Some(value)) ==> {
            let (a, b) = (value, scalar);
            let v = values[row]->0;
            &&& non_nulls@[row]
            &&& match op {
                ArithOp::Add => v == a + b,
                ArithOp::Sub => v == a - b,
                ArithOp::Mul => v == a * b,
                ArithOp::Div => {
                    &&& b != 0
                    &&& b > 0 ==> -b < a - v * b < b
                    &&& b < 0 ==> b < a - v * b < -b
                    &&& a - v * b > 0 ==> a > 0
                    &&& a - v * b < 0 ==> a < 0
                },
                ArithOp::Mod => {
                    &&& b != 0
                    &&& b > 0 ==> -b < v < b
                    &&& b < 0 ==> b < v < -b
                    &&& v > 0 ==> a > 0
                    &&& v < 0 ==> a < 0
                    &&& exists|q: int| #[trigger] (q * b) == a - v
                },
            }
        }),
{
    let pairs = pairs_right(cells, scalar);
    assert(values[row] == if row < flags.len() && flags[row] {
        Some(computed(op, value_at(pairs, row))->Ok_0)
    } else {
        old_values[row]
    });
    assert(non_nulls@[row] == (row < flags.len() && flags[row] && value_at(pairs, row) is Some));
    if flags[row] {
        assert(ready(pairs, row));
        if let Some(Some((a, b))) = pairs[row] {
            lemma_operation(op, a, b);
        }
    }
}

/// What a successful computation of a column with a scalar on its left leaves, row
/// by row, in the integers.
pub proof fn lemma_scalar_left_rows(
    op: ArithOp,
    cells: Cells<i32>,
    scalar: i32,
    flags: Seq<bool>,
    word_error: spec_fn(int, u64) -> Error,
    old_values: Seq<Option<i32>>,
    values: Seq<Option<i32>>,
    old_non_nulls: RowMask<'_>,
    non_nulls: RowMask<'_>,
    row: int,
)
    requires
        cells.len() == flags.len(),
        arith_call(
            op,
            pairs_left(scalar, cells),
            true,
            flags,
            word_error,
            old_values,
            values,
            old_non_nulls,
            non_nulls,
            Ok(()),
        ),
        0 <= row < flags.len(),
    ensures
        !flags[row] ==> values[row] == old_values[row] && !non_nulls@[row],
        flags[row] ==> values[row] is Some,
        flags[row] ==> cells[row] is Some,
        flags[row] && cells[row] == Some(None::<i32>) ==> !non_nulls@[row],
        flags[row] ==> (cells[row] matches Some(Some(value)) ==> {
            let (a, b) = (scalar, value);
            let v = values[row]->0;
            &&& non_nulls@[row]
            &&& match op {
                ArithOp::Add => v == a + b,
                ArithOp::Sub => v == a - b,
                ArithOp::Mul => v == a * b,
                ArithOp::Div => {
                    &&& b != 0
                    &&& b > 0 ==> -b < a - v * b < b
                    &&& b < 0 ==> b < a - v * b < -b
                    &&& a - v * b > 0 ==> a > 0
                    &&& a - v * b < 0 ==> a < 0
                },
                ArithOp::Mod => {
                    &&& b != 0
                    &&& b > 0 ==> -b < v < b
                    &&& b < 0 ==> b < v < -b
                    &&& v > 0 ==> a > 0
                    &&& v < 0 ==> a < 0
                    &&& exists|q: int| #[trigger] (q * b) == a - v
                },
            }
        }),
{
    let pairs = pairs_left(scalar, cells);
    assert(values[row] == if row < flags.len() && flags[row] {
        Some(computed(op, value_at(pairs, row))->Ok_0)
    } else {
        old_values[row]
    });
    assert(non_nulls@[row] == (row < flags.len() && flags[row] && value_at(pairs, row) is Some));
    if flags[row] {
        assert(ready(pairs, row));
        if let Some(Some((a, b))) = pairs[row] {
            lemma_operation(op, a, b);
        }
    }
}

/// A computation that fails blames a selected row, of a word before which every
/// selected row computed: the row cannot be read, or its operands have no result
/// and the error is theirs. Every row that it changed is selected and holds its
/// result.
pub proof fn lemma_failure_rows(
    op: ArithOp,
    pairs: Cells<(i32, i32)>,
    flags: Seq<bool>,
    word_error: spec_fn(int, u64) -> Error,
    old_values: Seq<Option<i32>>,
    values: Seq<Option<i32>>,
    old_non_nulls: Seq<bool>,
    non_nulls: Seq<bool>,
    error: Error,
)
    requires
        pairs.len() == flags.len(),
        old_values.len() == flags.len(),
        arith_outcome(
            op,
            pairs,
            flags,
            word_error,
            old_values,
            values,
            old_non_nulls,
            non_nulls,
            Err(error),
        ),
    ensures
        exists|row: int|
            {
                &&& 0 <= row < flags.len()
                &&& #[trigger] flags[row]
                &&& computes(op, pairs, flags, 0, 64 * (row / 64))
                &&& match pairs[row] {
                    None => exists|selected: u64|
                        covers(selected, flags, row / 64) && error == #[trigger] word_error(
                            row / 64,
                            selected,
                        ),
                    Some(None) => false,
                    Some(Some((a, b))) => op.result(a, b) matches Err(arithmetic) && error
                        == Error::Arithmetic(arithmetic),
                }
            },
        forall|row: int|
            0 <= row < flags.len() && #[trigger] values[row] != old_values[row] ==> flags[row]
                && pairs[row] is Some && (pairs[row] matches Some(Some((a, b))) ==> op.result(a, b)
                matches Ok(v) && values[row] == Some(v)),
{
    let (index, selected, stop) = choose|index: int, selected: u64, stop: int|
        {
            &&& #[trigger] fails_at(op, pairs, flags, word_error, index, selected, stop, error)
            &&& values_written(op, pairs, flags, stop, old_values, values)
            &&& flags_written(pairs, flags, 64 * index, old_non_nulls, non_nulls)
        };
    assert forall|row: int|
        0 <= row < flags.len() && #[trigger] values[row] != old_values[row] implies flags[row]
        && pairs[row] is Some && (pairs[row] matches Some(Some((a, b))) ==> op.result(a, b)
        matches Ok(v) && values[row] == Some(v)) by {
        assert(row < stop && flags[row]);
        if row < 64 * index {
            assert(ready(pairs, row) && computed(op, value_at(pairs, row)) is Ok);
        } else {
            assert(computes(op, pairs, flags, 64 * index, stop));
            assert(ready(pairs, row) && computed(op, value_at(pairs, row)) is Ok);
        }
    }
    if word_ready(pairs, index, selected) {
        assert(stop / 64 == index);
        assert(bit(selected, stop - 64 * index) == (64 * index + (stop - 64 * index) < flags.len()
            && flags[64 * index + (stop - 64 * index)]));
        assert(ready(pairs, 64 * index + (stop - 64 * index)));
        lemma_operation(op, 0, 1);
        assert(flags[stop]);
    } else {
        let i = choose|i: int| #[trigger] bit(selected, i) && !ready(pairs, 64 * index + i);
        let row = 64 * index + i;
        assert(row / 64 == index);
        assert(bit(selected, i) == (64 * index + i < flags.len() && flags[64 * index + i]));
        assert(flags[row]);
        assert(pairs[row] is None);
        assert(error == word_error(row / 64, selected));
    }
}

/// What an operation returns when it is called, in the integers.
pub proof fn lemma_evaluate_calls(a: i32, b: i32, result: Result<i32, ArithmeticError>)
    ensures
        call_ensures(ArithOp::evaluate, (ArithOp::Add, a, b), result) ==> match result {
            Ok(v) => v == a + b,
            Err(error) => error == ArithmeticError::IntegerOutOfRange && !(i32::MIN <= a + b
                <= i32::MAX),
        },
        call_ensures(ArithOp::evaluate, (ArithOp::Sub, a, b), result) ==> match result {
            Ok(v) => v == a - b,
            Err(error) => error == ArithmeticError::IntegerOutOfRange && !(i32::MIN <= a - b
                <= i32::MAX),
        },
        call_ensures(ArithOp::evaluate, (ArithOp::Mul, a, b), result) ==> match result {
            Ok(v) => v == a * b,
            Err(error) => error == ArithmeticError::IntegerOutOfRange && !(i32::MIN <= a * b
                <= i32::MAX),
        },
        call_ensures(ArithOp::evaluate, (ArithOp::Div, a, b), result) ==> match result {
            Ok(v) => b != 0 && (b > 0 ==> -b < a - v * b < b) && (b < 0 ==> b < a - v * b < -b) && (
            a - v * b > 0 ==> a > 0) && (a - v * b < 0 ==> a < 0),
            Err(error) => if b == 0 {
                error == ArithmeticError::DivisionByZero
            } else {
                error == ArithmeticError::IntegerOutOfRange && a == i32::MIN && b == -1
            },
        },
        call_ensures(ArithOp::evaluate, (ArithOp::Mod, a, b), result) ==> match result {
            Ok(v) => b != 0 && (b > 0 ==> -b < v < b) && (b < 0 ==> b < v < -b) && (v > 0 ==> a > 0)
                && (v < 0 ==> a < 0) && exists|q: int| #[trigger] (q * b) == a - v,
            Err(error) => b == 0 && error == ArithmeticError::DivisionByZero,
        },
{
    lemma_operation(ArithOp::Add, a, b);
    lemma_operation(ArithOp::Sub, a, b);
    lemma_operation(ArithOp::Mul, a, b);
    lemma_operation(ArithOp::Div, a, b);
    lemma_operation(ArithOp::Mod, a, b);
}

} // verus!
