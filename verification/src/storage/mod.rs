//! Columns over storage whose unprepared rows may be uninitialized.

pub mod int32;

use vstd::prelude::*;

use crate::bitmap::{validate_row, word_count, words_for};
use crate::bits::{bit, covers, selected_rows, word_rows};
#[allow(unused_imports)]
use crate::bits::{
    lemma_bit_and, lemma_bit_constants, lemma_bit_not, lemma_clear_lowest, lemma_lowest_bit,
    lemma_rows_members, lemma_rows_split, lemma_word_rows_cover, lemma_word_rows_empty,
    lemma_word_rows_pop,
};
use crate::error::Error;
use crate::reader::{
    fold_failed, fold_outcome, folded_before, folds_selection, items, ready, ready_before,
    try_folded, value_at, word_end, word_ready, word_start, Cells,
};
#[allow(unused_imports)]
use crate::reader::{lemma_fold_step, lemma_items_push, lemma_word_ready};
use crate::row_mask::RowMaskView;
use crate::word_values::{accepted, functional, items_read, ReadRow};
#[allow(unused_imports)]
use vstd::std_specs::bits::u64_trailing_zeros;

verus! {

/// The flag of a row in an optional mask; without a mask every flag is set.
pub open spec fn mask_flag(mask: Option<RowMaskView<'_>>, row: int) -> bool {
    match mask {
        Some(mask) => 0 <= row < mask@.len() && mask@[row],
        None => true,
    }
}

/// An optional mask has the row count of its column.
pub open spec fn mask_fits(nrows: int, mask: Option<RowMaskView<'_>>) -> bool {
    mask matches Some(mask) ==> mask@.len() == nrows
}

/// Check that an optional mask has the row count of its column.
pub(crate) fn validate_mask(nrows: usize, mask: Option<RowMaskView<'_>>) -> (result: Result<
    (),
    Error,
>)
    ensures
        result is Ok <==> mask_fits(nrows as int, mask),
        result matches Err(error) ==> error == Error::ColumnMaskRows,
{
    match mask {
        Some(mask) => if mask.nrows() == nrows {
            Ok(())
        } else {
            Err(Error::ColumnMaskRows)
        },
        None => Ok(()),
    }
}

/// Check that a row exists and is prepared.
pub(crate) fn validate_ready(
    nrows: usize,
    prepared: Option<RowMaskView<'_>>,
    row: usize,
) -> (result: Result<(), Error>)
    requires
        mask_fits(nrows as int, prepared),
    ensures
        result is Ok <==> row < nrows && mask_flag(prepared, row as int),
        result matches Err(error) ==> error == (if row >= nrows {
            Error::RowOutOfBounds { row, nrows }
        } else {
            Error::RowUnprepared { row }
        }),
{
    if let Err(error) = validate_row(row, nrows) {
        return Err(error);
    }
    match prepared {
        Some(mask) => if mask.contains(row).unwrap() {
            Ok(())
        } else {
            Err(Error::RowUnprepared { row })
        },
        None => Ok(()),
    }
}

/// The word of an optional mask: full without a mask, empty beyond its rows.
pub(crate) fn mask_word(mask: Option<RowMaskView<'_>>, word_index: usize) -> (word: u64)
    ensures
        forall|i: int|
            0 <= i < 64 ==> #[trigger] bit(word, i) == mask_flag(mask, 64 * word_index + i),
{
    match mask {
        None => {
            proof {
                assert forall|i: int| 0 <= i < 64 implies #[trigger] bit(u64::MAX, i) by {
                    lemma_bit_constants(i);
                }
            }
            u64::MAX
        },
        Some(mask) => match mask.word(word_index) {
            Some(word) => word,
            None => {
                proof {
                    assert forall|i: int| 0 <= i < 64 implies !(#[trigger] bit(0, i)) by {
                        lemma_bit_constants(i);
                    }
                }
                0
            },
        },
    }
}

/// The 64 slots of a full word; `None` for the tail or an out-of-range word.
pub(crate) fn word_slots<T>(values: &[T], word_index: usize) -> (slots: Option<&[T]>)
    ensures
        slots is Some <==> 64 * word_index + 64 <= values@.len(),
        slots matches Some(slots) ==> slots@ == values@.subrange(
            64 * word_index,
            64 * word_index + 64,
        ),
{
    let len = values.len();
    let base = match word_index.checked_mul(64) {
        Some(base) => base,
        None => {
            return None;
        },
    };
    if len < 64 || base > len - 64 {
        return None;
    }
    Some(vstd::slice::slice_subrange(values, base, base + 64))
}

/// Whether a selection word is accepted, in terms of the rows that it names.
pub(crate) proof fn lemma_accepted<V>(cells: Cells<V>, w: int, selected: u64, prepared: u64)
    requires
        forall|i: int|
            0 <= i < 64 && 64 * w + i < cells.len() ==> #[trigger] bit(prepared, i) == (cells[64 * w
                + i] is Some),
        0 <= w,
    ensures
        accepted(cells.len() as int, w, selected, prepared) <==> word_ready(cells, w, selected),
{
    if accepted(cells.len() as int, w, selected, prepared) {
        assert forall|i: int| #[trigger] bit(selected, i) implies ready(cells, 64 * w + i) by {
            assert(bit(prepared, i));
        }
    }
    if word_ready(cells, w, selected) {
        assert forall|i: int| #[trigger] bit(selected, i) implies 64 * w + i < cells.len() && bit(
            prepared,
            i,
        ) by {
            assert(ready(cells, 64 * w + i));
        }
    }
}

/// A reader that returns what the selected rows of a word hold yields their
/// items.
pub(crate) proof fn lemma_word_items<R: ReadRow>(
    reader: R,
    cells: Cells<R::Value>,
    w: int,
    selected: u64,
)
    requires
        functional(reader),
        forall|i: int| #[trigger]
            bit(selected, i) ==> reader.reads(64 * w + i, value_at(cells, 64 * w + i)),
    ensures
        items_read(reader, word_rows(64 * w, selected)) == items(cells, word_rows(64 * w, selected)),
{
    let rows = word_rows(64 * w, selected);
    lemma_rows_members(|row: int| bit(selected, row - 64 * w), 64 * w, 64 * w + 64);
    assert forall|k: int| 0 <= k < rows.len() implies items_read(reader, rows)[k]
        == #[trigger] items(cells, rows)[k] by {
        assert(bit(selected, rows[k] - 64 * w));
        assert(64 * w + (rows[k] - 64 * w) == rows[k]);
        assert(reader.reads(rows[k], value_at(cells, rows[k])));
    }
    assert(items_read(reader, rows) =~= items(cells, rows));
}

/// A reading closure returns what the prepared rows of a column hold, given
/// the non-NULL flags of the row's word.
pub open spec fn reads_cells<V, R: Fn(usize, u64) -> Option<V>>(
    read: R,
    non_nulls: Option<RowMaskView<'_>>,
    cells: Cells<V>,
) -> bool {
    &&& forall|row: usize, bits: u64|
        ready(cells, row as int) && bit(bits, row as int % 64) == mask_flag(non_nulls, row as int)
            ==> #[trigger] call_requires(read, (row, bits))
    &&& forall|row: usize, bits: u64, value: Option<V>|
        ready(cells, row as int) && bit(bits, row as int % 64) == mask_flag(non_nulls, row as int)
            && #[trigger] call_ensures(read, (row, bits), value) ==> value == value_at(
            cells,
            row as int,
        )
}

/// Shared early-exit loop over prepared selection words. The caller chooses
/// the NULL mode once and passes a matching read closure; the loop validates
/// each nonempty word before reading it and stops at the first reader or
/// consumer error without rolling back rows already folded.
pub(crate) fn try_fold_words<
    B,
    V,
    R: Fn(usize, u64) -> Option<V>,
    F: FnMut(B, usize, Option<V>) -> Result<B, Error>,
>(
    rows: &RowMaskView<'_>,
    prepared: Option<RowMaskView<'_>>,
    non_nulls: Option<RowMaskView<'_>>,
    nrows: usize,
    read: R,
    init: B,
    fold: F,
    Ghost(cells): Ghost<Cells<V>>,
) -> (result: Result<B, Error>)
    requires
        cells.len() == nrows,
        mask_fits(nrows as int, prepared),
        mask_fits(nrows as int, non_nulls),
        forall|row: int|
            0 <= row < nrows ==> (#[trigger] cells[row] is Some) == mask_flag(prepared, row),
        reads_cells(read, non_nulls, cells),
        nrows == rows@.len() ==> folds_selection(cells, rows@, fold, init),
    ensures
        nrows != rows@.len() ==> (result matches Err(error) && error == Error::ColumnSelectionRows),
        nrows == rows@.len() ==> fold_outcome(
            cells,
            rows@,
            |index: int, selected: u64| Error::SelectionUnprepared,
            fold,
            init,
            result,
        ),
{
    if nrows != rows.nrows() {
        return Err(Error::ColumnSelectionRows);
    }
    let mut call = fold;
    let mut acc = init;
    let ghost flags = rows@;
    let ghost mut end: int = 0;
    let count = word_count(nrows);
    let mut index: usize = 0;
    proof {
        assert(selected_rows(flags, 0, 0) =~= Seq::<int>::empty());
    }
    while index < count
        invariant
            index <= count,
            count == words_for(flags.len() as int),
            flags == rows@,
            cells.len() == flags.len(),
            cells.len() == nrows,
            mask_fits(nrows as int, prepared),
            mask_fits(nrows as int, non_nulls),
            forall|row: int|
                0 <= row < nrows ==> (#[trigger] cells[row] is Some) == mask_flag(prepared, row),
            reads_cells(read, non_nulls, cells),
            call == fold,
            folds_selection(cells, flags, fold, init),
            end == word_start(flags.len() as int, index as int),
            ready_before(cells, flags, end),
            folded_before(cells, flags, end, fold, init, acc),
        decreases count - index,
    {
        let selected = rows.word(index).unwrap();
        let ghost next = word_start(flags.len() as int, index + 1);
        let ghost inner = word_rows(64 * index, selected);
        proof {
            lemma_word_rows_cover(selected, flags, index as int);
            lemma_rows_split(|row: int| flags[row], 0, end, next);
            lemma_rows_members(|row: int| flags[row], end, next);
            lemma_word_ready(cells, flags, index as int, selected);
        }
        if selected != 0 {
            let word = mask_word(prepared, index);
            let unprepared = selected & !word;
            proof {
                assert forall|i: int| #[trigger] bit(unprepared, i) == (bit(selected, i) && !bit(
                    word,
                    i,
                )) by {
                    lemma_bit_and(selected, !word, i);
                    if 0 <= i < 64 {
                        lemma_bit_not(word, i);
                    }
                }
                if unprepared != 0 {
                    lemma_lowest_bit(unprepared);
                    let i = u64_trailing_zeros(unprepared) as int;
                    assert(bit(unprepared, i));
                    assert(bit(selected, i) && !bit(word, i));
                    assert(!ready(cells, 64 * index + i));
                } else {
                    assert forall|i: int| #[trigger] bit(selected, i) implies ready(
                        cells,
                        64 * index + i,
                    ) by {
                        lemma_bit_constants(i);
                        assert(!bit(unprepared, i));
                        assert(bit(word, i));
                    }
                }
            }
            if unprepared != 0 {
                proof {
                    assert(covers(selected, flags, index as int));
                    assert(folded_before(cells, flags, 64 * index, fold, init, acc));
                }
                return Err(Error::SelectionUnprepared);
            }
            let bits = mask_word(non_nulls, index);
            let base = index * 64;
            let mut remaining = selected;
            let ghost mut taken: int = 0;
            proof {
                assert(inner.skip(0) =~= inner);
                assert(selected_rows(flags, 0, end) + inner.take(0) =~= selected_rows(
                    flags,
                    0,
                    end,
                ));
                assert(ready_before(cells, flags, next));
            }
            while remaining != 0
                invariant
                    flags == rows@,
                    cells.len() == flags.len(),
                    cells.len() == nrows,
                    call == fold,
                    reads_cells(read, non_nulls, cells),
                    folds_selection(cells, flags, fold, init),
                    0 <= index < words_for(flags.len() as int),
                    base == 64 * index,
                    end == base,
                    end == word_start(flags.len() as int, index as int),
                    next == word_start(flags.len() as int, index + 1),
                    forall|i: int|
                        0 <= i < 64 ==> #[trigger] bit(bits, i) == mask_flag(
                            non_nulls,
                            64 * index + i,
                        ),
                    ready_before(cells, flags, next),
                    inner == selected_rows(flags, end, next),
                    0 <= taken <= inner.len(),
                    word_rows(base as int, remaining) == inner.skip(taken),
                    try_folded(
                        fold,
                        init,
                        items(cells, selected_rows(flags, 0, end) + inner.take(taken)),
                        acc,
                    ),
                decreases remaining,
            {
                let ghost before = acc;
                proof {
                    lemma_lowest_bit(remaining);
                    lemma_word_rows_pop(base as int, remaining);
                    lemma_clear_lowest(remaining);
                    lemma_fold_step(cells, flags, end, next, taken);
                    assert(inner.skip(taken)[0] == inner[taken]);
                    assert(inner.skip(taken).drop_first() =~= inner.skip(taken + 1));
                }
                let row = base + remaining.trailing_zeros() as usize;
                remaining = remaining & (remaining - 1);
                proof {
                    assert(row == inner[taken]);
                    assert(folded_before(cells, flags, row as int, fold, init, acc));
                    assert(ready_before(cells, flags, word_end(row as int)));
                    assert(ready(cells, row as int));
                    assert(row as int % 64 == row - base);
                    assert(bit(bits, row - base) == mask_flag(non_nulls, 64 * index + (row - base)));
                }
                let value = read(row, bits);
                match call(acc, row, value) {
                    Ok(after) => {
                        acc = after;
                    },
                    Err(error) => {
                        proof {
                            assert(folded_before(cells, flags, row as int, fold, init, before));
                            assert(call_ensures(
                                fold,
                                (before, row, value_at(cells, row as int)),
                                Err::<B, Error>(error),
                            ));
                            assert(fold_failed(cells, flags, fold, init, error));
                        }
                        return Err(error);
                    },
                }
                proof {
                    let done = selected_rows(flags, 0, end) + inner.take(taken);
                    let more = selected_rows(flags, 0, end) + inner.take(taken + 1);
                    lemma_items_push(cells, done, row as int);
                    assert(more =~= done.push(row as int));
                    let last = items(cells, more).last();
                    assert(last == (row, value));
                    assert(call_ensures(fold, (before, last.0, last.1), Ok::<B, Error>(acc)));
                    assert(try_folded(fold, init, items(cells, more), acc));
                    taken = taken + 1;
                }
            }
            proof {
                lemma_word_rows_empty(base as int);
                assert(inner.take(taken) =~= inner);
            }
        } else {
            proof {
                lemma_word_rows_empty(64 * index);
                assert(selected_rows(flags, 0, end) + inner =~= selected_rows(flags, 0, end));
            }
        }
        proof {
            end = next;
        }
        index = index + 1;
    }
    Ok(acc)
}

/// An absent mask sets every row; one that is there sets its own rows and none
/// beyond them, and fits the row count that it has.
pub proof fn lemma_mask_rows(mask: Option<RowMaskView<'_>>, row: int, nrows: int)
    ensures
        mask is None ==> mask_flag(mask, row) && mask_fits(nrows, mask),
        mask matches Some(view) ==> (mask_flag(mask, row) <==> 0 <= row < view@.len() && view@[row]),
        mask matches Some(view) ==> (mask_fits(nrows, mask) <==> view@.len() == nrows),
{
}

} // verus!
