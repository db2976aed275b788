//! Comparisons of a column with a scalar.

use vstd::prelude::*;

use crate::bitmap::{valid_words, word_count, words_for};
use crate::bits::{bit, count_ones, covers, is_single, ones, word_rows};
#[allow(unused_imports)]
use crate::bits::{
    lemma_bit_and, lemma_bit_constants, lemma_lowest_bit, lemma_set_flag, lemma_word_rows_contains,
    lemma_word_rows_len, lemma_word_rows_pop,
};
use crate::error::Error;
use crate::int32::{int4_datums, CompareOp, BULK_MIN_ROWS};
#[allow(unused_imports)]
use crate::reader::{
    block_value, items, lemma_ready_words, lemma_same_failure, lemma_word_ready, ready,
    ready_before, selection_ready, value_at, word_ready, Cells, ColumnReader, WordBlock,
};
#[allow(unused_imports)]
use crate::row_mask::intersection;
use crate::row_mask::RowMask;
use crate::simd::{filter_datum, filter_dense};
use crate::word_values::folded;

verus! {

/// A value is non-NULL and satisfies `value op scalar`.
pub open spec fn value_passes(value: Option<i32>, op: CompareOp, scalar: i32) -> bool {
    value matches Some(value) && op.holds(value, scalar)
}

/// A row is non-NULL and satisfies `row op scalar`.
pub open spec fn passes(cells: Cells<i32>, row: int, op: CompareOp, scalar: i32) -> bool {
    value_passes(value_at(cells, row), op, scalar)
}

/// The selection before row `end` keeps its passing rows; from there on it is
/// unchanged.
pub open spec fn filtered(
    cells: Cells<i32>,
    before: Seq<bool>,
    after: Seq<bool>,
    end: int,
    op: CompareOp,
    scalar: i32,
) -> bool {
    &&& after.len() == before.len()
    &&& forall|row: int|
        0 <= row < before.len() ==> #[trigger] after[row] == (before[row] && (row < end ==> passes(
            cells,
            row,
            op,
            scalar,
        )))
}

/// The error of a selection word with an unprepared row: that of the row when
/// it is the only selected one, else that of the word.
pub open spec fn word_failure<C: ColumnReader<Value = i32>>(
    column: &C,
    index: int,
    selected: u64,
) -> Error {
    if ones(selected) == 1 {
        column.row_error(word_rows(64 * index, selected)[0])
    } else {
        column.word_error(index, selected)
    }
}

/// What filtering a selection leaves: every passing row of a prepared
/// selection, or the words before the first one with an unprepared row
/// filtered and the others intact.
pub open spec fn filter_outcome<C: ColumnReader<Value = i32>>(
    column: &C,
    before: Seq<bool>,
    after: Seq<bool>,
    op: CompareOp,
    scalar: i32,
    result: Result<(), Error>,
) -> bool {
    match result {
        Ok(()) => {
            &&& selection_ready(column.cells(), before)
            &&& filtered(column.cells(), before, after, before.len() as int, op, scalar)
        },
        Err(error) => exists|index: int, selected: u64|
            {
                &&& 0 <= index < words_for(before.len() as int)
                &&& #[trigger] covers(selected, before, index)
                &&& ready_before(column.cells(), before, 64 * index)
                &&& !word_ready(column.cells(), index, selected)
                &&& filtered(column.cells(), before, after, 64 * index, op, scalar)
                &&& error == word_failure(column, index, selected)
            },
    }
}

/// The comparison that a closure computes.
pub open spec fn compares<F: Fn(i32, i32) -> bool>(compare: F, op: CompareOp) -> bool {
    &&& forall|a: i32, b: i32| #[trigger] call_requires(compare, (a, b))
    &&& forall|a: i32, b: i32, passes: bool| #[trigger]
        call_ensures(compare, (a, b), passes) ==> passes == op.holds(a, b)
}

/// A word of results decides the selected rows of a word.
spec fn decides(
    passing: u64,
    selected: u64,
    cells: Cells<i32>,
    index: int,
    op: CompareOp,
    scalar: i32,
) -> bool {
    forall|i: int| #[trigger]
        bit(selected, i) ==> bit(passing, i) == passes(cells, 64 * index + i, op, scalar)
}

/// Intersecting a word with its results filters it.
proof fn lemma_filter_word(
    cells: Cells<i32>,
    before: Seq<bool>,
    current: Seq<bool>,
    after: Seq<bool>,
    index: int,
    selected: u64,
    passing: u64,
    op: CompareOp,
    scalar: i32,
)
    requires
        0 <= index,
        filtered(cells, before, current, 64 * index, op, scalar),
        covers(selected, current, index),
        decides(passing, selected, cells, index, op, scalar),
        after.len() == current.len(),
        forall|row: int|
            0 <= row < current.len() ==> #[trigger] after[row] == (current[row] && (row / 64 == index
                ==> bit(passing, row % 64))),
    ensures
        filtered(cells, before, after, 64 * index + 64, op, scalar),
{
    assert forall|row: int| 0 <= row < before.len() implies #[trigger] after[row] == (before[row] && (
    row < 64 * index + 64 ==> passes(cells, row, op, scalar))) by {
        assert(current[row] == (before[row] && (row < 64 * index ==> passes(
            cells,
            row,
            op,
            scalar,
        ))));
        if row / 64 == index {
            let i = row % 64;
            assert(64 * index + i == row);
            assert(bit(selected, i) == (64 * index + i < current.len() && current[64 * index + i]));
        }
    }
}

/// The unfiltered words of a selection still cover it.
proof fn lemma_same_word(
    cells: Cells<i32>,
    before: Seq<bool>,
    current: Seq<bool>,
    index: int,
    selected: u64,
    op: CompareOp,
    scalar: i32,
)
    requires
        0 <= index,
        filtered(cells, before, current, 64 * index, op, scalar),
        covers(selected, current, index),
    ensures
        covers(selected, before, index),
        selected == 0 ==> filtered(cells, before, current, 64 * index + 64, op, scalar),
{
    assert forall|i: int| 0 <= i < 64 implies #[trigger] bit(selected, i) == (64 * index + i
        < before.len() && before[64 * index + i]) by {
        if 64 * index + i < before.len() {
            assert(current[64 * index + i] == before[64 * index + i]);
        }
    }
    if selected == 0 {
        assert forall|row: int| 0 <= row < before.len() implies #[trigger] current[row] == (
        before[row] && (row < 64 * index + 64 ==> passes(cells, row, op, scalar))) by {
            if 64 * index <= row < 64 * index + 64 {
                lemma_bit_constants(row - 64 * index);
                assert(bit(selected, row - 64 * index) == (64 * index + (row - 64 * index)
                    < current.len() && current[64 * index + (row - 64 * index)]));
            }
        }
    }
}

/// One row needs only its readiness and NULL bits, not whole mask words.
fn single_passing<C: ColumnReader<Value = i32>, F: Fn(i32, i32) -> bool>(
    column: &C,
    index: usize,
    selected: u64,
    scalar: i32,
    compare: &F,
    Ghost(op): Ghost<CompareOp>,
) -> (result: Result<u64, Error>)
    requires
        compares(*compare, op),
        ones(selected) == 1,
        index < words_for(column.cells().len() as int),
        forall|i: int| #[trigger] bit(selected, i) ==> 64 * index + i <= usize::MAX,
    ensures
        result is Ok <==> word_ready(column.cells(), index as int, selected),
        result matches Ok(passing) ==> decides(
            passing,
            selected,
            column.cells(),
            index as int,
            op,
            scalar,
        ),
        result matches Err(error) ==> error == word_failure(column, index as int, selected),
{
    proof {
        lemma_word_rows_len(64 * index, selected);
        lemma_word_rows_contains(64 * index, selected);
        crate::bits::lemma_word_rows_empty(0);
        assert(selected != 0);
        lemma_word_rows_pop(64 * index, selected);
        lemma_lowest_bit(selected);
        let rows = word_rows(64 * index, selected);
        assert forall|i: int| #[trigger] bit(selected, i) implies 64 * index + i == rows[0] by {
            assert(rows.contains(64 * index + i));
            let k = choose|k: int| 0 <= k < rows.len() && rows[k] == 64 * index + i;
            assert(k == 0);
        }
        assert forall|i: int| !(#[trigger] bit(0, i)) by {
            lemma_bit_constants(i);
        }
    }
    let row = index * 64 + selected.trailing_zeros() as usize;
    match column.get(row) {
        Ok(Some(value)) => if compare(value, scalar) {
            Ok(selected)
        } else {
            Ok(0)
        },
        Ok(None) => Ok(0),
        Err(error) => Err(error),
    }
}

/// Folding the rows of a word into a word of results.
proof fn lemma_folded_passing<G: FnMut(u64, (usize, Option<i32>)) -> u64>(
    fold: G,
    cells: Cells<i32>,
    base: int,
    rows: Seq<int>,
    acc: u64,
    op: CompareOp,
    scalar: i32,
)
    requires
        base % 64 == 0,
        0 <= base,
        forall|k: int|
            0 <= k < rows.len() ==> base <= #[trigger] rows[k] < base + 64 && rows[k] <= usize::MAX,
        forall|a: u64, item: (usize, Option<i32>), r: u64| #[trigger]
            call_ensures(fold, (a, item), r) ==> r == (a | ((if value_passes(item.1, op, scalar) {
                1u64
            } else {
                0u64
            }) << (item.0 % 64) as u64)),
        folded(fold, 0, items(cells, rows), acc),
    ensures
        forall|i: int|
            0 <= i < 64 ==> #[trigger] bit(acc, i) == (rows.contains(base + i) && passes(
                cells,
                base + i,
                op,
                scalar,
            )),
    decreases rows.len(),
{
    let all = items(cells, rows);
    if rows.len() == 0 {
        assert forall|i: int| 0 <= i < 64 implies !(#[trigger] bit(acc, i)) by {
            lemma_bit_constants(i);
        }
    } else {
        let less = rows.drop_last();
        let row = rows.last();
        assert(all.drop_last() =~= items(cells, less));
        assert(all.last() == (row as usize, value_at(cells, row)));
        let before = choose|before: u64|
            folded(fold, 0, all.drop_last(), before) && #[trigger] call_ensures(
                fold,
                (before, all.last()),
                acc,
            );
        assert(forall|k: int| 0 <= k < less.len() ==> #[trigger] less[k] == rows[k]);
        lemma_folded_passing(fold, cells, base, less, before, op, scalar);
        let flag: u64 = if passes(cells, row, op, scalar) {
            1
        } else {
            0
        };
        let k = (row as usize % 64) as u64;
        assert(row == rows[rows.len() - 1]);
        assert(k == row - base);
        lemma_set_flag(before, flag, k);
        assert forall|i: int| 0 <= i < 64 implies #[trigger] bit(acc, i) == (rows.contains(base + i)
            && passes(cells, base + i, op, scalar)) by {
            assert(rows =~= less.push(row));
            if rows.contains(base + i) {
                let j = choose|j: int| 0 <= j < rows.len() && rows[j] == base + i;
                if j < less.len() {
                    assert(less[j] == base + i);
                }
            }
            if less.contains(base + i) {
                let j = choose|j: int| 0 <= j < less.len() && less[j] == base + i;
                assert(rows[j] == base + i);
            }
            if i == k {
                assert(rows[rows.len() - 1] == base + i);
            }
            assert(bit(before, i) == (less.contains(base + i) && passes(
                cells,
                base + i,
                op,
                scalar,
            )));
        }
    }
}

/// The selected rows of one word compared one by one, for the words the
/// whole-word loop cannot compare.
fn row_passing<C: ColumnReader<Value = i32>, F: Fn(i32, i32) -> bool>(
    column: &C,
    index: usize,
    selected: u64,
    scalar: i32,
    compare: &F,
    Ghost(op): Ghost<CompareOp>,
) -> (result: Result<u64, Error>)
    requires
        compares(*compare, op),
        forall|i: int| #[trigger] bit(selected, i) ==> 64 * index + i <= usize::MAX,
    ensures
        result is Ok <==> word_ready(column.cells(), index as int, selected),
        result matches Ok(passing) ==> decides(
            passing,
            selected,
            column.cells(),
            index as int,
            op,
            scalar,
        ),
        result matches Err(error) ==> error == column.word_error(index as int, selected),
{
    let words = match column.word_values(index, selected) {
        Ok(words) => words,
        Err(error) => {
            return Err(error);
        },
    };
    // The predicate becomes a bit so that the loop has no data-dependent
    // branch.
    let fold = |passing: u64, item: (usize, Option<i32>)| -> (next: u64)
        ensures
            next == (passing | ((if value_passes(item.1, op, scalar) {
                1u64
            } else {
                0u64
            }) << (item.0 % 64) as u64)),
        {
            let flag: u64 = match item.1 {
                Some(value) => if compare(value, scalar) {
                    1
                } else {
                    0
                },
                None => 0,
            };
            passing | (flag << ((item.0 % 64) as u64))
        };
    let passing = C::fold_word(words, 0u64, fold);
    proof {
        let rows = word_rows(64 * index, selected);
        lemma_word_rows_contains(64 * index, selected);
        lemma_folded_passing(fold, column.cells(), 64 * index, rows, passing, op, scalar);
        assert forall|i: int| #[trigger] bit(selected, i) implies bit(passing, i) == passes(
            column.cells(),
            64 * index + i,
            op,
            scalar,
        ) by {
            assert(rows.contains(64 * index + i));
        }
    }
    Ok(passing)
}

/// The reader answers a request for the storage of a word, with a block or
/// without one.
spec fn exposes_word<C: ColumnReader<Value = i32>>(
    column: &C,
    index: usize,
    exposed: bool,
) -> bool {
    exists|block: Option<WordBlock<'_, i32>>| #[trigger]
        call_ensures(C::word_block, (column, index), block) && (block is Some <==> exposed)
}

/// The passing rows of a full prepared word compared whole, or `None` where
/// the reader exposes no storage for it: the word then takes the row path.
fn bulk_passing<C: ColumnReader<Value = i32>>(
    column: &C,
    index: usize,
    op: CompareOp,
    scalar: i32,
) -> (result: Option<u64>)
    requires
        int4_datums(column),
    ensures
        exposes_word(column, index, result is Some),
        result is Some ==> 64 * index + 64 <= column.cells().len() && forall|i: int|
            0 <= i < 64 ==> #[trigger] ready(column.cells(), 64 * index + i),
        result matches Some(passing) ==> forall|i: int|
            0 <= i < 64 ==> #[trigger] bit(passing, i) == passes(
                column.cells(),
                64 * index + i,
                op,
                scalar,
            ),
{
    let block = match column.word_block(index) {
        Some(block) => block,
        None => {
            return None;
        },
    };
    let ghost datum = |datum: u64| column.datum_value(datum);
    let passing = match block {
        WordBlock::Dense { values, non_nulls } => {
            let passing = filter_dense(&values.array(), scalar, op);
            proof {
                assert forall|i: int| 0 <= i < 64 implies #[trigger] bit(passing & non_nulls, i)
                    == value_passes(block_value(block, datum, i), op, scalar) by {
                    lemma_bit_and(passing, non_nulls, i);
                }
            }
            passing & non_nulls
        },
        WordBlock::Datum { values, isnull } => {
            let passing = filter_datum(&values.array(), &isnull.array(), scalar, op);
            proof {
                assert forall|i: int| 0 <= i < 64 implies #[trigger] bit(passing, i)
                    == value_passes(block_value(block, datum, i), op, scalar) by {
                    assert(!isnull@[i] ==> datum(values@[i]) is Some);
                    assert(column.datum_value(values@[i]) matches Some(value) ==> value
                        == values@[i] as i32);
                }
            }
            passing
        },
    };
    proof {
        let cells = column.cells();
        assert forall|i: int| 0 <= i < 64 implies #[trigger] bit(passing, i) == passes(
            cells,
            64 * index + i,
            op,
            scalar,
        ) by {
            assert(block_value(block, datum, i) == value_at(cells, 64 * index + i));
        }
        assert forall|i: int| 0 <= i < 64 implies #[trigger] ready(cells, 64 * index + i) by {
            assert(block_value(block, datum, i) == value_at(cells, 64 * index + i));
        }
    }
    Some(passing)
}

/// The words before `index` of a selection are filtered.
spec fn filtered_words<C: ColumnReader<Value = i32>>(
    column: &C,
    before: Seq<bool>,
    current: Seq<bool>,
    index: int,
    op: CompareOp,
    scalar: i32,
) -> bool {
    &&& column.cells().len() == before.len()
    &&& filtered(column.cells(), before, current, 64 * index, op, scalar)
    &&& ready_before(column.cells(), before, 64 * index)
}

/// Every word from `first` on at its selected rows.
fn filter_rows<C: ColumnReader<Value = i32>, F: Fn(i32, i32) -> bool>(
    column: &C,
    rows: &mut RowMask<'_>,
    first: usize,
    scalar: i32,
    compare: &F,
    Ghost(before): Ghost<Seq<bool>>,
    Ghost(op): Ghost<CompareOp>,
) -> (result: Result<(), Error>)
    requires
        compares(*compare, op),
        first <= words_for(before.len() as int),
        filtered_words(column, before, old(rows)@, first as int, op, scalar),
    ensures
        filter_outcome(column, before, final(rows)@, op, scalar, result),
        final(rows).rows() == old(rows).rows(),
        valid_words(final(rows).rows(), final(rows).words()),
        final(final(rows).borrowed())@ == final(old(rows).borrowed())@,
{
    let count = word_count(rows.as_view().nrows());
    let mut index: usize = first;
    while index < count
        invariant
            compares(*compare, op),
            index <= count,
            count == words_for(before.len() as int),
            filtered_words(column, before, rows@, index as int, op, scalar),
            rows.rows() == old(rows).rows(),
            valid_words(rows.rows(), rows.words()),
            before.len() <= usize::MAX,
            final(rows.borrowed())@ == final(old(rows).borrowed())@,
        decreases count - index,
    {
        let selected = rows.as_view().word(index).unwrap();
        let ghost current = rows@;
        proof {
            lemma_same_word(column.cells(), before, current, index as int, selected, op, scalar);
            lemma_word_ready(column.cells(), before, index as int, selected);
        }
        if selected != 0 {
            let result = if is_single(selected) {
                single_passing(column, index, selected, scalar, compare, Ghost(op))
            } else {
                row_passing(column, index, selected, scalar, compare, Ghost(op))
            };
            let passing = match result {
                Ok(passing) => passing,
                Err(error) => {
                    assert(covers(selected, before, index as int));
                    return Err(error);
                },
            };
            let _ = rows.intersect_word(index, passing);
            proof {
                lemma_filter_word(
                    column.cells(),
                    before,
                    current,
                    rows@,
                    index as int,
                    selected,
                    passing,
                    op,
                    scalar,
                );
            }
        }
        index = index + 1;
    }
    Ok(())
}

/// Every multi-row word from `first` on compared whole; the tail word and any
/// word the reader refuses take the row path. Once a call is here, a word of
/// even a few rows is cheaper whole than through that path.
fn filter_bulk<C: ColumnReader<Value = i32>, F: Fn(i32, i32) -> bool>(
    column: &C,
    rows: &mut RowMask<'_>,
    first: usize,
    op: CompareOp,
    scalar: i32,
    compare: &F,
    Ghost(before): Ghost<Seq<bool>>,
) -> (result: Result<(), Error>)
    requires
        compares(*compare, op),
        int4_datums(column),
        first <= words_for(before.len() as int),
        filtered_words(column, before, old(rows)@, first as int, op, scalar),
    ensures
        filter_outcome(column, before, final(rows)@, op, scalar, result),
        final(rows).rows() == old(rows).rows(),
        valid_words(final(rows).rows(), final(rows).words()),
        final(final(rows).borrowed())@ == final(old(rows).borrowed())@,
{
    let count = word_count(rows.as_view().nrows());
    let mut index: usize = first;
    while index < count
        invariant
            compares(*compare, op),
            int4_datums(column),
            index <= count,
            count == words_for(before.len() as int),
            filtered_words(column, before, rows@, index as int, op, scalar),
            rows.rows() == old(rows).rows(),
            valid_words(rows.rows(), rows.words()),
            before.len() <= usize::MAX,
            final(rows.borrowed())@ == final(old(rows).borrowed())@,
        decreases count - index,
    {
        let selected = rows.as_view().word(index).unwrap();
        let ghost current = rows@;
        proof {
            lemma_same_word(column.cells(), before, current, index as int, selected, op, scalar);
            lemma_word_ready(column.cells(), before, index as int, selected);
        }
        if selected != 0 {
            let result = if is_single(selected) {
                single_passing(column, index, selected, scalar, compare, Ghost(op))
            } else {
                match bulk_passing(column, index, op, scalar) {
                    // Intersecting keeps the selection.
                    Some(passing) => Ok(passing),
                    None => row_passing(column, index, selected, scalar, compare, Ghost(op)),
                }
            };
            let passing = match result {
                Ok(passing) => passing,
                Err(error) => {
                    assert(covers(selected, before, index as int));
                    return Err(error);
                },
            };
            let _ = rows.intersect_word(index, passing);
            proof {
                lemma_filter_word(
                    column.cells(),
                    before,
                    current,
                    rows@,
                    index as int,
                    selected,
                    passing,
                    op,
                    scalar,
                );
            }
        }
        index = index + 1;
    }
    Ok(())
}

/// Leading empty and single-row words are handled here; the first word with
/// several selected rows decides the strategy for the rest of the call:
/// whole-word comparisons when it is full, dense and the reader exposes its
/// storage, rows otherwise. Selectivity is roughly uniform within a batch, and
/// a partly prepared batch or a reader without bulk storage refuses its first
/// word as it would refuse the others.
fn filter_with<C: ColumnReader<Value = i32>, F: Fn(i32, i32) -> bool>(
    column: &C,
    rows: &mut RowMask<'_>,
    op: CompareOp,
    scalar: i32,
    compare: F,
) -> (result: Result<(), Error>)
    requires
        compares(compare, op),
        int4_datums(column),
        column.cells().len() == old(rows)@.len(),
    ensures
        filter_outcome(column, old(rows)@, final(rows)@, op, scalar, result),
        final(rows).rows() == old(rows).rows(),
        valid_words(final(rows).rows(), final(rows).words()),
        final(final(rows).borrowed())@ == final(old(rows).borrowed())@,
{
    let nrows = rows.as_view().nrows();
    let ghost before = rows@;
    let count = word_count(nrows);
    let mut index: usize = 0;
    while index < count
        invariant
            compares(compare, op),
            int4_datums(column),
            nrows == before.len(),
            before == old(rows)@,
            index <= count,
            count == words_for(before.len() as int),
            filtered_words(column, before, rows@, index as int, op, scalar),
            rows.rows() == old(rows).rows(),
            valid_words(rows.rows(), rows.words()),
            before.len() <= usize::MAX,
            final(rows.borrowed())@ == final(old(rows).borrowed())@,
        decreases count - index,
    {
        let selected = rows.as_view().word(index).unwrap();
        let ghost current = rows@;
        proof {
            lemma_same_word(column.cells(), before, current, index as int, selected, op, scalar);
            lemma_word_ready(column.cells(), before, index as int, selected);
        }
        if selected != 0 {
            if !is_single(selected) {
                let bulk = index < nrows / 64 && (selected == u64::MAX || count_ones(selected)
                    >= BULK_MIN_ROWS) && column.word_block(index).is_some();
                return if bulk {
                    filter_bulk(column, rows, index, op, scalar, &compare, Ghost(before))
                } else {
                    filter_rows(
                        column,
                        rows,
                        index,
                        scalar,
                        &compare,
                        Ghost(before),
                        Ghost(op),
                    )
                };
            }
            let passing = match single_passing(column, index, selected, scalar, &compare, Ghost(op)) {
                Ok(passing) => passing,
                Err(error) => {
                    assert(covers(selected, before, index as int));
                    return Err(error);
                },
            };
            let _ = rows.intersect_word(index, passing);
            proof {
                lemma_filter_word(
                    column.cells(),
                    before,
                    current,
                    rows@,
                    index as int,
                    selected,
                    passing,
                    op,
                    scalar,
                );
            }
        }
        index = index + 1;
    }
    Ok(())
}

/// Keep selected, non-NULL rows satisfying `column op scalar`.
///
/// Row indices remain physical; removed rows are never restored. Only nonempty
/// words are read. When the first word with several selected rows is full,
/// selects at least a dozen rows and the reader exposes its storage, every
/// multi-row word of the call is compared whole and only the tail word or a
/// word the reader refuses is read at its selected rows; otherwise every word
/// is. Column values and their masks are borrowed without mutation; `rows` is
/// borrowed exclusively. The operation is chosen once per call.
///
/// Different row counts fail before any mutation. A reader error (including an
/// unprepared selected row) leaves the current word and all later words intact.
/// Earlier words remain filtered: there is no rollback, and the caller must
/// discard the partial selection after an error rather than use it as a result.
/// Empty selections are valid and do not require their rows to be prepared.
pub fn filter<C: ColumnReader<Value = i32>>(
    column: &C,
    rows: &mut RowMask<'_>,
    op: CompareOp,
    scalar: i32,
) -> (result: Result<(), Error>)
    requires
        int4_datums(column),
    ensures
        column.cells().len() != old(rows)@.len() ==> {
            &&& result matches Err(error) && error == Error::ColumnSelectionRows
            &&& final(rows).words() == old(rows).words()
        },
        column.cells().len() == old(rows)@.len() ==> (result is Ok <==> selection_ready(
            column.cells(),
            old(rows)@,
        )),
        column.cells().len() == old(rows)@.len() ==> filter_outcome(
            column,
            old(rows)@,
            final(rows)@,
            op,
            scalar,
            result,
        ),
        result is Ok ==> forall|row: int|
            0 <= row < old(rows)@.len() ==> (#[trigger] final(rows)@[row] <==> old(rows)@[row] && (
            column.cells()[row]->0 matches Some(value) && match op {
                CompareOp::Eq => value == scalar,
                CompareOp::Ne => value != scalar,
                CompareOp::Lt => value < scalar,
                CompareOp::Le => value <= scalar,
                CompareOp::Gt => value > scalar,
                CompareOp::Ge => value >= scalar,
            })),
        final(rows).rows() == old(rows).rows(),
        valid_words(final(rows).rows(), final(rows).words()),
        final(final(rows).borrowed())@ == final(old(rows).borrowed())@,
{
    proof {
        if column.cells().len() == rows@.len() {
            lemma_ready_words(column.cells(), rows@);
        }
    }
    if column.nrows() != rows.as_view().nrows() {
        return Err(Error::ColumnSelectionRows);
    }
    match op {
        CompareOp::Eq => {
            let compare = |a: i32, b: i32| -> (holds: bool)
                ensures
                    holds == (a == b),
                { a == b };
            filter_with(column, rows, op, scalar, compare)
        },
        CompareOp::Ne => {
            let compare = |a: i32, b: i32| -> (holds: bool)
                ensures
                    holds == (a != b),
                { a != b };
            filter_with(column, rows, op, scalar, compare)
        },
        CompareOp::Lt => {
            let compare = |a: i32, b: i32| -> (holds: bool)
                ensures
                    holds == (a < b),
                { a < b };
            filter_with(column, rows, op, scalar, compare)
        },
        CompareOp::Le => {
            let compare = |a: i32, b: i32| -> (holds: bool)
                ensures
                    holds == (a <= b),
                { a <= b };
            filter_with(column, rows, op, scalar, compare)
        },
        CompareOp::Gt => {
            let compare = |a: i32, b: i32| -> (holds: bool)
                ensures
                    holds == (a > b),
                { a > b };
            filter_with(column, rows, op, scalar, compare)
        },
        CompareOp::Ge => {
            let compare = |a: i32, b: i32| -> (holds: bool)
                ensures
                    holds == (a >= b),
                { a >= b };
            filter_with(column, rows, op, scalar, compare)
        },
    }
}

/// Filtering never restores a row, whether it succeeds or fails.
pub proof fn lemma_filter_narrows<C: ColumnReader<Value = i32>>(
    column: &C,
    before: Seq<bool>,
    after: Seq<bool>,
    op: CompareOp,
    scalar: i32,
    result: Result<(), Error>,
)
    requires
        filter_outcome(column, before, after, op, scalar, result),
    ensures
        after.len() == before.len(),
        forall|row: int| 0 <= row < before.len() && #[trigger] after[row] ==> before[row],
{
}

/// Filtering again by the same comparison removes nothing.
pub proof fn lemma_filter_idempotent(
    cells: Cells<i32>,
    before: Seq<bool>,
    after: Seq<bool>,
    again: Seq<bool>,
    op: CompareOp,
    scalar: i32,
)
    requires
        filtered(cells, before, after, before.len() as int, op, scalar),
        filtered(cells, after, again, after.len() as int, op, scalar),
    ensures
        again == after,
{
    assert forall|row: int| 0 <= row < before.len() implies again[row] == after[row] by {
        assert(after[row] == (before[row] && passes(cells, row, op, scalar)));
    }
    assert(again =~= after);
}

/// Successive filters keep the rows that pass each of them, in either order,
/// also over different columns.
pub proof fn lemma_filters_intersect(
    first: Cells<i32>,
    second: Cells<i32>,
    before: Seq<bool>,
    after_first: Seq<bool>,
    after_both: Seq<bool>,
    after_second: Seq<bool>,
    after_reverse: Seq<bool>,
    ops: (CompareOp, CompareOp),
    scalars: (i32, i32),
)
    requires
        filtered(first, before, after_first, before.len() as int, ops.0, scalars.0),
        filtered(second, after_first, after_both, before.len() as int, ops.1, scalars.1),
        filtered(second, before, after_second, before.len() as int, ops.1, scalars.1),
        filtered(first, after_second, after_reverse, before.len() as int, ops.0, scalars.0),
    ensures
        after_both == after_reverse,
        after_both == intersection(after_first, after_second),
        forall|row: int|
            0 <= row < before.len() ==> #[trigger] after_both[row] == (before[row] && passes(
                first,
                row,
                ops.0,
                scalars.0,
            ) && passes(second, row, ops.1, scalars.1)),
{
    assert forall|row: int| 0 <= row < before.len() implies #[trigger] after_both[row] == (
    before[row] && passes(first, row, ops.0, scalars.0) && passes(second, row, ops.1, scalars.1))
        && after_reverse[row] == after_both[row] && intersection(after_first, after_second)[row]
        == after_both[row] by {
        assert(after_first[row] == (before[row] && passes(first, row, ops.0, scalars.0)));
        assert(after_second[row] == (before[row] && passes(second, row, ops.1, scalars.1)));
    }
    assert(after_both =~= after_reverse);
    assert(after_both =~= intersection(after_first, after_second));
}

/// What filtering leaves depends on the rows of a column, not on its
/// representation: neither on how it exposes its storage nor on which rows are
/// compared whole.
pub proof fn lemma_filter_by_cells<A: ColumnReader<Value = i32>, B: ColumnReader<Value = i32>>(
    a: &A,
    b: &B,
    before: Seq<bool>,
    after_a: Seq<bool>,
    after_b: Seq<bool>,
    op: CompareOp,
    scalar: i32,
    result_a: Result<(), Error>,
    result_b: Result<(), Error>,
)
    requires
        a.cells() == b.cells(),
        a.cells().len() == before.len(),
        filter_outcome(a, before, after_a, op, scalar, result_a),
        filter_outcome(b, before, after_b, op, scalar, result_b),
    ensures
        after_a == after_b,
        result_a is Ok <==> result_b is Ok,
{
    let cells = a.cells();
    lemma_ready_words(cells, before);
    if result_a is Err && result_b is Err {
        let (i, v) = choose|index: int, selected: u64|
            {
                &&& 0 <= index < words_for(before.len() as int)
                &&& #[trigger] covers(selected, before, index)
                &&& ready_before(cells, before, 64 * index)
                &&& !word_ready(cells, index, selected)
                &&& filtered(cells, before, after_a, 64 * index, op, scalar)
                &&& result_a->Err_0 == word_failure(a, index, selected)
            };
        let (j, w) = choose|index: int, selected: u64|
            {
                &&& 0 <= index < words_for(before.len() as int)
                &&& #[trigger] covers(selected, before, index)
                &&& ready_before(cells, before, 64 * index)
                &&& !word_ready(cells, index, selected)
                &&& filtered(cells, before, after_b, 64 * index, op, scalar)
                &&& result_b->Err_0 == word_failure(b, index, selected)
            };
        lemma_same_failure(cells, before, i, v, j, w);
    }
    assert(after_a =~= after_b);
}

/// What a filter keeps, row by row: a successful one keeps exactly the selected
/// rows whose cell holds an integer in the given order with the scalar. One that
/// fails drops no row but such as it would drop, and adds none.
pub proof fn lemma_filter_rows<C: ColumnReader<Value = i32>>(
    column: &C,
    before: Seq<bool>,
    after: Seq<bool>,
    op: CompareOp,
    scalar: i32,
    result: Result<(), Error>,
    row: int,
)
    requires
        column.cells().len() == before.len(),
        filter_outcome(column, before, after, op, scalar, result),
        0 <= row < before.len(),
    ensures
        after.len() == before.len(),
        after[row] ==> before[row],
        before[row] && !after[row] ==> column.cells()[row] is Some,
        result is Ok && before[row] ==> column.cells()[row] is Some,
        column.cells()[row] == Some(None::<i32>) && result is Ok ==> !after[row],
        column.cells()[row] matches Some(Some(v)) ==> {
            let order = match op {
                CompareOp::Eq => v == scalar,
                CompareOp::Ne => v < scalar || v > scalar,
                CompareOp::Lt => v < scalar,
                CompareOp::Le => v < scalar || v == scalar,
                CompareOp::Gt => v > scalar,
                CompareOp::Ge => v > scalar || v == scalar,
            };
            &&& result is Ok ==> (after[row] <==> before[row] && order)
            &&& before[row] && order ==> after[row]
        },
{
    let cells = column.cells();
    if let Err(error) = result {
        let (index, selected) = choose|index: int, selected: u64|
            {
                &&& 0 <= index < words_for(before.len() as int)
                &&& #[trigger] covers(selected, before, index)
                &&& ready_before(cells, before, 64 * index)
                &&& !word_ready(cells, index, selected)
                &&& filtered(cells, before, after, 64 * index, op, scalar)
                &&& error == word_failure(column, index, selected)
            };
        assert(after[row] == (before[row] && (row < 64 * index ==> passes(cells, row, op, scalar))));
        if before[row] && !after[row] {
            assert(ready(cells, row));
        }
    } else {
        assert(after[row] == (before[row] && (row < before.len() ==> passes(
            cells,
            row,
            op,
            scalar,
        ))));
        if before[row] {
            assert(ready(cells, row));
        }
    }
}

/// The error of a refused word: that of its row where it selects one alone, and
/// else that of the word.
pub proof fn lemma_word_failure<C: ColumnReader<Value = i32>>(
    column: &C,
    index: int,
    selected: u64,
    k: u64,
)
    requires
        k < 64,
    ensures
        word_failure(column, index, 1u64 << k) == column.row_error(64 * index + k),
        (exists|i: int, j: int| i != j && #[trigger] bit(selected, i) && #[trigger] bit(selected, j))
            ==> word_failure(column, index, selected) == column.word_error(index, selected),
{
    let one = 1u64 << k;
    let rows = word_rows(64 * index, one);
    lemma_word_rows_contains(64 * index, one);
    lemma_word_rows_len(64 * index, one);
    crate::bits::lemma_rows_members(
        |row: int| bit(one, row - 64 * index),
        64 * index,
        64 * index + 64,
    );
    assert forall|i: int| bit(one, i) == (i == k) by {
        crate::bits::lemma_bit_flag(1, k, i);
    }
    assert(bit(one, k as int));
    assert(rows.contains(64 * index + k));
    assert forall|n: int| 0 <= n < rows.len() implies #[trigger] rows[n] == 64 * index + k by {
        assert(bit(one, rows[n] - 64 * index));
    }
    if rows.len() > 1 {
        assert(rows[0] < rows[1]);
    }
    if exists|i: int, j: int|
        i != j && #[trigger] bit(selected, i) && #[trigger] bit(selected, j) {
        let (i, j) = choose|i: int, j: int|
            i != j && #[trigger] bit(selected, i) && #[trigger] bit(selected, j);
        let lanes = word_rows(0, selected);
        lemma_word_rows_contains(0, selected);
        assert(lanes.contains(0 + i) && lanes.contains(0 + j));
        let m = choose|m: int| 0 <= m < lanes.len() && lanes[m] == i;
        let n = choose|n: int| 0 <= n < lanes.len() && lanes[n] == j;
        assert(m != n);
    }
}

/// A failed filter blames the first word with an unprepared selected row.
pub proof fn lemma_filter_error<C: ColumnReader<Value = i32>>(
    column: &C,
    before: Seq<bool>,
    after: Seq<bool>,
    op: CompareOp,
    scalar: i32,
    error: Error,
    index: int,
    selected: u64,
)
    requires
        column.cells().len() == before.len(),
        filter_outcome(column, before, after, op, scalar, Err(error)),
        0 <= index < words_for(before.len() as int),
        covers(selected, before, index),
        ready_before(column.cells(), before, 64 * index),
        !word_ready(column.cells(), index, selected),
    ensures
        error == word_failure(column, index, selected),
{
    let (i, v) = choose|i: int, v: u64|
        {
            &&& 0 <= i < words_for(before.len() as int)
            &&& #[trigger] covers(v, before, i)
            &&& ready_before(column.cells(), before, 64 * i)
            &&& !word_ready(column.cells(), i, v)
            &&& filtered(column.cells(), before, after, 64 * i, op, scalar)
            &&& error == word_failure(column, i, v)
        };
    lemma_same_failure(column.cells(), before, i, v, index, selected);
}

} // verus!
