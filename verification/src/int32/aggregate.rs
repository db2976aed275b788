//! Aggregates over selected int4 values with PostgreSQL's NULL rules.
//!
//! NULL rows are skipped. `count` is the number of selected non-NULL rows;
//! `count(*)` is `RowMaskView::selected_count`. `sum` is the int8 sum of the
//! int4 values and `None` without a non-NULL row; over at most 2^31 rows it
//! cannot overflow, so overflow checking belongs to whoever adds calls
//! together, where PostgreSQL raises `bigint out of range`. `min` and `max` are
//! `None` without a non-NULL row.
//!
//! When the first word of the selection is full, selects at least a dozen rows
//! and the reader exposes its storage, the call aggregates whole words and
//! reads only single-row words, the tail and refused words row by row.
//! Otherwise it reads through `ColumnReader::try_fold_selected`. Either way a
//! NULL row contributes an identity value rather than a branch.

use vstd::prelude::*;
#[allow(unused_imports)]
use vstd::std_specs::bits::u64_trailing_zeros;

use crate::bitmap::{word_count, words_for};
use crate::bits::{bit, count_ones, covers, is_single, selected_rows, word_rows};
#[allow(unused_imports)]
use crate::bits::{
    lemma_lowest_bit, lemma_rows_before, lemma_rows_members, lemma_rows_split,
    lemma_word_rows_contains, lemma_word_rows_cover, lemma_word_rows_empty, lemma_word_rows_len,
    lemma_word_rows_pop,
};
use crate::error::Error;
use crate::int32::bulk;
use crate::int32::bulk::block_values;
#[allow(unused_imports)]
use crate::int32::bulk::lemma_block_held;
use crate::int32::{int4_datums, BULK_MIN_ROWS};
#[allow(unused_imports)]
use crate::reader::{
    fold_failed, folded_before, items, lemma_ready_words, lemma_same_failure, lemma_word_ready, ready,
    ready_before, selection_ready, try_folded, value_at, word_end, word_ready, word_start, Cells, ColumnReader,
    WordBlock,
};
use crate::row_mask::RowMaskView;
use crate::word_values::{folded, folds_items};

verus! {

/// The sum of values.
pub open spec fn total(values: Seq<i32>) -> int
    decreases values.len(),
{
    if values.len() == 0 {
        0
    } else {
        total(values.drop_last()) + values.last()
    }
}

/// The least value, `i32::MAX` without any.
pub open spec fn least(values: Seq<i32>) -> i32
    decreases values.len(),
{
    if values.len() == 0 {
        i32::MAX
    } else if values.last() < least(values.drop_last()) {
        values.last()
    } else {
        least(values.drop_last())
    }
}

/// The greatest value, `i32::MIN` without any.
pub open spec fn greatest(values: Seq<i32>) -> i32
    decreases values.len(),
{
    if values.len() == 0 {
        i32::MIN
    } else if values.last() > greatest(values.drop_last()) {
        values.last()
    } else {
        greatest(values.drop_last())
    }
}

/// The sum of values as int8, `None` without any.
pub open spec fn sum_value(values: Seq<i32>) -> Option<i64> {
    if values.len() == 0 {
        None
    } else {
        Some(total(values) as i64)
    }
}

/// The least value, `None` without any.
pub open spec fn min_value(values: Seq<i32>) -> Option<i32> {
    if values.len() == 0 {
        None
    } else {
        Some(least(values))
    }
}

/// The greatest value, `None` without any.
pub open spec fn max_value(values: Seq<i32>) -> Option<i32> {
    if values.len() == 0 {
        None
    } else {
        Some(greatest(values))
    }
}

/// The non-NULL values among `values`, in order.
pub open spec fn present<V>(values: Seq<Option<V>>) -> Seq<V>
    decreases values.len(),
{
    if values.len() == 0 {
        Seq::empty()
    } else {
        joined(present(values.drop_last()), values.last())
    }
}

/// Values with one more appended unless it is NULL.
pub open spec fn joined<V>(values: Seq<V>, value: Option<V>) -> Seq<V> {
    match value {
        Some(value) => values.push(value),
        None => values,
    }
}

/// What the given rows hold.
pub open spec fn held<V>(cells: Cells<V>, rows: Seq<int>) -> Seq<Option<V>> {
    Seq::new(rows.len(), |k: int| value_at(cells, rows[k]))
}

/// The non-NULL values of the selected rows before row `end`.
pub open spec fn values_before<V>(cells: Cells<V>, flags: Seq<bool>, end: int) -> Seq<V> {
    present(held(cells, selected_rows(flags, 0, end)))
}

/// The non-NULL values of the selected rows.
pub open spec fn selected_values<V>(cells: Cells<V>, flags: Seq<bool>) -> Seq<V> {
    values_before(cells, flags, flags.len() as int)
}

/// The running sums of the selected values fit in an int8, as far as the
/// selected rows are prepared.
pub open spec fn sums_fit(cells: Cells<i32>, flags: Seq<bool>) -> bool {
    forall|end: int|
        0 <= end <= flags.len() && ready_before(cells, flags, end) ==> i64::MIN <= #[trigger] total(
            values_before(cells, flags, end),
        ) <= i64::MAX
}

/// Why an aggregate failed: the first word with an unprepared selected row.
pub open spec fn aggregate_failed<C: ColumnReader<Value = i32>>(
    column: &C,
    flags: Seq<bool>,
    error: Error,
) -> bool {
    exists|index: int, selected: u64|
        {
            &&& 0 <= index < words_for(flags.len() as int)
            &&& #[trigger] covers(selected, flags, index)
            &&& ready_before(column.cells(), flags, 64 * index)
            &&& !word_ready(column.cells(), index, selected)
            &&& error == column.word_error(index, selected)
        }
}

/// The values of two parts join.
proof fn lemma_present_add<V>(a: Seq<Option<V>>, b: Seq<Option<V>>)
    ensures
        present(a + b) == present(a) + present(b),
    decreases b.len(),
{
    if b.len() == 0 {
        assert(a + b =~= a);
        assert(present(a) + present(b) =~= present(a));
    } else {
        lemma_present_add(a, b.drop_last());
        assert((a + b).drop_last() =~= a + b.drop_last());
        assert((a + b).last() == b.last());
        assert(present(a + b) =~= present(a) + present(b));
    }
}

/// What one more row holds joins the values.
proof fn lemma_held_push<V>(cells: Cells<V>, rows: Seq<int>, row: int)
    ensures
        present(held(cells, rows.push(row))) == joined(
            present(held(cells, rows)),
            value_at(cells, row),
        ),
{
    assert(held(cells, rows.push(row)).drop_last() =~= held(cells, rows));
}

/// What two parts hold.
proof fn lemma_held_add<V>(cells: Cells<V>, a: Seq<int>, b: Seq<int>)
    ensures
        present(held(cells, a + b)) == present(held(cells, a)) + present(held(cells, b)),
{
    assert(held(cells, a + b) =~= held(cells, a) + held(cells, b));
    lemma_present_add(held(cells, a), held(cells, b));
}

/// Never more values than rows.
proof fn lemma_present_len<V>(values: Seq<Option<V>>)
    ensures
        present(values).len() <= values.len(),
    decreases values.len(),
{
    if values.len() > 0 {
        lemma_present_len(values.drop_last());
    }
}

/// The sum and the extremes of two parts.
proof fn lemma_parts(a: Seq<i32>, b: Seq<i32>)
    ensures
        total(a + b) == total(a) + total(b),
        least(a + b) == if least(b) < least(a) {
            least(b)
        } else {
            least(a)
        },
        greatest(a + b) == if greatest(b) > greatest(a) {
            greatest(b)
        } else {
            greatest(a)
        },
    decreases b.len(),
{
    if b.len() == 0 {
        assert(a + b =~= a);
    } else {
        lemma_parts(a, b.drop_last());
        assert((a + b).drop_last() =~= a + b.drop_last());
    }
}

/// Sums of int4 values grow by at most 2^31 per value.
proof fn lemma_total_bound(values: Seq<i32>)
    ensures
        -0x8000_0000 * values.len() <= total(values) <= 0x8000_0000 * values.len(),
    decreases values.len(),
{
    if values.len() > 0 {
        lemma_total_bound(values.drop_last());
    }
}

/// Over at most 2^31 rows a sum cannot overflow.
pub proof fn lemma_sums_fit(cells: Cells<i32>, flags: Seq<bool>)
    requires
        flags.len() <= 0x8000_0000,
    ensures
        sums_fit(cells, flags),
{
    assert forall|end: int| 0 <= end <= flags.len() && ready_before(cells, flags, end) implies i64::MIN
        <= #[trigger] total(values_before(cells, flags, end)) <= i64::MAX by {
        let rows = selected_rows(flags, 0, end);
        lemma_rows_members(|row: int| flags[row], 0, end);
        lemma_present_len(held(cells, rows));
        let count = values_before(cells, flags, end).len();
        lemma_total_bound(values_before(cells, flags, end));
        assert(0x8000_0000 * count <= 0x4000_0000_0000_0000) by (nonlinear_arith)
            requires
                count <= 0x8000_0000,
        ;
    }
}

/// The running state of one aggregate: it follows from the values seen so far,
/// as long as they fit.
trait Accumulator: Copy {
    /// The state after `values`.
    spec fn of(values: Seq<i32>) -> Self;

    /// The state after `values` is within the machine's limits.
    spec fn fits(values: Seq<i32>) -> bool;

    /// One more row is within the machine's limits.
    spec fn takes(self, value: Option<i32>) -> bool;

    /// The state after one more row.
    spec fn after(self, value: Option<i32>) -> Self;

    /// Rows advance the state as their values do.
    proof fn lemma_after(seen: Seq<i32>, value: Option<i32>)
        requires
            Self::fits(seen),
            Self::fits(joined(seen, value)),
        ensures
            Self::of(seen).takes(value),
            Self::of(seen).after(value) == Self::of(joined(seen, value)),
    ;

    /// Take one row.
    fn row(self, value: Option<i32>) -> (next: Self)
        requires
            self.takes(value),
        ensures
            next == self.after(value),
    ;

    /// Take the selected rows of a whole word.
    fn block(self, block: &WordBlock<'_, i32>, selected: u64, Ghost(seen): Ghost<Seq<i32>>) -> (next: Self)
        requires
            self == Self::of(seen),
            Self::fits(seen),
            Self::fits(seen + block_values(*block, selected)),
        ensures
            next == Self::of(seen + block_values(*block, selected)),
    ;
}

#[derive(Clone, Copy)]
struct Counted {
    count: usize,
}

impl Accumulator for Counted {
    closed spec fn of(values: Seq<i32>) -> Self {
        Counted { count: values.len() as usize }
    }

    closed spec fn fits(values: Seq<i32>) -> bool {
        values.len() <= usize::MAX
    }

    closed spec fn takes(self, value: Option<i32>) -> bool {
        value is Some ==> self.count < usize::MAX
    }

    closed spec fn after(self, value: Option<i32>) -> Self {
        Counted {
            count: if value is Some {
                (self.count + 1) as usize
            } else {
                self.count
            },
        }
    }

    proof fn lemma_after(seen: Seq<i32>, value: Option<i32>) {
    }

    fn row(self, value: Option<i32>) -> (next: Self) {
        Counted {
            count: self.count + if value.is_some() {
                1
            } else {
                0
            },
        }
    }

    fn block(self, block: &WordBlock<'_, i32>, selected: u64, Ghost(seen): Ghost<Seq<i32>>) -> (next: Self) {
        Counted { count: self.count + bulk::count(block, selected) }
    }
}

#[derive(Clone, Copy)]
struct Summed {
    count: usize,
    sum: i64,
}

impl Accumulator for Summed {
    closed spec fn of(values: Seq<i32>) -> Self {
        Summed { count: values.len() as usize, sum: total(values) as i64 }
    }

    closed spec fn fits(values: Seq<i32>) -> bool {
        values.len() <= usize::MAX && i64::MIN <= total(values) <= i64::MAX
    }

    closed spec fn takes(self, value: Option<i32>) -> bool {
        value matches Some(value) ==> self.count < usize::MAX && i64::MIN <= self.sum + value
            <= i64::MAX
    }

    closed spec fn after(self, value: Option<i32>) -> Self {
        match value {
            Some(value) => Summed {
                count: (self.count + 1) as usize,
                sum: (self.sum + value) as i64,
            },
            None => self,
        }
    }

    proof fn lemma_after(seen: Seq<i32>, value: Option<i32>) {
        if let Some(value) = value {
            assert(seen.push(value).drop_last() =~= seen);
        }
    }

    fn row(self, value: Option<i32>) -> (next: Self) {
        let (present, part): (usize, i64) = match value {
            Some(value) => (1, value as i64),
            None => (0, 0),
        };
        Summed { count: self.count + present, sum: self.sum + part }
    }

    fn block(self, block: &WordBlock<'_, i32>, selected: u64, Ghost(seen): Ghost<Seq<i32>>) -> (next: Self) {
        proof {
            lemma_parts(seen, block_values(*block, selected));
        }
        let (present, part) = bulk::sum(block, selected);
        Summed { count: self.count + present, sum: self.sum + part }
    }
}

#[derive(Clone, Copy)]
struct Least {
    count: usize,
    least: i32,
}

impl Accumulator for Least {
    closed spec fn of(values: Seq<i32>) -> Self {
        Least { count: values.len() as usize, least: least(values) }
    }

    closed spec fn fits(values: Seq<i32>) -> bool {
        values.len() <= usize::MAX
    }

    closed spec fn takes(self, value: Option<i32>) -> bool {
        value is Some ==> self.count < usize::MAX
    }

    closed spec fn after(self, value: Option<i32>) -> Self {
        match value {
            Some(value) => Least {
                count: (self.count + 1) as usize,
                least: if value < self.least {
                    value
                } else {
                    self.least
                },
            },
            None => self,
        }
    }

    proof fn lemma_after(seen: Seq<i32>, value: Option<i32>) {
        if let Some(value) = value {
            assert(seen.push(value).drop_last() =~= seen);
        }
    }

    fn row(self, value: Option<i32>) -> (next: Self) {
        // A NULL row contributes the identity of the operation.
        let (present, part): (usize, i32) = match value {
            Some(value) => (1, value),
            None => (0, i32::MAX),
        };
        Least {
            count: self.count + present,
            least: if part < self.least {
                part
            } else {
                self.least
            },
        }
    }

    fn block(self, block: &WordBlock<'_, i32>, selected: u64, Ghost(seen): Ghost<Seq<i32>>) -> (next: Self) {
        proof {
            lemma_parts(seen, block_values(*block, selected));
        }
        let (present, part) = bulk::min(block, selected);
        Least {
            count: self.count + present,
            least: if part < self.least {
                part
            } else {
                self.least
            },
        }
    }
}

#[derive(Clone, Copy)]
struct Greatest {
    count: usize,
    greatest: i32,
}

impl Accumulator for Greatest {
    closed spec fn of(values: Seq<i32>) -> Self {
        Greatest { count: values.len() as usize, greatest: greatest(values) }
    }

    closed spec fn fits(values: Seq<i32>) -> bool {
        values.len() <= usize::MAX
    }

    closed spec fn takes(self, value: Option<i32>) -> bool {
        value is Some ==> self.count < usize::MAX
    }

    closed spec fn after(self, value: Option<i32>) -> Self {
        match value {
            Some(value) => Greatest {
                count: (self.count + 1) as usize,
                greatest: if value > self.greatest {
                    value
                } else {
                    self.greatest
                },
            },
            None => self,
        }
    }

    proof fn lemma_after(seen: Seq<i32>, value: Option<i32>) {
        if let Some(value) = value {
            assert(seen.push(value).drop_last() =~= seen);
        }
    }

    fn row(self, value: Option<i32>) -> (next: Self) {
        // A NULL row contributes the identity of the operation.
        let (present, part): (usize, i32) = match value {
            Some(value) => (1, value),
            None => (0, i32::MIN),
        };
        Greatest {
            count: self.count + present,
            greatest: if part > self.greatest {
                part
            } else {
                self.greatest
            },
        }
    }

    fn block(self, block: &WordBlock<'_, i32>, selected: u64, Ghost(seen): Ghost<Seq<i32>>) -> (next: Self) {
        proof {
            lemma_parts(seen, block_values(*block, selected));
        }
        let (present, part) = bulk::max(block, selected);
        Greatest {
            count: self.count + present,
            greatest: if part > self.greatest {
                part
            } else {
                self.greatest
            },
        }
    }
}

/// The states along some rows are within the machine's limits.
spec fn rows_fit<A: Accumulator>(cells: Cells<i32>, rows: Seq<int>) -> bool {
    forall|k: int|
        0 <= k <= rows.len() ==> A::fits(present(held(cells, #[trigger] rows.take(k))))
}

/// The states along a selection are within the machine's limits, as far as
/// its rows are prepared.
spec fn selection_fits<A: Accumulator>(cells: Cells<i32>, flags: Seq<bool>) -> bool {
    forall|end: int|
        0 <= end <= flags.len() && ready_before(cells, flags, end) ==> A::fits(
            #[trigger] values_before(cells, flags, end),
        )
}

/// A selection that fits fits along its rows.
proof fn lemma_rows_fit<A: Accumulator>(cells: Cells<i32>, flags: Seq<bool>, end: int)
    requires
        selection_fits::<A>(cells, flags),
        0 <= end <= flags.len(),
        ready_before(cells, flags, end),
    ensures
        rows_fit::<A>(cells, selected_rows(flags, 0, end)),
{
    let p = |row: int| flags[row];
    let rows = selected_rows(flags, 0, end);
    lemma_rows_members(p, 0, end);
    assert forall|k: int| 0 <= k <= rows.len() implies A::fits(
        present(held(cells, #[trigger] rows.take(k))),
    ) by {
        if k < rows.len() {
            lemma_rows_before(p, 0, end, k);
            assert(A::fits(values_before(cells, flags, rows[k])));
        } else {
            assert(rows.take(k) =~= rows);
            assert(A::fits(values_before(cells, flags, end)));
        }
    }
}

/// A fold that advances the state row by row ends in the state of its rows.
proof fn lemma_folded_rows<A: Accumulator, G: FnMut(A, (usize, Option<i32>)) -> A>(
    fold: G,
    cells: Cells<i32>,
    done: Seq<int>,
    rows: Seq<int>,
    acc: A,
)
    requires
        rows_fit::<A>(cells, done + rows),
        forall|a: A, item: (usize, Option<i32>), r: A| #[trigger]
            call_ensures(fold, (a, item), r) ==> r == a.after(item.1),
        folded(fold, A::of(present(held(cells, done))), items(cells, rows), acc),
    ensures
        acc == A::of(present(held(cells, done + rows))),
    decreases rows.len(),
{
    let init = A::of(present(held(cells, done)));
    let all = items(cells, rows);
    if rows.len() == 0 {
        assert(done + rows =~= done);
    } else {
        let less = rows.drop_last();
        let row = rows.last();
        assert(all.drop_last() =~= items(cells, less));
        assert(all.last() == (row as usize, value_at(cells, row)));
        let before = choose|before: A|
            folded(fold, init, all.drop_last(), before) && #[trigger] call_ensures(
                fold,
                (before, all.last()),
                acc,
            );
        lemma_rows_fit_step::<A>(cells, done, rows);
        lemma_folded_rows(fold, cells, done, less, before);
        A::lemma_after(present(held(cells, done + less)), value_at(cells, row));
    }
}

/// What fits along some rows fits along all but the last.
proof fn lemma_rows_fit_step<A: Accumulator>(cells: Cells<i32>, done: Seq<int>, rows: Seq<int>)
    requires
        rows_fit::<A>(cells, done + rows),
        rows.len() > 0,
    ensures
        rows_fit::<A>(cells, done + rows.drop_last()),
        A::fits(present(held(cells, done + rows.drop_last()))),
        A::fits(present(held(cells, done + rows))),
        present(held(cells, done + rows)) == joined(
            present(held(cells, done + rows.drop_last())),
            value_at(cells, rows.last()),
        ),
{
    let all = done + rows;
    let less = done + rows.drop_last();
    assert forall|k: int| 0 <= k <= less.len() implies A::fits(
        present(held(cells, #[trigger] less.take(k))),
    ) by {
        assert(less.take(k) =~= all.take(k));
    }
    assert(less.take(less.len() as int) =~= less);
    assert(all.take(all.len() as int) =~= all);
    assert(all =~= less.push(rows.last()));
    lemma_held_push(cells, less, rows.last());
}

/// A fallible fold that advances the state row by row ends in the state of its
/// rows.
proof fn lemma_try_folded_rows<
    A: Accumulator,
    F: FnMut(A, usize, Option<i32>) -> Result<A, Error>,
>(fold: F, cells: Cells<i32>, rows: Seq<int>, acc: A)
    requires
        rows_fit::<A>(cells, rows),
        forall|a: A, row: usize, value: Option<i32>, r: Result<A, Error>| #[trigger]
            call_ensures(fold, (a, row, value), r) ==> r == Ok::<A, Error>(a.after(value)),
        try_folded(fold, A::of(Seq::empty()), items(cells, rows), acc),
    ensures
        acc == A::of(present(held(cells, rows))),
    decreases rows.len(),
{
    let init = A::of(Seq::empty());
    let all = items(cells, rows);
    if rows.len() == 0 {
        assert(present(held(cells, rows)) =~= Seq::<i32>::empty());
    } else {
        let less = rows.drop_last();
        let row = rows.last();
        assert(all.drop_last() =~= items(cells, less));
        assert(all.last() == (row as usize, value_at(cells, row)));
        let before = choose|before: A|
            try_folded(fold, init, all.drop_last(), before) && #[trigger] call_ensures(
                fold,
                (before, all.last().0, all.last().1),
                Ok::<A, Error>(acc),
            );
        let none = Seq::<int>::empty();
        assert(none + rows =~= rows);
        assert(none + less =~= less);
        lemma_rows_fit_step::<A>(cells, none, rows);
        lemma_try_folded_rows(fold, cells, less, before);
        A::lemma_after(present(held(cells, less)), value_at(cells, row));
    }
}

/// The outcome of an aggregate over a selection of the column's row count.
spec fn aggregated<C: ColumnReader<Value = i32>, A: Accumulator>(
    column: &C,
    flags: Seq<bool>,
    result: Result<A, Error>,
) -> bool {
    match result {
        Ok(acc) => {
            &&& selection_ready(column.cells(), flags)
            &&& acc == A::of(selected_values(column.cells(), flags))
        },
        Err(error) => aggregate_failed(column, flags, error),
    }
}

/// The values of the rows up to the next word.
proof fn lemma_next_word(cells: Cells<i32>, flags: Seq<bool>, index: int, selected: u64)
    requires
        0 <= index < words_for(flags.len() as int),
        covers(selected, flags, index),
    ensures
        ({
            let end = word_start(flags.len() as int, index);
            let next = word_start(flags.len() as int, index + 1);
            let done = selected_rows(flags, 0, end);
            let rows = word_rows(64 * index, selected);
            &&& end == 64 * index
            &&& rows == selected_rows(flags, end, next)
            &&& selected_rows(flags, 0, next) == done + rows
            &&& values_before(cells, flags, next) == values_before(cells, flags, end) + present(
                held(cells, rows),
            )
        }),
{
    let end = word_start(flags.len() as int, index);
    let next = word_start(flags.len() as int, index + 1);
    lemma_word_rows_cover(selected, flags, index);
    lemma_rows_split(|row: int| flags[row], 0, end, next);
    lemma_held_add(cells, selected_rows(flags, 0, end), word_rows(64 * index, selected));
}

/// Whole words where the reader exposes them; single rows through `get`, the
/// tail and refused words through the word iterator's fold, a refused single
/// row among them.
fn aggregate_bulk<C: ColumnReader<Value = i32>, A: Accumulator>(
    column: &C,
    rows: &RowMaskView<'_>,
    init: A,
) -> (result: Result<A, Error>)
    requires
        int4_datums(column),
        column.cells().len() == rows@.len(),
        selection_fits::<A>(column.cells(), rows@),
        init == A::of(Seq::empty()),
    ensures
        aggregated(column, rows@, result),
{
    let ghost cells = column.cells();
    let ghost flags = rows@;
    let mut acc = init;
    let count = word_count(rows.nrows());
    let mut index: usize = 0;
    proof {
        assert(selected_rows(flags, 0, 0) =~= Seq::<int>::empty());
        assert(values_before(cells, flags, 0) =~= Seq::<i32>::empty());
    }
    while index < count
        invariant
            int4_datums(column),
            cells == column.cells(),
            flags == rows@,
            cells.len() == flags.len(),
            flags.len() <= usize::MAX,
            selection_fits::<A>(cells, flags),
            index <= count,
            count == words_for(flags.len() as int),
            ready_before(cells, flags, word_start(flags.len() as int, index as int)),
            acc == A::of(
                values_before(cells, flags, word_start(flags.len() as int, index as int)),
            ),
        decreases count - index,
    {
        let selected = rows.word(index).unwrap();
        let ghost end = word_start(flags.len() as int, index as int);
        let ghost next = word_start(flags.len() as int, index + 1);
        let ghost seen = values_before(cells, flags, end);
        let ghost done = selected_rows(flags, 0, end);
        let ghost inner = word_rows(64 * index, selected);
        proof {
            lemma_next_word(cells, flags, index as int, selected);
            lemma_word_ready(cells, flags, index as int, selected);
            lemma_word_rows_contains(64 * index, selected);
            lemma_word_rows_len(64 * index, selected);
            lemma_word_rows_empty(64 * index);
        }
        if selected == 0 {
            assert(seen + present(held(cells, inner)) =~= seen);
        } else {
            let single = if is_single(selected) {
                proof {
                    lemma_word_rows_pop(64 * index, selected);
                    lemma_lowest_bit(selected);
                    assert(bit(selected, u64_trailing_zeros(selected) as int));
                    assert(inner =~= Seq::<int>::empty().push(inner[0]));
                }
                match column.get(index * 64 + selected.trailing_zeros() as usize) {
                    Ok(value) => Some(value),
                    // The word iterator says why.
                    Err(_) => None,
                }
            } else {
                None
            };
            if let Some(value) = single {
                proof {
                    assert forall|i: int| #[trigger] bit(selected, i) implies ready(
                        cells,
                        64 * index + i,
                    ) by {
                        assert(inner.contains(64 * index + i));
                    }
                    lemma_rows_fit::<A>(cells, flags, next);
                    lemma_rows_fit_step::<A>(cells, done, inner);
                    assert(done + inner.drop_last() =~= done);
                    A::lemma_after(seen, value);
                }
                acc = acc.row(value);
            } else if let Some(block) = column.word_block(index) {
                proof {
                    lemma_block_held(column, block, index as int, selected);
                    assert(A::fits(seen));
                    assert(A::fits(values_before(cells, flags, next)));
                }
                acc = acc.block(&block, selected, Ghost(seen));
            } else {
                let words = match column.word_values(index, selected) {
                    Ok(words) => words,
                    Err(error) => {
                        assert(covers(selected, flags, index as int));
                        return Err(error);
                    },
                };
                let fold = |acc: A, item: (usize, Option<i32>)| -> (after: A)
                    requires
                        acc.takes(item.1),
                    ensures
                        after == acc.after(item.1),
                    { acc.row(item.1) };
                proof {
                    lemma_rows_fit::<A>(cells, flags, next);
                    lemma_folds_rows::<A, _>(fold, cells, done, inner);
                }
                acc = C::fold_word(words, acc, fold);
                proof {
                    lemma_folded_rows(fold, cells, done, inner, acc);
                }
            }
        }
        index = index + 1;
    }
    Ok(acc)
}

/// A fold that advances the state accepts rows along which the state fits.
proof fn lemma_folds_rows<A: Accumulator, G: FnMut(A, (usize, Option<i32>)) -> A>(
    fold: G,
    cells: Cells<i32>,
    done: Seq<int>,
    rows: Seq<int>,
)
    requires
        rows_fit::<A>(cells, done + rows),
        forall|a: A, item: (usize, Option<i32>)|
            a.takes(item.1) ==> #[trigger] call_requires(fold, (a, item)),
        forall|a: A, item: (usize, Option<i32>), r: A| #[trigger]
            call_ensures(fold, (a, item), r) ==> r == a.after(item.1),
    ensures
        folds_items(fold, A::of(present(held(cells, done))), items(cells, rows)),
{
    let init = A::of(present(held(cells, done)));
    let all = items(cells, rows);
    assert forall|k: int, acc: A|
        0 <= k < all.len() && #[trigger] folded(fold, init, all.take(k), acc) implies call_requires(
        fold,
        (acc, all[k]),
    ) by {
        let part = rows.take(k);
        let more = rows.take(k + 1);
        assert(all.take(k) =~= items(cells, part));
        assert(more.drop_last() =~= part);
        assert(more.last() == rows[k]);
        lemma_rows_fit_prefix::<A>(cells, done, rows, k);
        lemma_rows_fit_prefix::<A>(cells, done, rows, k + 1);
        lemma_rows_fit_step::<A>(cells, done, more);
        lemma_folded_rows(fold, cells, done, part, acc);
        A::lemma_after(present(held(cells, done + part)), value_at(cells, rows[k]));
        assert(all[k].1 == value_at(cells, rows[k]));
    }
}

/// What fits along some rows fits along a part of them.
proof fn lemma_rows_fit_prefix<A: Accumulator>(
    cells: Cells<i32>,
    done: Seq<int>,
    rows: Seq<int>,
    k: int,
)
    requires
        rows_fit::<A>(cells, done + rows),
        0 <= k <= rows.len(),
    ensures
        rows_fit::<A>(cells, done + rows.take(k)),
{
    let all = done + rows;
    let less = done + rows.take(k);
    assert forall|j: int| 0 <= j <= less.len() implies A::fits(
        present(held(cells, #[trigger] less.take(j))),
    ) by {
        assert(less.take(j) =~= all.take(j));
    }
}

/// Run one aggregate. The first word decides the strategy for the call;
/// deciding once keeps the loops free of per-word bookkeeping.
fn aggregate<C: ColumnReader<Value = i32>, A: Accumulator>(
    column: &C,
    rows: &RowMaskView<'_>,
    init: A,
) -> (result: Result<A, Error>)
    requires
        int4_datums(column),
        column.cells().len() == rows@.len() ==> selection_fits::<A>(column.cells(), rows@),
        init == A::of(Seq::empty()),
    ensures
        column.cells().len() != rows@.len() ==> (result matches Err(error) && error
            == Error::ColumnSelectionRows),
        column.cells().len() == rows@.len() ==> aggregated(column, rows@, result),
{
    let ghost cells = column.cells();
    let ghost flags = rows@;
    let bulk = rows.nrows() >= 64 && match rows.word(0) {
        Some(selected) => (selected == u64::MAX || (!is_single(selected) && count_ones(selected)
            >= BULK_MIN_ROWS)) && column.word_block(0).is_some(),
        None => false,
    };
    if bulk && column.nrows() == rows.nrows() {
        return aggregate_bulk(column, rows, init);
    }
    let fold = |acc: A, _row: usize, value: Option<i32>| -> (after: Result<A, Error>)
        requires
            acc.takes(value),
        ensures
            after == Ok::<A, Error>(acc.after(value)),
        { Ok(acc.row(value)) };
    proof {
        if cells.len() == flags.len() {
            assert forall|row: int, acc: A|
                0 <= row < flags.len() && flags[row] && ready_before(cells, flags, word_end(row))
                    && #[trigger] folded_before(cells, flags, row, fold, init, acc) implies call_requires(
                fold,
                (acc, row as usize, value_at(cells, row)),
            ) by {
                lemma_reached::<A, _>(fold, cells, flags, row, acc);
            }
        }
    }
    let result = column.try_fold_selected(rows, init, fold);
    proof {
        if cells.len() == flags.len() {
            lemma_fold_cannot_fail::<A, _>(fold, cells, flags, init);
            if result is Ok {
                lemma_rows_fit::<A>(cells, flags, flags.len() as int);
                lemma_try_folded_rows(
                    fold,
                    cells,
                    selected_rows(flags, 0, flags.len() as int),
                    result->Ok_0,
                );
            }
        }
    }
    result
}

/// A fold that always advances the state never fails.
proof fn lemma_fold_cannot_fail<
    A: Accumulator,
    F: FnMut(A, usize, Option<i32>) -> Result<A, Error>,
>(fold: F, cells: Cells<i32>, flags: Seq<bool>, init: A)
    requires
        forall|a: A, row: usize, value: Option<i32>, r: Result<A, Error>| #[trigger]
            call_ensures(fold, (a, row, value), r) ==> r == Ok::<A, Error>(a.after(value)),
    ensures
        forall|error: Error| !fold_failed(cells, flags, fold, init, error),
{
    assert forall|error: Error| !fold_failed(cells, flags, fold, init, error) by {
        if fold_failed(cells, flags, fold, init, error) {
            let (row, acc) = choose|row: int, acc: A|
                0 <= row < flags.len() && flags[row] && ready_before(cells, flags, word_end(row))
                    && #[trigger] folded_before(cells, flags, row, fold, init, acc) && call_ensures(
                    fold,
                    (acc, row as usize, value_at(cells, row)),
                    Err::<A, Error>(error),
                );
            assert(call_ensures(
                fold,
                (acc, row as usize, value_at(cells, row)),
                Err::<A, Error>(error),
            ));
        }
    }
}

/// A fold that advances the state accepts every row of a selection that it can
/// reach.
proof fn lemma_reached<A: Accumulator, F: FnMut(A, usize, Option<i32>) -> Result<A, Error>>(
    fold: F,
    cells: Cells<i32>,
    flags: Seq<bool>,
    row: int,
    acc: A,
)
    requires
        selection_fits::<A>(cells, flags),
        0 <= row < flags.len(),
        flags[row],
        ready_before(cells, flags, word_end(row)),
        forall|a: A, row: usize, value: Option<i32>, r: Result<A, Error>| #[trigger]
            call_ensures(fold, (a, row, value), r) ==> r == Ok::<A, Error>(a.after(value)),
        folded_before(cells, flags, row, fold, A::of(Seq::empty()), acc),
    ensures
        acc.takes(value_at(cells, row)),
{
    let rows = selected_rows(flags, 0, row);
    lemma_rows_fit::<A>(cells, flags, row);
    lemma_try_folded_rows(fold, cells, rows, acc);
    assert(selected_rows(flags, 0, row + 1) == rows.push(row));
    lemma_held_push(cells, rows, row);
    assert(A::fits(values_before(cells, flags, row)));
    assert(A::fits(values_before(cells, flags, row + 1)));
    A::lemma_after(values_before(cells, flags, row), value_at(cells, row));
}

/// Never more values than rows, so that a count fits.
proof fn lemma_counts_fit(cells: Cells<i32>, flags: Seq<bool>, limit: nat)
    requires
        flags.len() <= limit,
    ensures
        forall|end: int|
            0 <= end <= flags.len() ==> (#[trigger] values_before(cells, flags, end)).len() <= limit,
{
    assert forall|end: int| 0 <= end <= flags.len() implies (#[trigger] values_before(
        cells,
        flags,
        end,
    )).len() <= limit by {
        lemma_rows_members(|row: int| flags[row], 0, end);
        lemma_present_len(held(cells, selected_rows(flags, 0, end)));
    }
}

/// Count the selected non-NULL rows.
///
/// Different row counts and unprepared selected rows fail as in
/// `ColumnReader::try_fold_selected`; rows already counted are not reported.
pub fn count<C: ColumnReader<Value = i32>>(column: &C, rows: &RowMaskView<'_>) -> (result: Result<
    usize,
    Error,
>)
    requires
        int4_datums(column),
    ensures
        column.cells().len() != rows@.len() ==> (result matches Err(error) && error
            == Error::ColumnSelectionRows),
        column.cells().len() == rows@.len() ==> (result is Ok <==> selection_ready(
            column.cells(),
            rows@,
        )),
        column.cells().len() == rows@.len() ==> match result {
            Ok(value) => value == selected_values(column.cells(), rows@).len(),
            Err(error) => aggregate_failed(column, rows@, error),
        },
{
    proof {
        if column.cells().len() == rows@.len() {
            rows.lemma_row_count();
            lemma_counts_fit(column.cells(), rows@, rows@.len());
            lemma_ready_words(column.cells(), rows@);
        }
    }
    match aggregate(column, rows, Counted { count: 0 }) {
        Ok(state) => Ok(state.count),
        Err(error) => Err(error),
    }
}

/// Sum the selected non-NULL values as int8, `None` without any.
///
/// Errors are those of `count`.
pub fn sum<C: ColumnReader<Value = i32>>(column: &C, rows: &RowMaskView<'_>) -> (result: Result<
    Option<i64>,
    Error,
>)
    requires
        int4_datums(column),
        column.cells().len() == rows@.len() ==> sums_fit(column.cells(), rows@),
    ensures
        column.cells().len() != rows@.len() ==> (result matches Err(error) && error
            == Error::ColumnSelectionRows),
        column.cells().len() == rows@.len() ==> (result is Ok <==> selection_ready(
            column.cells(),
            rows@,
        )),
        column.cells().len() == rows@.len() ==> match result {
            Ok(value) => value == sum_value(selected_values(column.cells(), rows@)) && (
            value matches Some(sum) ==> sum as int == total(
                selected_values(column.cells(), rows@),
            )),
            Err(error) => aggregate_failed(column, rows@, error),
        },
{
    proof {
        if column.cells().len() == rows@.len() {
            rows.lemma_row_count();
            lemma_counts_fit(column.cells(), rows@, rows@.len());
            lemma_ready_words(column.cells(), rows@);
        }
    }
    let state = match aggregate(column, rows, Summed { count: 0, sum: 0 }) {
        Ok(state) => state,
        Err(error) => {
            return Err(error);
        },
    };
    Ok(
        if state.count > 0 {
            Some(state.sum)
        } else {
            None
        },
    )
}

/// The least selected non-NULL value, `None` without any.
///
/// Errors are those of `count`.
pub fn min<C: ColumnReader<Value = i32>>(column: &C, rows: &RowMaskView<'_>) -> (result: Result<
    Option<i32>,
    Error,
>)
    requires
        int4_datums(column),
    ensures
        column.cells().len() != rows@.len() ==> (result matches Err(error) && error
            == Error::ColumnSelectionRows),
        column.cells().len() == rows@.len() ==> (result is Ok <==> selection_ready(
            column.cells(),
            rows@,
        )),
        column.cells().len() == rows@.len() ==> match result {
            Ok(value) => value == min_value(selected_values(column.cells(), rows@)),
            Err(error) => aggregate_failed(column, rows@, error),
        },
{
    proof {
        if column.cells().len() == rows@.len() {
            rows.lemma_row_count();
            lemma_counts_fit(column.cells(), rows@, rows@.len());
            lemma_ready_words(column.cells(), rows@);
        }
    }
    let state = match aggregate(column, rows, Least { count: 0, least: i32::MAX }) {
        Ok(state) => state,
        Err(error) => {
            return Err(error);
        },
    };
    Ok(
        if state.count > 0 {
            Some(state.least)
        } else {
            None
        },
    )
}

/// The greatest selected non-NULL value, `None` without any.
///
/// Errors are those of `count`.
pub fn max<C: ColumnReader<Value = i32>>(column: &C, rows: &RowMaskView<'_>) -> (result: Result<
    Option<i32>,
    Error,
>)
    requires
        int4_datums(column),
    ensures
        column.cells().len() != rows@.len() ==> (result matches Err(error) && error
            == Error::ColumnSelectionRows),
        column.cells().len() == rows@.len() ==> (result is Ok <==> selection_ready(
            column.cells(),
            rows@,
        )),
        column.cells().len() == rows@.len() ==> match result {
            Ok(value) => value == max_value(selected_values(column.cells(), rows@)),
            Err(error) => aggregate_failed(column, rows@, error),
        },
{
    proof {
        if column.cells().len() == rows@.len() {
            rows.lemma_row_count();
            lemma_counts_fit(column.cells(), rows@, rows@.len());
            lemma_ready_words(column.cells(), rows@);
        }
    }
    let state = match aggregate(column, rows, Greatest { count: 0, greatest: i32::MIN }) {
        Ok(state) => state,
        Err(error) => {
            return Err(error);
        },
    };
    Ok(
        if state.count > 0 {
            Some(state.greatest)
        } else {
            None
        },
    )
}

/// The least value is one of the values and none is below it.
pub proof fn lemma_least(values: Seq<i32>)
    requires
        values.len() > 0,
    ensures
        values.contains(least(values)),
        forall|k: int| 0 <= k < values.len() ==> least(values) <= #[trigger] values[k],
    decreases values.len(),
{
    let rest = values.drop_last();
    if rest.len() > 0 {
        lemma_least(rest);
        let k = choose|k: int| 0 <= k < rest.len() && rest[k] == least(rest);
        assert(values[k] == least(rest));
    } else {
        assert(least(rest) == i32::MAX);
    }
    assert(values[values.len() - 1] == values.last());
    assert forall|k: int| 0 <= k < values.len() implies least(values) <= #[trigger] values[k] by {
        if k < rest.len() {
            assert(rest[k] == values[k]);
        }
    }
}

/// The greatest value is one of the values and none is above it.
pub proof fn lemma_greatest(values: Seq<i32>)
    requires
        values.len() > 0,
    ensures
        values.contains(greatest(values)),
        forall|k: int| 0 <= k < values.len() ==> #[trigger] values[k] <= greatest(values),
    decreases values.len(),
{
    let rest = values.drop_last();
    if rest.len() > 0 {
        lemma_greatest(rest);
        let k = choose|k: int| 0 <= k < rest.len() && rest[k] == greatest(rest);
        assert(values[k] == greatest(rest));
    } else {
        assert(greatest(rest) == i32::MIN);
    }
    assert(values[values.len() - 1] == values.last());
    assert forall|k: int| 0 <= k < values.len() implies #[trigger] values[k] <= greatest(values) by {
        if k < rest.len() {
            assert(rest[k] == values[k]);
        }
    }
}

/// The rows of either of two selections.
pub open spec fn selected_either(a: Seq<bool>, b: Seq<bool>) -> Seq<bool> {
    Seq::new(a.len(), |row: int| a[row] || b[row])
}

/// Aggregates over two disjoint selections make up those over both: counts and
/// sums add, the extremes are those of the parts, and both parts are prepared
/// exactly when the whole is.
pub proof fn lemma_calls_combine(cells: Cells<i32>, a: Seq<bool>, b: Seq<bool>)
    requires
        a.len() == b.len(),
        forall|row: int| 0 <= row < a.len() ==> !(#[trigger] a[row] && b[row]),
    ensures
        ({
            let all = selected_values(cells, selected_either(a, b));
            let first = selected_values(cells, a);
            let second = selected_values(cells, b);
            &&& all.len() == first.len() + second.len()
            &&& total(all) == total(first) + total(second)
            &&& least(all) == if least(second) < least(first) {
                least(second)
            } else {
                least(first)
            }
            &&& greatest(all) == if greatest(second) > greatest(first) {
                greatest(second)
            } else {
                greatest(first)
            }
        }),
        selection_ready(cells, selected_either(a, b)) <==> selection_ready(cells, a)
            && selection_ready(cells, b),
{
    lemma_calls_combine_before(cells, a, b, a.len() as int);
    let either = selected_either(a, b);
    if selection_ready(cells, either) {
        assert forall|row: int| 0 <= row < a.len() && #[trigger] a[row] implies ready(cells, row) by {
            assert(either[row]);
        }
        assert forall|row: int| 0 <= row < b.len() && #[trigger] b[row] implies ready(cells, row) by {
            assert(either[row]);
        }
    }
}

proof fn lemma_calls_combine_before(cells: Cells<i32>, a: Seq<bool>, b: Seq<bool>, end: int)
    requires
        a.len() == b.len(),
        forall|row: int| 0 <= row < a.len() ==> !(#[trigger] a[row] && b[row]),
        0 <= end <= a.len(),
    ensures
        ({
            let all = values_before(cells, selected_either(a, b), end);
            let first = values_before(cells, a, end);
            let second = values_before(cells, b, end);
            &&& all.len() == first.len() + second.len()
            &&& total(all) == total(first) + total(second)
            &&& least(all) == if least(second) < least(first) {
                least(second)
            } else {
                least(first)
            }
            &&& greatest(all) == if greatest(second) > greatest(first) {
                greatest(second)
            } else {
                greatest(first)
            }
        }),
    decreases end,
{
    let either = selected_either(a, b);
    if end > 0 {
        let row = end - 1;
        let value = value_at(cells, row);
        lemma_calls_combine_before(cells, a, b, row);
        assert(either[row] == (a[row] || b[row]));
        lemma_held_push(cells, selected_rows(either, 0, row), row);
        lemma_held_push(cells, selected_rows(a, 0, row), row);
        lemma_held_push(cells, selected_rows(b, 0, row), row);
        lemma_joined(values_before(cells, either, row), value);
        lemma_joined(values_before(cells, a, row), value);
        lemma_joined(values_before(cells, b, row), value);
    }
}

/// The sum and the extremes with one more row.
proof fn lemma_joined(values: Seq<i32>, value: Option<i32>)
    ensures
        value matches Some(value) ==> {
            &&& total(joined(values, Some(value))) == total(values) + value
            &&& least(joined(values, Some(value))) == if value < least(values) {
                value
            } else {
                least(values)
            }
            &&& greatest(joined(values, Some(value))) == if value > greatest(values) {
                value
            } else {
                greatest(values)
            }
        },
{
    if let Some(value) = value {
        assert(values.push(value).drop_last() =~= values);
    }
}

/// The count of a selection is the number of its non-NULL rows: it never exceeds
/// the selected rows and reaches them exactly when none of them is NULL. The
/// sum and the extremes are NULL exactly when it is zero.
pub proof fn lemma_counted(cells: Cells<i32>, flags: Seq<bool>)
    ensures
        ({
            let values = selected_values(cells, flags);
            let len = flags.len() as int;
            &&& values.len() == selected_rows(selected_non_nulls(cells, flags), 0, len).len()
            &&& values.len() <= selected_rows(flags, 0, len).len()
            &&& values.len() == selected_rows(flags, 0, len).len() <==> (forall|row: int|
                0 <= row < flags.len() && #[trigger] flags[row] ==> value_at(cells, row) is Some)
            &&& sum_value(values) is None <==> values.len() == 0
            &&& min_value(values) is None <==> values.len() == 0
            &&& max_value(values) is None <==> values.len() == 0
        }),
{
    lemma_counted_before(cells, flags, flags.len() as int);
    lemma_nulls_skipped(cells, flags);
    lemma_counted_before(cells, selected_non_nulls(cells, flags), flags.len() as int);
}

proof fn lemma_counted_before<V>(cells: Cells<V>, flags: Seq<bool>, end: int)
    requires
        0 <= end <= flags.len(),
    ensures
        values_before(cells, flags, end).len() <= selected_rows(flags, 0, end).len(),
        values_before(cells, flags, end).len() == selected_rows(flags, 0, end).len() <==> (forall|
            row: int,
        |
            0 <= row < end && #[trigger] flags[row] ==> value_at(cells, row) is Some),
    decreases end,
{
    if end > 0 {
        let row = end - 1;
        lemma_counted_before(cells, flags, row);
        if flags[row] {
            lemma_held_push(cells, selected_rows(flags, 0, row), row);
        }
    }
}

/// The selected rows that are not NULL.
pub open spec fn selected_non_nulls<V>(cells: Cells<V>, flags: Seq<bool>) -> Seq<bool> {
    Seq::new(flags.len(), |row: int| flags[row] && value_at(cells, row) is Some)
}

/// NULL rows are skipped: leaving them out of the selection changes no
/// aggregate.
pub proof fn lemma_nulls_skipped<V>(cells: Cells<V>, flags: Seq<bool>)
    ensures
        selected_values(cells, selected_non_nulls(cells, flags)) == selected_values(cells, flags),
{
    lemma_nulls_skipped_before(cells, flags, flags.len() as int);
}

proof fn lemma_nulls_skipped_before<V>(cells: Cells<V>, flags: Seq<bool>, end: int)
    requires
        0 <= end <= flags.len(),
    ensures
        values_before(cells, selected_non_nulls(cells, flags), end) == values_before(
            cells,
            flags,
            end,
        ),
    decreases end,
{
    let kept = selected_non_nulls(cells, flags);
    if end > 0 {
        let row = end - 1;
        lemma_nulls_skipped_before(cells, flags, row);
        if flags[row] {
            lemma_held_push(cells, selected_rows(flags, 0, row), row);
            lemma_held_push(cells, selected_rows(kept, 0, row), row);
        }
    } else {
        assert(selected_rows(kept, 0, 0) =~= selected_rows(flags, 0, 0));
    }
}

/// Sums are those of the integers: nothing sums to zero, and one more value adds
/// itself.
pub proof fn lemma_total(values: Seq<i32>, value: i32)
    ensures
        total(Seq::<i32>::empty()) == 0,
        total(values.push(value)) == total(values) + value,
{
    assert(values.push(value).drop_last() =~= values);
}

/// The values of a selection, row by row: each selected row adds what its cell
/// holds, unless that is NULL, after the values of the rows before it.
pub proof fn lemma_values_rows<V>(cells: Cells<V>, flags: Seq<bool>, row: int)
    requires
        0 <= row < flags.len(),
        flags[row] ==> cells[row] is Some,
    ensures
        values_before(cells, flags, 0) == Seq::<V>::empty(),
        selected_values(cells, flags) == values_before(cells, flags, flags.len() as int),
        values_before(cells, flags, row + 1) == if flags[row] && cells[row]->0 is Some {
            values_before(cells, flags, row).push(cells[row]->0->0)
        } else {
            values_before(cells, flags, row)
        },
{
    assert(selected_rows(flags, 0, 0) =~= Seq::<int>::empty());
    assert(values_before(cells, flags, 0) =~= Seq::<V>::empty());
    if flags[row] {
        lemma_held_push(cells, selected_rows(flags, 0, row), row);
    }
}

/// The values of a prepared selection are exactly what its non-NULL rows hold.
proof fn lemma_values_held<V>(cells: Cells<V>, flags: Seq<bool>, end: int, value: V)
    requires
        0 <= end <= flags.len(),
        cells.len() == flags.len(),
        selection_ready(cells, flags),
    ensures
        values_before(cells, flags, end).contains(value) <==> exists|row: int|
            0 <= row < end && #[trigger] flags[row] && cells[row] == Some(Some(value)),
    decreases end,
{
    let values = values_before(cells, flags, end);
    if end > 0 {
        let row = end - 1;
        if flags[row] {
            assert(ready(cells, row));
        }
        lemma_values_held(cells, flags, row, value);
        lemma_values_rows(cells, flags, row);
        let less = values_before(cells, flags, row);
        if less.contains(value) {
            let k = choose|k: int| 0 <= k < less.len() && less[k] == value;
            assert(values[k] == value);
        }
        if values.contains(value) {
            let k = choose|k: int| 0 <= k < values.len() && values[k] == value;
            if k < less.len() {
                assert(less[k] == value);
            } else {
                assert(flags[row] && cells[row] == Some(Some(value)));
            }
        }
        if flags[row] && cells[row] == Some(Some(value)) {
            assert(values[less.len() as int] == value);
        }
    } else {
        assert(selected_rows(flags, 0, 0) =~= Seq::<int>::empty());
        assert(values =~= Seq::<V>::empty());
    }
}

/// What the aggregates of a prepared selection return, in terms of its rows. The
/// sum is the integer sum of the values. The extremes are values of selected
/// rows, and no selected row holds less than the least or more than the
/// greatest. All are NULL exactly when no selected row holds a value.
pub proof fn lemma_aggregate_rows(cells: Cells<i32>, flags: Seq<bool>)
    requires
        cells.len() == flags.len(),
        selection_ready(cells, flags),
        sums_fit(cells, flags),
    ensures
        ({
            let values = selected_values(cells, flags);
            &&& values.len() == 0 <==> forall|row: int|
                0 <= row < flags.len() && #[trigger] flags[row] ==> cells[row] == Some(None::<i32>)
            &&& sum_value(values) is None <==> values.len() == 0
            &&& min_value(values) is None <==> values.len() == 0
            &&& max_value(values) is None <==> values.len() == 0
            &&& sum_value(values) matches Some(sum) ==> sum as int == total(values)
            &&& min_value(values) matches Some(min) ==> {
                &&& exists|row: int|
                    0 <= row < flags.len() && #[trigger] flags[row] && cells[row] == Some(Some(min))
                &&& forall|row: int|
                    0 <= row < flags.len() && #[trigger] flags[row] ==> (cells[row] matches Some(
                        Some(v),
                    ) ==> min <= v)
            }
            &&& max_value(values) matches Some(max) ==> {
                &&& exists|row: int|
                    0 <= row < flags.len() && #[trigger] flags[row] && cells[row] == Some(Some(max))
                &&& forall|row: int|
                    0 <= row < flags.len() && #[trigger] flags[row] ==> (cells[row] matches Some(
                        Some(v),
                    ) ==> v <= max)
            }
        }),
{
    let len = flags.len() as int;
    let values = selected_values(cells, flags);
    assert(i64::MIN <= total(values_before(cells, flags, len)) <= i64::MAX);
    assert forall|row: int| 0 <= row < flags.len() && #[trigger] flags[row] implies (
    cells[row] matches Some(Some(v)) ==> values.contains(v)) && cells[row] is Some by {
        assert(ready(cells, row));
        if let Some(Some(v)) = cells[row] {
            lemma_values_held(cells, flags, len, v);
        }
    }
    if values.len() > 0 {
        lemma_least(values);
        lemma_greatest(values);
        lemma_values_held(cells, flags, len, least(values));
        lemma_values_held(cells, flags, len, greatest(values));
        lemma_values_held(cells, flags, len, values[0]);
        assert(values.contains(values[0]));
        assert forall|row: int| 0 <= row < flags.len() && #[trigger] flags[row] implies (
        cells[row] matches Some(Some(v)) ==> least(values) <= v && v <= greatest(values)) by {
            if let Some(Some(v)) = cells[row] {
                let k = choose|k: int| 0 <= k < values.len() && values[k] == v;
                assert(values[k] == v);
            }
        }
    } else {
        assert forall|row: int| 0 <= row < flags.len() && #[trigger] flags[row] implies cells[row]
            == Some(None::<i32>) by {
            if let Some(Some(v)) = cells[row] {
                assert(values.contains(v));
            }
        }
    }
}

/// A failed aggregate blames the first word with an unprepared selected row, as
/// a fold does.
pub proof fn lemma_aggregate_error<C: ColumnReader<Value = i32>>(
    column: &C,
    flags: Seq<bool>,
    error: Error,
    index: int,
    selected: u64,
)
    requires
        column.cells().len() == flags.len(),
        aggregate_failed(column, flags, error),
        0 <= index < words_for(flags.len() as int),
        covers(selected, flags, index),
        ready_before(column.cells(), flags, 64 * index),
        !word_ready(column.cells(), index, selected),
    ensures
        error == column.word_error(index, selected),
{
    let (i, v) = choose|i: int, v: u64|
        {
            &&& 0 <= i < words_for(flags.len() as int)
            &&& #[trigger] covers(v, flags, i)
            &&& ready_before(column.cells(), flags, 64 * i)
            &&& !word_ready(column.cells(), i, v)
            &&& error == column.word_error(i, v)
        };
    lemma_same_failure(column.cells(), flags, i, v, index, selected);
}

/// What the aggregates of a selection return when they are called: the number of
/// its non-NULL rows, the integer sum of what they hold, and the extremes of
/// that; none of the three without such a row.
pub proof fn lemma_aggregate_calls<C: ColumnReader<Value = i32>>(
    column: &C,
    rows: &RowMaskView<'_>,
    counted: usize,
    summed: Option<i64>,
    lowest: Option<i32>,
    highest: Option<i32>,
)
    requires
        sums_fit(column.cells(), rows@),
        call_ensures(count::<C>, (column, rows), Ok(counted)),
        call_ensures(sum::<C>, (column, rows), Ok(summed)),
        call_ensures(min::<C>, (column, rows), Ok(lowest)),
        call_ensures(max::<C>, (column, rows), Ok(highest)),
    ensures
        column.cells().len() == rows@.len(),
        counted == selected_rows(
            selected_non_nulls(column.cells(), rows@),
            0,
            rows@.len() as int,
        ).len(),
        summed is None <==> counted == 0,
        lowest is None <==> counted == 0,
        highest is None <==> counted == 0,
        summed matches Some(s) ==> s as int == total(selected_values(column.cells(), rows@)),
        lowest matches Some(m) ==> forall|row: int|
            0 <= row < rows@.len() && #[trigger] rows@[row] ==> (column.cells()[row] matches Some(
                Some(v),
            ) ==> m <= v),
        highest matches Some(m) ==> forall|row: int|
            0 <= row < rows@.len() && #[trigger] rows@[row] ==> (column.cells()[row] matches Some(
                Some(v),
            ) ==> v <= m),
        lowest matches Some(m) ==> exists|row: int|
            0 <= row < rows@.len() && #[trigger] rows@[row] && column.cells()[row] == Some(Some(m)),
        highest matches Some(m) ==> exists|row: int|
            0 <= row < rows@.len() && #[trigger] rows@[row] && column.cells()[row] == Some(Some(m)),
{
    if column.cells().len() == rows@.len() {
        lemma_counted(column.cells(), rows@);
        lemma_aggregate_rows(column.cells(), rows@);
    }
}

/// The extremes of nothing are the identities of their operations, and one more
/// value takes their place exactly when it is beyond them.
pub proof fn lemma_extreme_steps(values: Seq<i32>, value: i32)
    ensures
        least(Seq::<i32>::empty()) == i32::MAX,
        greatest(Seq::<i32>::empty()) == i32::MIN,
        least(values.push(value)) == if value < least(values) {
            value
        } else {
            least(values)
        },
        greatest(values.push(value)) == if value > greatest(values) {
            value
        } else {
            greatest(values)
        },
{
    assert(values.push(value).drop_last() =~= values);
}

} // verus!
