//! Statically typed reading, independent of a column's physical storage.

use vstd::prelude::*;
#[allow(unused_imports)]
use vstd::std_specs::iter::IteratorSpec;

use crate::bitmap::{word_count, words_for};
use crate::bits::{bit, covers, selected_rows, word_rows};
#[allow(unused_imports)]
use crate::bits::{
    lemma_rows_before, lemma_rows_members, lemma_rows_split, lemma_word_rows_cover,
    lemma_word_rows_empty,
};
use crate::error::Error;
use crate::lanes::Lanes;
#[allow(unused_imports)]
use crate::row_mask::lemma_word_determined;
use crate::row_mask::RowMaskView;
use crate::word_values::{folded, folds_items};

verus! {

/// The rows of a column: `None` is an unprepared row, `Some(None)` a NULL.
pub type Cells<V> = Seq<Option<Option<V>>>;

/// A row that exists and is prepared.
pub open spec fn ready<V>(cells: Cells<V>, row: int) -> bool {
    0 <= row < cells.len() && cells[row] is Some
}

/// What a prepared row holds, `None` for NULL.
pub open spec fn value_at<V>(cells: Cells<V>, row: int) -> Option<V> {
    cells[row]->0
}

/// Rows with what they hold.
pub open spec fn items<V>(cells: Cells<V>, rows: Seq<int>) -> Seq<(usize, Option<V>)> {
    Seq::new(rows.len(), |k: int| (rows[k] as usize, value_at(cells, rows[k])))
}

/// A selection word that exists and names only prepared rows.
pub open spec fn word_ready<V>(cells: Cells<V>, word_index: int, selected: u64) -> bool {
    &&& word_index < words_for(cells.len() as int)
    &&& forall|i: int| #[trigger] bit(selected, i) ==> ready(cells, 64 * word_index + i)
}

/// The selected rows before row `end` are prepared.
pub open spec fn ready_before<V>(cells: Cells<V>, flags: Seq<bool>, end: int) -> bool {
    forall|row: int| 0 <= row < end && row < flags.len() && #[trigger] flags[row] ==> ready(cells, row)
}

/// The selected rows are prepared.
pub open spec fn selection_ready<V>(cells: Cells<V>, flags: Seq<bool>) -> bool {
    ready_before(cells, flags, flags.len() as int)
}

/// The end of the word that holds a row.
pub open spec fn word_end(row: int) -> int {
    64 * (row / 64) + 64
}

/// `acc` can result from folding `items` in order without an error.
pub open spec fn try_folded<B, V, F: FnMut(B, usize, Option<V>) -> Result<B, Error>>(
    fold: F,
    init: B,
    items: Seq<(usize, Option<V>)>,
    acc: B,
) -> bool
    decreases items.len(),
{
    if items.len() == 0 {
        acc == init
    } else {
        exists|before: B|
            try_folded(fold, init, items.drop_last(), before) && #[trigger] call_ensures(
                fold,
                (before, items.last().0, items.last().1),
                Ok::<B, Error>(acc),
            )
    }
}

/// `acc` can result from folding the selected rows before row `end`.
pub open spec fn folded_before<B, V, F: FnMut(B, usize, Option<V>) -> Result<B, Error>>(
    cells: Cells<V>,
    flags: Seq<bool>,
    end: int,
    fold: F,
    init: B,
    acc: B,
) -> bool {
    try_folded(fold, init, items(cells, selected_rows(flags, 0, end)), acc)
}

/// The fold accepts every row of a selection that it can reach: the selected
/// rows of the words before the first one with an unprepared selected row.
pub open spec fn folds_selection<B, V, F: FnMut(B, usize, Option<V>) -> Result<B, Error>>(
    cells: Cells<V>,
    flags: Seq<bool>,
    fold: F,
    init: B,
) -> bool {
    forall|row: int, acc: B|
        0 <= row < flags.len() && flags[row] && ready_before(cells, flags, word_end(row))
            && #[trigger] folded_before(cells, flags, row, fold, init, acc) ==> call_requires(
            fold,
            (acc, row as usize, value_at(cells, row)),
        )
}

/// The fold itself failed at a selected row, after folding those before it.
pub open spec fn fold_failed<B, V, F: FnMut(B, usize, Option<V>) -> Result<B, Error>>(
    cells: Cells<V>,
    flags: Seq<bool>,
    fold: F,
    init: B,
    error: Error,
) -> bool {
    exists|row: int, acc: B|
        0 <= row < flags.len() && flags[row] && ready_before(cells, flags, word_end(row))
            && #[trigger] folded_before(cells, flags, row, fold, init, acc) && call_ensures(
            fold,
            (acc, row as usize, value_at(cells, row)),
            Err::<B, Error>(error),
        )
}

/// The outcome of folding a selection: the fold over every selected row, or the
/// first error, of the fold itself or of a word with an unprepared selected row.
pub open spec fn fold_outcome<B, V, F: FnMut(B, usize, Option<V>) -> Result<B, Error>>(
    cells: Cells<V>,
    flags: Seq<bool>,
    word_error: spec_fn(int, u64) -> Error,
    fold: F,
    init: B,
    result: Result<B, Error>,
) -> bool {
    match result {
        Ok(acc) => selection_ready(cells, flags) && folded_before(
            cells,
            flags,
            flags.len() as int,
            fold,
            init,
            acc,
        ),
        Err(error) => fold_failed(cells, flags, fold, init, error) || exists|
            index: int,
            selected: u64,
            acc: B,
        |
            {
                &&& 0 <= index < words_for(flags.len() as int)
                &&& #[trigger] covers(selected, flags, index)
                &&& ready_before(cells, flags, 64 * index)
                &&& !word_ready(cells, index, selected)
                &&& #[trigger] folded_before(cells, flags, 64 * index, fold, init, acc)
                &&& error == word_error(index, selected)
            },
    }
}

/// A fold with one result per argument.
pub open spec fn deterministic<B, V, F: FnMut(B, usize, Option<V>) -> Result<B, Error>>(
    fold: F,
) -> bool {
    forall|acc: B, row: usize, value: Option<V>, a: Result<B, Error>, b: Result<B, Error>|
        #![trigger call_ensures(fold, (acc, row, value), a), call_ensures(fold, (acc, row, value), b)]
        call_ensures(fold, (acc, row, value), a) && call_ensures(fold, (acc, row, value), b) ==> a
            == b
}

/// The storage of one full, fully prepared 64-row word, in physical order.
///
/// A NULL row's value is initialized but meaningless and must not be
/// interpreted. The value type `T` says how a value is read, not what a Datum
/// is: a Datum block encodes `T` in the low bits of each `u64`, as the
/// representation defines.
#[allow(inconsistent_fields)]
#[derive(Clone, Copy, Debug)]
pub enum WordBlock<'a, T> {
    /// One value per row; bit `i` of `non_nulls` set means row `i` is non-NULL.
    Dense { values: Lanes<'a, T>, non_nulls: u64 },
    /// PostgreSQL Datum storage with one NULL flag per row.
    Datum { values: Lanes<'a, u64>, isnull: Lanes<'a, bool> },
}

/// What row `i` of a block holds, where `datum` reads a Datum.
pub open spec fn block_value<T>(
    block: WordBlock<'_, T>,
    datum: spec_fn(u64) -> Option<T>,
    i: int,
) -> Option<T> {
    match block {
        WordBlock::Dense { values, non_nulls } => if bit(non_nulls, i) {
            Some(values@[i])
        } else {
            None
        },
        WordBlock::Datum { values, isnull } => if isnull@[i] {
            None
        } else {
            datum(values@[i])
        },
    }
}

/// A block holds the 64 prepared rows of a word.
pub open spec fn block_holds<T>(
    block: WordBlock<'_, T>,
    datum: spec_fn(u64) -> Option<T>,
    cells: Cells<T>,
    word_index: int,
) -> bool {
    &&& 64 * word_index + 64 <= cells.len()
    &&& block matches WordBlock::Datum { values, isnull } ==> forall|i: int|
        0 <= i < 64 && !(#[trigger] isnull@[i]) ==> datum(values@[i]) is Some
    &&& forall|i: int|
        0 <= i < 64 ==> ready(cells, 64 * word_index + i) && #[trigger] block_value(block, datum, i)
            == value_at(cells, 64 * word_index + i)
}

/// Statically typed reading, independent of a column's physical storage.
///
/// `None` denotes NULL, not an unavailable row. Indices are physical rows.
/// Implementations return errors for out-of-bounds or unprepared rows before
/// reading their data. Generic consumers select a value type at compile time,
/// for example `C: ColumnReader<Value = i32>`; no dynamic dispatch is needed.
///
/// `try_fold_selected` is the generic entry point for reducing one column of
/// any value type over a selection. Several columns are combined in lockstep
/// per selection word: for one `selected` word, the `word_values` iterators of
/// every column yield the same rows in the same order. `get` reads single
/// rows. `word_block` exposes the storage of one full, fully prepared word to
/// kernels that process rows in bulk; representations without such storage
/// return `None` and are served by the row paths.
///
/// The specification functions say what a reader holds and how it refuses. Their
/// defaults let a reader outside verified code leave them out.
pub trait ColumnReader: Sized {
    /// A value or a reference borrowed from the representation's input buffers.
    /// No `Copy`, `Clone`, or `'static` bound is imposed on all representations.
    type Value;

    /// The iterator over the selected rows of one word.
    type Words<'a>: Iterator<Item = (usize, Option<Self::Value>)>;

    /// The rows of the column.
    open spec fn cells(&self) -> Cells<Self::Value> {
        Seq::empty()
    }

    /// Why a row that does not exist or is not prepared cannot be read.
    open spec fn row_error(&self, row: int) -> Error {
        Error::PaddingBits
    }

    /// Why a selection word that does not exist or names such a row cannot be
    /// read.
    open spec fn word_error(&self, word_index: int, selected: u64) -> Error {
        Error::PaddingBits
    }

    /// What the Datum of a non-NULL row stands for, `None` without Datum
    /// storage.
    open spec fn datum_value(&self, datum: u64) -> Option<Self::Value> {
        None
    }

    /// Return the number of physical rows, including NULL and unprepared rows.
    fn nrows(&self) -> (nrows: usize)
        ensures
            nrows == self.cells().len(),
    ;

    /// Read one row after checking bounds, readiness, and then nullness.
    fn get(&self, row: usize) -> (result: Result<Option<Self::Value>, Error>)
        ensures
            result is Ok <==> ready(self.cells(), row as int),
            result matches Ok(value) ==> value == value_at(self.cells(), row as int),
            result matches Err(error) ==> error == self.row_error(row as int),
    ;

    /// Read selected rows of one 64-row word in increasing physical order.
    ///
    /// Reject an absent word, selected padding, or any unprepared selected row
    /// before reading any data in this word. The copied selection word permits
    /// a caller to modify its active mask independently of the iterator.
    fn word_values<'a>(&'a self, word_index: usize, selected: u64) -> (result: Result<
        Self::Words<'a>,
        Error,
    >)
        ensures
            result is Ok <==> word_ready(self.cells(), word_index as int, selected),
            result matches Ok(words) ==> words.obeys_prophetic_iter_laws() && words.decrease() is Some
                && words.remaining() == items(self.cells(), word_rows(64 * word_index, selected)),
            result matches Err(error) ==> error == self.word_error(word_index as int, selected),
    ;

    /// Fold over the rows of one word that its iterator has not read.
    ///
    /// The default implementation takes them one by one; an iterator with a
    /// faster path through a full word provides its own.
    fn fold_word<'a, B, G: FnMut(B, (usize, Option<Self::Value>)) -> B>(
        words: Self::Words<'a>,
        init: B,
        fold: G,
    ) -> (acc: B)
        requires
            words.obeys_prophetic_iter_laws(),
            words.decrease() is Some,
            folds_items(fold, init, words.remaining()),
        ensures
            folded(fold, init, words.remaining(), acc),
    {
        let mut words = words;
        let mut call = fold;
        let mut acc = init;
        let ghost all = words.remaining();
        let ghost mut taken: int = 0;
        proof {
            assert(all.skip(0) =~= all);
            assert(all.take(0) =~= Seq::<(usize, Option<Self::Value>)>::empty());
        }
        loop
            invariant
                words.obeys_prophetic_iter_laws(),
                words.decrease() is Some,
                call == fold,
                folds_items(fold, init, all),
                0 <= taken <= all.len(),
                words.remaining() == all.skip(taken),
                folded(fold, init, all.take(taken), acc),
            ensures
                taken == all.len(),
            decreases words.decrease()->0,
        {
            match words.next() {
                None => {
                    break;
                },
                Some(item) => {
                    let ghost before = acc;
                    proof {
                        assert(item == all[taken]);
                        assert(folded(fold, init, all.take(taken), acc));
                    }
                    acc = call(acc, item);
                    proof {
                        assert(all.take(taken + 1).drop_last() =~= all.take(taken));
                        assert(all.take(taken + 1).last() == item);
                        assert(call_ensures(fold, (before, all.take(taken + 1).last()), acc));
                        assert(folded(fold, init, all.take(taken + 1), acc));
                        assert(all.skip(taken).drop_first() =~= all.skip(taken + 1));
                        taken = taken + 1;
                    }
                },
            }
        }
        proof {
            assert(all.take(taken) =~= all);
        }
        acc
    }

    /// Storage of one full, fully prepared word for bulk kernels.
    ///
    /// `None` when the representation has no bulk storage, the word is the
    /// short tail or out of range, or any of its rows is unprepared; callers
    /// then fall back to `word_values`. A returned block covers exactly the
    /// word's 64 rows; NULL rows hold initialized values of no meaning that
    /// must not be interpreted. The selection is not applied: the caller masks
    /// its own result.
    fn word_block(&self, word_index: usize) -> (block: Option<
        WordBlock<'_, Self::Value>,
    >)
        ensures
            block matches Some(block) ==> block_holds(
                block,
                |datum: u64| self.datum_value(datum),
                self.cells(),
                word_index as int,
            ),
        default_ensures
            block is None,
    {
        None
    }

    /// Fold over selected rows in physical order, stopping at the first error.
    ///
    /// Different row counts fail immediately. Empty words are skipped; each
    /// nonempty word gets the same readiness validation as `word_values` before
    /// any of its rows is read. The default implementation delegates to that
    /// method. A reader error or an `Err` from `fold` ends the operation and is
    /// returned; rows already folded are not rolled back.
    fn try_fold_selected<B, F: FnMut(B, usize, Option<Self::Value>) -> Result<B, Error>>(
        &self,
        rows: &RowMaskView<'_>,
        init: B,
        fold: F,
    ) -> (result: Result<B, Error>)
        requires
            self.cells().len() == rows@.len() ==> folds_selection(self.cells(), rows@, fold, init),
        ensures
            self.cells().len() != rows@.len() ==> (result matches Err(error) && error
                == Error::ColumnSelectionRows),
            self.cells().len() == rows@.len() ==> fold_outcome(
                self.cells(),
                rows@,
                |index: int, selected: u64| self.word_error(index, selected),
                fold,
                init,
                result,
            ),
    {
        if self.nrows() != rows.nrows() {
            return Err(Error::ColumnSelectionRows);
        }
        let mut call = fold;
        let mut acc = init;
        let ghost cells = self.cells();
        let ghost flags = rows@;
        let ghost mut end: int = 0;
        let count = word_count(rows.nrows());
        let mut index: usize = 0;
        proof {
            assert(selected_rows(flags, 0, 0) =~= Seq::<int>::empty());
        }
        while index < count
            invariant
                index <= count,
                count == words_for(flags.len() as int),
                cells == self.cells(),
                flags == rows@,
                cells.len() == flags.len(),
                flags.len() <= usize::MAX,
                call == fold,
                folds_selection(cells, flags, fold, init),
                end == word_start(flags.len() as int, index as int),
                ready_before(cells, flags, end),
                folded_before(cells, flags, end, fold, init, acc),
            decreases count - index,
        {
            let selected = rows.word(index).unwrap();
            let ghost next = word_start(flags.len() as int, index + 1);
            let ghost inner = word_rows(64 * index, selected);
            proof {
                lemma_word_rows_cover(selected, flags, index as int);
                lemma_rows_split(|row: int| flags[row], 0, end, next);
                lemma_rows_members(|row: int| flags[row], end, next);
                lemma_word_ready(cells, flags, index as int, selected);
            }
            if selected != 0 {
                let mut words = match self.word_values(index, selected) {
                    Ok(words) => words,
                    Err(error) => {
                        proof {
                            assert(covers(selected, flags, index as int));
                            assert(folded_before(cells, flags, 64 * index, fold, init, acc));
                        }
                        return Err(error);
                    },
                };
                let ghost mut taken: int = 0;
                proof {
                    assert(inner.skip(0) =~= inner);
                    assert(selected_rows(flags, 0, end) + inner.take(0) =~= selected_rows(
                        flags,
                        0,
                        end,
                    ));
                }
                loop
                    invariant
                        cells == self.cells(),
                        flags == rows@,
                        cells.len() == flags.len(),
                        flags.len() <= usize::MAX,
                        call == fold,
                        folds_selection(cells, flags, fold, init),
                        0 <= index < words_for(flags.len() as int),
                        end == 64 * index,
                        end == word_start(flags.len() as int, index as int),
                        next == word_start(flags.len() as int, index + 1),
                        ready_before(cells, flags, next),
                        inner == selected_rows(flags, end, next),
                        0 <= taken <= inner.len(),
                        words.obeys_prophetic_iter_laws(),
                        words.remaining() == items(cells, inner.skip(taken)),
                        try_folded(
                            fold,
                            init,
                            items(cells, selected_rows(flags, 0, end) + inner.take(taken)),
                            acc,
                        ),
                    ensures
                        taken == inner.len(),
                    decreases inner.len() - taken,
                {
                    match words.next() {
                        None => {
                            break;
                        },
                        Some((row, value)) => {
                            let ghost before = acc;
                            proof {
                                lemma_fold_step(cells, flags, end, next, taken);
                                assert(inner.skip(taken)[0] == inner[taken]);
                                assert(folded_before(cells, flags, row as int, fold, init, acc));
                                assert(ready_before(cells, flags, word_end(row as int)));
                            }
                            match call(acc, row, value) {
                                Ok(after) => {
                                    acc = after;
                                },
                                Err(error) => {
                                    proof {
                                        assert(folded_before(
                                            cells,
                                            flags,
                                            row as int,
                                            fold,
                                            init,
                                            before,
                                        ));
                                        assert(call_ensures(
                                            fold,
                                            (before, row, value_at(cells, row as int)),
                                            Err::<B, Error>(error),
                                        ));
                                        assert(fold_failed(cells, flags, fold, init, error));
                                    }
                                    return Err(error);
                                },
                            }
                            proof {
                                let done = selected_rows(flags, 0, end) + inner.take(taken);
                                let more = selected_rows(flags, 0, end) + inner.take(taken + 1);
                                lemma_items_push(cells, done, row as int);
                                assert(more =~= done.push(row as int));
                                assert(call_ensures(
                                    fold,
                                    (before, row, value),
                                    Ok::<B, Error>(acc),
                                ));
                                assert(try_folded(fold, init, items(cells, more), acc));
                                assert(inner.skip(taken).drop_first() =~= inner.skip(taken + 1));
                                assert(items(cells, inner.skip(taken)).drop_first() =~= items(
                                    cells,
                                    inner.skip(taken + 1),
                                ));
                                taken = taken + 1;
                            }
                        },
                    }
                }
                proof {
                    assert(inner.take(taken) =~= inner);
                }
            } else {
                proof {
                    lemma_word_rows_empty(64 * index);
                    assert(selected_rows(flags, 0, end) + inner =~= selected_rows(flags, 0, end));
                }
            }
            proof {
                end = next;
            }
            index = index + 1;
        }
        Ok(acc)
    }
}

/// The first row of a word, or the end of the rows after the last word.
pub open spec fn word_start(nrows: int, index: int) -> int {
    if 64 * index <= nrows {
        64 * index
    } else {
        nrows
    }
}

/// A selection word is ready exactly when its selected rows are.
pub proof fn lemma_word_ready<V>(cells: Cells<V>, flags: Seq<bool>, index: int, selected: u64)
    requires
        cells.len() == flags.len(),
        0 <= index < words_for(flags.len() as int),
        covers(selected, flags, index),
    ensures
        ready_before(cells, flags, 64 * index) && word_ready(cells, index, selected)
            ==> ready_before(cells, flags, word_start(flags.len() as int, index + 1))
            && ready_before(cells, flags, 64 * index + 64),
        ready_before(cells, flags, word_start(flags.len() as int, index + 1)) ==> word_ready(
            cells,
            index,
            selected,
        ),
        selected == 0 ==> word_ready(cells, index, selected),
{
    let end = word_start(flags.len() as int, index + 1);
    if ready_before(cells, flags, 64 * index) && word_ready(cells, index, selected) {
        assert forall|row: int| 0 <= row < end && row < flags.len() && #[trigger] flags[row] implies ready(
            cells,
            row,
        ) by {
            if row >= 64 * index {
                assert(bit(selected, row - 64 * index) == (64 * index + (row - 64 * index)
                    < flags.len() && flags[64 * index + (row - 64 * index)]));
            }
        }
    }
    if ready_before(cells, flags, end) {
        assert forall|i: int| #[trigger] bit(selected, i) implies ready(cells, 64 * index + i) by {
            assert(flags[64 * index + i]);
        }
    }
    if selected == 0 {
        assert forall|i: int| #[trigger] bit(selected, i) implies ready(cells, 64 * index + i) by {
            crate::bits::lemma_bit_constants(i);
        }
    }
}

/// Every word of a prepared selection is ready.
pub proof fn lemma_ready_words<V>(cells: Cells<V>, flags: Seq<bool>)
    requires
        cells.len() == flags.len(),
    ensures
        selection_ready(cells, flags) ==> forall|index: int, selected: u64|
            0 <= index < words_for(flags.len() as int) && #[trigger] covers(selected, flags, index)
                ==> word_ready(cells, index, selected),
{
    if selection_ready(cells, flags) {
        assert forall|index: int, selected: u64|
            0 <= index < words_for(flags.len() as int) && #[trigger] covers(
                selected,
                flags,
                index,
            ) implies word_ready(cells, index, selected) by {
            lemma_word_ready(cells, flags, index, selected);
        }
    }
}

/// A selection within a prepared one is prepared, an empty one always.
pub proof fn lemma_narrowed_ready<V>(cells: Cells<V>, flags: Seq<bool>, narrowed: Seq<bool>)
    requires
        narrowed.len() == flags.len(),
        forall|row: int| 0 <= row < flags.len() && #[trigger] narrowed[row] ==> flags[row],
    ensures
        selection_ready(cells, flags) ==> selection_ready(cells, narrowed),
        (forall|row: int| 0 <= row < narrowed.len() ==> !(#[trigger] narrowed[row]))
            ==> selection_ready(cells, narrowed),
{
}

/// The items of one more row.
pub(crate) proof fn lemma_items_push<V>(cells: Cells<V>, rows: Seq<int>, row: int)
    ensures
        items(cells, rows.push(row)).drop_last() == items(cells, rows),
        items(cells, rows.push(row)).last() == (row as usize, value_at(cells, row)),
{
    assert(items(cells, rows.push(row)).drop_last() =~= items(cells, rows));
}

/// The next row of a word, and the selected rows before it.
pub(crate) proof fn lemma_fold_step<V>(
    cells: Cells<V>,
    flags: Seq<bool>,
    end: int,
    next: int,
    taken: int,
)
    requires
        0 <= end <= next <= flags.len(),
        0 <= taken,
    ensures
        taken < selected_rows(flags, end, next).len() ==> {
            let row = selected_rows(flags, end, next)[taken];
            &&& end <= row < next
            &&& flags[row]
            &&& selected_rows(flags, 0, row) == selected_rows(flags, 0, end) + selected_rows(
                flags,
                end,
                next,
            ).take(taken)
        },
{
    if taken < selected_rows(flags, end, next).len() {
        let p = |row: int| flags[row];
        let row = selected_rows(flags, end, next)[taken];
        lemma_rows_members(p, end, next);
        lemma_rows_before(p, end, next, taken);
        lemma_rows_split(p, 0, end, row);
    }
}

/// For one selection word, the iterators of every column yield the same rows in
/// the same order.
pub proof fn lemma_lockstep<V, W>(a: Cells<V>, b: Cells<W>, rows: Seq<int>)
    ensures
        items(a, rows).len() == items(b, rows).len(),
        forall|k: int| 0 <= k < rows.len() ==> (#[trigger] items(a, rows)[k]).0 == items(b, rows)[k].0,
{
}

/// Two selection words that both lie at the first unprepared row are the same
/// word.
pub(crate) proof fn lemma_same_failure<V>(
    cells: Cells<V>,
    flags: Seq<bool>,
    i: int,
    v: u64,
    j: int,
    w: u64,
)
    requires
        cells.len() == flags.len(),
        0 <= i < words_for(flags.len() as int),
        0 <= j < words_for(flags.len() as int),
        covers(v, flags, i),
        covers(w, flags, j),
        ready_before(cells, flags, 64 * i),
        ready_before(cells, flags, 64 * j),
        !word_ready(cells, i, v),
        !word_ready(cells, j, w),
    ensures
        i == j,
        v == w,
{
    if i < j {
        lemma_word_ready(cells, flags, i, v);
        assert(ready_before(cells, flags, word_start(flags.len() as int, i + 1)));
    } else if j < i {
        lemma_word_ready(cells, flags, j, w);
        assert(ready_before(cells, flags, word_start(flags.len() as int, j + 1)));
    } else {
        lemma_word_determined(flags, i, v, w);
    }
}

/// A deterministic fold has one result over given items.
proof fn lemma_folded_once<B, V, F: FnMut(B, usize, Option<V>) -> Result<B, Error>>(
    fold: F,
    init: B,
    items: Seq<(usize, Option<V>)>,
    a: B,
    b: B,
)
    requires
        deterministic::<B, V, F>(fold),
        try_folded(fold, init, items, a),
        try_folded(fold, init, items, b),
    ensures
        a == b,
    decreases items.len(),
{
    if items.len() > 0 {
        let args = items.last();
        let p = choose|p: B|
            try_folded(fold, init, items.drop_last(), p) && #[trigger] call_ensures(
                fold,
                (p, args.0, args.1),
                Ok::<B, Error>(a),
            );
        let q = choose|q: B|
            try_folded(fold, init, items.drop_last(), q) && #[trigger] call_ensures(
                fold,
                (q, args.0, args.1),
                Ok::<B, Error>(b),
            );
        lemma_folded_once(fold, init, items.drop_last(), p, q);
        assert(Ok::<B, Error>(a) == Ok::<B, Error>(b));
    }
}

/// A fold over the rows before `end` has taken each selected one of them.
proof fn lemma_folded_through<B, V, F: FnMut(B, usize, Option<V>) -> Result<B, Error>>(
    cells: Cells<V>,
    flags: Seq<bool>,
    end: int,
    fold: F,
    init: B,
    acc: B,
    row: int,
) -> (taken: (B, B))
    requires
        0 <= row < end,
        flags[row],
        folded_before(cells, flags, end, fold, init, acc),
    ensures
        folded_before(cells, flags, row, fold, init, taken.0),
        call_ensures(
            fold,
            (taken.0, row as usize, value_at(cells, row)),
            Ok::<B, Error>(taken.1),
        ),
    decreases end,
{
    let last = end - 1;
    let rows = selected_rows(flags, 0, end);
    if flags[last] {
        let all = items(cells, rows);
        assert(rows == selected_rows(flags, 0, last).push(last));
        assert(all.drop_last() =~= items(cells, selected_rows(flags, 0, last)));
        assert(all.last() == (last as usize, value_at(cells, last)));
        let before = choose|before: B|
            try_folded(fold, init, all.drop_last(), before) && #[trigger] call_ensures(
                fold,
                (before, all.last().0, all.last().1),
                Ok::<B, Error>(acc),
            );
        if row == last {
            (before, acc)
        } else {
            lemma_folded_through(cells, flags, last, fold, init, before, row)
        }
    } else {
        lemma_folded_through(cells, flags, last, fold, init, acc, row)
    }
}

/// A deterministic fold that fails does so at one row, after the rows before it
/// and with one error: no row from there on is folded.
pub proof fn lemma_fold_stops<B, V, F: FnMut(B, usize, Option<V>) -> Result<B, Error>>(
    cells: Cells<V>,
    flags: Seq<bool>,
    fold: F,
    init: B,
    row: int,
    acc: B,
    error: Error,
)
    requires
        deterministic::<B, V, F>(fold),
        0 <= row < flags.len(),
        flags[row],
        folded_before(cells, flags, row, fold, init, acc),
        call_ensures(fold, (acc, row as usize, value_at(cells, row)), Err::<B, Error>(error)),
    ensures
        forall|end: int, later: B|
            row < end <= flags.len() ==> !(#[trigger] folded_before(
                cells,
                flags,
                end,
                fold,
                init,
                later,
            )),
        fold_failed(cells, flags, fold, init, error) ==> forall|other: Error|
            fold_failed(cells, flags, fold, init, other) ==> other == error,
{
    assert forall|end: int, later: B|
        row < end <= flags.len() implies !(#[trigger] folded_before(
        cells,
        flags,
        end,
        fold,
        init,
        later,
    )) by {
        if folded_before(cells, flags, end, fold, init, later) {
            let (before, after) = lemma_folded_through(cells, flags, end, fold, init, later, row);
            lemma_folded_once(fold, init, items(cells, selected_rows(flags, 0, row)), before, acc);
            assert(Ok::<B, Error>(after) == Err::<B, Error>(error));
        }
    }
    assert forall|other: Error| fold_failed(cells, flags, fold, init, other) implies other
        == error by {
        let (at, seen) = choose|at: int, seen: B|
            0 <= at < flags.len() && flags[at] && ready_before(cells, flags, word_end(at))
                && #[trigger] folded_before(cells, flags, at, fold, init, seen) && call_ensures(
                fold,
                (seen, at as usize, value_at(cells, at)),
                Err::<B, Error>(other),
            );
        if at < row {
            let (before, after) = lemma_folded_through(cells, flags, row, fold, init, acc, at);
            lemma_folded_once(fold, init, items(cells, selected_rows(flags, 0, at)), before, seen);
            assert(Ok::<B, Error>(after) == Err::<B, Error>(other));
        }
        assert(at == row);
        lemma_folded_once(fold, init, items(cells, selected_rows(flags, 0, row)), seen, acc);
        assert(Err::<B, Error>(other) == Err::<B, Error>(error));
    }
}

/// The selected rows decide a fold: representations that hold the same in them
/// and refuse words alike give a deterministic fold the same rows in the same
/// order, and the same result.
pub proof fn lemma_folds_agree<B, V, F: FnMut(B, usize, Option<V>) -> Result<B, Error>>(
    cells: (Cells<V>, Cells<V>),
    flags: Seq<bool>,
    word_errors: (spec_fn(int, u64) -> Error, spec_fn(int, u64) -> Error),
    fold: F,
    init: B,
    first: Result<B, Error>,
    second: Result<B, Error>,
)
    requires
        cells.0.len() == flags.len(),
        cells.1.len() == flags.len(),
        forall|row: int| 0 <= row < flags.len() && #[trigger] flags[row] ==> cells.0[row]
            == cells.1[row],
        deterministic::<B, V, F>(fold),
        forall|index: int, selected: u64|
            0 <= index < words_for(flags.len() as int) && #[trigger] covers(selected, flags, index)
                && !word_ready(cells.0, index, selected) ==> (word_errors.0)(index, selected) == (
            word_errors.1)(index, selected),
        fold_outcome(cells.0, flags, word_errors.0, fold, init, first),
        fold_outcome(cells.1, flags, word_errors.1, fold, init, second),
    ensures
        forall|end: int| 0 <= end <= flags.len() ==> items(
            cells.0,
            #[trigger] selected_rows(flags, 0, end),
        ) == items(cells.1, selected_rows(flags, 0, end)),
        first == second,
{
    lemma_same_rows(cells.0, cells.1, flags);
    lemma_same_words(cells.0, cells.1, flags);
    assert(fold_outcome(cells.0, flags, word_errors.1, fold, init, second)) by {
        if let Err(error) = second {
            if fold_failed(cells.1, flags, fold, init, error) {
                let (row, acc) = choose|row: int, acc: B|
                    0 <= row < flags.len() && flags[row] && ready_before(
                        cells.1,
                        flags,
                        word_end(row),
                    ) && #[trigger] folded_before(cells.1, flags, row, fold, init, acc)
                        && call_ensures(
                        fold,
                        (acc, row as usize, value_at(cells.1, row)),
                        Err::<B, Error>(error),
                    );
                assert(folded_before(cells.0, flags, row, fold, init, acc));
            } else {
                let (index, selected, acc) = choose|index: int, selected: u64, acc: B|
                    {
                        &&& 0 <= index < words_for(flags.len() as int)
                        &&& #[trigger] covers(selected, flags, index)
                        &&& ready_before(cells.1, flags, 64 * index)
                        &&& !word_ready(cells.1, index, selected)
                        &&& #[trigger] folded_before(cells.1, flags, 64 * index, fold, init, acc)
                        &&& error == (word_errors.1)(index, selected)
                    };
                assert(folded_before(cells.0, flags, 64 * index, fold, init, acc));
            }
        }
    }
    lemma_fold_decided(cells.0, flags, word_errors, fold, init, first, second);
    lemma_fold_decided(
        cells.0,
        flags,
        (word_errors.1, word_errors.0),
        fold,
        init,
        second,
        first,
    );
}

/// What the selected rows hold where two columns agree on them.
proof fn lemma_same_rows<V>(a: Cells<V>, b: Cells<V>, flags: Seq<bool>)
    requires
        forall|row: int| 0 <= row < flags.len() && #[trigger] flags[row] ==> a[row] == b[row],
    ensures
        forall|end: int| 0 <= end <= flags.len() ==> items(
            a,
            #[trigger] selected_rows(flags, 0, end),
        ) == items(b, selected_rows(flags, 0, end)),
{
    assert forall|end: int| 0 <= end <= flags.len() implies items(
        a,
        #[trigger] selected_rows(flags, 0, end),
    ) == items(b, selected_rows(flags, 0, end)) by {
        let rows = selected_rows(flags, 0, end);
        lemma_rows_members(|row: int| flags[row], 0, end);
        assert forall|k: int| 0 <= k < rows.len() implies #[trigger] items(a, rows)[k] == items(
            b,
            rows,
        )[k] by {
            assert(flags[rows[k]]);
        }
        assert(items(a, rows) =~= items(b, rows));
    }
}

/// Which words are prepared where two columns agree on the selected rows.
proof fn lemma_same_words<V>(a: Cells<V>, b: Cells<V>, flags: Seq<bool>)
    requires
        a.len() == flags.len(),
        b.len() == flags.len(),
        forall|row: int| 0 <= row < flags.len() && #[trigger] flags[row] ==> a[row] == b[row],
    ensures
        forall|index: int, selected: u64|
            0 <= index && #[trigger] covers(selected, flags, index) ==> word_ready(
                a,
                index,
                selected,
            ) == word_ready(b, index, selected),
        forall|end: int| #[trigger] ready_before(a, flags, end) == ready_before(b, flags, end),
{
    assert forall|index: int, selected: u64|
        0 <= index && #[trigger] covers(selected, flags, index) implies word_ready(
        a,
        index,
        selected,
    ) == word_ready(b, index, selected) by {
        assert forall|i: int| #[trigger] bit(selected, i) implies ready(a, 64 * index + i) == ready(
            b,
            64 * index + i,
        ) by {
            assert(bit(selected, i) == (64 * index + i < flags.len() && flags[64 * index + i]));
        }
    }
}

/// An outcome of a fold is that of every other one.
proof fn lemma_fold_decided<B, V, F: FnMut(B, usize, Option<V>) -> Result<B, Error>>(
    cells: Cells<V>,
    flags: Seq<bool>,
    word_errors: (spec_fn(int, u64) -> Error, spec_fn(int, u64) -> Error),
    fold: F,
    init: B,
    first: Result<B, Error>,
    second: Result<B, Error>,
)
    requires
        cells.len() == flags.len(),
        deterministic::<B, V, F>(fold),
        forall|index: int, selected: u64|
            0 <= index < words_for(flags.len() as int) && #[trigger] covers(selected, flags, index)
                && !word_ready(cells, index, selected) ==> (word_errors.0)(index, selected) == (
            word_errors.1)(index, selected),
        fold_outcome(cells, flags, word_errors.0, fold, init, first),
        fold_outcome(cells, flags, word_errors.1, fold, init, second),
    ensures
        first is Err ==> first == second,
        first is Ok && second is Ok ==> first == second,
{
    let len = flags.len() as int;
    match first {
        Ok(a) => {
            if let Ok(b) = second {
                lemma_folded_once(fold, init, items(cells, selected_rows(flags, 0, len)), a, b);
            }
        },
        Err(error) => {
            if fold_failed(cells, flags, fold, init, error) {
                let (row, acc) = choose|row: int, acc: B|
                    0 <= row < flags.len() && flags[row] && ready_before(
                        cells,
                        flags,
                        word_end(row),
                    ) && #[trigger] folded_before(cells, flags, row, fold, init, acc)
                        && call_ensures(
                        fold,
                        (acc, row as usize, value_at(cells, row)),
                        Err::<B, Error>(error),
                    );
                lemma_fold_stops(cells, flags, fold, init, row, acc, error);
                if let Err(other) = second {
                    if !fold_failed(cells, flags, fold, init, other) {
                        let (index, selected, seen) = choose|
                            index: int,
                            selected: u64,
                            seen: B,
                        |
                            {
                                &&& 0 <= index < words_for(flags.len() as int)
                                &&& #[trigger] covers(selected, flags, index)
                                &&& ready_before(cells, flags, 64 * index)
                                &&& !word_ready(cells, index, selected)
                                &&& #[trigger] folded_before(
                                    cells,
                                    flags,
                                    64 * index,
                                    fold,
                                    init,
                                    seen,
                                )
                                &&& other == (word_errors.1)(index, selected)
                            };
                        lemma_word_ready(cells, flags, index, selected);
                        assert(ready_before(cells, flags, word_start(len, index + 1)));
                    }
                }
            } else {
                let (index, selected, acc) = choose|index: int, selected: u64, acc: B|
                    {
                        &&& 0 <= index < words_for(flags.len() as int)
                        &&& #[trigger] covers(selected, flags, index)
                        &&& ready_before(cells, flags, 64 * index)
                        &&& !word_ready(cells, index, selected)
                        &&& #[trigger] folded_before(cells, flags, 64 * index, fold, init, acc)
                        &&& error == (word_errors.0)(index, selected)
                    };
                lemma_word_ready(cells, flags, index, selected);
                assert(!ready_before(cells, flags, word_start(len, index + 1)));
                if let Err(other) = second {
                    if fold_failed(cells, flags, fold, init, other) {
                        let (row, seen) = choose|row: int, seen: B|
                            0 <= row < flags.len() && flags[row] && ready_before(
                                cells,
                                flags,
                                word_end(row),
                            ) && #[trigger] folded_before(cells, flags, row, fold, init, seen)
                                && call_ensures(
                                fold,
                                (seen, row as usize, value_at(cells, row)),
                                Err::<B, Error>(other),
                            );
                        lemma_fold_stops(cells, flags, fold, init, row, seen, other);
                        assert(row < 64 * index);
                    } else {
                        let (j, w, seen) = choose|j: int, w: u64, seen: B|
                            {
                                &&& 0 <= j < words_for(flags.len() as int)
                                &&& #[trigger] covers(w, flags, j)
                                &&& ready_before(cells, flags, 64 * j)
                                &&& !word_ready(cells, j, w)
                                &&& #[trigger] folded_before(cells, flags, 64 * j, fold, init, seen)
                                &&& other == (word_errors.1)(j, w)
                            };
                        lemma_same_failure(cells, flags, index, selected, j, w);
                    }
                }
            }
        },
    }
}

/// What a column holds: a row can be read when it exists and is prepared, and
/// then gives what its cell holds. Items pair rows with that, and a selection is
/// ready when each of its rows can be read.
pub proof fn lemma_cells<V>(cells: Cells<V>, flags: Seq<bool>, rows: Seq<int>)
    ensures
        forall|row: int| #[trigger]
            ready(cells, row) <==> 0 <= row < cells.len() && cells[row] is Some,
        forall|row: int|
            0 <= row < cells.len() && cells[row] is Some ==> Some(#[trigger] value_at(cells, row))
                == cells[row],
        items(cells, rows).len() == rows.len(),
        forall|k: int|
            0 <= k < rows.len() && 0 <= rows[k] <= usize::MAX ==> (#[trigger] items(
                cells,
                rows,
            )[k]).0 as int == rows[k],
        forall|k: int|
            0 <= k < rows.len() && 0 <= rows[k] < cells.len() && cells[rows[k]] is Some ==> Some(
                (#[trigger] items(cells, rows)[k]).1,
            ) == cells[rows[k]],
        selection_ready(cells, flags) <==> forall|row: int|
            0 <= row < flags.len() && #[trigger] flags[row] ==> row < cells.len()
                && cells[row] is Some,
{
    if forall|row: int|
        0 <= row < flags.len() && #[trigger] flags[row] ==> row < cells.len()
            && cells[row] is Some {
        assert(selection_ready(cells, flags));
    }
    if selection_ready(cells, flags) {
        assert forall|row: int| 0 <= row < flags.len() && #[trigger] flags[row] implies row
            < cells.len() && cells[row] is Some by {
            assert(ready(cells, row));
        }
    }
}

/// The words that can be read: those that exist and name only existing, prepared
/// rows.
pub proof fn lemma_word_cells<V>(cells: Cells<V>, index: int, selected: u64)
    requires
        0 <= index,
    ensures
        word_ready(cells, index, selected) <==> 64 * index < cells.len() && forall|i: int|
            #[trigger] bit(selected, i) ==> 64 * index + i < cells.len() && cells[64 * index
                + i] is Some,
{
    if word_ready(cells, index, selected) {
        assert forall|i: int| #[trigger] bit(selected, i) implies 64 * index + i < cells.len()
            && cells[64 * index + i] is Some by {
            assert(ready(cells, 64 * index + i));
        }
    }
}

/// A block of a word holds the cells of its 64 rows, in order.
pub proof fn lemma_block_cells<T>(
    block: WordBlock<'_, T>,
    datum: spec_fn(u64) -> Option<T>,
    cells: Cells<T>,
    index: int,
    i: int,
)
    requires
        0 <= index,
        block_holds(block, datum, cells, index),
        0 <= i < 64,
    ensures
        64 * index + 64 <= cells.len(),
        cells[64 * index + i] == Some(
            match block {
                WordBlock::Dense { values, non_nulls } => if (non_nulls >> (i as u64)) & 1 == 1 {
                    Some(values@[i])
                } else {
                    None
                },
                WordBlock::Datum { values, isnull } => if isnull@[i] {
                    None
                } else {
                    datum(values@[i])
                },
            },
        ),
{
    assert(block_value(block, datum, i) == value_at(cells, 64 * index + i));
    assert(ready(cells, 64 * index + i));
}

/// A fold over no item leaves its start, and one more item takes one call.
pub proof fn lemma_fold_steps<B, V, F: FnMut(B, usize, Option<V>) -> Result<B, Error>>(
    fold: F,
    init: B,
    items: Seq<(usize, Option<V>)>,
    item: (usize, Option<V>),
    acc: B,
)
    ensures
        try_folded(fold, init, Seq::<(usize, Option<V>)>::empty(), acc) <==> acc == init,
        try_folded(fold, init, items.push(item), acc) <==> exists|before: B|
            try_folded(fold, init, items, before) && #[trigger] call_ensures(
                fold,
                (before, item.0, item.1),
                Ok::<B, Error>(acc),
            ),
{
    let more = items.push(item);
    assert(more.drop_last() =~= items);
    assert(more.last() == item);
}

/// What a successful fold has done: it has read every selected row, in order and
/// without an error. One that failed did so on its own account at a selected row,
/// or at a selected row that cannot be read.
pub proof fn lemma_fold_rows<B, V, F: FnMut(B, usize, Option<V>) -> Result<B, Error>>(
    cells: Cells<V>,
    flags: Seq<bool>,
    word_error: spec_fn(int, u64) -> Error,
    fold: F,
    init: B,
    result: Result<B, Error>,
)
    requires
        cells.len() == flags.len(),
        fold_outcome(cells, flags, word_error, fold, init, result),
    ensures
        result matches Ok(acc) ==> {
            &&& forall|row: int|
                0 <= row < flags.len() && #[trigger] flags[row] ==> cells[row] is Some
            &&& try_folded(
                fold,
                init,
                items(cells, selected_rows(flags, 0, flags.len() as int)),
                acc,
            )
        },
        result matches Err(error) ==> exists|row: int|
            0 <= row < flags.len() && #[trigger] flags[row] && (cells[row] is None || exists|acc: B|
                {
                    &&& #[trigger] try_folded(
                        fold,
                        init,
                        items(cells, selected_rows(flags, 0, row)),
                        acc,
                    )
                    &&& call_ensures(
                        fold,
                        (acc, row as usize, cells[row]->0),
                        Err::<B, Error>(error),
                    )
                }),
{
    match result {
        Ok(acc) => {
            assert forall|row: int| 0 <= row < flags.len() && #[trigger] flags[row] implies
                cells[row] is Some by {
                assert(ready(cells, row));
            }
        },
        Err(error) => {
            if fold_failed(cells, flags, fold, init, error) {
                let (row, acc) = choose|row: int, acc: B|
                    0 <= row < flags.len() && flags[row] && ready_before(
                        cells,
                        flags,
                        word_end(row),
                    ) && #[trigger] folded_before(cells, flags, row, fold, init, acc)
                        && call_ensures(
                        fold,
                        (acc, row as usize, value_at(cells, row)),
                        Err::<B, Error>(error),
                    );
                assert(flags[row]);
                assert(try_folded(fold, init, items(cells, selected_rows(flags, 0, row)), acc));
            } else {
                let (index, selected) = choose|index: int, selected: u64|
                    {
                        &&& 0 <= index < words_for(flags.len() as int)
                        &&& #[trigger] covers(selected, flags, index)
                        &&& !word_ready(cells, index, selected)
                    };
                let i = choose|i: int| #[trigger]
                    bit(selected, i) && !ready(cells, 64 * index + i);
                assert(flags[64 * index + i]);
            }
        },
    }
}

} // verus!
