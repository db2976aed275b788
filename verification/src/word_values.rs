//! Statically typed reading of columns, word by word.

use core::marker::PhantomData;

use vstd::prelude::*;
#[allow(unused_imports)]
use vstd::std_specs::bits::u64_trailing_zeros;
#[allow(unused_imports)]
use vstd::std_specs::iter::IteratorSpec;

use crate::bitmap::{word_count, words_for};
use crate::bits::{bit, word_rows};
#[allow(unused_imports)]
use crate::bits::{
    lemma_bit_and, lemma_bit_constants, lemma_bit_not, lemma_lowest_bit, lemma_clear_lowest,
    lemma_width, lemma_word_rows_empty, lemma_word_rows_full, lemma_word_rows_pop,
};
use crate::error::Error;

verus! {

/// Reading of single rows, the step that a word iterator repeats.
pub trait ReadRow: Sized {
    /// What a row holds.
    type Value;

    /// The rows that may be read.
    spec fn readable(&self, row: int) -> bool;

    /// What a read of a row may return.
    spec fn reads(&self, row: int, value: Option<Self::Value>) -> bool;

    /// Read one row, `None` for NULL.
    fn read(&mut self, row: usize) -> (value: Option<Self::Value>)
        requires
            old(self).readable(row as int),
        ensures
            old(self).reads(row as int, value),
            *final(self) == *old(self),
    ;
}

/// A reader whose reads return one value per row.
pub open spec fn functional<R: ReadRow>(reader: R) -> bool {
    forall|row: int, a: Option<R::Value>, b: Option<R::Value>|
        #![trigger reader.reads(row, a), reader.reads(row, b)]
        reader.reads(row, a) && reader.reads(row, b) ==> a == b
}

/// What a functional reader returns for a row.
pub open spec fn value_read<R: ReadRow>(reader: R, row: int) -> Option<R::Value> {
    choose|value: Option<R::Value>| reader.reads(row, value)
}

/// Rows with what a reader returns for them.
pub open spec fn items_read<R: ReadRow>(reader: R, rows: Seq<int>) -> Seq<
    (usize, Option<R::Value>),
> {
    Seq::new(rows.len(), |k: int| (rows[k] as usize, value_read(reader, rows[k])))
}

/// Reading of rows by a closure.
pub struct FromFn<F, V> {
    read: F,
    value: PhantomData<V>,
}

impl<F, V> FromFn<F, V> where F: FnMut(usize) -> Option<V> {
    /// The closure.
    pub closed spec fn closure(self) -> F {
        self.read
    }
}

impl<F, V> ReadRow for FromFn<F, V> where F: FnMut(usize) -> Option<V> {
    type Value = V;

    open spec fn readable(&self, row: int) -> bool {
        call_requires(self.closure(), (row as usize,))
    }

    open spec fn reads(&self, row: int, value: Option<V>) -> bool {
        call_ensures(self.closure(), (row as usize,), value)
    }

    fn read(&mut self, row: usize) -> (value: Option<V>) {
        (self.read)(row)
    }
}

/// A selection word exists and names no row beyond the last one.
pub open spec fn word_within(nrows: int, word_index: int, selected: u64) -> bool {
    &&& word_index < words_for(nrows)
    &&& forall|i: int| #[trigger] bit(selected, i) ==> 64 * word_index + i < nrows
}

/// Why a refused selection word cannot be read: it does not exist, names a row
/// beyond the last one, or else names an unprepared row.
pub open spec fn refusal(nrows: int, word_index: int, selected: u64) -> Error {
    if word_index >= words_for(nrows) {
        Error::SelectionWordOutOfBounds
    } else if !word_within(nrows, word_index, selected) {
        Error::SelectionPadding
    } else {
        Error::SelectionUnprepared
    }
}

/// A selection word names only existing, prepared rows.
pub open spec fn accepted(nrows: int, word_index: int, selected: u64, prepared: u64) -> bool {
    &&& word_within(nrows, word_index, selected)
    &&& forall|i: int| #[trigger] bit(selected, i) ==> bit(prepared, i)
}

/// A validated, allocation-free iterator over one selection word.
///
/// Its private state guarantees that its reader is called only for selected,
/// prepared rows below the row count, at most once each, in increasing order.
pub struct WordValues<R: ReadRow> {
    base: usize,
    remaining: u64,
    /// Taken out while it reads a row, so that a read that unwinds leaves an
    /// exhausted iterator.
    reader: Option<R>,
}

impl<R: ReadRow> WordValues<R> {
    #[verifier::type_invariant]
    spec fn inv(self) -> bool {
        self.reader matches Some(reader) ==> forall|i: int| #[trigger]
            bit(self.remaining, i) ==> self.base + i <= usize::MAX && reader.readable(
                self.base + i,
            )
    }

    /// The rows that have not been read, in the order of reading.
    pub closed spec fn rows(self) -> Seq<int> {
        if self.reader is Some {
            word_rows(self.base as int, self.remaining)
        } else {
            Seq::empty()
        }
    }

    /// What reads the rows.
    pub closed spec fn source(self) -> R {
        self.reader->0
    }

    /// Validate bounds, padding, and readiness without reading any row.
    pub fn over(
        nrows: usize,
        word_index: usize,
        selected: u64,
        prepared: u64,
        reader: R,
    ) -> (result: Result<Self, Error>)
        requires
            accepted(nrows as int, word_index as int, selected, prepared) ==> forall|i: int|
                #[trigger] bit(selected, i) ==> reader.readable(64 * word_index + i),
        ensures
            result is Ok <==> accepted(nrows as int, word_index as int, selected, prepared),
            result matches Ok(values) ==> values.rows() == word_rows(64 * word_index, selected)
                && values.source() == reader,
            result matches Err(error) ==> error == refusal(
                nrows as int,
                word_index as int,
                selected,
            ),
    {
        if word_index >= word_count(nrows) {
            return Err(Error::SelectionWordOutOfBounds);
        }
        let base: usize = word_index * 64;
        let width: usize = 64 - selected.leading_zeros() as usize;
        proof {
            lemma_width(selected, nrows - base);
        }
        if width > nrows - base {
            return Err(Error::SelectionPadding);
        }
        let unprepared = selected & !prepared;
        proof {
            assert forall|i: int| #[trigger] bit(unprepared, i) == (bit(selected, i) && !bit(
                prepared,
                i,
            )) by {
                lemma_bit_and(selected, !prepared, i);
                if 0 <= i < 64 {
                    lemma_bit_not(prepared, i);
                }
            }
            if unprepared != 0 {
                lemma_lowest_bit(unprepared);
            } else {
                assert forall|i: int| !(#[trigger] bit(unprepared, i)) by {
                    lemma_bit_constants(i);
                }
                assert forall|i: int| bit(selected, i) implies bit(prepared, i) by {
                    assert(!bit(unprepared, i));
                }
            }
        }
        if unprepared != 0 {
            return Err(Error::SelectionUnprepared);
        }
        Ok(WordValues { base, remaining: selected, reader: Some(reader) })
    }
}

impl<F, V> WordValues<FromFn<F, V>> where F: FnMut(usize) -> Option<V> {
    /// Validate bounds, padding, and readiness without invoking `read`.
    ///
    /// `prepared` describes the same physical word as `selected`; use
    /// `u64::MAX` when all rows are prepared. Even an empty selection must
    /// refer to an existing word. No per-row readiness checks follow.
    pub fn try_new(
        nrows: usize,
        word_index: usize,
        selected: u64,
        prepared: u64,
        read: F,
    ) -> (result: Result<Self, Error>)
        requires
            forall|row: usize|
                64 * word_index <= row < nrows && bit(selected, row - 64 * word_index) && bit(
                    prepared,
                    row - 64 * word_index,
                ) ==> #[trigger] call_requires(read, (row,)),
        ensures
            result is Ok <==> accepted(nrows as int, word_index as int, selected, prepared),
            result matches Ok(values) ==> values.rows() == word_rows(64 * word_index, selected)
                && values.source().closure() == read,
            result matches Err(error) ==> error == refusal(
                nrows as int,
                word_index as int,
                selected,
            ),
    {
        WordValues::over(nrows, word_index, selected, prepared, FromFn { read, value: PhantomData })
    }
}

/// What reading `rows` in order may return.
pub open spec fn read_as<R: ReadRow>(
    reader: R,
    rows: Seq<int>,
    items: Seq<(usize, Option<R::Value>)>,
) -> bool {
    &&& items.len() == rows.len()
    &&& forall|k: int|
        0 <= k < items.len() ==> (#[trigger] items[k]).0 == rows[k] && reader.reads(
            rows[k],
            items[k].1,
        )
}

/// `acc` can result from folding `items` in order, starting with `init`.
pub open spec fn folded<B, I, G: FnMut(B, I) -> B>(
    fold: G,
    init: B,
    items: Seq<I>,
    acc: B,
) -> bool
    decreases items.len(),
{
    if items.len() == 0 {
        acc == init
    } else {
        exists|before: B|
            folded(fold, init, items.drop_last(), before) && #[trigger] call_ensures(
                fold,
                (before, items.last()),
                acc,
            )
    }
}

/// The fold accepts every item that it meets in order.
pub open spec fn folds_items<B, I, G: FnMut(B, I) -> B>(fold: G, init: B, items: Seq<I>) -> bool {
    forall|k: int, acc: B|
        0 <= k < items.len() && #[trigger] folded(fold, init, items.take(k), acc) ==> call_requires(
            fold,
            (acc, items[k]),
        )
}

/// The fold accepts whatever it meets while the rows are read in order.
pub open spec fn folds_rows<R: ReadRow, B, G: FnMut(B, (usize, Option<R::Value>)) -> B>(
    reader: R,
    rows: Seq<int>,
    fold: G,
    init: B,
) -> bool {
    forall|items: Seq<(usize, Option<R::Value>)>, acc: B|
        #![trigger folded(fold, init, items.drop_last(), acc)]
        0 < items.len() <= rows.len() && read_as(reader, rows.take(items.len() as int), items)
            && folded(fold, init, items.drop_last(), acc) ==> call_requires(
            fold,
            (acc, items.last()),
        )
}

/// A functional reader has one way to read rows.
proof fn lemma_read_as<R: ReadRow>(
    reader: R,
    rows: Seq<int>,
    items: Seq<(usize, Option<R::Value>)>,
)
    requires
        functional(reader),
        read_as(reader, rows, items),
    ensures
        items == items_read(reader, rows),
{
    assert forall|k: int| 0 <= k < items.len() implies #[trigger] items[k] == items_read(
        reader,
        rows,
    )[k] by {
        assert(reader.reads(rows[k], items[k].1));
        assert(reader.reads(rows[k], value_read(reader, rows[k])));
    }
    assert(items =~= items_read(reader, rows));
}

/// A fold that accepts what a functional reader returns accepts its rows.
proof fn lemma_folds_rows<R: ReadRow, B, G: FnMut(B, (usize, Option<R::Value>)) -> B>(
    reader: R,
    rows: Seq<int>,
    fold: G,
    init: B,
)
    requires
        functional(reader),
        folds_items(fold, init, items_read(reader, rows)),
    ensures
        folds_rows(reader, rows, fold, init),
{
    let all = items_read(reader, rows);
    assert forall|items: Seq<(usize, Option<R::Value>)>, acc: B|
        #![trigger folded(fold, init, items.drop_last(), acc)]
        0 < items.len() <= rows.len() && read_as(reader, rows.take(items.len() as int), items)
            && folded(fold, init, items.drop_last(), acc) implies call_requires(
        fold,
        (acc, items.last()),
    ) by {
        let k = items.len() - 1;
        lemma_read_as(reader, rows.take(items.len() as int), items);
        assert(items.drop_last() =~= all.take(k));
        assert(items.last() == all[k]);
        assert(folded(fold, init, all.take(k), acc));
    }
}

/// One more item extends a partial fold.
proof fn lemma_folded_push<R: ReadRow, B, G: FnMut(B, (usize, Option<R::Value>)) -> B>(
    reader: R,
    rows: Seq<int>,
    items: Seq<(usize, Option<R::Value>)>,
    item: (usize, Option<R::Value>),
)
    requires
        items.len() < rows.len(),
        read_as(reader, rows.take(items.len() as int), items),
        item.0 == rows[items.len() as int],
        reader.reads(rows[items.len() as int], item.1),
    ensures
        items.push(item).drop_last() == items,
        items.push(item).last() == item,
        read_as(reader, rows.take(items.len() as int + 1), items.push(item)),
{
    assert(items.push(item).drop_last() =~= items);
    let more = items.push(item);
    let taken = rows.take(more.len() as int);
    assert forall|k: int| 0 <= k < more.len() implies (#[trigger] more[k]).0 == taken[k]
        && reader.reads(taken[k], more[k].1) by {
        if k < items.len() {
            assert(more[k] == items[k]);
            assert(taken[k] == rows.take(items.len() as int)[k]);
        }
    }
}

/// The bulk path: a full word walks its rows with a counted loop.
fn fold_full_word<R: ReadRow, B, G: FnMut(B, (usize, Option<R::Value>)) -> B>(
    base: usize,
    reader: R,
    init: B,
    fold: G,
) -> (acc: B)
    requires
        base + 63 <= usize::MAX,
        forall|i: int| 0 <= i < 64 ==> reader.readable(#[trigger] (base + i)),
        folds_rows(reader, word_rows(base as int, u64::MAX), fold, init),
    ensures
        exists|items: Seq<(usize, Option<R::Value>)>| #[trigger]
            read_as(reader, word_rows(base as int, u64::MAX), items) && folded(
                fold,
                init,
                items,
                acc,
            ),
{
    let mut reader = reader;
    let mut fold = fold;
    let mut acc = init;
    let ghost source = reader;
    let ghost step = fold;
    let ghost rows = word_rows(base as int, u64::MAX);
    proof {
        lemma_word_rows_full(base as int);
        assert(rows.take(0) =~= Seq::<int>::empty());
    }
    let ghost mut items = Seq::<(usize, Option<R::Value>)>::empty();
    let mut offset: usize = 0;
    while offset < 64
        invariant
            offset <= 64,
            base + 63 <= usize::MAX,
            reader == source,
            fold == step,
            rows == Seq::new(64, |k: int| base + k),
            forall|i: int| 0 <= i < 64 ==> source.readable(#[trigger] (base + i)),
            folds_rows(source, rows, step, init),
            items.len() == offset,
            read_as(source, rows.take(offset as int), items),
            folded(step, init, items, acc),
        decreases 64 - offset,
    {
        let row = base + offset;
        proof {
            assert(reader.readable(base + offset as int));
        }
        let value = reader.read(row);
        proof {
            lemma_folded_push::<R, B, G>(source, rows, items, (row, value));
            items = items.push((row, value));
        }
        let ghost before = acc;
        assert(folded(step, init, items.drop_last(), before));
        acc = fold(acc, (row, value));
        assert(call_ensures(step, (before, items.last()), acc));
        assert(folded(step, init, items, acc));
        offset = offset + 1;
    }
    proof {
        assert(rows.take(64) =~= rows);
    }
    acc
}

impl<R: ReadRow> WordValues<R> {
    /// Fold over the rows that have not been read.
    ///
    /// A full word walks its rows with a counted loop, one loop exit per word
    /// instead of a taken branch and a bit scan per row. Rows already taken
    /// with `next` are not revisited.
    pub fn fold<B, G: FnMut(B, (usize, Option<R::Value>)) -> B>(self, init: B, fold: G) -> (acc: B)
        requires
            folds_rows(self.source(), self.rows(), fold, init),
        ensures
            exists|items: Seq<(usize, Option<R::Value>)>| #[trigger]
                read_as(self.source(), self.rows(), items) && folded(fold, init, items, acc),
    {
        let mut fold = fold;
        let mut acc = init;
        let ghost step = fold;
        let ghost rows = self.rows();
        let ghost source = self.source();
        let ghost mut items = Seq::<(usize, Option<R::Value>)>::empty();
        proof {
            use_type_invariant(&self);
            lemma_word_rows_empty(self.base as int);
            assert(rows.take(0) =~= Seq::<int>::empty());
        }
        let base = self.base;
        let mut remaining = self.remaining;
        match self.reader {
            None => {
                proof {
                    assert(read_as(source, rows, items));
                }
            },
            Some(only) => {
                let mut reader = only;
                if remaining == u64::MAX {
                    proof {
                        lemma_word_rows_full(base as int);
                        lemma_bit_constants(63);
                        assert(base + 63 <= usize::MAX);
                        assert forall|i: int| 0 <= i < 64 implies source.readable(
                            #[trigger] (base + i),
                        ) by {
                            lemma_bit_constants(i);
                        }
                    }
                    return fold_full_word(base, reader, acc, fold);
                }
                while remaining != 0
                    invariant
                        reader == source,
                        fold == step,
                        forall|i: int| #[trigger]
                            bit(remaining, i) ==> base + i <= usize::MAX && source.readable(
                                base + i,
                            ),
                        folds_rows(source, rows, step, init),
                        items.len() <= rows.len(),
                        rows.skip(items.len() as int) == word_rows(base as int, remaining),
                        read_as(source, rows.take(items.len() as int), items),
                        folded(step, init, items, acc),
                    decreases remaining,
                {
                    proof {
                        lemma_lowest_bit(remaining);
                        lemma_word_rows_pop(base as int, remaining);
                        assert(bit(remaining, u64_trailing_zeros(remaining) as int));
                        assert(rows.skip(items.len() as int)[0] == rows[items.len() as int]);
                        assert(rows.skip(items.len() as int).drop_first() =~= rows.skip(
                            items.len() as int + 1,
                        ));
                        lemma_clear_lowest(remaining);
                    }
                    let row = base + remaining.trailing_zeros() as usize;
                    remaining = remaining & (remaining - 1);
                    let value = reader.read(row);
                    proof {
                        lemma_folded_push::<R, B, G>(source, rows, items, (row, value));
                        items = items.push((row, value));
                    }
                    let ghost before = acc;
                    assert(folded(step, init, items.drop_last(), before));
                    acc = fold(acc, (row, value));
                    assert(call_ensures(step, (before, items.last()), acc));
                    assert(folded(step, init, items, acc));
                }
                proof {
                    lemma_word_rows_empty(base as int);
                    assert(rows.take(items.len() as int) =~= rows);
                }
            },
        }
        acc
    }
}

impl<R: ReadRow> WordValues<R> {
    /// Fold over the rows of a functional reader.
    pub(crate) fn fold_read<B, G: FnMut(B, (usize, Option<R::Value>)) -> B>(
        self,
        init: B,
        fold: G,
    ) -> (acc: B)
        requires
            functional(self.source()),
            folds_items(fold, init, items_read(self.source(), self.rows())),
        ensures
            folded(fold, init, items_read(self.source(), self.rows()), acc),
    {
        let ghost source = self.source();
        let ghost rows = self.rows();
        proof {
            lemma_folds_rows(source, rows, fold, init);
        }
        let acc = self.fold(init, fold);
        proof {
            let items = choose|items: Seq<(usize, Option<R::Value>)>|
                #[trigger] read_as(source, rows, items) && folded(fold, init, items, acc);
            lemma_read_as(source, rows, items);
        }
        acc
    }
}

impl<R: ReadRow> vstd::std_specs::iter::IteratorSpecImpl for WordValues<R> {
    open spec fn obeys_prophetic_iter_laws(&self) -> bool {
        functional(self.source())
    }

    open spec fn remaining(&self) -> Seq<(usize, Option<R::Value>)> {
        items_read(self.source(), self.rows())
    }

    open spec fn will_return_none(&self) -> bool {
        true
    }

    open spec fn decrease(&self) -> Option<nat> {
        Some(self.rows().len())
    }

    open spec fn initial_value_relation(&self, init: &Self) -> bool {
        self.rows() == init.rows() && self.source() == init.source()
    }

    open spec fn peek(&self, index: int) -> Option<(usize, Option<R::Value>)> {
        None
    }
}

impl<R: ReadRow> Iterator for WordValues<R> {
    type Item = (usize, Option<R::Value>);

    fn next(&mut self) -> (ret: Option<(usize, Option<R::Value>)>)
        ensures
            final(self).source() == old(self).source(),
            old(self).rows().len() == 0 ==> ret is None && final(self).rows() == old(self).rows(),
            old(self).rows().len() > 0 ==> {
                &&& ret matches Some((row, value)) && row == old(self).rows()[0] && old(
                    self,
                ).source().reads(row as int, value)
                &&& final(self).rows() == old(self).rows().drop_first()
            },
    {
        proof {
            use_type_invariant(&*self);
            lemma_word_rows_empty(self.base as int);
        }
        if self.remaining == 0 {
            assert(items_read(self.source(), self.rows()).len() == 0);
            return None;
        }
        let word = self.remaining;
        proof {
            lemma_lowest_bit(word);
            lemma_word_rows_pop(self.base as int, word);
            assert(bit(word, u64_trailing_zeros(word) as int));
        }
        let mut taken: Option<R> = None;
        core::mem::swap(&mut taken, &mut self.reader);
        match taken {
            None => {
                assert(items_read(self.source(), self.rows()).len() == 0);
                assert(*self == *old(self));
                None
            },
            Some(mut reader) => {
                let row = self.base + word.trailing_zeros() as usize;
                self.remaining = word & (word - 1);
                let value = reader.read(row);
                self.reader = Some(reader);
                assert(items_read(self.source(), self.rows()) =~= items_read(
                    old(self).source(),
                    old(self).rows(),
                ).drop_first());
                Some((row, value))
            },
        }
    }
}

impl<R: ReadRow> core::iter::FusedIterator for WordValues<R> {

}

/// What a word iterator yields follows from its rows and their reader.
pub proof fn lemma_yields<R: ReadRow>(words: WordValues<R>)
    ensures
        words.obeys_prophetic_iter_laws() == functional(words.source()),
        words.remaining() == items_read(words.source(), words.rows()),
        words.decrease() == Some(words.rows().len()),
{
}

/// Which selection words are accepted, and why the others are not: a word that
/// does not exist, a set bit beyond the last row, or a row that is not prepared,
/// in this order.
pub proof fn lemma_word_refused(nrows: int, word_index: int, selected: u64, prepared: u64)
    requires
        0 <= nrows,
        0 <= word_index,
    ensures
        accepted(nrows, word_index, selected, prepared) <==> 64 * word_index < nrows && forall|
            i: int,
        | #[trigger]
            bit(selected, i) ==> 64 * word_index + i < nrows && bit(prepared, i),
        refusal(nrows, word_index, selected) == Error::SelectionWordOutOfBounds <==> 64 * word_index
            >= nrows,
        64 * word_index < nrows ==> (refusal(nrows, word_index, selected)
            == Error::SelectionPadding <==> exists|i: int| #[trigger]
            bit(selected, i) && 64 * word_index + i >= nrows),
        64 * word_index < nrows && (forall|i: int| #[trigger]
            bit(selected, i) ==> 64 * word_index + i < nrows) ==> refusal(
            nrows,
            word_index,
            selected,
        ) == Error::SelectionUnprepared,
{
}

/// A fold over no item leaves its start, and one more item takes one call.
pub proof fn lemma_folded_steps<B, I, G: FnMut(B, I) -> B>(
    fold: G,
    init: B,
    items: Seq<I>,
    item: I,
    acc: B,
)
    ensures
        folded(fold, init, Seq::<I>::empty(), acc) <==> acc == init,
        folded(fold, init, items.push(item), acc) <==> exists|before: B|
            folded(fold, init, items, before) && #[trigger] call_ensures(fold, (before, item), acc),
{
    let more = items.push(item);
    assert(more.drop_last() =~= items);
    assert(more.last() == item);
}

} // verus!
