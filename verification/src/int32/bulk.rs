//! Whole-word aggregates: the present rows of a word are its selected non-NULL
//! rows, and each kernel returns their count with its result.

use vstd::prelude::*;

use crate::bits::{bit, count_ones, ones, rows_in, word_rows};
#[allow(unused_imports)]
use crate::bits::{lemma_bit_and, lemma_word_rows_contains, lemma_word_rows_shift};
use crate::int32::aggregate::{greatest, held, least, present, total};
use crate::int32::int4_datums;
use crate::reader::{
    block_holds, block_value, ready, value_at, word_ready, ColumnReader, WordBlock,
};
use crate::simd;
#[allow(unused_imports)]
use crate::simd::aggregate::{gather, masked};
#[allow(unused_imports)]
use crate::simd::Side;

verus! {

/// Row `i` of a block that holds int4 values.
pub open spec fn lane(block: WordBlock<'_, i32>, i: int) -> Option<i32> {
    block_value(block, |datum: u64| Some(datum as i32), i)
}

/// The non-NULL values of the selected rows of a block.
pub open spec fn block_values(block: WordBlock<'_, i32>, selected: u64) -> Seq<i32> {
    let rows = word_rows(0, selected);
    present(Seq::new(rows.len(), |k: int| lane(block, rows[k])))
}

/// An operand with the values of the masked rows of a block.
spec fn holds_lanes(block: WordBlock<'_, i32>, side: Side<'_>, mask: u64) -> bool {
    forall|i: int| #[trigger] bit(mask, i) ==> lane(block, i) == Some(side.at(i))
}

/// A mask of the selected non-NULL rows of a block names its values.
proof fn lemma_block_values(
    block: WordBlock<'_, i32>,
    side: Side<'_>,
    selected: u64,
    mask: u64,
    end: int,
)
    requires
        0 <= end <= 64,
        forall|i: int|
            0 <= i < 64 ==> #[trigger] bit(mask, i) == (bit(selected, i) && lane(block, i) is Some),
        holds_lanes(block, side, mask),
    ensures
        ({
            let rows = rows_in(|row: int| bit(selected, row - 0), 0, end);
            let lanes = rows_in(|row: int| bit(mask, row - 0), 0, end);
            present(Seq::new(rows.len(), |k: int| lane(block, rows[k]))) == gather(side, lanes)
        }),
        end == 64 ==> block_values(block, selected) == masked(side, mask),
    decreases end,
{
    let p = |row: int| bit(selected, row - 0);
    let q = |row: int| bit(mask, row - 0);
    let rows = rows_in(p, 0, end);
    let lanes = rows_in(q, 0, end);
    let values = Seq::new(rows.len(), |k: int| lane(block, rows[k]));
    if end > 0 {
        lemma_block_values(block, side, selected, mask, end - 1);
        let less = rows_in(p, 0, end - 1);
        let before = Seq::new(less.len(), |k: int| lane(block, less[k]));
        let i = end - 1;
        assert(p(i) == bit(selected, i));
        assert(q(i) == bit(mask, i));
        if bit(selected, i) {
            assert(values.drop_last() =~= before);
            assert(values.last() == lane(block, i));
        }
        assert(present(values) =~= gather(side, lanes));
    } else {
        assert(present(values) =~= gather(side, lanes));
    }
}

/// A block of a column holds what the selected rows of its word hold.
pub(crate) proof fn lemma_block_held<C: ColumnReader<Value = i32>>(
    column: &C,
    block: WordBlock<'_, i32>,
    index: int,
    selected: u64,
)
    requires
        int4_datums(column),
        block_holds(block, |datum: u64| column.datum_value(datum), column.cells(), index),
    ensures
        block_values(block, selected) == present(
            held(column.cells(), word_rows(64 * index, selected)),
        ),
        word_ready(column.cells(), index, selected),
{
    let cells = column.cells();
    let datum = |datum: u64| column.datum_value(datum);
    let rows = word_rows(0, selected);
    let shifted = word_rows(64 * index, selected);
    lemma_word_rows_shift(64 * index, selected);
    lemma_word_rows_contains(0, selected);
    let values = Seq::new(rows.len(), |k: int| lane(block, rows[k]));
    assert forall|k: int| 0 <= k < rows.len() implies #[trigger] values[k] == held(cells, shifted)[k] by {
        let i = rows[k];
        assert(block_value(block, datum, i) == value_at(cells, 64 * index + i));
        if let WordBlock::Datum { values, isnull } = block {
            assert(!isnull@[i] ==> datum(values@[i]) is Some);
            assert(column.datum_value(values@[i]) matches Some(value) ==> value
                == values@[i] as i32);
        }
        assert(shifted[k] == 64 * index + i);
    }
    assert(values =~= held(cells, shifted));
    assert forall|i: int| #[trigger] bit(selected, i) implies ready(cells, 64 * index + i) by {
        assert(block_value(block, datum, i) == value_at(cells, 64 * index + i));
    }
}

/// As many values as rows in a mask of the selected non-NULL rows.
proof fn lemma_block_count(block: WordBlock<'_, i32>, selected: u64, mask: u64, end: int)
    requires
        0 <= end <= 64,
        forall|i: int|
            0 <= i < 64 ==> #[trigger] bit(mask, i) == (bit(selected, i) && lane(block, i) is Some),
    ensures
        ({
            let rows = rows_in(|row: int| bit(selected, row - 0), 0, end);
            present(Seq::new(rows.len(), |k: int| lane(block, rows[k]))).len() == rows_in(
                |row: int| bit(mask, row - 0),
                0,
                end,
            ).len()
        }),
        end == 64 ==> block_values(block, selected).len() == ones(mask),
    decreases end,
{
    if end > 0 {
        lemma_block_count(block, selected, mask, end - 1);
        let p = |row: int| bit(selected, row - 0);
        let rows = rows_in(p, 0, end);
        let less = rows_in(p, 0, end - 1);
        let values = Seq::new(rows.len(), |k: int| lane(block, rows[k]));
        assert(bit(mask, end - 1) == (bit(selected, end - 1) && lane(block, end - 1) is Some));
        if bit(selected, end - 1) {
            assert(values.drop_last() =~= Seq::new(less.len(), |k: int| lane(block, less[k])));
            assert(values.last() == lane(block, end - 1));
        }
    }
}

/// As many values as selected rows of a Datum block that are not NULL.
proof fn lemma_datum_count(block: &WordBlock<'_, i32>, isnull: &[bool; 64], selected: u64)
    requires
        block matches WordBlock::Datum { isnull: flags, .. } && flags@ == isnull@,
    ensures
        block_values(*block, selected).len() == rows_in(
            |i: int| bit(selected, i) && !isnull@[i],
            0,
            64,
        ).len(),
{
    lemma_datum_count_below(block, isnull, selected, 64);
}

proof fn lemma_datum_count_below(
    block: &WordBlock<'_, i32>,
    isnull: &[bool; 64],
    selected: u64,
    end: int,
)
    requires
        0 <= end <= 64,
        block matches WordBlock::Datum { isnull: flags, .. } && flags@ == isnull@,
    ensures
        ({
            let rows = rows_in(|row: int| bit(selected, row - 0), 0, end);
            present(Seq::new(rows.len(), |k: int| lane(*block, rows[k]))).len() == rows_in(
                |i: int| bit(selected, i) && !isnull@[i],
                0,
                end,
            ).len()
        }),
    decreases end,
{
    if end > 0 {
        lemma_datum_count_below(block, isnull, selected, end - 1);
        let p = |row: int| bit(selected, row - 0);
        let rows = rows_in(p, 0, end);
        let less = rows_in(p, 0, end - 1);
        let values = Seq::new(rows.len(), |k: int| lane(*block, rows[k]));
        if bit(selected, end - 1) {
            assert(values.drop_last() =~= Seq::new(less.len(), |k: int| lane(*block, less[k])));
            assert(values.last() == lane(*block, end - 1));
        }
    }
}

/// The selected non-NULL rows of a block.
fn present_rows(block: &WordBlock<'_, i32>, selected: u64) -> (mask: u64)
    ensures
        forall|i: int|
            0 <= i < 64 ==> #[trigger] bit(mask, i) == (bit(selected, i) && lane(*block, i) is Some),
{
    let non_nulls = match block {
        WordBlock::Dense { non_nulls, .. } => *non_nulls,
        WordBlock::Datum { isnull, .. } => simd::non_null_bits(&isnull.array()),
    };
    let mask = selected & non_nulls;
    proof {
        assert forall|i: int| 0 <= i < 64 implies #[trigger] bit(mask, i) == (bit(selected, i)
            && lane(*block, i) is Some) by {
            lemma_bit_and(selected, non_nulls, i);
        }
    }
    mask
}

/// Whole-word count of the selected non-NULL rows.
pub fn count(block: &WordBlock<'_, i32>, selected: u64) -> (count: usize)
    ensures
        count == block_values(*block, selected).len(),
        count <= 64,
{
    match block {
        WordBlock::Dense { .. } => {
            let mask = present_rows(block, selected);
            proof {
                lemma_block_count(*block, selected, mask, 64);
            }
            count_ones(mask) as usize
        },
        WordBlock::Datum { isnull, .. } => {
            let flags = isnull.array();
            proof {
                lemma_datum_count(block, &flags, selected);
            }
            simd::count_datum(&flags, selected)
        },
    }
}

/// Whole-word count and sum of the selected non-NULL rows.
pub fn sum(block: &WordBlock<'_, i32>, selected: u64) -> (result: (usize, i64))
    ensures
        ({
            let (count, sum) = result;
            &&& count == block_values(*block, selected).len()
            &&& count <= 64
            &&& sum == total(block_values(*block, selected))
        }),
{
    let mask = present_rows(block, selected);
    let sum = match block {
        WordBlock::Dense { values, .. } => {
            let lanes = values.array();
            proof {
                lemma_block_values(*block, Side::Dense(&lanes), selected, mask, 64);
            }
            simd::sum_dense(&lanes, mask)
        },
        WordBlock::Datum { values, .. } => {
            let lanes = values.array();
            proof {
                lemma_block_values(*block, Side::Datum(&lanes), selected, mask, 64);
            }
            simd::sum_datum(&lanes, mask)
        },
    };
    proof {
        lemma_block_count(*block, selected, mask, 64);
    }
    (count_ones(mask) as usize, sum)
}

/// Whole-word count and minimum of the selected non-NULL rows.
pub fn min(block: &WordBlock<'_, i32>, selected: u64) -> (result: (usize, i32))
    ensures
        ({
            let (count, extreme) = result;
            &&& count == block_values(*block, selected).len()
            &&& count <= 64
            &&& extreme == least(block_values(*block, selected))
        }),
{
    let mask = present_rows(block, selected);
    let extreme = match block {
        WordBlock::Dense { values, .. } => {
            let lanes = values.array();
            proof {
                lemma_block_values(*block, Side::Dense(&lanes), selected, mask, 64);
            }
            simd::min_dense(&lanes, mask)
        },
        WordBlock::Datum { values, .. } => {
            let lanes = values.array();
            proof {
                lemma_block_values(*block, Side::Datum(&lanes), selected, mask, 64);
            }
            simd::min_datum(&lanes, mask)
        },
    };
    proof {
        lemma_block_count(*block, selected, mask, 64);
    }
    (count_ones(mask) as usize, extreme)
}

/// Whole-word count and maximum of the selected non-NULL rows.
pub fn max(block: &WordBlock<'_, i32>, selected: u64) -> (result: (usize, i32))
    ensures
        ({
            let (count, extreme) = result;
            &&& count == block_values(*block, selected).len()
            &&& count <= 64
            &&& extreme == greatest(block_values(*block, selected))
        }),
{
    let mask = present_rows(block, selected);
    let extreme = match block {
        WordBlock::Dense { values, .. } => {
            let lanes = values.array();
            proof {
                lemma_block_values(*block, Side::Dense(&lanes), selected, mask, 64);
            }
            simd::max_dense(&lanes, mask)
        },
        WordBlock::Datum { values, .. } => {
            let lanes = values.array();
            proof {
                lemma_block_values(*block, Side::Datum(&lanes), selected, mask, 64);
            }
            simd::max_datum(&lanes, mask)
        },
    };
    proof {
        lemma_block_count(*block, selected, mask, 64);
    }
    (count_ones(mask) as usize, extreme)
}

} // verus!
