//! Whole-word sums and extremes of int4 values under a row mask.
//!
//! `mask` names the rows to aggregate: selected and non-NULL, computed by the
//! caller (for Datum blocks from `non_null_bits`). A NULL row's placeholder
//! value is loaded but masked away. A full mask skips the masking; the extremes
//! are meaningful only for a nonzero mask.

use vstd::prelude::*;

use crate::bits::{bit, count_ones, rows_in, word_rows};
#[allow(unused_imports)]
use crate::bits::{
    lemma_bit_and, lemma_bit_constants, lemma_bit_flag, lemma_bit_or, lemma_bit_test,
    lemma_bits_ext, lemma_rows_agree,
    lemma_rows_members, lemma_word_rows_contains, lemma_word_rows_empty,
};
use crate::int32::aggregate::{greatest, least, total};
use crate::simd::{non_null_bits, Side};

verus! {

/// The values of the given lanes.
pub open spec fn gather(values: Side<'_>, lanes: Seq<int>) -> Seq<i32> {
    Seq::new(lanes.len(), |k: int| values.at(lanes[k]))
}

/// The values of the masked lanes, in row order.
pub open spec fn masked(values: Side<'_>, mask: u64) -> Seq<i32> {
    gather(values, word_rows(0, mask))
}

/// The lanes below `end` that a mask names.
spec fn lanes_below(mask: u64, end: int) -> Seq<int> {
    rows_in(|row: int| bit(mask, row - 0), 0, end)
}

/// One more lane joins the gathered values exactly when it is masked.
proof fn lemma_gather_step(values: Side<'_>, mask: u64, i: int)
    requires
        0 <= i < 64,
    ensures
        bit(mask, i) ==> gather(values, lanes_below(mask, i + 1)) == gather(
            values,
            lanes_below(mask, i),
        ).push(values.at(i)),
        !bit(mask, i) ==> lanes_below(mask, i + 1) == lanes_below(mask, i),
        lanes_below(mask, i).len() <= i,
{
    let p = |row: int| bit(mask, row - 0);
    lemma_rows_members(p, 0, i);
    assert(p(i) == bit(mask, i));
    if bit(mask, i) {
        assert(gather(values, lanes_below(mask, i + 1)) =~= gather(
            values,
            lanes_below(mask, i),
        ).push(values.at(i)));
    }
}

/// The sum of a prolonged sequence.
proof fn lemma_push(values: Seq<i32>, value: i32)
    ensures
        total(values.push(value)) == total(values) + value,
        least(values.push(value)) == if value < least(values) {
            value
        } else {
            least(values)
        },
        greatest(values.push(value)) == if value > greatest(values) {
            value
        } else {
            greatest(values)
        },
{
    assert(values.push(value).drop_last() =~= values);
}

/// Sum of the masked lanes.
pub fn sum_lanes(values: Side<'_>, mask: u64) -> (sum: i64)
    ensures
        sum == total(masked(values, mask)),
        -0x20_0000_0000 <= sum <= 0x20_0000_0000,
{
    let mut sum: i64 = 0;
    let mut i: usize = 0;
    proof {
        assert(gather(values, lanes_below(mask, 0)) =~= Seq::<i32>::empty());
    }
    if mask == u64::MAX {
        while i < 64
            invariant
                i <= 64,
                mask == u64::MAX,
                sum == total(gather(values, lanes_below(mask, i as int))),
                -0x8000_0000 * i <= sum <= 0x8000_0000 * i,
            decreases 64 - i,
        {
            proof {
                lemma_bit_constants(i as int);
                lemma_gather_step(values, mask, i as int);
                lemma_push(gather(values, lanes_below(mask, i as int)), values.at(i as int));
            }
            sum = sum + values.lane(i) as i64;
            i = i + 1;
        }
    } else {
        while i < 64
            invariant
                i <= 64,
                sum == total(gather(values, lanes_below(mask, i as int))),
                -0x8000_0000 * i <= sum <= 0x8000_0000 * i,
            decreases 64 - i,
        {
            proof {
                lemma_bit_test(mask, i as u64);
                lemma_gather_step(values, mask, i as int);
                lemma_push(gather(values, lanes_below(mask, i as int)), values.at(i as int));
            }
            let value = values.lane(i) as i64;
            sum = sum + if mask & (1u64 << (i as u64)) != 0 {
                value
            } else {
                0
            };
            i = i + 1;
        }
    }
    sum
}

/// The least masked lane; `i32::MAX` for an empty mask.
fn least_lane(values: Side<'_>, mask: u64) -> (extreme: i32)
    ensures
        extreme == least(masked(values, mask)),
{
    let mut extreme: i32 = i32::MAX;
    let mut i: usize = 0;
    proof {
        assert(gather(values, lanes_below(mask, 0)) =~= Seq::<i32>::empty());
    }
    while i < 64
        invariant
            i <= 64,
            extreme == least(gather(values, lanes_below(mask, i as int))),
        decreases 64 - i,
    {
        proof {
            lemma_bit_test(mask, i as u64);
            lemma_gather_step(values, mask, i as int);
            lemma_push(gather(values, lanes_below(mask, i as int)), values.at(i as int));
        }
        let value = if mask & (1u64 << (i as u64)) != 0 {
            values.lane(i)
        } else {
            i32::MAX
        };
        if value < extreme {
            extreme = value;
        }
        i = i + 1;
    }
    extreme
}

/// The greatest masked lane; `i32::MIN` for an empty mask.
fn greatest_lane(values: Side<'_>, mask: u64) -> (extreme: i32)
    ensures
        extreme == greatest(masked(values, mask)),
{
    let mut extreme: i32 = i32::MIN;
    let mut i: usize = 0;
    proof {
        assert(gather(values, lanes_below(mask, 0)) =~= Seq::<i32>::empty());
    }
    while i < 64
        invariant
            i <= 64,
            extreme == greatest(gather(values, lanes_below(mask, i as int))),
        decreases 64 - i,
    {
        proof {
            lemma_bit_test(mask, i as u64);
            lemma_gather_step(values, mask, i as int);
            lemma_push(gather(values, lanes_below(mask, i as int)), values.at(i as int));
        }
        let value = if mask & (1u64 << (i as u64)) != 0 {
            values.lane(i)
        } else {
            i32::MIN
        };
        if value > extreme {
            extreme = value;
        }
        i = i + 1;
    }
    extreme
}

/// How many selected rows of a Datum block are not NULL.
pub fn count_datum(isnull: &[bool; 64], selected: u64) -> (count: usize)
    ensures
        count == rows_in(|i: int| bit(selected, i) && !isnull@[i], 0, 64).len(),
        count <= 64,
{
    let present = non_null_bits(isnull);
    let mask = selected & present;
    proof {
        assert forall|i: int| 0 <= i < 64 implies #[trigger] bit(mask, i) == (bit(selected, i)
            && !isnull@[i]) by {
            lemma_bit_and(selected, present, i);
        }
        lemma_rows_agree(
            |row: int| bit(mask, row - 0),
            |i: int| bit(selected, i) && !isnull@[i],
            0,
            64,
        );
    }
    count_ones(mask) as usize
}

/// Sum of the masked rows of a dense block.
pub fn sum_dense(values: &[i32; 64], mask: u64) -> (sum: i64)
    ensures
        sum == total(masked(Side::Dense(values), mask)),
        -0x20_0000_0000 <= sum <= 0x20_0000_0000,
{
    sum_lanes(Side::Dense(values), mask)
}

/// Sum of the masked rows of a Datum block, as int4 values.
pub fn sum_datum(values: &[u64; 64], mask: u64) -> (sum: i64)
    ensures
        sum == total(masked(Side::Datum(values), mask)),
        -0x20_0000_0000 <= sum <= 0x20_0000_0000,
{
    sum_lanes(Side::Datum(values), mask)
}

/// Least masked row of a dense block; `i32::MAX` for an empty mask.
pub fn min_dense(values: &[i32; 64], mask: u64) -> (extreme: i32)
    ensures
        extreme == least(masked(Side::Dense(values), mask)),
{
    least_lane(Side::Dense(values), mask)
}

/// Greatest masked row of a dense block; `i32::MIN` for an empty mask.
pub fn max_dense(values: &[i32; 64], mask: u64) -> (extreme: i32)
    ensures
        extreme == greatest(masked(Side::Dense(values), mask)),
{
    greatest_lane(Side::Dense(values), mask)
}

/// Least masked row of a Datum block; `i32::MAX` for an empty mask.
pub fn min_datum(values: &[u64; 64], mask: u64) -> (extreme: i32)
    ensures
        extreme == least(masked(Side::Datum(values), mask)),
{
    least_lane(Side::Datum(values), mask)
}

/// Greatest masked row of a Datum block; `i32::MIN` for an empty mask.
pub fn max_datum(values: &[u64; 64], mask: u64) -> (extreme: i32)
    ensures
        extreme == greatest(masked(Side::Datum(values), mask)),
{
    greatest_lane(Side::Datum(values), mask)
}

/// The masked lanes decide the sum and the extremes: the others have no effect,
/// and an empty mask names none.
pub proof fn lemma_masked_lanes(a: Side<'_>, b: Side<'_>, mask: u64)
    requires
        forall|i: int| #[trigger] bit(mask, i) ==> a.at(i) == b.at(i),
    ensures
        masked(a, mask) == masked(b, mask),
        mask == 0 ==> masked(a, mask) == Seq::<i32>::empty(),
{
    let lanes = word_rows(0, mask);
    lemma_word_rows_contains(0, mask);
    lemma_word_rows_empty(0);
    assert forall|k: int| 0 <= k < lanes.len() implies a.at(#[trigger] lanes[k]) == b.at(
        lanes[k],
    ) by {
        assert(bit(mask, lanes[k] - 0));
    }
    assert(masked(a, mask) =~= masked(b, mask));
    if mask == 0 {
        assert(masked(a, mask) =~= Seq::<i32>::empty());
    }
}

/// Disjoint masks make up their union: the sums add, and the extremes are those
/// of the parts.
pub proof fn lemma_masks_combine(values: Side<'_>, a: u64, b: u64)
    requires
        a & b == 0,
    ensures
        masked(values, a | b).len() == masked(values, a).len() + masked(values, b).len(),
        total(masked(values, a | b)) == total(masked(values, a)) + total(masked(values, b)),
        least(masked(values, a | b)) == if least(masked(values, b)) < least(masked(values, a)) {
            least(masked(values, b))
        } else {
            least(masked(values, a))
        },
        greatest(masked(values, a | b)) == if greatest(masked(values, b)) > greatest(
            masked(values, a),
        ) {
            greatest(masked(values, b))
        } else {
            greatest(masked(values, a))
        },
{
    lemma_lanes_combine(values, a, b, 64);
}

proof fn lemma_lanes_combine(values: Side<'_>, a: u64, b: u64, end: int)
    requires
        a & b == 0,
        0 <= end <= 64,
    ensures
        ({
            let all = gather(values, lanes_below(a | b, end));
            let first = gather(values, lanes_below(a, end));
            let second = gather(values, lanes_below(b, end));
            &&& all.len() == first.len() + second.len()
            &&& total(all) == total(first) + total(second)
            &&& least(all) == if least(second) < least(first) {
                least(second)
            } else {
                least(first)
            }
            &&& greatest(all) == if greatest(second) > greatest(first) {
                greatest(second)
            } else {
                greatest(first)
            }
        }),
    decreases end,
{
    if end > 0 {
        let i = end - 1;
        lemma_lanes_combine(values, a, b, i);
        lemma_bit_and(a, b, i);
        lemma_bit_or(a, b, i);
        lemma_bit_constants(i);
        lemma_gather_step(values, a | b, i);
        lemma_gather_step(values, a, i);
        lemma_gather_step(values, b, i);
        lemma_push(gather(values, lanes_below(a | b, i)), values.at(i));
        lemma_push(gather(values, lanes_below(a, i)), values.at(i));
        lemma_push(gather(values, lanes_below(b, i)), values.at(i));
    }
}

/// A mask of one lane names the value of that lane.
pub proof fn lemma_masked_one(values: Side<'_>, k: u64)
    requires
        k < 64,
    ensures
        masked(values, 1u64 << k) == seq![values.at(k as int)],
{
    let mask = 1u64 << k;
    let lanes = word_rows(0, mask);
    lemma_word_rows_contains(0, mask);
    lemma_rows_members(|row: int| bit(mask, row - 0), 0, 64);
    assert forall|i: int| bit(mask, i) == (i == k) by {
        lemma_bit_flag(1, k, i);
    }
    assert(bit(mask, k as int));
    assert(lanes.contains(0 + k as int));
    assert forall|j: int| 0 <= j < lanes.len() implies #[trigger] lanes[j] == k by {
        assert(bit(mask, lanes[j] - 0));
    }
    if lanes.len() > 1 {
        assert(lanes[0] < lanes[1]);
    }
    assert(masked(values, mask) =~= seq![values.at(k as int)]);
}

/// An exact sum, row by row: one more lane in the mask adds its value.
pub proof fn lemma_sum_grows(values: Side<'_>, mask: u64, k: u64)
    requires
        k < 64,
        !bit(mask, k as int),
    ensures
        total(masked(values, mask | (1u64 << k))) == total(masked(values, mask)) + values.at(
            k as int,
        ),
{
    let one = 1u64 << k;
    assert forall|i: int| 0 <= i < 64 implies bit(mask & one, i) == bit(0, i) by {
        lemma_bit_and(mask, one, i);
        lemma_bit_flag(1, k, i);
        lemma_bit_constants(i);
    }
    lemma_bits_ext(mask & one, 0);
    lemma_masks_combine(values, mask, one);
    lemma_masked_one(values, k);
    let single = seq![values.at(k as int)];
    assert(single.drop_last() =~= Seq::<i32>::empty());
    assert(total(single.drop_last()) == 0);
}

} // verus!
