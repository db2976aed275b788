//! Whole-word comparisons of int4 values with a scalar.

use vstd::prelude::*;

use crate::bits::bit;
#[allow(unused_imports)]
use crate::bits::lemma_bit_and;
use crate::int32::CompareOp;
use crate::simd::{non_null_bits, pack_with, Side};

verus! {

/// Rows of a dense block whose value satisfies `value op scalar`, as bits in
/// row order. NULL rows compare like any other and are masked by the caller.
pub fn filter_dense(values: &[i32; 64], scalar: i32, op: CompareOp) -> (word: u64)
    ensures
        forall|i: int| 0 <= i < 64 ==> #[trigger] bit(word, i) == op.holds(values@[i], scalar),
{
    pack(op, scalar, Side::Dense(values))
}

/// Rows of a Datum block whose int4 value satisfies `value op scalar` and
/// whose flag is not NULL, as bits in row order.
pub fn filter_datum(
    values: &[u64; 64],
    isnull: &[bool; 64],
    scalar: i32,
    op: CompareOp,
) -> (word: u64)
    ensures
        forall|i: int|
            0 <= i < 64 ==> #[trigger] bit(word, i) == (!isnull@[i] && op.holds(
                values@[i] as i32,
                scalar,
            )),
{
    let passing = pack(op, scalar, Side::Datum(values));
    let present = non_null_bits(isnull);
    proof {
        assert forall|i: int| 0 <= i < 64 implies #[trigger] bit(passing & present, i) == (
        !isnull@[i] && op.holds(values@[i] as i32, scalar)) by {
            lemma_bit_and(passing, present, i);
        }
    }
    passing & present
}

/// Compare 64 lanes and pack the results, with the comparison chosen once per
/// word.
fn pack(op: CompareOp, scalar: i32, values: Side<'_>) -> (word: u64)
    ensures
        forall|i: int| 0 <= i < 64 ==> #[trigger] bit(word, i) == op.holds(values.at(i), scalar),
{
    match op {
        CompareOp::Eq => {
            let lane = |i: usize| -> (passes: bool)
                requires
                    i < 64,
                ensures
                    passes == (values.at(i as int) == scalar),
                { values.lane(i) == scalar };
            pack_with(lane)
        },
        CompareOp::Ne => {
            let lane = |i: usize| -> (passes: bool)
                requires
                    i < 64,
                ensures
                    passes == (values.at(i as int) != scalar),
                { values.lane(i) != scalar };
            pack_with(lane)
        },
        CompareOp::Lt => {
            let lane = |i: usize| -> (passes: bool)
                requires
                    i < 64,
                ensures
                    passes == (values.at(i as int) < scalar),
                { values.lane(i) < scalar };
            pack_with(lane)
        },
        CompareOp::Le => {
            let lane = |i: usize| -> (passes: bool)
                requires
                    i < 64,
                ensures
                    passes == (values.at(i as int) <= scalar),
                { values.lane(i) <= scalar };
            pack_with(lane)
        },
        CompareOp::Gt => {
            let lane = |i: usize| -> (passes: bool)
                requires
                    i < 64,
                ensures
                    passes == (values.at(i as int) > scalar),
                { values.lane(i) > scalar };
            pack_with(lane)
        },
        CompareOp::Ge => {
            let lane = |i: usize| -> (passes: bool)
                requires
                    i < 64,
                ensures
                    passes == (values.at(i as int) >= scalar),
                { values.lane(i) >= scalar };
            pack_with(lane)
        },
    }
}

} // verus!
