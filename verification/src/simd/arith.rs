//! Whole-word int4 addition, subtraction and multiplication with overflow
//! detection.
//!
//! Every lane is computed modulo 2^32 and stored; overflow is detected per
//! lane, kept only for the lanes of `mask`, and reported once per word. NULL
//! and unselected lanes thus get initialized placeholders and never raise.
//! Division stays in the caller's lane loop.

use vstd::prelude::*;
use vstd::wrapping::i32_specs;

use crate::bits::bit;
#[allow(unused_imports)]
use crate::bits::lemma_bit_test;
#[allow(unused_imports)]
use crate::int32::ArithOp;
use crate::simd::Side;

verus! {

/// An exact result that does not fit in an int4.
pub open spec fn overflows(exact: int) -> bool {
    !(i32::MIN <= exact <= i32::MAX)
}

/// `lhs + rhs` into `out`; true when a masked lane overflowed.
pub fn add(lhs: Side<'_>, rhs: Side<'_>, mask: u64, out: &mut [Option<i32>; 64]) -> (overflow: bool)
    requires
        !(lhs is Scalar && rhs is Scalar),
    ensures
        forall|i: int|
            0 <= i < 64 ==> #[trigger] final(out)@[i] == Some(
                i32_specs::wrapping_add(lhs.at(i), rhs.at(i)),
            ),
        overflow <==> exists|i: int| #[trigger]
            bit(mask, i) && overflows(lhs.at(i) + rhs.at(i)),
{
    let lane = |a: i32, b: i32| -> (result: (i32, bool))
        ensures
            result == (i32_specs::wrapping_add(a, b), overflows(a + b)),
        { (a.wrapping_add(b), a.checked_add(b).is_none()) };
    apply(
        lhs,
        rhs,
        mask,
        out,
        lane,
        Ghost(|a: i32, b: i32| (i32_specs::wrapping_add(a, b), overflows(a + b))),
    )
}

/// `lhs - rhs` into `out`; true when a masked lane overflowed.
pub fn sub(lhs: Side<'_>, rhs: Side<'_>, mask: u64, out: &mut [Option<i32>; 64]) -> (overflow: bool)
    requires
        !(lhs is Scalar && rhs is Scalar),
    ensures
        forall|i: int|
            0 <= i < 64 ==> #[trigger] final(out)@[i] == Some(
                i32_specs::wrapping_sub(lhs.at(i), rhs.at(i)),
            ),
        overflow <==> exists|i: int| #[trigger]
            bit(mask, i) && overflows(lhs.at(i) - rhs.at(i)),
{
    let lane = |a: i32, b: i32| -> (result: (i32, bool))
        ensures
            result == (i32_specs::wrapping_sub(a, b), overflows(a - b)),
        { (a.wrapping_sub(b), a.checked_sub(b).is_none()) };
    apply(
        lhs,
        rhs,
        mask,
        out,
        lane,
        Ghost(|a: i32, b: i32| (i32_specs::wrapping_sub(a, b), overflows(a - b))),
    )
}

/// `lhs * rhs` into `out`; true when a masked lane overflowed.
pub fn mul(lhs: Side<'_>, rhs: Side<'_>, mask: u64, out: &mut [Option<i32>; 64]) -> (overflow: bool)
    requires
        !(lhs is Scalar && rhs is Scalar),
    ensures
        forall|i: int|
            0 <= i < 64 ==> #[trigger] final(out)@[i] == Some(
                i32_specs::wrapping_mul(lhs.at(i), rhs.at(i)),
            ),
        overflow <==> exists|i: int| #[trigger]
            bit(mask, i) && overflows(lhs.at(i) * rhs.at(i)),
{
    let lane = |a: i32, b: i32| -> (result: (i32, bool))
        ensures
            result == (i32_specs::wrapping_mul(a, b), overflows(a * b)),
        { (a.wrapping_mul(b), a.checked_mul(b).is_none()) };
    apply(
        lhs,
        rhs,
        mask,
        out,
        lane,
        Ghost(|a: i32, b: i32| (i32_specs::wrapping_mul(a, b), overflows(a * b))),
    )
}

/// Every lane: operate, store, and keep the overflow of the lanes that the mask
/// selects.
fn apply<F: Fn(i32, i32) -> (i32, bool)>(
    lhs: Side<'_>,
    rhs: Side<'_>,
    mask: u64,
    out: &mut [Option<i32>; 64],
    lane: F,
    Ghost(exact): Ghost<spec_fn(i32, i32) -> (i32, bool)>,
) -> (overflow: bool)
    requires
        forall|a: i32, b: i32| #[trigger] call_requires(lane, (a, b)),
        forall|a: i32, b: i32, result: (i32, bool)| #[trigger]
            call_ensures(lane, (a, b), result) ==> result == exact(a, b),
    ensures
        forall|i: int|
            0 <= i < 64 ==> #[trigger] final(out)@[i] == Some(exact(lhs.at(i), rhs.at(i)).0),
        overflow <==> exists|i: int| #[trigger] bit(mask, i) && exact(lhs.at(i), rhs.at(i)).1,
{
    let mut overflow = false;
    let mut i: usize = 0;
    while i < 64
        invariant
            i <= 64,
            forall|a: i32, b: i32| #[trigger] call_requires(lane, (a, b)),
            forall|a: i32, b: i32, result: (i32, bool)| #[trigger]
                call_ensures(lane, (a, b), result) ==> result == exact(a, b),
            forall|k: int|
                0 <= k < i ==> #[trigger] out@[k] == Some(exact(lhs.at(k), rhs.at(k)).0),
            overflow <==> exists|k: int|
                k < i && #[trigger] bit(mask, k) && exact(lhs.at(k), rhs.at(k)).1,
        decreases 64 - i,
    {
        let (result, over) = lane(lhs.lane(i), rhs.lane(i));
        proof {
            lemma_bit_test(mask, i as u64);
        }
        let masked = mask & (1u64 << (i as u64)) != 0;
        if over && masked {
            assert(bit(mask, i as int));
            overflow = true;
        }
        out[i] = Some(result);
        i = i + 1;
    }
    overflow
}

/// A lane computes what the operation does: it overflows exactly where the
/// operation fails, and else holds its result.
pub proof fn lemma_lane(a: i32, b: i32)
    ensures
        overflows(a + b) <==> ArithOp::Add.result(a, b) is Err,
        overflows(a - b) <==> ArithOp::Sub.result(a, b) is Err,
        overflows(a * b) <==> ArithOp::Mul.result(a, b) is Err,
        ArithOp::Add.result(a, b) matches Ok(value) ==> value == i32_specs::wrapping_add(a, b),
        ArithOp::Sub.result(a, b) matches Ok(value) ==> value == i32_specs::wrapping_sub(a, b),
        ArithOp::Mul.result(a, b) matches Ok(value) ==> value == i32_specs::wrapping_mul(a, b),
{
}

} // verus!
