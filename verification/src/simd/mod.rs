//! Whole-word kernels over the storage of full prepared words.
//!
//! Every kernel walks the 64 lanes of a word with counted loops, the shape that
//! compilers turn into vector code.

pub mod aggregate;
pub mod arith;
pub mod filter;
pub mod hash;

pub use aggregate::{
    count_datum, max_datum, max_dense, min_datum, min_dense, sum_datum, sum_dense,
};
pub use filter::{filter_datum, filter_dense};

use vstd::prelude::*;

use crate::bits::bit;
#[allow(unused_imports)]
use crate::bits::{lemma_bit_constants, lemma_set_flag};
#[allow(unused_imports)]
use crate::storage::int32::lemma_datum_low;

verus! {

/// One operand of a whole-word kernel: the values of a block or a scalar that
/// every lane shares.
#[derive(Clone, Copy, Debug)]
pub enum Side<'a> {
    /// One value per lane.
    Dense(&'a [i32; 64]),
    /// One Datum per lane, whose low 32 bits are its int4.
    Datum(&'a [u64; 64]),
    /// The same value in every lane.
    Scalar(i32),
}

impl<'a> Side<'a> {
    /// The value of lane `i`.
    pub open spec fn at(self, i: int) -> i32 {
        match self {
            Side::Dense(values) => values@[i],
            Side::Datum(values) => values@[i] as i32,
            Side::Scalar(value) => value,
        }
    }

    /// Load one lane.
    pub fn lane(self, i: usize) -> (value: i32)
        requires
            i < 64,
        ensures
            value == self.at(i as int),
    {
        match self {
            Side::Dense(values) => values[i],
            Side::Datum(values) => values[i] as i32,
            Side::Scalar(value) => value,
        }
    }
}

/// Pack the results of 64 lanes into a word, lane `i` into bit `i`.
pub(crate) fn pack_with<F: Fn(usize) -> bool>(lane: F) -> (word: u64)
    requires
        forall|i: usize| i < 64 ==> #[trigger] call_requires(lane, (i,)),
    ensures
        forall|i: int|
            0 <= i < 64 ==> call_ensures(lane, (i as usize,), #[trigger] bit(word, i)),
{
    let mut word: u64 = 0;
    let mut i: usize = 0;
    proof {
        assert forall|k: int| !(#[trigger] bit(0, k)) by {
            lemma_bit_constants(k);
        }
    }
    while i < 64
        invariant
            i <= 64,
            forall|i: usize| i < 64 ==> #[trigger] call_requires(lane, (i,)),
            forall|k: int| i <= k ==> !(#[trigger] bit(word, k)),
            forall|k: int|
                0 <= k < i ==> call_ensures(lane, (k as usize,), #[trigger] bit(word, k)),
        decreases 64 - i,
    {
        let flag: u64 = if lane(i) {
            1
        } else {
            0
        };
        proof {
            lemma_set_flag(word, flag, i as u64);
        }
        word = word | (flag << (i as u64));
        i = i + 1;
    }
    word
}

/// Rows of a Datum block whose flag is false, as bits in row order.
pub fn non_null_bits(isnull: &[bool; 64]) -> (word: u64)
    ensures
        forall|i: int| 0 <= i < 64 ==> #[trigger] bit(word, i) == !isnull@[i],
{
    let lane = |i: usize| -> (present: bool)
        requires
            i < 64,
        ensures
            present == !isnull@[i as int],
        { !isnull[i] };
    pack_with(lane)
}

/// The lanes of an operand: those of the array, the int4 in the low 32 bits of
/// each Datum, or the scalar in every lane.
pub proof fn lemma_lanes(side: Side<'_>, i: int)
    requires
        0 <= i < 64,
    ensures
        side matches Side::Dense(values) ==> side.at(i) == values@[i],
        side matches Side::Datum(values) ==> {
            let low = values@[i] % 0x1_0000_0000;
            low == side.at(i) || low == side.at(i) + 0x1_0000_0000
        },
        side matches Side::Scalar(value) ==> side.at(i) == value,
{
    if let Side::Datum(values) = side {
        lemma_datum_low(values@[i]);
    }
}

} // verus!
