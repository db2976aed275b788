//! Whole-word key hashes: `murmurhash32` of every lane, optionally folded into
//! the lanes' previous hashes with `hash_combine`.
//!
//! Every lane is computed and stored; nothing can fail. With a non-NULL mask,
//! NULL lanes take the group key as their value, which gives them the group
//! policy's fixed hash; without one, their lanes hold meaningless values that
//! the caller's valid mask excludes.

use vstd::prelude::*;

use crate::bits::bit;
#[allow(unused_imports)]
use crate::bits::lemma_bit_test;
use crate::int32::hash::{combined, hash_combine, key_hash, murmurhash32, NULL_KEY};
use crate::simd::Side;

verus! {

/// The key of a lane: `None` for a lane that a non-NULL mask leaves out.
pub open spec fn lane_key(keys: Side<'_>, non_nulls: Option<u64>, i: int) -> Option<i32> {
    match non_nulls {
        Some(bits) => if bit(bits, i) {
            Some(keys.at(i))
        } else {
            None
        },
        None => Some(keys.at(i)),
    }
}

/// The hash of every lane's key into `out`.
pub fn hash(keys: Side<'_>, out: &mut [u32; 64])
    requires
        !(keys is Scalar),
    ensures
        forall|i: int| 0 <= i < 64 ==> #[trigger] final(out)@[i] == key_hash(Some(keys.at(i))),
{
    hash_lanes(keys, None, out)
}

/// As `hash`, with NULL lanes hashing the group key.
pub fn hash_nulls(keys: Side<'_>, non_nulls: u64, out: &mut [u32; 64])
    requires
        !(keys is Scalar),
    ensures
        forall|i: int|
            0 <= i < 64 ==> #[trigger] final(out)@[i] == key_hash(
                lane_key(keys, Some(non_nulls), i),
            ),
{
    hash_lanes(keys, Some(non_nulls), out)
}

/// Every lane's key hash folded into its previous hash in `out`.
pub fn combine(keys: Side<'_>, out: &mut [u32; 64])
    requires
        !(keys is Scalar),
    ensures
        forall|i: int|
            0 <= i < 64 ==> #[trigger] final(out)@[i] == combined(
                old(out)@[i],
                key_hash(Some(keys.at(i))),
            ),
{
    combine_lanes(keys, None, out)
}

/// As `combine`, with NULL lanes folding in the group key's hash.
pub fn combine_nulls(keys: Side<'_>, non_nulls: u64, out: &mut [u32; 64])
    requires
        !(keys is Scalar),
    ensures
        forall|i: int|
            0 <= i < 64 ==> #[trigger] final(out)@[i] == combined(
                old(out)@[i],
                key_hash(lane_key(keys, Some(non_nulls), i)),
            ),
{
    combine_lanes(keys, Some(non_nulls), out)
}

fn hash_lanes(keys: Side<'_>, non_nulls: Option<u64>, out: &mut [u32; 64])
    ensures
        forall|i: int|
            0 <= i < 64 ==> #[trigger] final(out)@[i] == key_hash(lane_key(keys, non_nulls, i)),
{
    let fold = |key: u32, _previous: u32| -> (hash: u32)
        ensures
            hash == key,
        { key };
    transform(keys, non_nulls, out, fold, Ghost(|key: u32, previous: u32| key))
}

fn combine_lanes(keys: Side<'_>, non_nulls: Option<u64>, out: &mut [u32; 64])
    ensures
        forall|i: int|
            0 <= i < 64 ==> #[trigger] final(out)@[i] == combined(
                old(out)@[i],
                key_hash(lane_key(keys, non_nulls, i)),
            ),
{
    let fold = |key: u32, previous: u32| -> (hash: u32)
        ensures
            hash == combined(previous, key),
        { hash_combine(previous, key) };
    transform(
        keys,
        non_nulls,
        out,
        fold,
        Ghost(|key: u32, previous: u32| combined(previous, key)),
    )
}

/// Every lane: the key (the group key in NULL lanes when a mask is given), its
/// hash, the fold of that and the previous hash, stored.
fn transform<F: Fn(u32, u32) -> u32>(
    keys: Side<'_>,
    non_nulls: Option<u64>,
    out: &mut [u32; 64],
    fold: F,
    Ghost(next): Ghost<spec_fn(u32, u32) -> u32>,
)
    requires
        forall|a: u32, b: u32| #[trigger] call_requires(fold, (a, b)),
        forall|a: u32, b: u32, hash: u32| #[trigger]
            call_ensures(fold, (a, b), hash) ==> hash == next(a, b),
    ensures
        forall|i: int|
            0 <= i < 64 ==> #[trigger] final(out)@[i] == next(
                key_hash(lane_key(keys, non_nulls, i)),
                old(out)@[i],
            ),
{
    let mut i: usize = 0;
    while i < 64
        invariant
            i <= 64,
            forall|a: u32, b: u32| #[trigger] call_requires(fold, (a, b)),
            forall|a: u32, b: u32, hash: u32| #[trigger]
                call_ensures(fold, (a, b), hash) ==> hash == next(a, b),
            forall|k: int|
                0 <= k < i ==> #[trigger] out@[k] == next(
                    key_hash(lane_key(keys, non_nulls, k)),
                    old(out)@[k],
                ),
            forall|k: int| i <= k < 64 ==> #[trigger] out@[k] == old(out)@[k],
        decreases 64 - i,
    {
        let value = keys.lane(i) as u32;
        let key = match non_nulls {
            Some(bits) => {
                proof {
                    lemma_bit_test(bits, i as u64);
                }
                if bits & (1u64 << (i as u64)) != 0 {
                    value
                } else {
                    NULL_KEY
                }
            },
            None => value,
        };
        out[i] = fold(murmurhash32(key), out[i]);
        i = i + 1;
    }
}

/// The key of a lane is NULL exactly where a mask is given and clear.
pub proof fn lemma_lane_keys(keys: Side<'_>, non_nulls: u64, i: int)
    requires
        0 <= i < 64,
    ensures
        lane_key(keys, None, i) == Some(keys.at(i)),
        lane_key(keys, Some(non_nulls), i) == if (non_nulls >> (i as u64)) & 1 == 1 {
            Some(keys.at(i))
        } else {
            None
        },
{
}

} // verus!
