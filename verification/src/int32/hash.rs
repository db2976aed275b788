//! Hashes of int4 keys for hash joins, grouping and partitioning.
//!
//! A key's hash is `murmurhash32` of its value read as `u32` (MurmurHash3's
//! finalizer, PostgreSQL's `murmurhash32`); a batch's hashes are 32 bits wide,
//! one per row. Several keys combine in key order with `hash_combine`, the
//! first key uncombined. Consumers take buckets from the high bits and
//! partitions from the low ones. The finalizer is a bijection and the
//! combination is invertible in its second argument, so equal combined hashes
//! with equal leading keys prove the last key equal. The hash does not match
//! PostgreSQL's `hashint4`.
//!
//! NULL keys follow a policy: `NullKeys::Reject` removes the row from the valid
//! mask, for joins, where NULL matches nothing; `NullKeys::Group` hashes it as
//! the constant `0x9e3779b9`, so that NULLs form one group.
//!
//! `hash` hashes the first key of the selected rows and sets the valid mask;
//! `hash_next` folds a further key into the hashes of the valid rows and narrows
//! the mask, reading no row rejected before. `hashes` has the batch's row
//! count; dimension errors fail before any mutation; a reader error leaves the
//! hashes and the mask partly updated, to be discarded.

use vstd::prelude::*;
#[allow(unused_imports)]
use vstd::std_specs::iter::IteratorSpec;
use vstd::wrapping::u32_specs;

use crate::bitmap::{valid_words, word_count, words_for};
use crate::bits::{bit, covers, word_rows};
#[allow(unused_imports)]
use crate::bits::{
    lemma_bit_constants, lemma_rows_members, lemma_set_flag, lemma_word_rows_contains,
};
use crate::error::Error;
#[allow(unused_imports)]
use crate::reader::{
    items, lemma_ready_words, lemma_same_failure, lemma_word_ready, ready, ready_before,
    selection_ready, value_at, word_ready, Cells, ColumnReader,
};
use crate::row_mask::{RowMask, RowMaskView};

verus! {

/// What a NULL key hashes as under `NullKeys::Group`, before finalizing.
pub const NULL_KEY: u32 = 0x9e37_79b9;

/// What a NULL key does to its row.
#[derive(Clone, Copy, Debug, Eq, PartialEq, Structural)]
pub enum NullKeys {
    /// The row leaves the valid mask: a NULL key matches nothing in a join.
    Reject,
    /// The row stays and NULL hashes as a fixed key: NULLs form one group.
    Group,
}

/// MurmurHash3's 32-bit finalizer.
pub open spec fn murmur(key: u32) -> u32 {
    let a = key ^ (key >> 16u32);
    let b = u32_specs::wrapping_mul(a, 0x85eb_ca6b);
    let c = b ^ (b >> 13u32);
    let d = u32_specs::wrapping_mul(c, 0xc2b2_ae35);
    d ^ (d >> 16u32)
}

/// The key that the finalizer maps to a hash.
pub open spec fn unmurmur(hash: u32) -> u32 {
    let d = hash ^ (hash >> 16u32);
    let c = u32_specs::wrapping_mul(d, 0x7ed1_b41d);
    let b = c ^ (c >> 13u32) ^ (c >> 26u32);
    let a = u32_specs::wrapping_mul(b, 0xa5cb_9243);
    a ^ (a >> 16u32)
}

/// PostgreSQL's combination of two hashes.
pub open spec fn combined(a: u32, b: u32) -> u32 {
    a ^ u32_specs::wrapping_add(
        u32_specs::wrapping_add(u32_specs::wrapping_add(b, 0x9e37_79b9), a << 6u32),
        a >> 2u32,
    )
}

/// What a row's key hashes as, NULL as the group key.
pub open spec fn key_hash(value: Option<i32>) -> u32 {
    murmur(
        match value {
            Some(value) => value as u32,
            None => NULL_KEY,
        },
    )
}

/// MurmurHash3's 32-bit finalizer, as PostgreSQL's `murmurhash32`: a bijection
/// on `u32` with full avalanche.
pub fn murmurhash32(key: u32) -> (hash: u32)
    ensures
        hash == murmur(key),
{
    let mut h = key;
    h = h ^ (h >> 16u32);
    h = h.wrapping_mul(0x85eb_ca6b);
    h = h ^ (h >> 13u32);
    h = h.wrapping_mul(0xc2b2_ae35);
    h ^ (h >> 16u32)
}

/// Fold the hash `b` of a further key into `a`, as PostgreSQL's `hash_combine`;
/// invertible in `b` for a fixed `a`.
pub fn hash_combine(a: u32, b: u32) -> (hash: u32)
    ensures
        hash == combined(a, b),
{
    a ^ b.wrapping_add(0x9e37_79b9).wrapping_add(a << 6u32).wrapping_add(a >> 2u32)
}

/// Multiplying by two factors whose product is one modulo 2^32 changes nothing.
proof fn lemma_inverse_factors(x: u32, factor: u32, inverse: u32)
    requires
        (factor * inverse) % 0x1_0000_0000 == 1,
    ensures
        u32_specs::wrapping_mul(u32_specs::wrapping_mul(x, factor), inverse) == x,
{
    let modulus: int = 0x1_0000_0000;
    let y = (x * factor) % modulus;
    vstd::arithmetic::div_mod::lemma_mul_mod_noop_left(x * factor, inverse as int, modulus);
    assert((x * factor) * inverse == x * (factor * inverse)) by (nonlinear_arith);
    vstd::arithmetic::div_mod::lemma_mul_mod_noop_right(
        x as int,
        factor * inverse,
        modulus,
    );
    vstd::arithmetic::div_mod::lemma_small_mod(x as nat, modulus as nat);
    assert((y * inverse) % modulus == x);
    assert(x as nat * factor as nat == x * factor) by (nonlinear_arith);
    assert(u32_specs::wrapping_mul(x, factor) == y);
}

/// The finalizer is a bijection: every hash has exactly one key.
pub proof fn lemma_murmur_bijective(key: u32, hash: u32)
    ensures
        unmurmur(murmur(key)) == key,
        murmur(unmurmur(hash)) == hash,
{
    assert forall|x: u32| #[trigger]
        (x ^ (x >> 16u32)) ^ ((x ^ (x >> 16u32)) >> 16u32) == x by {
        assert((x ^ (x >> 16u32)) ^ ((x ^ (x >> 16u32)) >> 16u32) == x) by (bit_vector);
    }
    let a = key ^ (key >> 16u32);
    let b = u32_specs::wrapping_mul(a, 0x85eb_ca6b);
    let c = b ^ (b >> 13u32);
    let d = u32_specs::wrapping_mul(c, 0xc2b2_ae35);
    lemma_inverse_factors(a, 0x85eb_ca6b, 0xa5cb_9243);
    lemma_inverse_factors(c, 0xc2b2_ae35, 0x7ed1_b41d);
    lemma_shift13(b);
    let d2 = hash ^ (hash >> 16u32);
    let c2 = u32_specs::wrapping_mul(d2, 0x7ed1_b41d);
    let b2 = c2 ^ (c2 >> 13u32) ^ (c2 >> 26u32);
    lemma_inverse_factors(d2, 0x7ed1_b41d, 0xc2b2_ae35);
    lemma_inverse_factors(b2, 0xa5cb_9243, 0x85eb_ca6b);
    lemma_shift13(c2);
}

/// The shift by 13 can be undone.
proof fn lemma_shift13(x: u32)
    ensures
        ({
            let y = x ^ (x >> 13u32);
            y ^ (y >> 13u32) ^ (y >> 26u32) == x
        }),
        ({
            let y = x ^ (x >> 13u32) ^ (x >> 26u32);
            y ^ (y >> 13u32) == x
        }),
{
    let y = x ^ (x >> 13u32);
    assert(y ^ (y >> 13u32) ^ (y >> 26u32) == x) by (bit_vector)
        requires
            y == x ^ (x >> 13u32),
    ;
    let z = x ^ (x >> 13u32) ^ (x >> 26u32);
    assert(z ^ (z >> 13u32) == x) by (bit_vector)
        requires
            z == x ^ (x >> 13u32) ^ (x >> 26u32),
    ;
}

/// The combination is invertible in its second argument.
pub proof fn lemma_combined_invertible(a: u32, b: u32, c: u32)
    requires
        combined(a, b) == combined(a, c),
    ensures
        b == c,
{
    let x = u32_specs::wrapping_add(
        u32_specs::wrapping_add(u32_specs::wrapping_add(b, 0x9e37_79b9), a << 6u32),
        a >> 2u32,
    );
    let y = u32_specs::wrapping_add(
        u32_specs::wrapping_add(u32_specs::wrapping_add(c, 0x9e37_79b9), a << 6u32),
        a >> 2u32,
    );
    assert(a ^ x == a ^ y ==> x == y) by (bit_vector);
}

/// Equal combined hashes with equal leading hashes prove the last keys equal.
pub proof fn lemma_last_key_equal(leading: u32, a: i32, b: i32)
    requires
        combined(leading, key_hash(Some(a))) == combined(leading, key_hash(Some(b))),
    ensures
        a == b,
{
    lemma_combined_invertible(leading, key_hash(Some(a)), key_hash(Some(b)));
    lemma_murmur_bijective(a as u32, 0);
    lemma_murmur_bijective(b as u32, 0);
    assert(a as u32 == b as u32 ==> a == b) by (bit_vector);
}

/// A NULL policy keeps a row in the valid mask.
pub open spec fn keeps(nulls: NullKeys, value: Option<i32>) -> bool {
    value is Some || nulls == NullKeys::Group
}

/// The selected rows before `end` are hashed and the valid mask is the
/// selection narrowed by the NULL policy; from `end` on both are unchanged.
pub open spec fn hashed(
    cells: Cells<i32>,
    flags: Seq<bool>,
    end: int,
    nulls: NullKeys,
    next: spec_fn(u32, u32) -> u32,
    old_hashes: Seq<u32>,
    hashes: Seq<u32>,
    old_valid: Seq<bool>,
    valid: Seq<bool>,
) -> bool {
    &&& hashes.len() == old_hashes.len()
    &&& valid.len() == old_valid.len()
    &&& forall|row: int|
        0 <= row < flags.len() ==> #[trigger] hashes[row] == if row < end && flags[row] {
            next(old_hashes[row], key_hash(value_at(cells, row)))
        } else {
            old_hashes[row]
        }
    &&& forall|row: int|
        0 <= row < flags.len() ==> #[trigger] valid[row] == if row < end {
            flags[row] && keeps(nulls, value_at(cells, row))
        } else {
            old_valid[row]
        }
}

/// The outcome of hashing a key whose dimensions agree: every selected row, or
/// the words before the first one with an unprepared selected row.
pub open spec fn hash_outcome<C: ColumnReader<Value = i32>>(
    column: &C,
    flags: Seq<bool>,
    nulls: NullKeys,
    next: spec_fn(u32, u32) -> u32,
    old_hashes: Seq<u32>,
    hashes: Seq<u32>,
    old_valid: Seq<bool>,
    valid: Seq<bool>,
    result: Result<(), Error>,
) -> bool {
    match result {
        Ok(()) => {
            &&& selection_ready(column.cells(), flags)
            &&& hashed(
                column.cells(),
                flags,
                flags.len() as int,
                nulls,
                next,
                old_hashes,
                hashes,
                old_valid,
                valid,
            )
        },
        Err(error) => exists|index: int, selected: u64|
            {
                &&& 0 <= index < words_for(flags.len() as int)
                &&& #[trigger] covers(selected, flags, index)
                &&& ready_before(column.cells(), flags, 64 * index)
                &&& !word_ready(column.cells(), index, selected)
                &&& hashed(
                    column.cells(),
                    flags,
                    64 * index,
                    nulls,
                    next,
                    old_hashes,
                    hashes,
                    old_valid,
                    valid,
                )
                &&& error == column.word_error(index, selected)
            },
    }
}

/// A closure computes the given fold of a previous hash and a key's hash.
pub open spec fn folds_hashes<F: Fn(u32, u32) -> u32>(
    fold: F,
    next: spec_fn(u32, u32) -> u32,
) -> bool {
    &&& forall|a: u32, b: u32| #[trigger] call_requires(fold, (a, b))
    &&& forall|a: u32, b: u32, hash: u32| #[trigger]
        call_ensures(fold, (a, b), hash) ==> hash == next(a, b)
}

/// The hashes of the given rows of a word and the bits of those that stay.
spec fn word_hashed(
    cells: Cells<i32>,
    base: int,
    done: Seq<int>,
    nulls: NullKeys,
    next: spec_fn(u32, u32) -> u32,
    before: Seq<u32>,
    hashes: Seq<u32>,
    present: u64,
) -> bool {
    &&& hashes.len() == before.len()
    &&& forall|row: int|
        0 <= row < hashes.len() ==> #[trigger] hashes[row] == if done.contains(row) {
            next(before[row], key_hash(value_at(cells, row)))
        } else {
            before[row]
        }
    &&& forall|i: int|
        0 <= i < 64 ==> #[trigger] bit(present, i) == (done.contains(base + i) && keeps(
            nulls,
            value_at(cells, base + i),
        ))
}

/// One word row by row, without a branch on nullness: a NULL row hashes the
/// group key and keeps its bit only under the group policy.
fn word<C: ColumnReader<Value = i32>, F: Fn(u32, u32) -> u32>(
    column: &C,
    index: usize,
    selected: u64,
    nulls: NullKeys,
    hashes: &mut [u32],
    fold: &F,
    Ghost(next): Ghost<spec_fn(u32, u32) -> u32>,
) -> (result: Result<u64, Error>)
    requires
        folds_hashes(*fold, next),
        old(hashes)@.len() == column.cells().len(),
        column.cells().len() <= usize::MAX,
        index < words_for(column.cells().len() as int),
    ensures
        result is Ok <==> word_ready(column.cells(), index as int, selected),
        result matches Ok(present) ==> word_hashed(
            column.cells(),
            64 * index,
            word_rows(64 * index, selected),
            nulls,
            next,
            old(hashes)@,
            final(hashes)@,
            present,
        ),
        result matches Err(error) ==> error == column.word_error(index as int, selected)
            && final(hashes)@ == old(hashes)@,
{
    let ghost cells = column.cells();
    let ghost base = 64 * index as int;
    let ghost rows = word_rows(base, selected);
    let ghost before = hashes@;
    let mut present: u64 = 0;
    proof {
        lemma_word_rows_contains(base, selected);
        lemma_rows_members(|row: int| bit(selected, row - base), base, base + 64);
        assert forall|i: int| !(#[trigger] bit(0, i)) by {
            lemma_bit_constants(i);
        }
        assert(rows.take(0) =~= Seq::<int>::empty());
        assert(rows.skip(0) =~= rows);
    }
    if selected == 0 {
        proof {
            crate::bits::lemma_word_rows_empty(base);
            assert(word_ready(cells, index as int, selected)) by {
                assert forall|i: int| #[trigger] bit(selected, i) implies ready(
                    cells,
                    64 * index + i,
                ) by {
                    lemma_bit_constants(i);
                }
            }
        }
        return Ok(0);
    }
    let mut words = match column.word_values(index, selected) {
        Ok(words) => words,
        Err(error) => {
            return Err(error);
        },
    };
    let ghost mut taken: int = 0;
    loop
        invariant
            folds_hashes(*fold, next),
            cells == column.cells(),
            word_ready(cells, index as int, selected),
            hashes@.len() == cells.len(),
            cells.len() <= usize::MAX,
            before.len() == cells.len(),
            before == old(hashes)@,
            base == 64 * index,
            rows == word_rows(base, selected),
            0 <= taken <= rows.len(),
            words.obeys_prophetic_iter_laws(),
            words.decrease() is Some,
            words.remaining() == items(cells, rows.skip(taken)),
            forall|k: int|
                0 <= k < rows.len() ==> base <= #[trigger] rows[k] < base + 64 && bit(
                    selected,
                    rows[k] - base,
                ),
            forall|j: int, k: int| 0 <= j < k < rows.len() ==> rows[j] < rows[k],
            word_hashed(cells, base, rows.take(taken), nulls, next, before, hashes@, present),
        ensures
            taken == rows.len(),
        decreases words.decrease()->0,
    {
        match words.next() {
            None => {
                break;
            },
            Some((row, value)) => {
                let ghost done = rows.take(taken);
                let ghost more = rows.take(taken + 1);
                let ghost so_far = hashes@;
                proof {
                    assert(rows.skip(taken)[0] == rows[taken]);
                    assert(rows.skip(taken).drop_first() =~= rows.skip(taken + 1));
                    assert(items(cells, rows.skip(taken)).drop_first() =~= items(
                        cells,
                        rows.skip(taken + 1),
                    ));
                    assert(bit(selected, rows[taken] - base));
                    assert(ready(cells, 64 * index + (rows[taken] - base)));
                    assert(row == rows[taken]);
                    assert(!done.contains(row as int));
                    assert(more =~= done.push(row as int));
                    assert forall|r: int| #[trigger] more.contains(r) == (done.contains(r) || r
                        == row) by {
                        if done.contains(r) {
                            let j = choose|j: int| 0 <= j < done.len() && done[j] == r;
                            assert(more[j] == r);
                        }
                        if r == row {
                            assert(more[done.len() as int] == r);
                        }
                    }
                }
                let key = match value {
                    Some(value) => value as u32,
                    None => NULL_KEY,
                };
                let flag: u64 = if value.is_some() || nulls == NullKeys::Group {
                    1
                } else {
                    0
                };
                let k = (row % 64) as u64;
                hashes[row] = fold(hashes[row], murmurhash32(key));
                proof {
                    lemma_set_flag(present, flag, k);
                    assert(k == row - base);
                    let wider = present | (flag << k);
                    assert forall|i: int| 0 <= i < 64 implies #[trigger] bit(wider, i) == (
                    more.contains(base + i) && keeps(nulls, value_at(cells, base + i))) by {
                        assert(bit(present, i) == (done.contains(base + i) && keeps(
                            nulls,
                            value_at(cells, base + i),
                        )));
                    }
                    assert forall|r: int| 0 <= r < hashes@.len() implies #[trigger] hashes@[r] == if more.contains(
                        r,
                    ) {
                        next(before[r], key_hash(value_at(cells, r)))
                    } else {
                        before[r]
                    } by {
                        assert(so_far[r] == if done.contains(r) {
                            next(before[r], key_hash(value_at(cells, r)))
                        } else {
                            before[r]
                        });
                    }
                    taken = taken + 1;
                }
                present = present | (flag << k);
            },
        }
    }
    proof {
        assert(rows.take(taken) =~= rows);
    }
    Ok(present)
}

/// The rows of one more word have been hashed.
proof fn lemma_word_hashed(
    cells: Cells<i32>,
    flags: Seq<bool>,
    index: int,
    selected: u64,
    nulls: NullKeys,
    next: spec_fn(u32, u32) -> u32,
    present: u64,
    old_hashes: Seq<u32>,
    before: Seq<u32>,
    hashes: Seq<u32>,
    old_valid: Seq<bool>,
    valid_before: Seq<bool>,
    valid: Seq<bool>,
)
    requires
        0 <= index < words_for(flags.len() as int),
        covers(selected, flags, index),
        old_hashes.len() == flags.len(),
        hashed(
            cells,
            flags,
            64 * index,
            nulls,
            next,
            old_hashes,
            before,
            old_valid,
            valid_before,
        ),
        word_hashed(
            cells,
            64 * index,
            word_rows(64 * index, selected),
            nulls,
            next,
            before,
            hashes,
            present,
        ),
        valid.len() == valid_before.len(),
        forall|row: int|
            0 <= row < flags.len() ==> #[trigger] valid[row] == if row / 64 == index {
                bit(present, row % 64)
            } else {
                valid_before[row]
            },
    ensures
        hashed(
            cells,
            flags,
            64 * index + 64,
            nulls,
            next,
            old_hashes,
            hashes,
            old_valid,
            valid,
        ),
{
    let rows = word_rows(64 * index, selected);
    lemma_word_rows_contains(64 * index, selected);
    assert forall|row: int| 64 * index <= row < 64 * index + 64 && row < flags.len() implies (
    #[trigger] rows.contains(row)) == flags[row] by {
        let i = row - 64 * index;
        assert(rows.contains(64 * index + i) <==> bit(selected, i));
        assert(bit(selected, i) == (64 * index + i < flags.len() && flags[64 * index + i]));
    }
    assert forall|row: int| 0 <= row < flags.len() implies #[trigger] hashes[row] == if row < 64
        * index + 64 && flags[row] {
        next(old_hashes[row], key_hash(value_at(cells, row)))
    } else {
        old_hashes[row]
    } by {
        assert(before[row] == if row < 64 * index && flags[row] {
            next(old_hashes[row], key_hash(value_at(cells, row)))
        } else {
            old_hashes[row]
        });
        if rows.contains(row) {
            let k = choose|k: int| 0 <= k < rows.len() && rows[k] == row;
            assert(64 * index <= rows[k] < 64 * index + 64);
        }
    }
    assert forall|row: int| 0 <= row < flags.len() implies #[trigger] valid[row] == if row < 64
        * index + 64 {
        flags[row] && keeps(nulls, value_at(cells, row))
    } else {
        old_valid[row]
    } by {
        assert(valid_before[row] == if row < 64 * index {
            flags[row] && keeps(nulls, value_at(cells, row))
        } else {
            old_valid[row]
        });
        if row / 64 == index {
            let i = row % 64;
            assert(64 * index + i == row);
            assert(bit(present, i) == (rows.contains(64 * index + i) && keeps(
                nulls,
                value_at(cells, 64 * index + i),
            )));
        }
    }
}

/// Every word row by row: the selection comes from `rows` for the first key and
/// from `valid` itself for the next ones. The fold is chosen once per call.
fn run<C: ColumnReader<Value = i32>, F: Fn(u32, u32) -> u32>(
    column: &C,
    rows: Option<&RowMaskView<'_>>,
    nulls: NullKeys,
    hashes: &mut [u32],
    valid: &mut RowMask<'_>,
    fold: F,
    Ghost(next): Ghost<spec_fn(u32, u32) -> u32>,
) -> (result: Result<(), Error>)
    requires
        folds_hashes(fold, next),
    ensures
        ({
            let flags = match rows {
                Some(rows) => rows@,
                None => old(valid)@,
            };
            let nrows = old(valid)@.len();
            if column.cells().len() != nrows || old(hashes)@.len() != nrows || flags.len() != nrows {
                &&& result matches Err(error) && error == Error::HashRows
                &&& final(hashes)@ == old(hashes)@
                &&& final(valid).words() == old(valid).words()
            } else {
                hash_outcome(
                    column,
                    flags,
                    nulls,
                    next,
                    old(hashes)@,
                    final(hashes)@,
                    old(valid)@,
                    final(valid)@,
                    result,
                )
            }
        }),
        final(hashes)@.len() == old(hashes)@.len(),
        final(valid).rows() == old(valid).rows(),
        valid_words(final(valid).rows(), final(valid).words()),
        final(final(valid).borrowed())@ == final(old(valid).borrowed())@,
{
    let nrows = valid.as_view().nrows();
    let ghost cells = column.cells();
    let ghost flags = match rows {
        Some(rows) => rows@,
        None => old(valid)@,
    };
    let rows_agree = match rows {
        Some(rows) => rows.nrows() == nrows,
        None => true,
    };
    if column.nrows() != nrows || hashes.len() != nrows || !rows_agree {
        return Err(Error::HashRows);
    }
    let count = word_count(nrows);
    let mut index: usize = 0;
    while index < count
        invariant
            folds_hashes(fold, next),
            index <= count,
            count == words_for(flags.len() as int),
            cells == column.cells(),
            cells.len() == flags.len(),
            cells.len() <= usize::MAX,
            flags == match rows {
                Some(rows) => rows@,
                None => old(valid)@,
            },
            old(hashes)@.len() == flags.len(),
            hashes@.len() == flags.len(),
            old(valid)@.len() == flags.len(),
            valid@.len() == flags.len(),
            ready_before(cells, flags, 64 * index),
            hashed(
                cells,
                flags,
                64 * index,
                nulls,
                next,
                old(hashes)@,
                hashes@,
                old(valid)@,
                valid@,
            ),
            valid.rows() == old(valid).rows(),
            valid_words(valid.rows(), valid.words()),
            final(valid.borrowed())@ == final(old(valid).borrowed())@,
        decreases count - index,
    {
        let ghost before = hashes@;
        let ghost valid_before = valid@;
        let selected = match rows {
            Some(rows) => rows.word(index).unwrap(),
            None => {
                let selected = valid.as_view().word(index).unwrap();
                proof {
                    lemma_unread_word(
                        cells,
                        flags,
                        index as int,
                        selected,
                        nulls,
                        next,
                        old(hashes)@,
                        before,
                        valid_before,
                    );
                }
                selected
            },
        };
        proof {
            lemma_word_ready(cells, flags, index as int, selected);
        }
        let present = match word(column, index, selected, nulls, hashes, &fold, Ghost(next)) {
            Ok(present) => present,
            Err(error) => {
                assert(covers(selected, flags, index as int));
                return Err(error);
            },
        };
        proof {
            lemma_word_rows_contains(64 * index, selected);
            assert forall|i: int| #[trigger] bit(present, i) implies 64 * index + i < flags.len() by {
                assert(word_rows(64 * index, selected).contains(64 * index + i));
                assert(bit(selected, i));
            }
        }
        let _ = valid.set_word(index, present);
        proof {
            lemma_word_hashed(
                cells,
                flags,
                index as int,
                selected,
                nulls,
                next,
                present,
                old(hashes)@,
                before,
                hashes@,
                old(valid)@,
                valid_before,
                valid@,
            );
        }
        index = index + 1;
    }
    Ok(())
}

/// A mask that is narrowed word by word still covers its unread words.
proof fn lemma_unread_word(
    cells: Cells<i32>,
    flags: Seq<bool>,
    index: int,
    selected: u64,
    nulls: NullKeys,
    next: spec_fn(u32, u32) -> u32,
    old_hashes: Seq<u32>,
    hashes: Seq<u32>,
    valid: Seq<bool>,
)
    requires
        0 <= index,
        hashed(cells, flags, 64 * index, nulls, next, old_hashes, hashes, flags, valid),
        covers(selected, valid, index),
    ensures
        covers(selected, flags, index),
{
    assert forall|i: int| 0 <= i < 64 implies #[trigger] bit(selected, i) == (64 * index + i
        < flags.len() && flags[64 * index + i]) by {
        if 64 * index + i < flags.len() {
            assert(valid[64 * index + i] == flags[64 * index + i]);
        }
    }
}

/// Hash the first key: `hashes[row]` for the selected rows and `valid` as the
/// selection narrowed by the NULL policy.
///
/// Row counts of the column, the selection, `hashes` and `valid` must agree; a
/// reader error (including an unprepared selected row) fails the call with the
/// outputs partly written.
pub fn hash<C: ColumnReader<Value = i32>>(
    column: &C,
    rows: &RowMaskView<'_>,
    nulls: NullKeys,
    hashes: &mut [u32],
    valid: &mut RowMask<'_>,
) -> (result: Result<(), Error>)
    ensures
        ({
            let nrows = old(valid)@.len();
            if column.cells().len() != nrows || old(hashes)@.len() != nrows || rows@.len() != nrows {
                &&& result matches Err(error) && error == Error::HashRows
                &&& final(hashes)@ == old(hashes)@
                &&& final(valid).words() == old(valid).words()
            } else {
                &&& result is Ok <==> selection_ready(column.cells(), rows@)
                &&& hash_outcome(
                    column,
                    rows@,
                    nulls,
                    |previous: u32, key: u32| key,
                    old(hashes)@,
                    final(hashes)@,
                    old(valid)@,
                    final(valid)@,
                    result,
                )
            }
        }),
        result is Ok ==> forall|row: int|
            0 <= row < rows@.len() ==> (#[trigger] final(valid)@[row] <==> rows@[row] && (
            column.cells()[row]->0 is Some || nulls == NullKeys::Group)),
        result is Ok ==> forall|row: int|
            0 <= row < rows@.len() ==> #[trigger] final(hashes)@[row] == (if !rows@[row] {
                old(hashes)@[row]
            } else if column.cells()[row]->0 is Some {
                murmur(column.cells()[row]->0->0 as u32)
            } else {
                murmur(0x9e37_79b9)
            }),
        final(hashes)@.len() == old(hashes)@.len(),
        final(valid).rows() == old(valid).rows(),
        valid_words(final(valid).rows(), final(valid).words()),
        final(final(valid).borrowed())@ == final(old(valid).borrowed())@,
{
    proof {
        if column.cells().len() == rows@.len() {
            lemma_ready_words(column.cells(), rows@);
        }
    }
    let fold = |_previous: u32, key: u32| -> (hash: u32)
        ensures
            hash == key,
        { key };
    run(column, Some(rows), nulls, hashes, valid, fold, Ghost(|previous: u32, key: u32| key))
}

/// Fold the next key into the hashes of the valid rows, narrowing `valid` by the
/// NULL policy.
///
/// Errors are those of `hash`.
pub fn hash_next<C: ColumnReader<Value = i32>>(
    column: &C,
    nulls: NullKeys,
    hashes: &mut [u32],
    valid: &mut RowMask<'_>,
) -> (result: Result<(), Error>)
    ensures
        ({
            let nrows = old(valid)@.len();
            if column.cells().len() != nrows || old(hashes)@.len() != nrows {
                &&& result matches Err(error) && error == Error::HashRows
                &&& final(hashes)@ == old(hashes)@
                &&& final(valid).words() == old(valid).words()
            } else {
                &&& result is Ok <==> selection_ready(column.cells(), old(valid)@)
                &&& hash_outcome(
                    column,
                    old(valid)@,
                    nulls,
                    |previous: u32, key: u32| combined(previous, key),
                    old(hashes)@,
                    final(hashes)@,
                    old(valid)@,
                    final(valid)@,
                    result,
                )
            }
        }),
        result is Ok ==> forall|row: int|
            0 <= row < old(valid)@.len() ==> (#[trigger] final(valid)@[row] <==> old(valid)@[row] && (
            column.cells()[row]->0 is Some || nulls == NullKeys::Group)),
        result is Ok ==> forall|row: int|
            0 <= row < old(valid)@.len() ==> #[trigger] final(hashes)@[row] == (if !old(valid)@[row] {
                old(hashes)@[row]
            } else if column.cells()[row]->0 is Some {
                combined(old(hashes)@[row], murmur(column.cells()[row]->0->0 as u32))
            } else {
                combined(old(hashes)@[row], murmur(0x9e37_79b9))
            }),
        final(hashes)@.len() == old(hashes)@.len(),
        final(valid).rows() == old(valid).rows(),
        valid_words(final(valid).rows(), final(valid).words()),
        final(final(valid).borrowed())@ == final(old(valid).borrowed())@,
{
    proof {
        if column.cells().len() == valid@.len() {
            lemma_ready_words(column.cells(), valid@);
        }
    }
    let fold = |previous: u32, key: u32| -> (hash: u32)
        ensures
            hash == combined(previous, key),
        { hash_combine(previous, key) };
    run(
        column,
        None,
        nulls,
        hashes,
        valid,
        fold,
        Ghost(|previous: u32, key: u32| combined(previous, key)),
    )
}

/// The hash of the keys of a row, in key order: the first one uncombined, the
/// others folded in.
pub open spec fn chained(keys: Seq<Option<i32>>) -> u32
    decreases keys.len(),
{
    if keys.len() <= 1 {
        key_hash(keys.last())
    } else {
        combined(chained(keys.drop_last()), key_hash(keys.last()))
    }
}

/// The first key leaves every selected row with the hash of that key.
pub proof fn lemma_first_key(
    cells: Cells<i32>,
    flags: Seq<bool>,
    nulls: NullKeys,
    old_hashes: Seq<u32>,
    hashes: Seq<u32>,
    old_valid: Seq<bool>,
    valid: Seq<bool>,
)
    requires
        hashed(
            cells,
            flags,
            flags.len() as int,
            nulls,
            |previous: u32, key: u32| key,
            old_hashes,
            hashes,
            old_valid,
            valid,
        ),
    ensures
        forall|row: int|
            0 <= row < flags.len() && flags[row] ==> #[trigger] hashes[row] == chained(
                seq![value_at(cells, row)],
            ),
{
}

/// A further key extends the keys that the hash of every valid row stands for.
pub proof fn lemma_next_key(
    keys: Seq<Seq<Option<i32>>>,
    cells: Cells<i32>,
    flags: Seq<bool>,
    nulls: NullKeys,
    old_hashes: Seq<u32>,
    hashes: Seq<u32>,
    valid: Seq<bool>,
)
    requires
        forall|row: int|
            0 <= row < flags.len() && flags[row] ==> (#[trigger] keys[row]).len() > 0
                && old_hashes[row] == chained(keys[row]),
        hashed(
            cells,
            flags,
            flags.len() as int,
            nulls,
            |previous: u32, key: u32| combined(previous, key),
            old_hashes,
            hashes,
            flags,
            valid,
        ),
    ensures
        forall|row: int|
            0 <= row < flags.len() && flags[row] ==> #[trigger] hashes[row] == chained(
                keys[row].push(value_at(cells, row)),
            ),
{
    assert forall|row: int| 0 <= row < flags.len() && flags[row] implies #[trigger] hashes[row]
        == chained(keys[row].push(value_at(cells, row))) by {
        assert(keys[row].len() > 0);
        let more = keys[row].push(value_at(cells, row));
        assert(more.drop_last() =~= keys[row]);
    }
}

/// A key never restores a rejected row. Under the group policy it removes none;
/// under the other it leaves only rows whose key is not NULL.
pub proof fn lemma_key_narrows<C: ColumnReader<Value = i32>>(
    column: &C,
    flags: Seq<bool>,
    nulls: NullKeys,
    next: spec_fn(u32, u32) -> u32,
    old_hashes: Seq<u32>,
    hashes: Seq<u32>,
    valid: Seq<bool>,
    result: Result<(), Error>,
)
    requires
        hash_outcome(column, flags, nulls, next, old_hashes, hashes, flags, valid, result),
    ensures
        forall|row: int| 0 <= row < flags.len() && #[trigger] valid[row] ==> flags[row],
        nulls == NullKeys::Group ==> valid == flags,
        nulls == NullKeys::Reject && result is Ok ==> forall|row: int|
            0 <= row < flags.len() && #[trigger] valid[row] ==> value_at(column.cells(), row) is Some,
{
    if nulls == NullKeys::Group {
        assert(valid =~= flags);
    }
}

/// Equal hashes of keys with equal leading keys prove the last keys equal.
pub proof fn lemma_chains_equal(leading: Seq<Option<i32>>, a: i32, b: i32)
    requires
        chained(leading.push(Some(a))) == chained(leading.push(Some(b))),
    ensures
        a == b,
{
    let with_a = leading.push(Some(a));
    let with_b = leading.push(Some(b));
    assert(with_a.drop_last() =~= leading);
    assert(with_b.drop_last() =~= leading);
    if leading.len() > 0 {
        lemma_last_key_equal(chained(leading), a, b);
    } else {
        lemma_murmur_bijective(a as u32, 0);
        lemma_murmur_bijective(b as u32, 0);
        assert(a as u32 == b as u32 ==> a == b) by (bit_vector);
    }
}

/// NULL keys form one group, which they share with one int4 value alone.
pub proof fn lemma_null_group(value: i32)
    ensures
        key_hash(Some(value)) == key_hash(None) <==> value as u32 == NULL_KEY,
{
    lemma_murmur_bijective(value as u32, 0);
    lemma_murmur_bijective(NULL_KEY, 0);
}

/// What hashing leaves depends on the rows of a column, not on its
/// representation.
pub proof fn lemma_hash_by_cells<A: ColumnReader<Value = i32>, B: ColumnReader<Value = i32>>(
    a: &A,
    b: &B,
    flags: Seq<bool>,
    nulls: NullKeys,
    next: spec_fn(u32, u32) -> u32,
    old_hashes: Seq<u32>,
    hashes: (Seq<u32>, Seq<u32>),
    old_valid: Seq<bool>,
    valid: (Seq<bool>, Seq<bool>),
    result_a: Result<(), Error>,
    result_b: Result<(), Error>,
)
    requires
        a.cells() == b.cells(),
        a.cells().len() == flags.len(),
        old_hashes.len() == flags.len(),
        old_valid.len() == flags.len(),
        hash_outcome(a, flags, nulls, next, old_hashes, hashes.0, old_valid, valid.0, result_a),
        hash_outcome(b, flags, nulls, next, old_hashes, hashes.1, old_valid, valid.1, result_b),
    ensures
        hashes.0 == hashes.1,
        valid.0 == valid.1,
        result_a is Ok <==> result_b is Ok,
{
    let cells = a.cells();
    lemma_ready_words(cells, flags);
    if result_a is Err && result_b is Err {
        let (i, v) = choose|index: int, selected: u64|
            {
                &&& 0 <= index < words_for(flags.len() as int)
                &&& #[trigger] covers(selected, flags, index)
                &&& ready_before(cells, flags, 64 * index)
                &&& !word_ready(cells, index, selected)
                &&& hashed(
                    cells,
                    flags,
                    64 * index,
                    nulls,
                    next,
                    old_hashes,
                    hashes.0,
                    old_valid,
                    valid.0,
                )
            };
        let (j, w) = choose|index: int, selected: u64|
            {
                &&& 0 <= index < words_for(flags.len() as int)
                &&& #[trigger] covers(selected, flags, index)
                &&& ready_before(cells, flags, 64 * index)
                &&& !word_ready(cells, index, selected)
                &&& hashed(
                    cells,
                    flags,
                    64 * index,
                    nulls,
                    next,
                    old_hashes,
                    hashes.1,
                    old_valid,
                    valid.1,
                )
            };
        lemma_same_failure(cells, flags, i, v, j, w);
    }
    assert(hashes.0 =~= hashes.1);
    assert(valid.0 =~= valid.1);
}

/// What hashing a key leaves, row by row. A row stays valid exactly when it was
/// selected and its key is not NULL, or NULLs form a group. A selected row has
/// its hash, and the others keep theirs.
pub proof fn lemma_hash_rows<C: ColumnReader<Value = i32>>(
    column: &C,
    flags: Seq<bool>,
    nulls: NullKeys,
    next: spec_fn(u32, u32) -> u32,
    old_hashes: Seq<u32>,
    hashes: Seq<u32>,
    old_valid: Seq<bool>,
    valid: Seq<bool>,
    row: int,
)
    requires
        column.cells().len() == flags.len(),
        hash_outcome(
            column,
            flags,
            nulls,
            next,
            old_hashes,
            hashes,
            old_valid,
            valid,
            Ok(()),
        ),
        0 <= row < flags.len(),
    ensures
        flags[row] ==> column.cells()[row] is Some,
        !flags[row] ==> !valid[row] && hashes[row] == old_hashes[row],
        flags[row] && nulls == NullKeys::Group ==> valid[row],
        flags[row] ==> (column.cells()[row] matches Some(Some(key)) ==> valid[row] && hashes[row]
            == next(old_hashes[row], murmur(key as u32))),
        flags[row] && column.cells()[row] == Some(None::<i32>) ==> {
            &&& hashes[row] == next(old_hashes[row], murmur(0x9e37_79b9))
            &&& valid[row] <==> nulls == NullKeys::Group
        },
{
    let cells = column.cells();
    assert(valid[row] == if row < flags.len() {
        flags[row] && keeps(nulls, value_at(cells, row))
    } else {
        old_valid[row]
    });
    assert(hashes[row] == if row < flags.len() && flags[row] {
        next(old_hashes[row], key_hash(value_at(cells, row)))
    } else {
        old_hashes[row]
    });
    if flags[row] {
        assert(ready(cells, row));
    }
}

/// The finalizer, in modular arithmetic: undoing its last shift leaves what its
/// two multiplications make of the key.
pub proof fn lemma_murmur_steps(key: u32, b: u32, d: u32)
    requires
        b == ((key ^ (key >> 16u32)) * 0x85eb_ca6b) % 0x1_0000_0000,
        d == ((b ^ (b >> 13u32)) * 0xc2b2_ae35) % 0x1_0000_0000,
    ensures
        murmur(key) ^ (murmur(key) >> 16u32) == d,
{
    let h = murmur(key);
    assert(h == d ^ (d >> 16u32));
    assert(h ^ (h >> 16u32) == d) by (bit_vector)
        requires
            h == d ^ (d >> 16u32),
    ;
}

/// A key hashes by its two's complement, read as an unsigned integer, and a NULL
/// hashes as the group key.
pub proof fn lemma_key_hash(value: i32, bits: u32)
    requires
        bits == value || bits == value + 0x1_0000_0000,
    ensures
        key_hash(Some(value)) == murmur(bits),
        key_hash(None) == murmur(0x9e37_79b9),
{
    assert(value as u32 == bits) by (bit_vector)
        requires
            bits == value || bits == value + 0x1_0000_0000,
    ;
}

/// The combination, in modular arithmetic: past the exclusive or with the first
/// hash it is the second one, a constant, and 64 times and a quarter of the first.
pub proof fn lemma_combined_sum(a: u32, b: u32)
    ensures
        (combined(a, b) ^ a) as int == (b + 0x9e37_79b9 + 64 * a + a / 4) % 0x1_0000_0000,
{
    let modulus: int = 0x1_0000_0000;
    let x = u32_specs::wrapping_add(
        u32_specs::wrapping_add(u32_specs::wrapping_add(b, 0x9e37_79b9), a << 6u32),
        a >> 2u32,
    );
    assert((a ^ x) ^ a == x) by (bit_vector);
    let high = a << 6u32;
    let quarter = a >> 2u32;
    assert(high == (a * 64) % 0x1_0000_0000 && quarter == a / 4) by (bit_vector)
        requires
            high == a << 6u32,
            quarter == a >> 2u32,
    ;
    let exact: int = b + 0x9e37_79b9 + 64 * a + a / 4;
    let wraps: int = (exact - x) / modulus;
    assert(exact == wraps * modulus + x);
    vstd::arithmetic::div_mod::lemma_fundamental_div_mod_converse(exact, modulus, wraps, x as int);
}

/// A failed hash blames the first word with an unprepared selected row and
/// leaves that word and the later ones alone; before it every row is as after a
/// success.
pub proof fn lemma_hash_error<C: ColumnReader<Value = i32>>(
    column: &C,
    flags: Seq<bool>,
    nulls: NullKeys,
    next: spec_fn(u32, u32) -> u32,
    old_hashes: Seq<u32>,
    hashes: Seq<u32>,
    old_valid: Seq<bool>,
    valid: Seq<bool>,
    error: Error,
    index: int,
    selected: u64,
    row: int,
)
    requires
        column.cells().len() == flags.len(),
        hash_outcome(
            column,
            flags,
            nulls,
            next,
            old_hashes,
            hashes,
            old_valid,
            valid,
            Err(error),
        ),
        0 <= index < words_for(flags.len() as int),
        covers(selected, flags, index),
        ready_before(column.cells(), flags, 64 * index),
        !word_ready(column.cells(), index, selected),
        0 <= row < flags.len(),
    ensures
        error == column.word_error(index, selected),
        row >= 64 * index ==> hashes[row] == old_hashes[row] && valid[row] == old_valid[row],
        row < 64 * index && !flags[row] ==> !valid[row] && hashes[row] == old_hashes[row],
        row < 64 * index && flags[row] ==> column.cells()[row] is Some,
        row < 64 * index && flags[row] ==> (column.cells()[row] matches Some(Some(key)) ==> {
            &&& valid[row]
            &&& hashes[row] == next(old_hashes[row], murmur(key as u32))
        }),
        row < 64 * index && flags[row] && column.cells()[row] == Some(None::<i32>) ==> {
            &&& valid[row] <==> nulls == NullKeys::Group
            &&& hashes[row] == next(old_hashes[row], murmur(0x9e37_79b9))
        },
{
    let cells = column.cells();
    let (i, v) = choose|i: int, v: u64|
        {
            &&& 0 <= i < words_for(flags.len() as int)
            &&& #[trigger] covers(v, flags, i)
            &&& ready_before(cells, flags, 64 * i)
            &&& !word_ready(cells, i, v)
            &&& hashed(
                cells,
                flags,
                64 * i,
                nulls,
                next,
                old_hashes,
                hashes,
                old_valid,
                valid,
            )
            &&& error == column.word_error(i, v)
        };
    lemma_same_failure(cells, flags, i, v, index, selected);
    assert(valid[row] == if row < 64 * i {
        flags[row] && keeps(nulls, value_at(cells, row))
    } else {
        old_valid[row]
    });
    assert(hashes[row] == if row < 64 * i && flags[row] {
        next(old_hashes[row], key_hash(value_at(cells, row)))
    } else {
        old_hashes[row]
    });
    if row < 64 * i && flags[row] {
        assert(ready(cells, row));
    }
}

/// What the two hash functions return when they are called, in modular
/// arithmetic.
pub proof fn lemma_hash_calls(key: u32, hash: u32, a: u32, b: u32, both: u32, mid: u32, end: u32)
    requires
        call_ensures(murmurhash32, (key,), hash),
        call_ensures(hash_combine, (a, b), both),
        mid == ((key ^ (key >> 16u32)) * 0x85eb_ca6b) % 0x1_0000_0000,
        end == ((mid ^ (mid >> 13u32)) * 0xc2b2_ae35) % 0x1_0000_0000,
    ensures
        hash ^ (hash >> 16u32) == end,
        (both ^ a) as int == (b + 0x9e37_79b9 + 64 * a + a / 4) % 0x1_0000_0000,
{
    lemma_murmur_steps(key, mid, end);
    lemma_combined_sum(a, b);
}

} // verus!
