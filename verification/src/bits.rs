//! The bits of a 64-row word and the rows that a selection names.

use vstd::prelude::*;
#[allow(unused_imports)]
use vstd::std_specs::bits::{
    axiom_u64_leading_zeros, axiom_u64_trailing_zeros, u64_leading_zeros, u64_trailing_zeros,
};

verus! {

/// Bit `i` of `word`, least significant first; no bit outside `0..64` is set.
pub open spec fn bit(word: u64, i: int) -> bool {
    0 <= i < 64 && (word >> (i as u64)) & 1u64 == 1u64
}

/// The rows of `lo..hi` that satisfy `p`, in increasing order.
pub open spec fn rows_in(p: spec_fn(int) -> bool, lo: int, hi: int) -> Seq<int>
    decreases hi - lo,
{
    if hi <= lo {
        Seq::empty()
    } else if p(hi - 1) {
        rows_in(p, lo, hi - 1).push(hi - 1)
    } else {
        rows_in(p, lo, hi - 1)
    }
}

/// The rows of the word that starts at row `base` whose bit is set.
pub open spec fn word_rows(base: int, word: u64) -> Seq<int> {
    rows_in(|row: int| bit(word, row - base), base, base + 64)
}

/// The selected rows of `lo..hi`.
pub open spec fn selected_rows(flags: Seq<bool>, lo: int, hi: int) -> Seq<int> {
    rows_in(|row: int| flags[row], lo, hi)
}

/// The word that covers rows `64 * index..64 * index + 64` of a mask: a bit
/// is set exactly for a selected row, so that padding bits are zero.
pub open spec fn covers(word: u64, flags: Seq<bool>, index: int) -> bool {
    forall|i: int|
        0 <= i < 64 ==> #[trigger] bit(word, i) == (64 * index + i < flags.len() && flags[64 * index
            + i])
}

/// A single-bit test reads one bit.
pub proof fn lemma_bit_test(word: u64, k: u64)
    requires
        k < 64,
    ensures
        (word & (1u64 << k) != 0) == bit(word, k as int),
{
    assert((word & (1u64 << k) != 0) == ((word >> k) & 1u64 == 1u64)) by (bit_vector)
        requires
            k < 64,
    ;
}

/// The bits of an intersection.
pub proof fn lemma_bit_and(a: u64, b: u64, i: int)
    ensures
        bit(a & b, i) == (bit(a, i) && bit(b, i)),
{
    let k = i as u64;
    assert(((a & b) >> k) & 1u64 == 1u64 <==> (a >> k) & 1u64 == 1u64 && (b >> k) & 1u64 == 1u64)
        by (bit_vector);
}

/// The bits of a union.
pub proof fn lemma_bit_or(a: u64, b: u64, i: int)
    ensures
        bit(a | b, i) == (bit(a, i) || bit(b, i)),
{
    let k = i as u64;
    assert(((a | b) >> k) & 1u64 == 1u64 <==> (a >> k) & 1u64 == 1u64 || (b >> k) & 1u64 == 1u64)
        by (bit_vector);
}

/// The bits of a complement.
pub proof fn lemma_bit_not(a: u64, i: int)
    requires
        0 <= i < 64,
    ensures
        bit(!a, i) == !bit(a, i),
{
    let k = i as u64;
    assert(((!a) >> k) & 1u64 == 1u64 <==> (a >> k) & 1u64 != 1u64) by (bit_vector)
        requires
            k < 64,
    ;
}

/// The one bit of a shifted flag.
pub proof fn lemma_bit_flag(flag: u64, k: u64, i: int)
    requires
        flag <= 1,
        k < 64,
    ensures
        bit(flag << k, i) == (flag == 1 && i == k),
{
    if 0 <= i < 64 {
        let j = i as u64;
        assert(((flag << k) >> j) & 1u64 == 1u64 <==> flag == 1 && j == k) by (bit_vector)
            requires
                flag <= 1,
                k < 64,
                j < 64,
        ;
    }
}

/// The empty word and the full word.
pub proof fn lemma_bit_constants(i: int)
    ensures
        !bit(0, i),
        0 <= i < 64 ==> bit(u64::MAX, i),
{
    let k = i as u64;
    assert((0u64 >> k) & 1u64 == 0u64) by (bit_vector);
    assert(k < 64 ==> (u64::MAX >> k) & 1u64 == 1u64) by (bit_vector);
}

/// A nonzero word has a lowest set bit, which `word & (word - 1)` removes.
pub proof fn lemma_lowest_bit(word: u64)
    requires
        word != 0,
    ensures
        u64_trailing_zeros(word) < 64,
        bit(word, u64_trailing_zeros(word) as int),
        forall|i: int|
            i < u64_trailing_zeros(word) ==> !(#[trigger] bit(word, i)),
        forall|i: int| #[trigger]
            bit((word & (word - 1) as u64) as u64, i) == (bit(word, i) && i
                != u64_trailing_zeros(word)),
{
    axiom_u64_trailing_zeros(word);
    let low = u64_trailing_zeros(word);
    let k = low as u64;
    let rest = (word & (word - 1) as u64) as u64;
    assert forall|i: int| i < low implies !(#[trigger] bit(word, i)) by {
        if 0 <= i {
            let j = i as u64;
            assert((word >> j) & 1u64 == 0u64);
        }
    }
    assert forall|i: int| #[trigger] bit(rest, i) == (bit(word, i) && i != low) by {
        if 0 <= i < 64 {
            let j = i as u64;
            assert(word << ((64 - k) as u64) == 0);
            assert((word >> k) & 1u64 == 1u64);
            assert(((word & ((word - 1) as u64)) >> j) & 1u64 == 1u64 <==> (word >> j) & 1u64 == 1u64 && j
                != k) by (bit_vector)
                requires
                    k < 64,
                    j < 64,
                    word != 0,
                    word << ((64 - k) as u64) == 0,
                    (word >> k) & 1u64 == 1u64,
            ;
        }
    }
}

/// Removing the lowest set bit makes a word smaller.
pub proof fn lemma_clear_lowest(word: u64)
    requires
        word != 0,
    ensures
        (word & (word - 1) as u64) < word,
{
    assert(word != 0 ==> word & ((word - 1) as u64) < word) by (bit_vector);
}

/// Words with the same bits are equal.
pub proof fn lemma_bits_ext(a: u64, b: u64)
    requires
        forall|i: int| 0 <= i < 64 ==> bit(a, i) == bit(b, i),
    ensures
        a == b,
{
    let difference = a ^ b;
    if difference != 0 {
        lemma_lowest_bit(difference);
        let i = u64_trailing_zeros(difference) as int;
        let k = i as u64;
        assert(((a ^ b) >> k) & 1u64 == 1u64 ==> (a >> k) & 1u64 != (b >> k) & 1u64)
            by (bit_vector);
        assert((a >> k) & 1u64 == 0u64 || (a >> k) & 1u64 == 1u64) by (bit_vector);
        assert((b >> k) & 1u64 == 0u64 || (b >> k) & 1u64 == 1u64) by (bit_vector);
        assert(bit(a, i) == bit(b, i));
    } else {
        assert(a ^ b == 0 ==> a == b) by (bit_vector);
    }
}

/// A shift clears a word exactly when no bit from the shift on is set.
pub proof fn lemma_high_bits(word: u64, from: u64)
    requires
        from < 64,
    ensures
        (word >> from == 0) == (forall|i: int| from <= i < 64 ==> !bit(word, i)),
{
    if word >> from == 0 {
        assert forall|i: int| from <= i < 64 implies !bit(word, i) by {
            let k = i as u64;
            assert((word >> k) & 1u64 == 0u64) by (bit_vector)
                requires
                    word >> from == 0,
                    from <= k < 64,
            ;
        }
    } else {
        let high = word >> from;
        lemma_lowest_bit(high);
        let k = u64_trailing_zeros(high) as u64;
        assert(from + k < 64 && (word >> ((from + k) as u64)) & 1u64 == 1u64) by (bit_vector)
            requires
                high == word >> from,
                (high >> k) & 1u64 == 1u64,
                from < 64,
                k < 64,
        ;
        assert(bit(word, from + k));
    }
}

/// The width of a word: its highest set bit plus one.
pub proof fn lemma_width(word: u64, limit: int)
    requires
        0 <= limit,
    ensures
        0 <= u64_leading_zeros(word) <= 64,
        64 - u64_leading_zeros(word) <= limit <==> (forall|i: int| bit(word, i) ==> i < limit),
{
    axiom_u64_leading_zeros(word);
    let width = 64 - u64_leading_zeros(word);
    if width <= limit {
        assert forall|i: int| bit(word, i) implies i < limit by {
            if i >= limit {
                let k = i as u64;
                assert((word >> k) & 1u64 == 0u64);
            }
        }
    } else {
        let k = (63 - u64_leading_zeros(word)) as u64;
        assert((word >> k) & 1u64 == 0u64 || (word >> k) & 1u64 == 1u64) by (bit_vector);
        assert(bit(word, width - 1));
    }
}

/// A range of rows splits at any point.
pub proof fn lemma_rows_split(p: spec_fn(int) -> bool, lo: int, mid: int, hi: int)
    requires
        lo <= mid <= hi,
    ensures
        rows_in(p, lo, hi) == rows_in(p, lo, mid) + rows_in(p, mid, hi),
    decreases hi - mid,
{
    if mid < hi {
        lemma_rows_split(p, lo, mid, hi - 1);
        assert(rows_in(p, lo, hi) =~= rows_in(p, lo, mid) + rows_in(p, mid, hi));
    } else {
        assert(rows_in(p, lo, hi) =~= rows_in(p, lo, mid) + rows_in(p, mid, hi));
    }
}

/// Predicates that agree on a range name the same rows of it.
pub proof fn lemma_rows_agree(
    p: spec_fn(int) -> bool,
    q: spec_fn(int) -> bool,
    lo: int,
    hi: int,
)
    requires
        forall|row: int| lo <= row < hi ==> #[trigger] p(row) == q(row),
    ensures
        rows_in(p, lo, hi) == rows_in(q, lo, hi),
    decreases hi - lo,
{
    if lo < hi {
        lemma_rows_agree(p, q, lo, hi - 1);
    }
}

/// A range without a matching row names none.
pub proof fn lemma_rows_none(p: spec_fn(int) -> bool, lo: int, hi: int)
    requires
        forall|row: int| lo <= row < hi ==> !(#[trigger] p(row)),
    ensures
        rows_in(p, lo, hi) == Seq::<int>::empty(),
    decreases hi - lo,
{
    if lo < hi {
        lemma_rows_none(p, lo, hi - 1);
    }
}

/// The rows named are exactly the matching ones, each once, in increasing
/// order.
pub proof fn lemma_rows_members(p: spec_fn(int) -> bool, lo: int, hi: int)
    ensures
        forall|k: int|
            0 <= k < rows_in(p, lo, hi).len() ==> lo <= #[trigger] rows_in(p, lo, hi)[k] < hi && p(
                rows_in(p, lo, hi)[k],
            ),
        forall|j: int, k: int|
            0 <= j < k < rows_in(p, lo, hi).len() ==> rows_in(p, lo, hi)[j] < rows_in(p, lo, hi)[k],
        forall|row: int| lo <= row < hi && #[trigger] p(row) ==> rows_in(p, lo, hi).contains(row),
        rows_in(p, lo, hi).len() <= if lo <= hi {
            hi - lo
        } else {
            0
        },
    decreases hi - lo,
{
    if lo < hi {
        lemma_rows_members(p, lo, hi - 1);
        let rest = rows_in(p, lo, hi - 1);
        assert forall|row: int| lo <= row < hi && #[trigger] p(row) implies rows_in(
            p,
            lo,
            hi,
        ).contains(row) by {
            if row == hi - 1 {
                assert(rows_in(p, lo, hi)[rest.len() as int] == row);
            } else {
                assert(rest.contains(row));
                let k = choose|k: int| 0 <= k < rest.len() && rest[k] == row;
                assert(rows_in(p, lo, hi)[k] == row);
            }
        }
    }
}

/// The rows named before the `k`-th one are the first `k`.
pub proof fn lemma_rows_before(p: spec_fn(int) -> bool, lo: int, hi: int, k: int)
    requires
        0 <= k < rows_in(p, lo, hi).len(),
    ensures
        rows_in(p, lo, rows_in(p, lo, hi)[k]) == rows_in(p, lo, hi).take(k),
{
    lemma_rows_members(p, lo, hi);
    let rows = rows_in(p, lo, hi);
    let row = rows[k];
    let before = rows_in(p, lo, row);
    lemma_rows_split(p, lo, row, hi);
    lemma_rows_split(p, row, row + 1, hi);
    lemma_rows_members(p, lo, row);
    assert(p(row));
    assert(rows_in(p, row, row) =~= Seq::<int>::empty());
    assert(rows_in(p, row, row + 1) =~= seq![row]);
    assert(rows[before.len() as int] == row);
    assert(before.len() == k);
    assert(before =~= rows.take(k));
}

/// The position of the lowest set bit comes first, and removing that bit
/// leaves the other rows.
pub proof fn lemma_word_rows_pop(base: int, word: u64)
    requires
        word != 0,
    ensures
        word_rows(base, word).len() > 0,
        word_rows(base, word)[0] == base + u64_trailing_zeros(word),
        word_rows(base, (word & (word - 1) as u64) as u64) == word_rows(base, word).drop_first(),
{
    lemma_lowest_bit(word);
    let rest = (word & (word - 1) as u64) as u64;
    let low = base + u64_trailing_zeros(word);
    let p = |row: int| bit(word, row - base);
    let q = |row: int| bit(rest, row - base);
    lemma_rows_split(p, base, low, base + 64);
    lemma_rows_split(p, low, low + 1, base + 64);
    lemma_rows_split(q, base, low, base + 64);
    lemma_rows_split(q, low, low + 1, base + 64);
    lemma_rows_none(p, base, low);
    lemma_rows_none(q, base, low + 1);
    lemma_rows_split(q, base, low, low + 1);
    lemma_rows_agree(p, q, low + 1, base + 64);
    assert(rows_in(p, low, low) =~= Seq::<int>::empty());
    assert(rows_in(p, low, low + 1) =~= seq![low]);
    assert(rows_in(q, low, low + 1).len() == 0);
    assert(word_rows(base, word) =~= seq![low] + rows_in(p, low + 1, base + 64));
    assert(word_rows(base, rest) =~= word_rows(base, word).drop_first());
}

/// An empty word names no row.
pub proof fn lemma_word_rows_empty(base: int)
    ensures
        word_rows(base, 0) == Seq::<int>::empty(),
{
    let p = |row: int| bit(0, row - base);
    assert forall|row: int| base <= row < base + 64 implies !(#[trigger] p(row)) by {
        lemma_bit_constants(row - base);
    }
    lemma_rows_none(p, base, base + 64);
}

/// A full word names its 64 rows.
pub proof fn lemma_word_rows_full(base: int)
    ensures
        word_rows(base, u64::MAX) == Seq::new(64, |k: int| base + k),
{
    let p = |row: int| bit(u64::MAX, row - base);
    assert forall|row: int| base <= row < base + 64 implies #[trigger] p(row) by {
        lemma_bit_constants(row - base);
    }
    lemma_rows_all(p, base, base + 64);
}

/// A range of matching rows names all of them.
pub proof fn lemma_rows_all(p: spec_fn(int) -> bool, lo: int, hi: int)
    requires
        lo <= hi,
        forall|row: int| lo <= row < hi ==> #[trigger] p(row),
    ensures
        rows_in(p, lo, hi) == Seq::new((hi - lo) as nat, |k: int| lo + k),
    decreases hi - lo,
{
    if lo < hi {
        lemma_rows_all(p, lo, hi - 1);
        assert(p(hi - 1));
    }
    assert(rows_in(p, lo, hi) =~= Seq::new((hi - lo) as nat, |k: int| lo + k));
}

/// Where a word starts shifts the rows that it names.
pub proof fn lemma_word_rows_shift(base: int, word: u64)
    ensures
        word_rows(base, word).len() == word_rows(0, word).len(),
        forall|k: int|
            0 <= k < word_rows(0, word).len() ==> #[trigger] word_rows(base, word)[k] == base
                + word_rows(0, word)[k],
{
    lemma_rows_shift(
        |row: int| bit(word, row - base),
        |row: int| bit(word, row - 0),
        base,
        64,
    );
}

/// A shifted predicate names shifted rows.
proof fn lemma_rows_shift(
    p: spec_fn(int) -> bool,
    q: spec_fn(int) -> bool,
    base: int,
    count: int,
)
    requires
        forall|row: int| #[trigger] q(row) == p(base + row),
    ensures
        rows_in(p, base, base + count).len() == rows_in(q, 0, count).len(),
        forall|k: int|
            0 <= k < rows_in(q, 0, count).len() ==> #[trigger] rows_in(p, base, base + count)[k]
                == base + rows_in(q, 0, count)[k],
    decreases count,
{
    if count > 0 {
        lemma_rows_shift(p, q, base, count - 1);
        assert(q(count - 1) == p(base + (count - 1)));
        assert(base + count - 1 == base + (count - 1));
    }
}

/// A word names a row exactly when its bit is set.
pub proof fn lemma_word_rows_contains(base: int, word: u64)
    ensures
        forall|i: int| #[trigger] word_rows(base, word).contains(base + i) <==> bit(word, i),
        forall|k: int|
            0 <= k < word_rows(base, word).len() ==> base <= #[trigger] word_rows(base, word)[k]
                < base + 64 && bit(word, word_rows(base, word)[k] - base),
{
    let p = |row: int| bit(word, row - base);
    let rows = word_rows(base, word);
    lemma_rows_members(p, base, base + 64);
    assert forall|i: int| #[trigger] rows.contains(base + i) <==> bit(word, i) by {
        if bit(word, i) {
            assert(p(base + i));
        }
        if rows.contains(base + i) {
            let k = choose|k: int| 0 <= k < rows.len() && rows[k] == base + i;
            assert(p(rows[k]));
        }
    }
    assert forall|k: int| 0 <= k < rows.len() implies base <= #[trigger] rows[k] < base + 64 && bit(
        word,
        rows[k] - base,
    ) by {
        assert(p(rows[k]));
    }
}

/// Setting one flag of a word leaves its other bits.
pub proof fn lemma_set_flag(word: u64, flag: u64, k: u64)
    requires
        flag <= 1,
        k < 64,
    ensures
        forall|i: int| #[trigger]
            bit(word | (flag << k), i) == (bit(word, i) || flag == 1 && i == k),
{
    assert forall|i: int| #[trigger]
        bit(word | (flag << k), i) == (bit(word, i) || flag == 1 && i == k) by {
        lemma_bit_or(word, flag << k, i);
        lemma_bit_flag(flag, k, i);
    }
}

/// How many rows a word names does not depend on where it starts.
pub proof fn lemma_word_rows_len(base: int, word: u64)
    ensures
        word_rows(base, word).len() == ones(word),
    decreases word,
{
    if word == 0 {
        lemma_word_rows_empty(base);
        lemma_word_rows_empty(0);
    } else {
        let rest = (word & (word - 1) as u64) as u64;
        lemma_clear_lowest(word);
        lemma_word_rows_pop(base, word);
        lemma_word_rows_pop(0, word);
        lemma_word_rows_len(base, rest);
    }
}

/// A word that covers part of a mask names the selected rows of that part.
pub proof fn lemma_word_rows_cover(word: u64, flags: Seq<bool>, index: int)
    requires
        0 <= index,
        64 * index <= flags.len(),
        covers(word, flags, index),
    ensures
        word_rows(64 * index, word) == selected_rows(
            flags,
            64 * index,
            if 64 * index + 64 <= flags.len() {
                64 * index + 64
            } else {
                flags.len() as int
            },
        ),
{
    let base = 64 * index;
    let end = if base + 64 <= flags.len() {
        base + 64
    } else {
        flags.len() as int
    };
    let p = |row: int| bit(word, row - base);
    let q = |row: int| flags[row];
    assert forall|row: int| base <= row < base + 64 implies #[trigger] p(row) == (row < flags.len()
        && flags[row]) by {
        assert(bit(word, row - base) == (64 * index + (row - base) < flags.len() && flags[64 * index
            + (row - base)]));
    }
    lemma_rows_split(p, base, end, base + 64);
    lemma_rows_none(p, end, base + 64);
    lemma_rows_agree(p, q, base, end);
    assert(rows_in(p, base, end) + rows_in(p, end, base + 64) =~= rows_in(q, base, end));
}

/// The number of set bits of a word.
pub open spec fn ones(word: u64) -> nat {
    word_rows(0, word).len()
}

/// Count the set bits of a word.
pub fn count_ones(word: u64) -> (count: u32)
    ensures
        count == ones(word),
        count <= 64,
{
    let mut remaining = word;
    let mut count: u32 = 0;
    proof {
        lemma_rows_members(|row: int| bit(word, row - 0), 0, 64);
    }
    while remaining != 0
        invariant
            count + ones(remaining) == ones(word),
            ones(word) <= 64,
        decreases remaining,
    {
        proof {
            lemma_word_rows_pop(0, remaining);
            lemma_clear_lowest(remaining);
        }
        remaining = remaining & (remaining - 1);
        count = count + 1;
    }
    proof {
        lemma_word_rows_empty(0);
    }
    count
}

/// Whether exactly one bit of a word is set.
pub fn is_single(word: u64) -> (single: bool)
    ensures
        single == (ones(word) == 1),
{
    proof {
        lemma_word_rows_empty(0);
        if word != 0 {
            lemma_word_rows_pop(0, word);
            let rest = (word & (word - 1) as u64) as u64;
            assert(ones(rest) == ones(word) - 1);
            if rest != 0 {
                lemma_word_rows_pop(0, rest);
            }
        }
    }
    word != 0 && word & (word - 1) == 0
}

/// A word names one row more than the word without its lowest set bit, and an
/// empty word names none.
pub proof fn lemma_ones(word: u64)
    ensures
        ones(0) == 0,
        word != 0 ==> ones(word) == ones((word & (word - 1) as u64) as u64) + 1,
{
    lemma_word_rows_empty(0);
    if word != 0 {
        lemma_word_rows_pop(0, word);
    }
}

/// The word that covers 64 rows of a mask has a bit for each selected one, in
/// order, and none beyond the last row.
pub proof fn lemma_covers(word: u64, flags: Seq<bool>, index: int, i: int)
    requires
        covers(word, flags, index),
        0 <= i < 64,
    ensures
        (word >> (i as u64)) & 1 == 1 <==> 64 * index + i < flags.len() && flags[64 * index + i],
{
    assert(bit(word, i) == (64 * index + i < flags.len() && flags[64 * index + i]));
}

} // verus!
