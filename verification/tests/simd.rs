use tessera::int32::{hash_combine, murmurhash32, CompareOp};
use tessera::simd::arith::{add, mul, sub};
use tessera::simd::hash::{combine, combine_nulls, hash, hash_nulls};
use tessera::simd::{
    count_datum, filter_datum, filter_dense, max_datum, max_dense, min_datum, min_dense,
    non_null_bits, sum_datum, sum_dense, Side,
};

fn keys() -> [i32; 64] {
    let mut state = 0x9E37_79B9_7F4A_7C15_u64;
    std::array::from_fn(|lane| {
        state ^= state >> 12;
        state ^= state << 25;
        state ^= state >> 27;
        match lane % 8 {
            0 => i32::MIN,
            1 => i32::MAX,
            2 => 0,
            3 => -1,
            _ => (state.wrapping_mul(0x2545_F491_4F6C_DD1D) >> 32) as i32,
        }
    })
}

#[test]
fn lanes_match_the_scalar_functions_on_both_storages() {
    let dense = keys();
    let datums = dense.map(|key| i64::from(key) as u64);
    let non_nulls = 0xF0F0_0FF0_1234_5678_u64;
    let previous: [u32; 64] =
        std::array::from_fn(|lane| (lane as u32).wrapping_mul(0x9e37_79b9));
    let expected_hash = dense.map(|key| murmurhash32(key as u32));
    let expected_hash_nulls: [u32; 64] = std::array::from_fn(|lane| {
        if non_nulls & (1 << lane) != 0 {
            murmurhash32(dense[lane] as u32)
        } else {
            murmurhash32(0x9e37_79b9)
        }
    });
    let expected_combine: [u32; 64] =
        std::array::from_fn(|lane| hash_combine(previous[lane], expected_hash[lane]));
    let expected_combine_nulls: [u32; 64] =
        std::array::from_fn(|lane| hash_combine(previous[lane], expected_hash_nulls[lane]));
    for keys in [Side::Dense(&dense), Side::Datum(&datums)] {
        let mut out = [0; 64];
        hash(keys, &mut out);
        assert_eq!(out, expected_hash);
        hash_nulls(keys, non_nulls, &mut out);
        assert_eq!(out, expected_hash_nulls);
        out = previous;
        combine(keys, &mut out);
        assert_eq!(out, expected_combine);
        out = previous;
        combine_nulls(keys, non_nulls, &mut out);
        assert_eq!(out, expected_combine_nulls);
    }
}

fn lanes() -> ([i32; 64], [u64; 64], [bool; 64]) {
    let values = keys();
    let datums = values.map(|value| u64::from(value as u32) | 0xdead_beef_0000_0000);
    let isnull = std::array::from_fn(|lane| lane % 5 == 2);
    (values, datums, isnull)
}

#[test]
fn comparisons_pack_one_bit_per_lane() {
    let (values, datums, isnull) = lanes();
    for (op, holds) in [
        (CompareOp::Eq, (|a, b| a == b) as fn(i32, i32) -> bool),
        (CompareOp::Ne, |a, b| a != b),
        (CompareOp::Lt, |a, b| a < b),
        (CompareOp::Le, |a, b| a <= b),
        (CompareOp::Gt, |a, b| a > b),
        (CompareOp::Ge, |a, b| a >= b),
    ] {
        for scalar in [i32::MIN, -1, 0, i32::MAX] {
            let dense = filter_dense(&values, scalar, op);
            let datum = filter_datum(&datums, &isnull, scalar, op);
            for lane in 0..64 {
                let passes = holds(values[lane], scalar);
                assert_eq!(dense >> lane & 1 == 1, passes, "{op:?} {scalar} {lane}");
                assert_eq!(
                    datum >> lane & 1 == 1,
                    passes && !isnull[lane],
                    "{op:?} {scalar} {lane}"
                );
            }
        }
    }
}

#[test]
fn lane_aggregates_match_a_loop() {
    let (values, datums, isnull) = lanes();
    let present = non_null_bits(&isnull);
    for lane in 0..64 {
        assert_eq!(present >> lane & 1 == 1, !isnull[lane]);
    }
    for mask in [0, 1 << 7, 0x8000_0000_0000_0001, present, u64::MAX] {
        let masked: Vec<i32> = (0..64)
            .filter(|lane| mask >> lane & 1 == 1)
            .map(|lane| values[lane])
            .collect();
        let total: i64 = masked.iter().map(|&value| i64::from(value)).sum();
        let least = masked.iter().copied().min().unwrap_or(i32::MAX);
        let greatest = masked.iter().copied().max().unwrap_or(i32::MIN);
        assert_eq!(sum_dense(&values, mask), total);
        assert_eq!(sum_datum(&datums, mask), total);
        assert_eq!(min_dense(&values, mask), least);
        assert_eq!(min_datum(&datums, mask), least);
        assert_eq!(max_dense(&values, mask), greatest);
        assert_eq!(max_datum(&datums, mask), greatest);
        assert_eq!(
            count_datum(&isnull, mask),
            (mask & present).count_ones() as usize
        );
    }
}

#[test]
fn whole_words_wrap_and_report_overflow_of_masked_lanes() {
    let mut values = [1; 64];
    values[3] = i32::MAX;
    values[9] = i32::MIN;
    let mut out = [None; 64];
    assert!(add(Side::Dense(&values), Side::Scalar(1), u64::MAX, &mut out));
    assert_eq!((out[0], out[3]), (Some(2), Some(i32::MIN)));
    assert!(!add(Side::Dense(&values), Side::Scalar(1), !(1 << 3), &mut out));
    assert!(sub(Side::Scalar(-2), Side::Dense(&values), 1 << 3, &mut out));
    assert_eq!((out[0], out[3], out[9]), (Some(-3), Some(i32::MAX), Some(i32::MAX - 1)));
    assert!(!mul(Side::Dense(&values), Side::Scalar(-1), 1 << 3, &mut out));
    assert!(mul(Side::Dense(&values), Side::Scalar(-1), 1 << 9, &mut out));
    assert_eq!((out[3], out[9]), (Some(-i32::MAX), Some(i32::MIN)));
}
