//! Short uses of each part of the library.

use tessera::int32::{
    arith_scalar, count, filter, hash, hash_combine, hash_next, max, min, murmurhash32, sum,
    ArithOp, CompareOp, NullKeys,
};
use tessera::{ColumnView, Error, RowMask, RowMaskView};

#[test]
fn columns_and_masks_work_together() -> Result<(), Error> {
    let values = [10, 20, 30];
    let non_null_bits = [0b101];
    let mut row_bits = [0b111];
    let non_nulls = RowMaskView::try_new(values.len(), &non_null_bits)?;
    let column = ColumnView::try_new(&values, Some(non_nulls))?;
    let mut rows = RowMask::try_new(values.len(), &mut row_bits)?;
    rows.clear(0);
    let selected: Vec<_> = rows.as_view().selected_indices().collect();
    assert_eq!(selected, [1, 2]);
    assert_eq!(column.get(1)?, None);
    assert_eq!(column.get(2)?, Some(&30));
    Ok(())
}

#[test]
fn words_can_be_intersected_one_by_one() -> Result<(), Error> {
    let mut words = [0b111, 1];
    let mut rows = RowMask::try_new(65, &mut words)?;
    rows.intersect_word(0, 0b101)?;
    rows.intersect_word(1, u64::MAX)?;
    assert_eq!(
        rows.as_view().selected_indices().collect::<Vec<_>>(),
        [0, 2, 64]
    );
    Ok(())
}

#[test]
fn words_can_be_replaced() -> Result<(), Error> {
    let mut words = [0, 0];
    let mut rows = RowMask::try_new(65, &mut words)?;
    rows.set_word(0, 0b101)?;
    rows.set_word(1, 1)?;
    assert_eq!(rows.set_word(1, 0b10), Err(Error::MaskWordPadding));
    assert_eq!(rows.set_word(2, 0), Err(Error::MaskWordOutOfBounds));
    assert_eq!(
        rows.as_view().selected_indices().collect::<Vec<_>>(),
        [0, 2, 64]
    );
    Ok(())
}

#[test]
fn filter_keeps_passing_non_null_rows() -> Result<(), Error> {
    let values = [10, 20, 30, 40];
    let non_nulls = RowMaskView::try_new(4, &[0b1101])?;
    let column = ColumnView::try_new(&values, Some(non_nulls))?;
    let mut words = [0b0111];
    let mut rows = RowMask::try_new(4, &mut words)?;
    filter(&column, &mut rows, CompareOp::Ge, 20)?;
    assert_eq!(rows.as_view().selected_indices().collect::<Vec<_>>(), [2]);
    Ok(())
}

#[test]
fn aggregates_skip_nulls_and_unselected_rows() -> Result<(), Error> {
    let values = [10, -20, 30, 40];
    let non_nulls = RowMaskView::try_new(4, &[0b1101])?;
    let column = ColumnView::try_new(&values, Some(non_nulls))?;
    let rows = RowMaskView::try_new(4, &[0b0111])?;
    assert_eq!(count(&column, &rows)?, 2);
    assert_eq!(min(&column, &rows)?, Some(10));
    assert_eq!(max(&column, &rows)?, Some(30));
    let values = [i32::MAX, 20, 30, i32::MAX];
    let column = ColumnView::try_new(&values, None)?;
    let rows = RowMaskView::try_new(4, &[0b1001])?;
    assert_eq!(sum(&column, &rows)?, Some(2 * i64::from(i32::MAX)));
    assert_eq!(sum(&column, &RowMaskView::try_new(4, &[0])?)?, None);
    Ok(())
}

#[test]
fn arithmetic_writes_selected_non_null_rows() -> Result<(), Error> {
    let values = [10, 20, 30, 40];
    let non_nulls = RowMaskView::try_new(4, &[0b1101])?;
    let column = ColumnView::try_new(&values, Some(non_nulls))?;
    let rows = RowMaskView::try_new(4, &[0b0111])?;
    let mut out = [None; 4];
    let mut out_words = [0];
    let mut out_non_nulls = RowMask::try_new(4, &mut out_words)?;
    arith_scalar(
        ArithOp::Mul,
        &column,
        3,
        &rows,
        &mut out,
        &mut out_non_nulls,
    )?;
    assert_eq!(out_words, [0b0101]);
    assert_eq!((out[0], out[2], out[3]), (Some(30), Some(90), None));
    Ok(())
}

#[test]
fn keys_combine_in_order() -> Result<(), Error> {
    let keys = [10, 20, 30];
    let column = ColumnView::try_new(&keys, Some(RowMaskView::try_new(3, &[0b101])?))?;
    let rows = RowMaskView::try_new(3, &[0b111])?;
    let mut hashes = [0; 3];
    let mut words = [0];
    let mut valid = RowMask::try_new(3, &mut words)?;
    hash(&column, &rows, NullKeys::Reject, &mut hashes, &mut valid)?;
    assert_eq!(valid.as_view().word(0), Some(0b101));
    assert_eq!(hashes[0], murmurhash32(10));
    hash_next(&column, NullKeys::Reject, &mut hashes, &mut valid)?;
    assert_eq!(hashes[2], hash_combine(murmurhash32(30), murmurhash32(30)));
    Ok(())
}
