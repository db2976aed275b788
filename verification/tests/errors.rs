//! Every error, an input that gives it, and its message.

use tessera::c::status::guard;
use tessera::c::{
    tess_int4_count, tess_int4_filter, Code, DatumColumn, Mask, Outcome, Status,
};
use tessera::int32::{
    arith_columns, arith_scalar, count, filter, hash, ArithOp, ArithmeticError, CompareOp, NullKeys,
};
use tessera::{ColumnReader, ColumnView, DatumInt32Column, DenseInt32Column};
use tessera::{Error, RowMask, RowMaskView, WordValues};

fn check<T>(result: Result<T, Error>, error: Error, message: &str) {
    match result {
        Ok(_) => panic!("expected {error:?}"),
        Err(actual) => {
            assert_eq!(actual, error);
            assert_eq!(actual.to_string(), message);
        }
    }
}

#[test]
fn masks_report_their_dimensions() {
    check(
        RowMaskView::try_new(65, &[0]),
        Error::WordCount {
            expected: 2,
            actual: 1,
        },
        "expected 2 bitmap words, got 1",
    );
    check(
        RowMaskView::try_new(3, &[0b1000]),
        Error::PaddingBits,
        "bitmap has set bits beyond its physical row count",
    );
    check(
        RowMaskView::try_from_bytes(usize::MAX, &[0], 1),
        Error::BitRangeOverflow,
        "bitmap bit range overflows",
    );
    check(
        RowMaskView::try_from_bytes(9, &[0], 0),
        Error::BitRangeExceedsBuffer,
        "bitmap bit range exceeds its buffer",
    );
    let rows = RowMaskView::try_new(120, &[0, 0]).unwrap();
    check(
        rows.contains(1007),
        Error::RowOutOfBounds {
            row: 1007,
            nrows: 120,
        },
        "physical row 1007 is out of bounds for 120 rows",
    );
    let mut words = [0; 2];
    let mut mask = RowMask::try_new(120, &mut words).unwrap();
    check(
        mask.intersect_word(2, 0),
        Error::MaskWordOutOfBounds,
        "mask word is out of bounds",
    );
    check(
        mask.set_word(1, 1 << 56),
        Error::MaskWordPadding,
        "mask word has set padding bits",
    );
    check(
        mask.intersect(RowMaskView::try_new(0, &[]).unwrap()),
        Error::RowCount {
            expected: 120,
            actual: 0,
        },
        "expected 120 physical rows, got 0",
    );
}

#[test]
fn readers_report_rows_and_words() {
    let values = [Some(1), None, Some(3)];
    let prepared = RowMaskView::try_new(3, &[0b101]).unwrap();
    let column = DenseInt32Column::try_new(&values, None, Some(prepared)).unwrap();
    check(
        column.get(1),
        Error::RowUnprepared { row: 1 },
        "physical row 1 is unprepared",
    );
    check(
        column.get(3),
        Error::RowOutOfBounds { row: 3, nrows: 3 },
        "physical row 3 is out of bounds for 3 rows",
    );
    check(
        column.word_values(1, 0),
        Error::SelectionWordOutOfBounds,
        "selection word is out of bounds",
    );
    check(
        column.word_values(0, 0b1000),
        Error::SelectionPadding,
        "selection has set padding bits",
    );
    check(
        column.word_values(0, 0b10),
        Error::SelectionUnprepared,
        "selection contains unprepared rows",
    );
    assert!(WordValues::try_new(3, 0, 0b101, 0b101, |row| Some(row)).is_ok());
    check(
        DenseInt32Column::try_new(&values[..1], None, Some(prepared)),
        Error::ColumnMaskRows,
        "column and mask row counts differ",
    );
    check(
        DatumInt32Column::try_new(&[Some(0)], &[], None),
        Error::ColumnFlagRows,
        "column and NULL flag row counts differ",
    );
    let stopped: Result<(), Error> = column.try_fold_selected(&prepared, (), |(), row, _| {
        if row == 2 {
            Err(Error::Message("enough".to_string()))
        } else {
            Ok(())
        }
    });
    check(stopped, Error::Message("enough".to_string()), "enough");
}

#[test]
fn kernels_report_dimensions_and_arithmetic() {
    let values = [1, 0, i32::MAX];
    let column = ColumnView::try_new(&values, None).unwrap();
    let rows = RowMaskView::try_new(3, &[0b111]).unwrap();
    let short = RowMaskView::try_new(2, &[0b11]).unwrap();
    check(
        count(&column, &short),
        Error::ColumnSelectionRows,
        "column and selection row counts differ",
    );
    let mut words = [0b11];
    check(
        filter(
            &column,
            &mut RowMask::try_new(2, &mut words).unwrap(),
            CompareOp::Eq,
            0,
        ),
        Error::ColumnSelectionRows,
        "column and selection row counts differ",
    );
    let mut out = [None; 3];
    let mut words = [0];
    let mut mask = RowMask::try_new(3, &mut words).unwrap();
    check(
        arith_scalar(ArithOp::Add, &column, 1, &rows, &mut out[..2], &mut mask),
        Error::ResultSelectionRows,
        "result and selection row counts differ",
    );
    check(
        arith_scalar(ArithOp::Add, &column, 1, &rows, &mut out, &mut mask),
        Error::Arithmetic(ArithmeticError::IntegerOutOfRange),
        "integer out of range",
    );
    check(
        arith_columns(ArithOp::Div, &column, &column, &rows, &mut out, &mut mask),
        Error::Arithmetic(ArithmeticError::DivisionByZero),
        "division by zero",
    );
    let mut hashes = [0; 2];
    check(
        hash(&column, &rows, NullKeys::Group, &mut hashes, &mut mask),
        Error::HashRows,
        "column, hashes and mask row counts differ",
    );
}

#[test]
fn single_unprepared_rows_are_named_by_the_filter_alone() {
    // The filter reads a single selected row by itself; an aggregate refuses its
    // word, as a fold does.
    let slots: Vec<Option<i32>> = (0..128).map(|row| (row != 100).then_some(row)).collect();
    let prepared_words = [u64::MAX, !(1 << 36)];
    let prepared = RowMaskView::try_new(128, &prepared_words).unwrap();
    let column = DenseInt32Column::try_new(&slots, None, Some(prepared)).unwrap();
    let mut words = [0b11, 1 << 36];
    let mut rows = RowMask::try_new(128, &mut words).unwrap();
    assert_eq!(
        filter(&column, &mut rows, CompareOp::Ge, 0),
        Err(Error::RowUnprepared { row: 100 })
    );
    let few = RowMaskView::try_new(128, &[0b11, 1 << 36]).unwrap();
    assert_eq!(count(&column, &few), Err(Error::SelectionUnprepared));
    let many = RowMaskView::try_new(128, &[u64::MAX, 1 << 36]).unwrap();
    assert_eq!(count(&column, &many), Err(Error::SelectionUnprepared));
    assert_eq!(
        column.try_fold_selected(&many, 0, |rows, _, _| Ok(rows + 1)),
        Err(Error::SelectionUnprepared)
    );
}

#[test]
fn the_c_interface_reports_its_arguments() {
    let mut status = Status::default();
    let mut report = |column: Option<&DatumColumn<'_>>, rows: Option<Mask<'_>>, op: u32| {
        let code = tess_int4_filter(column, None, rows, op, 0, Some(&mut status));
        (code, status.message())
    };
    let values = [Some(1)];
    let flags = [Some(false)];
    let column = |struct_size: usize, nrows: i32, present: bool| DatumColumn {
        struct_size,
        values: present.then_some(&values[..]),
        isnull: present.then_some(&flags[..]),
        nrows,
    };
    let invalid = |message: &str| (Code::InvalidArgument, message.to_string());
    assert_eq!(
        report(None, None, 1006),
        invalid("unknown comparison operation 1006")
    );
    assert_eq!(report(None, None, 0), invalid("a null column"));
    assert_eq!(
        report(Some(&column(27, 1, true)), None, 0),
        invalid("a Datum column is smaller than its required fields")
    );
    assert_eq!(
        report(Some(&column(32, -1, true)), None, 0),
        invalid(
            "a column has a negative row count: out of range integral type conversion attempted"
        )
    );
    assert_eq!(
        report(Some(&column(32, 1, false)), None, 0),
        invalid("a column has null buffers")
    );
    let good = column(32, 1, true);
    assert_eq!(report(Some(&good), None, 0), invalid("a null row mask"));
    let negative = Mask {
        nrows: -5,
        bits: None,
    };
    assert_eq!(
        report(Some(&good), Some(negative), 0),
        invalid(
            "a row mask has a negative row count: out of range integral type conversion attempted"
        )
    );
    let null = Mask {
        nrows: 1,
        bits: None,
    };
    assert_eq!(
        report(Some(&good), Some(null), 0),
        invalid("a row mask has null bits")
    );
    let mut code = tess_int4_count(Some(&good), None, None, None, Some(&mut status));
    assert_eq!((code, status.message()), invalid("a null result"));
    let mut words = [1];
    let rows = Mask {
        nrows: 1,
        bits: Some(&mut words),
    };
    let mut counted = -1;
    code = tess_int4_count(
        Some(&good),
        None,
        Some(&rows),
        Some(&mut counted),
        Some(&mut status),
    );
    assert_eq!((code, counted), (Code::Success, 1));
    assert_eq!((status.sqlstate(), status.message()), (String::new(), String::new()));
}

#[test]
fn outcomes_are_recorded_with_their_codes() {
    let mut status = Status::new();
    for (outcome, code, number, state, message) in [
        (
            Outcome::Failed(Error::Arithmetic(ArithmeticError::IntegerOutOfRange)),
            Code::IntegerOutOfRange,
            2,
            "22003",
            "integer out of range",
        ),
        (
            Outcome::Failed(Error::Arithmetic(ArithmeticError::DivisionByZero)),
            Code::DivisionByZero,
            3,
            "22012",
            "division by zero",
        ),
        (
            Outcome::Failed(Error::PaddingBits),
            Code::InvalidArgument,
            1,
            "XX000",
            "bitmap has set bits beyond its physical row count",
        ),
        (
            Outcome::Panicked(None),
            Code::Panic,
            4,
            "XX000",
            "panic with a non-text payload",
        ),
        (Outcome::Done, Code::Success, 0, "", ""),
    ] {
        assert_eq!(guard(Some(&mut status), outcome), code);
        assert_eq!(status.code, code);
        assert_eq!(code.number(), number);
        assert_eq!(status.sqlstate(), state);
        assert_eq!(status.message(), message);
    }
}

#[test]
fn status_texts_end_at_the_terminator_and_replace_invalid_bytes() {
    let mut status = Status::new();
    status.message[..5].copy_from_slice(&[b'a', 0xff, b'b', 0, b'c']);
    assert_eq!(status.message(), "a\u{fffd}b");
    // Without a terminator the whole buffer is the text.
    status.sqlstate = *b"ABCDEF";
    assert_eq!(status.sqlstate(), "ABCDEF");
    // A shorter message leaves the bytes beyond its terminator.
    guard(
        Some(&mut status),
        Outcome::Failed(Error::Message("xy".to_string())),
    );
    assert_eq!(&status.message[..5], &[b'x', b'y', 0, 0, b'c']);
    // A message that just fits, and one that just does not.
    for (length, kept) in [(118, 118), (119, 119), (120, 119), (500, 119)] {
        let text = "m".repeat(length);
        guard(Some(&mut status), Outcome::Failed(Error::Message(text)));
        assert_eq!(status.message().len(), kept);
    }
}
