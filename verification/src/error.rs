//! The errors of the library and their messages.

use vstd::prelude::*;

use crate::int32::ArithmeticError;

verus! {

/// Why an operation refused its input.
#[derive(Clone, Debug, Eq, PartialEq)]
pub enum Error {
    /// A mask has the wrong number of words for its rows.
    WordCount { expected: usize, actual: usize },
    /// A mask has a set bit beyond its last row.
    PaddingBits,
    /// A row beyond the last one.
    RowOutOfBounds { row: usize, nrows: usize },
    /// Two row counts that must agree differ.
    RowCount { expected: usize, actual: usize },
    /// The end of a bit window does not fit in a `usize`.
    BitRangeOverflow,
    /// A bit window ends beyond its buffer.
    BitRangeExceedsBuffer,
    /// A word of a mask beyond the last one.
    MaskWordOutOfBounds,
    /// A word for a mask has a set bit beyond the last row.
    MaskWordPadding,
    /// A word of a selection beyond the last one.
    SelectionWordOutOfBounds,
    /// A word of a selection has a set bit beyond the last row.
    SelectionPadding,
    /// A word of a selection names a row that is not prepared.
    SelectionUnprepared,
    /// A row that is not prepared.
    RowUnprepared { row: usize },
    /// A column and a selection have different row counts.
    ColumnSelectionRows,
    /// A result buffer and a selection have different row counts.
    ResultSelectionRows,
    /// A column and one of its masks have different row counts.
    ColumnMaskRows,
    /// A column and its NULL flags have different row counts.
    ColumnFlagRows,
    /// A column, its hashes and a mask have different row counts.
    HashRows,
    /// An arithmetic failure.
    Arithmetic(ArithmeticError),
    /// A mask of the C interface with a negative row count.
    MaskNegativeRows,
    /// A mask of the C interface with rows but without words.
    MaskNullBits,
    /// A column of the C interface that is too small for its fields.
    ColumnTooSmall,
    /// A column of the C interface with a negative row count.
    ColumnNegativeRows,
    /// A column of the C interface with rows but without buffers.
    ColumnNullBuffers,
    /// No column where the C interface needs one.
    NullColumn,
    /// No row mask where the C interface needs one.
    NullRowMask,
    /// No place for a result where the C interface needs one.
    NullResult,
    /// A comparison operation that the C interface does not know.
    UnknownCompareOp { op: u32 },
    /// An error of the caller's own, such as one that stops a fold.
    Message(String),
}

/// The decimal digit of `d`.
pub open spec fn digit(d: nat) -> char {
    (48 + d) as char
}

/// `n` in decimal, without leading zeros.
pub open spec fn decimal(n: nat) -> Seq<char>
    decreases n,
{
    if n < 10 {
        seq![digit(n)]
    } else {
        decimal(n / 10).push(digit(n % 10))
    }
}

/// What a failed integer conversion adds to the errors that it causes.
pub open spec fn conversion_text() -> Seq<char> {
    ": out of range integral type conversion attempted"@
}

impl Error {
    /// The message of the error.
    pub open spec fn text(self) -> Seq<char> {
        match self {
            Error::WordCount { expected, actual } => "expected "@ + decimal(expected as nat)
                + " bitmap words, got "@ + decimal(actual as nat),
            Error::PaddingBits => "bitmap has set bits beyond its physical row count"@,
            Error::RowOutOfBounds { row, nrows } => "physical row "@ + decimal(row as nat)
                + " is out of bounds for "@ + decimal(nrows as nat) + " rows"@,
            Error::RowCount { expected, actual } => "expected "@ + decimal(expected as nat)
                + " physical rows, got "@ + decimal(actual as nat),
            Error::BitRangeOverflow => "bitmap bit range overflows"@,
            Error::BitRangeExceedsBuffer => "bitmap bit range exceeds its buffer"@,
            Error::MaskWordOutOfBounds => "mask word is out of bounds"@,
            Error::MaskWordPadding => "mask word has set padding bits"@,
            Error::SelectionWordOutOfBounds => "selection word is out of bounds"@,
            Error::SelectionPadding => "selection has set padding bits"@,
            Error::SelectionUnprepared => "selection contains unprepared rows"@,
            Error::RowUnprepared { row } => "physical row "@ + decimal(row as nat)
                + " is unprepared"@,
            Error::ColumnSelectionRows => "column and selection row counts differ"@,
            Error::ResultSelectionRows => "result and selection row counts differ"@,
            Error::ColumnMaskRows => "column and mask row counts differ"@,
            Error::ColumnFlagRows => "column and NULL flag row counts differ"@,
            Error::HashRows => "column, hashes and mask row counts differ"@,
            Error::Arithmetic(error) => error.text(),
            Error::MaskNegativeRows => "a row mask has a negative row count"@,
            Error::MaskNullBits => "a row mask has null bits"@,
            Error::ColumnTooSmall => "a Datum column is smaller than its required fields"@,
            Error::ColumnNegativeRows => "a column has a negative row count"@,
            Error::ColumnNullBuffers => "a column has null buffers"@,
            Error::NullColumn => "a null column"@,
            Error::NullRowMask => "a null row mask"@,
            Error::NullResult => "a null result"@,
            Error::UnknownCompareOp { op } => "unknown comparison operation "@ + decimal(op as nat),
            Error::Message(text) => text@,
        }
    }

    /// The message of the error followed by that of its cause, where a failed
    /// integer conversion is the cause.
    pub open spec fn full_text(self) -> Seq<char> {
        match self {
            Error::MaskNegativeRows | Error::ColumnNegativeRows => self.text() + conversion_text(),
            _ => self.text(),
        }
    }

    /// The message of the error.
    pub fn to_string(&self) -> (message: String)
        ensures
            message@ == self.text(),
    {
        let mut message = String::new();
        match self {
            Error::WordCount { expected, actual } => {
                message.append("expected ");
                append_decimal(&mut message, *expected);
                message.append(" bitmap words, got ");
                append_decimal(&mut message, *actual);
            },
            Error::PaddingBits => {
                message.append("bitmap has set bits beyond its physical row count");
            },
            Error::RowOutOfBounds { row, nrows } => {
                message.append("physical row ");
                append_decimal(&mut message, *row);
                message.append(" is out of bounds for ");
                append_decimal(&mut message, *nrows);
                message.append(" rows");
            },
            Error::RowCount { expected, actual } => {
                message.append("expected ");
                append_decimal(&mut message, *expected);
                message.append(" physical rows, got ");
                append_decimal(&mut message, *actual);
            },
            Error::BitRangeOverflow => {
                message.append("bitmap bit range overflows");
            },
            Error::BitRangeExceedsBuffer => {
                message.append("bitmap bit range exceeds its buffer");
            },
            Error::MaskWordOutOfBounds => {
                message.append("mask word is out of bounds");
            },
            Error::MaskWordPadding => {
                message.append("mask word has set padding bits");
            },
            Error::SelectionWordOutOfBounds => {
                message.append("selection word is out of bounds");
            },
            Error::SelectionPadding => {
                message.append("selection has set padding bits");
            },
            Error::SelectionUnprepared => {
                message.append("selection contains unprepared rows");
            },
            Error::RowUnprepared { row } => {
                message.append("physical row ");
                append_decimal(&mut message, *row);
                message.append(" is unprepared");
            },
            Error::ColumnSelectionRows => {
                message.append("column and selection row counts differ");
            },
            Error::ResultSelectionRows => {
                message.append("result and selection row counts differ");
            },
            Error::ColumnMaskRows => {
                message.append("column and mask row counts differ");
            },
            Error::ColumnFlagRows => {
                message.append("column and NULL flag row counts differ");
            },
            Error::HashRows => {
                message.append("column, hashes and mask row counts differ");
            },
            Error::Arithmetic(error) => {
                message.append(error.message());
            },
            Error::MaskNegativeRows => {
                message.append("a row mask has a negative row count");
            },
            Error::MaskNullBits => {
                message.append("a row mask has null bits");
            },
            Error::ColumnTooSmall => {
                message.append("a Datum column is smaller than its required fields");
            },
            Error::ColumnNegativeRows => {
                message.append("a column has a negative row count");
            },
            Error::ColumnNullBuffers => {
                message.append("a column has null buffers");
            },
            Error::NullColumn => {
                message.append("a null column");
            },
            Error::NullRowMask => {
                message.append("a null row mask");
            },
            Error::NullResult => {
                message.append("a null result");
            },
            Error::UnknownCompareOp { op } => {
                message.append("unknown comparison operation ");
                append_decimal(&mut message, *op as usize);
            },
            Error::Message(text) => {
                message.append(text.as_str());
            },
        }
        message
    }

    /// The message of the error followed by that of its cause, if it has one.
    pub fn full_message(&self) -> (message: String)
        ensures
            message@ == self.full_text(),
    {
        let mut message = self.to_string();
        match self {
            Error::MaskNegativeRows | Error::ColumnNegativeRows => {
                message.append(": out of range integral type conversion attempted");
            },
            _ => {},
        }
        message
    }

    /// The arithmetic failure that the error reports, if it is one.
    pub fn arithmetic(&self) -> (error: Option<ArithmeticError>)
        ensures
            error == (match *self {
                Error::Arithmetic(error) => Some(error),
                _ => None,
            }),
    {
        match self {
            Error::Arithmetic(error) => Some(*error),
            _ => None,
        }
    }
}

/// The decimal digit of `d` as text.
fn digit_text(d: usize) -> (text: &'static str)
    requires
        d < 10,
    ensures
        text@ == seq![digit(d as nat)],
{
    proof {
        reveal_strlit("0");
        reveal_strlit("1");
        reveal_strlit("2");
        reveal_strlit("3");
        reveal_strlit("4");
        reveal_strlit("5");
        reveal_strlit("6");
        reveal_strlit("7");
        reveal_strlit("8");
        reveal_strlit("9");
    }
    match d {
        0 => "0",
        1 => "1",
        2 => "2",
        3 => "3",
        4 => "4",
        5 => "5",
        6 => "6",
        7 => "7",
        8 => "8",
        _ => "9",
    }
}

/// Append `n` in decimal.
fn append_decimal(text: &mut String, n: usize)
    ensures
        final(text)@ == old(text)@ + decimal(n as nat),
    decreases n,
{
    if n >= 10 {
        append_decimal(text, n / 10);
    }
    text.append(digit_text(n % 10));
}

/// Decimal digits: the last one is the remainder by ten, and those before it are
/// the digits of the quotient, none of them for a number below ten.
pub proof fn lemma_decimal(n: nat)
    ensures
        decimal(n).len() > 0,
        decimal(n).last() as int == 48 + n % 10,
        n < 10 ==> decimal(n).len() == 1,
        n >= 10 ==> decimal(n).drop_last() == decimal(n / 10),
{
    if n >= 10 {
        assert(decimal(n).drop_last() =~= decimal(n / 10));
    }
}

/// The messages that name numbers name them in decimal, each in its place, and
/// only a failed conversion adds its cause.
pub proof fn lemma_numbered_texts(a: usize, b: usize, op: u32)
    ensures
        (Error::WordCount { expected: a, actual: b }).full_text() == "expected "@ + decimal(a as nat)
            + " bitmap words, got "@ + decimal(b as nat),
        (Error::RowCount { expected: a, actual: b }).full_text() == "expected "@ + decimal(a as nat)
            + " physical rows, got "@ + decimal(b as nat),
        (Error::RowOutOfBounds { row: a, nrows: b }).full_text() == "physical row "@ + decimal(
            a as nat,
        ) + " is out of bounds for "@ + decimal(b as nat) + " rows"@,
        (Error::RowUnprepared { row: a }).full_text() == "physical row "@ + decimal(a as nat)
            + " is unprepared"@,
        (Error::UnknownCompareOp { op }).full_text() == "unknown comparison operation "@ + decimal(
            op as nat,
        ),
        forall|text: String| (#[trigger] Error::Message(text).full_text()) == text@,
        forall|error: Error|
            error != Error::MaskNegativeRows && error != Error::ColumnNegativeRows ==> (
            #[trigger] error.full_text()) == error.text(),
{
}

} // verus!
