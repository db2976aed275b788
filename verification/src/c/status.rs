//! The status of an entry point and how an outcome is recorded in it.

use vstd::prelude::*;
use vstd::string::StringSliceAdditionalSpecFns;
use vstd::utf8::{decode_utf8, encode_utf8, is_char_boundary, valid_utf8};
#[allow(unused_imports)]
use vstd::utf8::{
    encode_utf8_decode_utf8, encode_utf8_valid_utf8, is_ascii_chars, is_ascii_chars_encode_utf8,
    valid_utf8_split,
};

use crate::error::Error;
use crate::int32::ArithmeticError;

verus! {

/// The outcome of an entry point.
#[derive(Clone, Copy, Debug, Eq, PartialEq, Structural)]
pub enum Code {
    /// The call succeeded.
    Success,
    /// A dimension, pointer, mask or operation argument is invalid.
    InvalidArgument,
    /// SQLSTATE 22003.
    IntegerOutOfRange,
    /// SQLSTATE 22012.
    DivisionByZero,
    /// A panic was caught; the library remains usable.
    Panic,
}

impl Code {
    /// The size of a code in the C interface.
    pub const SIZE: usize = 4;

    /// The number of the code in the C interface.
    pub fn number(self) -> (number: u32)
        ensures
            number == (match self {
                Code::Success => 0u32,
                Code::InvalidArgument => 1,
                Code::IntegerOutOfRange => 2,
                Code::DivisionByZero => 3,
                Code::Panic => 4,
            }),
    {
        match self {
            Code::Success => 0,
            Code::InvalidArgument => 1,
            Code::IntegerOutOfRange => 2,
            Code::DivisionByZero => 3,
            Code::Panic => 4,
        }
    }
}

/// Bytes of the message buffer, terminator included.
pub const MESSAGE_SIZE: usize = 120;

/// The append-only status structure: the caller sets `struct_size`, an entry
/// point fills the rest.
#[derive(Debug)]
pub struct Status {
    /// The size the caller allocated, at least `Status::MIN_SIZE`.
    pub struct_size: usize,
    /// The outcome.
    pub code: Code,
    /// A five-character SQLSTATE with a terminator; empty on success.
    pub sqlstate: [u8; 6],
    /// A NUL-terminated message; empty on success.
    pub message: [u8; MESSAGE_SIZE],
}

/// The bytes before the terminator, or all of them without one.
pub open spec fn until_nul(chars: Seq<u8>) -> Seq<u8>
    decreases chars.len(),
{
    if chars.len() == 0 || chars[0] == 0 {
        Seq::empty()
    } else {
        seq![chars[0]] + until_nul(chars.drop_first())
    }
}

/// The text of bytes in which each invalid UTF-8 sequence reads as U+FFFD.
pub uninterp spec fn lossy_text(bytes: Seq<u8>) -> Seq<char>;

/// `String::from_utf8_lossy`: the text depends on the bytes alone, and valid
/// UTF-8 reads as the characters that it encodes.
#[verifier::external_body]
fn from_utf8_lossy(bytes: &[u8]) -> (text: String)
    ensures
        text@ == lossy_text(bytes@),
        valid_utf8(bytes@) ==> text@ == decode_utf8(bytes@),
{
    String::from_utf8_lossy(bytes).into_owned()
}

/// The text of a buffer up to its terminator.
fn text(chars: &[u8]) -> (text: String)
    ensures
        text@ == lossy_text(until_nul(chars@)),
        valid_utf8(until_nul(chars@)) ==> text@ == decode_utf8(until_nul(chars@)),
{
    let mut end: usize = 0;
    proof {
        assert(chars@.skip(0) =~= chars@);
        assert(chars@.take(0) + until_nul(chars@) =~= until_nul(chars@));
    }
    while end < chars.len() && chars[end] != 0
        invariant
            end <= chars@.len(),
            until_nul(chars@) == chars@.take(end as int) + until_nul(chars@.skip(end as int)),
        decreases chars@.len() - end,
    {
        proof {
            let rest = chars@.skip(end as int);
            assert(rest[0] == chars@[end as int]);
            assert(rest.drop_first() =~= chars@.skip(end + 1));
            assert(chars@.take(end + 1) =~= chars@.take(end as int) + seq![chars@[end as int]]);
            assert(chars@.take(end as int) + (seq![rest[0]] + until_nul(rest.drop_first()))
                =~= chars@.take(end + 1) + until_nul(chars@.skip(end + 1)));
        }
        end = end + 1;
    }
    proof {
        let rest = chars@.skip(end as int);
        assert(rest.len() > 0 ==> rest[0] == chars@[end as int]);
        assert(until_nul(rest) =~= Seq::<u8>::empty());
        assert(chars@.take(end as int) + until_nul(rest) =~= chars@.subrange(0, end as int));
    }
    from_utf8_lossy(vstd::slice::slice_subrange(chars, 0, end))
}

/// The last character boundary of `bytes` at or before `end`.
pub open spec fn cut(bytes: Seq<u8>, end: int) -> int
    decreases end,
{
    if end <= 0 || is_char_boundary(bytes, end) {
        end
    } else {
        cut(bytes, end - 1)
    }
}

/// Where a text is cut to fit in a buffer with its terminator.
pub open spec fn text_end(size: int, text: Seq<char>) -> int {
    let bytes = encode_utf8(text);
    cut(
        bytes,
        if bytes.len() <= size - 1 {
            bytes.len() as int
        } else {
            size - 1
        },
    )
}

/// A buffer with a text written into it: the text cut on a character boundary,
/// a terminator, and what the buffer held beyond it.
pub open spec fn filled(buffer: Seq<u8>, text: Seq<char>) -> Seq<u8> {
    let end = text_end(buffer.len() as int, text);
    Seq::new(
        buffer.len(),
        |i: int|
            if i < end {
                encode_utf8(text)[i]
            } else if i == end {
                0
            } else {
                buffer[i]
            },
    )
}

/// A text is cut at a character boundary within the buffer.
proof fn lemma_cut(bytes: Seq<u8>, end: int)
    requires
        valid_utf8(bytes),
        0 <= end <= bytes.len(),
    ensures
        0 <= cut(bytes, end) <= end,
        is_char_boundary(bytes, cut(bytes, end)),
    decreases end,
{
    if end > 0 && !is_char_boundary(bytes, end) {
        lemma_cut(bytes, end - 1);
    }
}

/// Copy `text` into `buffer` with a terminator, truncating on a character
/// boundary.
fn fill<const N: usize>(buffer: &mut [u8; N], text: &str)
    requires
        N >= 1,
    ensures
        final(buffer)@ == filled(old(buffer)@, text@),
{
    let bytes = text.as_bytes();
    let room: usize = N - 1;
    let mut end: usize = if bytes.len() <= room {
        bytes.len()
    } else {
        room
    };
    let ghost encoded = encode_utf8(text@);
    proof {
        encode_utf8_valid_utf8(text@);
        lemma_cut(encoded, end as int);
    }
    while !text.is_char_boundary(end)
        invariant
            encoded == encode_utf8(text@),
            valid_utf8(encoded),
            end <= encoded.len(),
            end <= room,
            cut(encoded, end as int) == text_end(N as int, text@),
        decreases end,
    {
        assert(end > 0);
        end = end - 1;
    }
    let mut i: usize = 0;
    while i < end
        invariant
            i <= end,
            end <= room,
            room == N - 1,
            N >= 1,
            end <= encoded.len(),
            encoded == encode_utf8(text@),
            bytes@ == encoded,
            forall|k: int| 0 <= k < i ==> #[trigger] buffer@[k] == encoded[k],
            forall|k: int| i <= k < N ==> #[trigger] buffer@[k] == old(buffer)@[k],
        decreases end - i,
    {
        buffer[i] = bytes[i];
        i = i + 1;
    }
    buffer[end] = 0;
    assert(buffer@ =~= filled(old(buffer)@, text@));
}

impl Status {
    /// The size of the structure in the C interface.
    pub const SIZE: usize = 144;

    /// The size through `message`.
    pub const MIN_SIZE: usize = 138;

    /// The offset of `message`.
    pub const MESSAGE_OFFSET: usize = 18;

    /// A status ready for an entry point.
    pub open spec fn is_fresh(self) -> bool {
        &&& self.struct_size == Status::SIZE
        &&& self.code == Code::Success
        &&& self.sqlstate@ == Seq::new(6, |i: int| 0u8)
        &&& self.message@ == Seq::new(MESSAGE_SIZE as nat, |i: int| 0u8)
    }

    /// A status ready for an entry point.
    pub fn new() -> (status: Self)
        ensures
            status.is_fresh(),
    {
        let status = Status {
            struct_size: Status::SIZE,
            code: Code::Success,
            sqlstate: [0u8;6],
            message: [0u8;MESSAGE_SIZE],
        };
        assert(status.sqlstate@ =~= Seq::new(6, |i: int| 0u8));
        assert(status.message@ =~= Seq::new(MESSAGE_SIZE as nat, |i: int| 0u8));
        status
    }

    /// The message as text, up to its terminator.
    pub fn message(&self) -> (message: String)
        ensures
            message@ == lossy_text(until_nul(self.message@)),
            valid_utf8(until_nul(self.message@)) ==> message@ == decode_utf8(
                until_nul(self.message@),
            ),
    {
        text(self.message.as_slice())
    }

    /// The SQLSTATE as text.
    pub fn sqlstate(&self) -> (state: String)
        ensures
            state@ == lossy_text(until_nul(self.sqlstate@)),
            valid_utf8(until_nul(self.sqlstate@)) ==> state@ == decode_utf8(
                until_nul(self.sqlstate@),
            ),
    {
        text(self.sqlstate.as_slice())
    }
}

impl Default for Status {
    fn default() -> (status: Self)
        ensures
            status.is_fresh(),
    {
        Status::new()
    }
}

/// How the body of an entry point ended.
#[derive(Debug)]
pub enum Outcome {
    /// It succeeded.
    Done,
    /// It returned an error.
    Failed(Error),
    /// It panicked, with a payload that is text or is not.
    Panicked(Option<String>),
}

impl Outcome {
    /// The code that reports the outcome.
    pub open spec fn code(self) -> Code {
        match self {
            Outcome::Done => Code::Success,
            Outcome::Failed(Error::Arithmetic(ArithmeticError::IntegerOutOfRange)) => {
                Code::IntegerOutOfRange
            },
            Outcome::Failed(Error::Arithmetic(ArithmeticError::DivisionByZero)) => {
                Code::DivisionByZero
            },
            Outcome::Failed(_) => Code::InvalidArgument,
            Outcome::Panicked(_) => Code::Panic,
        }
    }

    /// The SQLSTATE that reports the outcome.
    pub open spec fn state(self) -> Seq<char> {
        match self {
            Outcome::Done => ""@,
            Outcome::Failed(Error::Arithmetic(arithmetic)) => arithmetic.state(),
            _ => "XX000"@,
        }
    }

    /// The message that reports the outcome.
    pub open spec fn text(self) -> Seq<char> {
        match self {
            Outcome::Done => ""@,
            Outcome::Failed(Error::Arithmetic(arithmetic)) => arithmetic.text(),
            Outcome::Failed(error) => error.full_text(),
            Outcome::Panicked(Some(text)) => text@,
            Outcome::Panicked(None) => "panic with a non-text payload"@,
        }
    }

    /// The code, the SQLSTATE and the message that report the outcome.
    fn report(self) -> (report: (Code, &'static str, String))
        ensures
            ({
                let (code, state, message) = report;
                &&& code == self.code()
                &&& state@ == self.state()
                &&& message@ == self.text()
            }),
    {
        match self {
            Outcome::Done => (Code::Success, "", "".to_owned()),
            Outcome::Failed(error) => match error.arithmetic() {
                Some(arithmetic) => {
                    let code = match arithmetic {
                        ArithmeticError::IntegerOutOfRange => Code::IntegerOutOfRange,
                        ArithmeticError::DivisionByZero => Code::DivisionByZero,
                    };
                    (code, arithmetic.sqlstate(), arithmetic.message().to_owned())
                },
                None => (Code::InvalidArgument, "XX000", error.full_message()),
            },
            Outcome::Panicked(payload) => {
                let message = match payload {
                    Some(text) => text,
                    None => "panic with a non-text payload".to_owned(),
                };
                (Code::Panic, "XX000", message)
            },
        }
    }
}

/// An outcome is recorded in a status that is large enough to hold it; a
/// smaller one is left alone.
pub open spec fn recorded(before: Status, after: Status, outcome: Outcome) -> bool {
    if before.struct_size >= Status::MIN_SIZE {
        &&& after.struct_size == before.struct_size
        &&& after.code == outcome.code()
        &&& after.sqlstate@ == filled(before.sqlstate@, outcome.state())
        &&& after.message@ == filled(before.message@, outcome.text())
    } else {
        after == before
    }
}

/// Finish an entry point: an error its body returned or a panic it raised
/// becomes the code and the status. The body writes its outputs itself, at its
/// end, so that nothing is written on failure.
pub fn guard(status: Option<&mut Status>, outcome: Outcome) -> (code: Code)
    ensures
        code == outcome.code(),
        status matches Some(status) ==> recorded(*status, *final(status), outcome),
{
    let (code, sqlstate, message) = outcome.report();
    if let Some(status) = status {
        if status.struct_size >= Status::MIN_SIZE {
            status.code = code;
            fill(&mut status.sqlstate, sqlstate);
            fill(&mut status.message, message.as_str());
        }
    }
    code
}

/// The bytes before the first zero.
proof fn lemma_until_nul(chars: Seq<u8>, end: int)
    requires
        0 <= end < chars.len(),
        chars[end] == 0,
        forall|i: int| 0 <= i < end ==> #[trigger] chars[i] != 0,
    ensures
        until_nul(chars) == chars.take(end),
    decreases end,
{
    if end == 0 {
        assert(until_nul(chars) =~= chars.take(end));
    } else {
        let rest = chars.drop_first();
        assert forall|i: int| 0 <= i < end - 1 implies #[trigger] rest[i] != 0 by {
            assert(rest[i] == chars[i + 1]);
        }
        lemma_until_nul(rest, end - 1);
        assert(chars[0] != 0);
        assert(seq![chars[0]] + rest.take(end - 1) =~= chars.take(end));
    }
}

/// What is written into a buffer reads back as its text up to the cut, and
/// whole when it fits.
pub proof fn lemma_filled_reads_back(buffer: Seq<u8>, text: Seq<char>)
    requires
        buffer.len() >= 1,
        forall|i: int|
            0 <= i < text_end(buffer.len() as int, text) ==> #[trigger] encode_utf8(text)[i] != 0,
    ensures
        ({
            let bytes = encode_utf8(text);
            let end = text_end(buffer.len() as int, text);
            &&& 0 <= end < buffer.len()
            &&& end <= bytes.len()
            &&& is_char_boundary(bytes, end)
            &&& until_nul(filled(buffer, text)) == bytes.take(end)
            &&& valid_utf8(until_nul(filled(buffer, text)))
            &&& bytes.len() < buffer.len() ==> decode_utf8(until_nul(filled(buffer, text))) == text
        }),
{
    let bytes = encode_utf8(text);
    let room = buffer.len() - 1;
    let end = text_end(buffer.len() as int, text);
    encode_utf8_valid_utf8(text);
    lemma_cut(
        bytes,
        if bytes.len() <= room {
            bytes.len() as int
        } else {
            room
        },
    );
    let written = filled(buffer, text);
    assert forall|i: int| 0 <= i < end implies #[trigger] written[i] != 0 by {
        assert(written[i] == bytes[i]);
    }
    lemma_until_nul(written, end);
    assert(written.take(end) =~= bytes.take(end));
    assert(bytes.take(end) =~= bytes.subrange(0, end));
    valid_utf8_split(bytes, end);
    if bytes.len() < buffer.len() {
        lemma_whole_text(bytes, bytes.len() as int);
        assert(bytes.take(end) =~= bytes);
        encode_utf8_decode_utf8(text);
    }
}

/// The end of a text is a character boundary.
proof fn lemma_whole_text(bytes: Seq<u8>, end: int)
    requires
        valid_utf8(bytes),
        end == bytes.len(),
    ensures
        is_char_boundary(bytes, end),
    decreases bytes.len(),
{
    if bytes.len() > 0 {
        let rest = vstd::utf8::pop_first_scalar(bytes);
        lemma_whole_text(rest, rest.len() as int);
    }
}

/// A recorded outcome reads back: its SQLSTATE, and its message where that fits
/// and holds no NUL.
pub proof fn lemma_status_reads_back(before: Status, after: Status, outcome: Outcome)
    requires
        before.struct_size >= Status::MIN_SIZE,
        recorded(before, after, outcome),
    ensures
        after.code == outcome.code(),
        valid_utf8(until_nul(after.sqlstate@)),
        decode_utf8(until_nul(after.sqlstate@)) == outcome.state(),
        ({
            let bytes = encode_utf8(outcome.text());
            bytes.len() < MESSAGE_SIZE && (forall|i: int|
                0 <= i < bytes.len() ==> #[trigger] bytes[i] != 0) ==> valid_utf8(
                until_nul(after.message@),
            ) && decode_utf8(until_nul(after.message@)) == outcome.text()
        }),
{
    let state = outcome.state();
    reveal_strlit("");
    reveal_strlit("XX000");
    reveal_strlit("22003");
    reveal_strlit("22012");
    assert(is_ascii_chars(state));
    assert(state.len() <= 5);
    assert(forall|i: int| 0 <= i < state.len() ==> (#[trigger] state[i]) as u8 != 0);
    is_ascii_chars_encode_utf8(state);
    encode_utf8_valid_utf8(state);
    lemma_cut(encode_utf8(state), state.len() as int);
    lemma_filled_reads_back(before.sqlstate@, state);
    let bytes = encode_utf8(outcome.text());
    if bytes.len() < MESSAGE_SIZE && (forall|i: int|
        0 <= i < bytes.len() ==> #[trigger] bytes[i] != 0) {
        encode_utf8_valid_utf8(outcome.text());
        lemma_cut(bytes, bytes.len() as int);
        lemma_filled_reads_back(before.message@, outcome.text());
    }
}

/// An outcome is reported by its kind: success without a text, an arithmetic
/// failure by its own SQLSTATE, and every other failure and panic by that of an
/// internal error.
pub proof fn lemma_reports(outcome: Outcome)
    ensures
        outcome is Done <==> outcome.code() == Code::Success,
        outcome is Panicked <==> outcome.code() == Code::Panic,
        outcome == Outcome::Failed(Error::Arithmetic(ArithmeticError::IntegerOutOfRange)) <==> (
        outcome.code() == Code::IntegerOutOfRange),
        outcome == Outcome::Failed(Error::Arithmetic(ArithmeticError::DivisionByZero)) <==> (
        outcome.code() == Code::DivisionByZero),
        outcome.code() == Code::Success ==> outcome.state() == ""@ && outcome.text() == ""@,
        outcome.code() == Code::IntegerOutOfRange ==> outcome.state() == "22003"@ && outcome.text()
            == "integer out of range"@,
        outcome.code() == Code::DivisionByZero ==> outcome.state() == "22012"@ && outcome.text()
            == "division by zero"@,
        outcome.code() == Code::InvalidArgument || outcome.code() == Code::Panic ==> outcome.state()
            == "XX000"@,
        outcome matches Outcome::Failed(error) ==> outcome.code() == Code::InvalidArgument
            ==> outcome.text() == error.full_text(),
        outcome matches Outcome::Panicked(Some(text)) ==> outcome.text() == text@,
{
}

/// A status that is too small for its fields is left alone; a larger one keeps
/// its size and takes the code.
pub proof fn lemma_small_status(before: Status, after: Status, outcome: Outcome)
    requires
        recorded(before, after, outcome),
    ensures
        before.struct_size < 138 ==> after == before,
        before.struct_size >= 138 ==> {
            &&& after.struct_size == before.struct_size
            &&& after.code == outcome.code()
            &&& after.sqlstate@ == filled(before.sqlstate@, outcome.state())
            &&& after.message@ == filled(before.message@, outcome.text())
        },
{
}

/// The last character boundary is at most one character away: none lies between
/// it and the end.
proof fn lemma_cut_last(bytes: Seq<u8>, end: int, k: int)
    requires
        cut(bytes, end) < k <= end,
    ensures
        !is_char_boundary(bytes, k),
    decreases end,
{
    if end > 0 && !is_char_boundary(bytes, end) && k < end {
        lemma_cut_last(bytes, end - 1, k);
    }
}

/// A text is cut as late as its characters and the buffer allow, a terminator
/// follows it, and nothing is written beyond that.
pub proof fn lemma_longest_text(buffer: Seq<u8>, text: Seq<char>)
    requires
        buffer.len() >= 1,
    ensures
        ({
            let bytes = encode_utf8(text);
            let end = text_end(buffer.len() as int, text);
            let written = filled(buffer, text);
            &&& 0 <= end < buffer.len()
            &&& end <= bytes.len()
            &&& is_char_boundary(bytes, end)
            &&& bytes.len() < buffer.len() ==> end == bytes.len()
            &&& forall|k: int|
                end < k <= bytes.len() && k < buffer.len() ==> !(#[trigger] is_char_boundary(
                    bytes,
                    k,
                ))
            &&& written.len() == buffer.len()
            &&& forall|i: int| 0 <= i < end ==> #[trigger] written[i] == bytes[i]
            &&& written[end] == 0
            &&& forall|i: int| end < i < buffer.len() ==> #[trigger] written[i] == buffer[i]
        }),
{
    let bytes = encode_utf8(text);
    let limit = if bytes.len() <= buffer.len() - 1 {
        bytes.len() as int
    } else {
        buffer.len() - 1
    };
    encode_utf8_valid_utf8(text);
    lemma_cut(bytes, limit);
    lemma_whole_text(bytes, bytes.len() as int);
    let end = text_end(buffer.len() as int, text);
    assert forall|k: int| end < k <= bytes.len() && k < buffer.len() implies !(
    #[trigger] is_char_boundary(bytes, k)) by {
        lemma_cut_last(bytes, limit, k);
    }
}

/// The bytes before the terminator are those before the first zero, or all.
pub proof fn lemma_terminated(chars: Seq<u8>)
    ensures
        ({
            let text = until_nul(chars);
            &&& text.len() <= chars.len()
            &&& text == chars.take(text.len() as int)
            &&& forall|i: int| 0 <= i < text.len() ==> #[trigger] text[i] != 0
            &&& text.len() < chars.len() ==> chars[text.len() as int] == 0
        }),
    decreases chars.len(),
{
    let text = until_nul(chars);
    if chars.len() > 0 && chars[0] != 0 {
        let rest = chars.drop_first();
        lemma_terminated(rest);
        assert forall|i: int| 0 <= i < text.len() implies #[trigger] text[i] != 0 && text[i]
            == chars[i] by {
            if i > 0 {
                assert(text[i] == until_nul(rest)[i - 1]);
                assert(until_nul(rest)[i - 1] == rest.take(until_nul(rest).len() as int)[i - 1]);
            }
        }
    }
    assert(text =~= chars.take(text.len() as int));
}

/// A fresh status is large enough for every outcome, and reads as success without
/// a text.
pub proof fn lemma_fresh(status: Status)
    requires
        status.is_fresh(),
    ensures
        status.struct_size == 144,
        status.code == Code::Success,
        until_nul(status.sqlstate@) == Seq::<u8>::empty(),
        until_nul(status.message@) == Seq::<u8>::empty(),
        forall|i: int| 0 <= i < 6 ==> #[trigger] status.sqlstate@[i] == 0,
        forall|i: int| 0 <= i < 120 ==> #[trigger] status.message@[i] == 0,
{
    assert(status.sqlstate@[0] == 0);
    assert(status.message@[0] == 0);
}

} // verus!
