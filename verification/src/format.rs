//! Reading the text formats: where a number stands in the input, and what an
//! identifier or a count is worth.
//!
//! The input is a sequence of bytes. A number is located, not evaluated: the
//! reader hands out the place of its text, and whoever needs its value reads it
//! in the arithmetic of their choice.

use vstd::prelude::*;

verus! {

/// A stretch of the input: the bytes from `start` up to, not including, `end`.
#[derive(Clone, Copy, Debug, PartialEq, Eq, Structural)]
pub struct Span {
    pub start: usize,
    pub end: usize,
}

/// What the reader missed.
#[derive(Clone, Copy, Debug, PartialEq, Eq, Structural)]
pub enum Problem {
    /// A digit was expected.
    ExpectedDigit,
    /// A single space was expected.
    ExpectedSpace,
    /// A line break was expected.
    ExpectedNewline,
    /// The input was expected to end.
    ExpectedEnd,
    /// A number was expected, and the line ended or held less than it should.
    ExpectedNumber,
    /// The line was expected to end.
    ExpectedLineEnd,
    /// An identifier or a count does not fit the machine word.
    NumberTooLarge,
}

/// Why an input was refused, and at which byte.
#[derive(Clone, Copy, Debug, PartialEq, Eq, Structural)]
pub struct ParseError {
    pub at: usize,
    pub problem: Problem,
}

/// The refusal of an input at byte `at`.
pub open spec fn refuse<T>(at: int, problem: Problem) -> Result<T, ParseError> {
    Err(ParseError { at: at as usize, problem })
}

pub open spec fn is_digit(byte: u8) -> bool {
    0x30 <= byte <= 0x39
}

/// The place after the digits that start at `at`; `at` itself where none does.
pub open spec fn digits_end(s: Seq<u8>, at: int) -> int
    decreases s.len() - at,
{
    if 0 <= at < s.len() && is_digit(s[at]) {
        digits_end(s, at + 1)
    } else {
        at
    }
}

/// The number that the digits from `from` up to `to` write in decimal.
pub open spec fn digits_value(s: Seq<u8>, from: int, to: int) -> nat
    decreases to - from,
{
    if to <= from {
        0
    } else {
        digits_value(s, from, to - 1) * 10 + (s[to - 1] - 0x30) as nat
    }
}

/// An identifier or a count: one digit or more, leading zeros allowed.
pub open spec fn unsigned_at(s: Seq<u8>, at: int) -> Result<(usize, int), ParseError> {
    let end = digits_end(s, at);
    if end == at {
        refuse(at, Problem::ExpectedDigit)
    } else if digits_value(s, at, end) > usize::MAX {
        refuse(at, Problem::NumberTooLarge)
    } else {
        Ok((digits_value(s, at, end) as usize, end))
    }
}

/// A number: an optional minus sign; a whole part, which is `0` or starts with
/// another digit; and, optionally, a point with at least one digit after it. A
/// point without a digit after it is not part of the number.
pub open spec fn number_at(s: Seq<u8>, at: int) -> Result<(Span, int), ParseError> {
    let first = if at < s.len() && s[at] == 0x2d {
        at + 1
    } else {
        at
    };
    if !(first < s.len() && is_digit(s[first])) {
        refuse(first, Problem::ExpectedDigit)
    } else {
        let whole = if s[first] == 0x30 {
            first + 1
        } else {
            digits_end(s, first)
        };
        let end = if whole < s.len() && s[whole] == 0x2e && digits_end(s, whole + 1) > whole + 1 {
            digits_end(s, whole + 1)
        } else {
            whole
        };
        Ok((Span { start: at as usize, end: end as usize }, end))
    }
}

/// A single space.
pub open spec fn space_at(s: Seq<u8>, at: int) -> Result<int, ParseError> {
    if at < s.len() && s[at] == 0x20 {
        Ok(at + 1)
    } else {
        refuse(at, Problem::ExpectedSpace)
    }
}

/// A line break: carriage return and line feed together or either alone, a
/// vertical tab, a form feed, or one of the characters next line, line
/// separator and paragraph separator in their encoding of two or three bytes.
pub open spec fn newline_at(s: Seq<u8>, at: int) -> Result<int, ParseError> {
    if at < s.len() && s[at] == 0x0d {
        if at + 1 < s.len() && s[at + 1] == 0x0a {
            Ok(at + 2)
        } else {
            Ok(at + 1)
        }
    } else if at < s.len() && (s[at] == 0x0a || s[at] == 0x0b || s[at] == 0x0c) {
        Ok(at + 1)
    } else if at + 1 < s.len() && s[at] == 0xc2 && s[at + 1] == 0x85 {
        Ok(at + 2)
    } else if at + 2 < s.len() && s[at] == 0xe2 && s[at + 1] == 0x80 && (s[at + 2] == 0xa8 || s[at
        + 2] == 0xa9) {
        Ok(at + 3)
    } else {
        refuse(at, Problem::ExpectedNewline)
    }
}

/// The end of the input.
pub open spec fn end_at(s: Seq<u8>, at: int) -> Result<(), ParseError> {
    if at == s.len() {
        Ok(())
    } else {
        refuse(at, Problem::ExpectedEnd)
    }
}

/// A space and a number after it.
pub open spec fn spaced_number_at(s: Seq<u8>, at: int) -> Result<(Span, int), ParseError> {
    match space_at(s, at) {
        Err(e) => Err(e),
        Ok(next) => number_at(s, next),
    }
}

/// A number and a line break after it.
pub open spec fn number_line_at(s: Seq<u8>, at: int) -> Result<(Span, int), ParseError> {
    match number_at(s, at) {
        Err(e) => Err(e),
        Ok((span, next)) => match newline_at(s, next) {
            Err(e) => Err(e),
            Ok(after) => Ok((span, after)),
        },
    }
}

/// An identifier or a count and a line break after it.
pub open spec fn unsigned_line_at(s: Seq<u8>, at: int) -> Result<(usize, int), ParseError> {
    match unsigned_at(s, at) {
        Err(e) => Err(e),
        Ok((value, next)) => match newline_at(s, next) {
            Err(e) => Err(e),
            Ok(after) => Ok((value, after)),
        },
    }
}

/// A number, once located, starts where it was looked for, takes at least one
/// byte, and holds nothing but digits, a minus sign and a point: it can be
/// read as text on its own.
pub proof fn lemma_number_is_plain(s: Seq<u8>, at: int)
    requires
        0 <= at <= s.len() <= usize::MAX,
        number_at(s, at) is Ok,
    ensures
        ({
            let (span, next) = number_at(s, at).unwrap();
            &&& span.start == at
            &&& span.end == next
            &&& at < next <= s.len()
            &&& forall|i: int|
                at <= i < next ==> is_digit(#[trigger] s[i]) || s[i] == 0x2d || s[i] == 0x2e
        }),
{
    let first = if at < s.len() && s[at] == 0x2d {
        at + 1
    } else {
        at
    };
    lemma_digits_end(s, first);
    let whole = if s[first] == 0x30 {
        first + 1
    } else {
        digits_end(s, first)
    };
    if whole < s.len() {
        lemma_digits_end(s, whole + 1);
    }
}

/// The digits that start at `at` end within the input, and stop at the first
/// byte that is no digit.
pub proof fn lemma_digits_end(s: Seq<u8>, at: int)
    requires
        0 <= at <= s.len(),
    ensures
        at <= digits_end(s, at) <= s.len(),
        forall|i: int| at <= i < digits_end(s, at) ==> is_digit(#[trigger] s[i]),
        digits_end(s, at) < s.len() ==> !is_digit(s[digits_end(s, at)]),
    decreases s.len() - at,
{
    if at < s.len() && is_digit(s[at]) {
        lemma_digits_end(s, at + 1);
    }
}

proof fn lemma_digits_end_from_inside(s: Seq<u8>, at: int, i: int)
    requires
        0 <= at <= i <= s.len(),
        forall|k: int| at <= k < i ==> is_digit(#[trigger] s[k]),
    ensures
        digits_end(s, at) == digits_end(s, i),
    decreases i - at,
{
    if at < i {
        lemma_digits_end_from_inside(s, at + 1, i);
    }
}

/// Digits written after a number do not make it smaller.
pub proof fn lemma_digits_value_grows(s: Seq<u8>, from: int, mid: int, to: int)
    requires
        0 <= from <= mid <= to <= s.len(),
        forall|k: int| from <= k < to ==> is_digit(#[trigger] s[k]),
    ensures
        digits_value(s, from, mid) <= digits_value(s, from, to),
    decreases to - mid,
{
    if mid < to {
        lemma_digits_value_grows(s, from, mid, to - 1);
    }
}

fn digit_at(input: &[u8], at: usize) -> (found: bool)
    requires
        at <= input@.len(),
    ensures
        found == (at < input@.len() && is_digit(input@[at as int])),
{
    at < input.len() && 0x30 <= input[at] && input[at] <= 0x39
}

fn byte_is(input: &[u8], at: usize, byte: u8) -> (found: bool)
    ensures
        found == (at < input@.len() && input@[at as int] == byte),
{
    at < input.len() && input[at] == byte
}

fn skip_digits(input: &[u8], at: usize) -> (end: usize)
    requires
        at <= input@.len(),
    ensures
        end == digits_end(input@, at as int),
        at <= end <= input@.len(),
{
    let mut end: usize = at;
    proof {
        assert(input@.len() == input.len());
    }
    while digit_at(input, end)
        invariant
            at <= end <= input@.len() <= usize::MAX,
            forall|k: int| at <= k < end ==> is_digit(#[trigger] input@[k]),
        decreases input@.len() - end,
    {
        end += 1;
    }
    proof {
        lemma_digits_end_from_inside(input@, at as int, end as int);
    }
    end
}

/// Reads an identifier or a count.
pub fn read_unsigned(input: &[u8], at: usize) -> (read: Result<(usize, usize), ParseError>)
    requires
        at <= input@.len(),
    ensures
        match read {
            Ok((value, next)) => unsigned_at(input@, at as int) == Ok::<(usize, int), ParseError>(
                (value, next as int),
            ) && at < next <= input@.len(),
            Err(e) => unsigned_at(input@, at as int) == Err::<(usize, int), ParseError>(e),
        },
{
    let end: usize = skip_digits(input, at);
    if end == at {
        return Err(ParseError { at, problem: Problem::ExpectedDigit });
    }
    proof {
        lemma_digits_end(input@, at as int);
    }
    let mut value: usize = 0;
    let mut i: usize = at;
    while i < end
        invariant
            at <= i <= end <= input@.len(),
            end == digits_end(input@, at as int),
            forall|k: int| at <= k < end ==> is_digit(#[trigger] input@[k]),
            value == digits_value(input@, at as int, i as int),
        decreases end - i,
    {
        let digit: usize = (input[i] - 0x30) as usize;
        proof {
            lemma_digits_value_grows(input@, at as int, i + 1, end as int);
        }
        if value > (usize::MAX - digit) / 10 {
            return Err(ParseError { at, problem: Problem::NumberTooLarge });
        }
        value = value * 10 + digit;
        i += 1;
    }
    Ok((value, end))
}

/// Locates a number.
pub fn read_number(input: &[u8], at: usize) -> (read: Result<(Span, usize), ParseError>)
    requires
        at <= input@.len(),
    ensures
        match read {
            Ok((span, next)) => number_at(input@, at as int) == Ok::<(Span, int), ParseError>(
                (span, next as int),
            ) && at < next <= input@.len() && span == (Span { start: at, end: next }),
            Err(e) => number_at(input@, at as int) == Err::<(Span, int), ParseError>(e),
        },
{
    proof {
        assert(input@.len() == input.len());
    }
    let first: usize = if byte_is(input, at, 0x2d) {
        at + 1
    } else {
        at
    };
    if !digit_at(input, first) {
        return Err(ParseError { at: first, problem: Problem::ExpectedDigit });
    }
    let whole: usize = if input[first] == 0x30 {
        first + 1
    } else {
        skip_digits(input, first)
    };
    let mut end: usize = whole;
    if byte_is(input, whole, 0x2e) {
        let after: usize = skip_digits(input, whole + 1);
        if after > whole + 1 {
            end = after;
        }
    }
    proof {
        lemma_digits_end(input@, first as int);
    }
    Ok((Span { start: at, end }, end))
}

/// Reads a single space.
pub fn read_space(input: &[u8], at: usize) -> (read: Result<usize, ParseError>)
    requires
        at <= input@.len(),
    ensures
        match read {
            Ok(next) => space_at(input@, at as int) == Ok::<int, ParseError>(next as int) && next
                == at + 1 && next <= input@.len(),
            Err(e) => space_at(input@, at as int) == Err::<int, ParseError>(e),
        },
{
    proof {
        assert(input@.len() == input.len());
    }
    if byte_is(input, at, 0x20) {
        Ok(at + 1)
    } else {
        Err(ParseError { at, problem: Problem::ExpectedSpace })
    }
}

/// Reads a line break.
pub fn read_newline(input: &[u8], at: usize) -> (read: Result<usize, ParseError>)
    requires
        at <= input@.len(),
    ensures
        match read {
            Ok(next) => newline_at(input@, at as int) == Ok::<int, ParseError>(next as int) && at
                < next <= input@.len(),
            Err(e) => newline_at(input@, at as int) == Err::<int, ParseError>(e),
        },
{
    let left: usize = input.len() - at;
    if left >= 1 && input[at] == 0x0d {
        if left >= 2 && input[at + 1] == 0x0a {
            Ok(at + 2)
        } else {
            Ok(at + 1)
        }
    } else if left >= 1 && (input[at] == 0x0a || input[at] == 0x0b || input[at] == 0x0c) {
        Ok(at + 1)
    } else if left >= 2 && input[at] == 0xc2 && input[at + 1] == 0x85 {
        Ok(at + 2)
    } else if left >= 3 && input[at] == 0xe2 && input[at + 1] == 0x80 && (input[at + 2] == 0xa8
        || input[at + 2] == 0xa9) {
        Ok(at + 3)
    } else {
        Err(ParseError { at, problem: Problem::ExpectedNewline })
    }
}

/// Checks that the input ends.
pub fn read_end(input: &[u8], at: usize) -> (read: Result<(), ParseError>)
    requires
        at <= input@.len(),
    ensures
        read == end_at(input@, at as int),
{
    if at == input.len() {
        Ok(())
    } else {
        Err(ParseError { at, problem: Problem::ExpectedEnd })
    }
}

/// Reads a space and locates the number after it.
pub fn read_spaced_number(input: &[u8], at: usize) -> (read: Result<(Span, usize), ParseError>)
    requires
        at <= input@.len(),
    ensures
        match read {
            Ok((span, next)) => spaced_number_at(input@, at as int) == Ok::<
                (Span, int),
                ParseError,
            >((span, next as int)) && at < next <= input@.len(),
            Err(e) => spaced_number_at(input@, at as int) == Err::<(Span, int), ParseError>(e),
        },
{
    match read_space(input, at) {
        Err(e) => Err(e),
        Ok(next) => read_number(input, next),
    }
}

/// Locates a number and reads the line break after it.
pub fn read_number_line(input: &[u8], at: usize) -> (read: Result<(Span, usize), ParseError>)
    requires
        at <= input@.len(),
    ensures
        match read {
            Ok((span, next)) => number_line_at(input@, at as int) == Ok::<(Span, int), ParseError>(
                (span, next as int),
            ) && at < next <= input@.len(),
            Err(e) => number_line_at(input@, at as int) == Err::<(Span, int), ParseError>(e),
        },
{
    match read_number(input, at) {
        Err(e) => Err(e),
        Ok((span, next)) => match read_newline(input, next) {
            Err(e) => Err(e),
            Ok(after) => Ok((span, after)),
        },
    }
}

/// Reads an identifier or a count and the line break after it.
pub fn read_unsigned_line(input: &[u8], at: usize) -> (read: Result<(usize, usize), ParseError>)
    requires
        at <= input@.len(),
    ensures
        match read {
            Ok((value, next)) => unsigned_line_at(input@, at as int) == Ok::<
                (usize, int),
                ParseError,
            >((value, next as int)) && at < next <= input@.len(),
            Err(e) => unsigned_line_at(input@, at as int) == Err::<(usize, int), ParseError>(e),
        },
{
    match read_unsigned(input, at) {
        Err(e) => Err(e),
        Ok((value, next)) => match read_newline(input, next) {
            Err(e) => Err(e),
            Ok(after) => Ok((value, after)),
        },
    }
}

/// One line of a table of particles: what it holds, and how it is read.
pub trait Row: Sized {
    /// The row that starts at `at`, and the place after it.
    spec fn row_at(s: Seq<u8>, at: int) -> Result<(Self, int), ParseError>;

    /// Reads the row that starts at `at`.
    fn read_row(input: &[u8], at: usize) -> (read: Result<(Self, usize), ParseError>)
        requires
            at <= input@.len(),
        ensures
            match read {
                Ok((row, next)) => Self::row_at(input@, at as int) == Ok::<(Self, int), ParseError>(
                    (row, next as int),
                ) && at < next <= input@.len(),
                Err(e) => Self::row_at(input@, at as int) == Err::<(Self, int), ParseError>(e),
            },
    ;
}

/// The rows that follow a row ending at `at`, added to `done`: each after a
/// line break. A line break that no row follows ends the rows and belongs to
/// them; two in a row do not.
pub open spec fn rows_after<R: Row>(s: Seq<u8>, at: int, done: Seq<R>) -> (Seq<R>, int)
    decreases s.len() - at,
{
    match newline_at(s, at) {
        Err(_) => (done, at),
        Ok(next) => match R::row_at(s, next) {
            Err(_) => (done, next),
            Ok((row, after)) => if at < after <= s.len() {
                rows_after(s, after, done.push(row))
            } else {
                (done, next)
            },
        },
    }
}

/// One row or more, each on a line of its own, with or without a line break
/// after the last.
pub open spec fn rows_at<R: Row>(s: Seq<u8>, at: int) -> Result<(Seq<R>, int), ParseError> {
    match R::row_at(s, at) {
        Err(e) => Err(e),
        Ok((row, after)) => Ok(rows_after(s, after, Seq::<R>::empty().push(row))),
    }
}

/// Reads one row or more, each on a line of its own.
pub fn read_rows<R: Row>(input: &[u8], at: usize) -> (read: Result<(Vec<R>, usize), ParseError>)
    requires
        at <= input@.len(),
    ensures
        match read {
            Ok((rows, next)) => rows_at::<R>(input@, at as int) == Ok::<(Seq<R>, int), ParseError>(
                (rows@, next as int),
            ) && at < next <= input@.len() && rows@.len() > 0,
            Err(e) => rows_at::<R>(input@, at as int) == Err::<(Seq<R>, int), ParseError>(e),
        },
{
    let mut rows: Vec<R> = Vec::new();
    let mut end: usize = match R::read_row(input, at) {
        Err(e) => {
            return Err(e);
        },
        Ok((row, after)) => {
            rows.push(row);
            after
        },
    };
    loop
        invariant
            at < end <= input@.len(),
            rows@.len() > 0,
            rows_at::<R>(input@, at as int) == Ok::<(Seq<R>, int), ParseError>(
                rows_after(input@, end as int, rows@),
            ),
        decreases input@.len() - end,
    {
        let next: usize = match read_newline(input, end) {
            Err(_) => {
                return Ok((rows, end));
            },
            Ok(next) => next,
        };
        match R::read_row(input, next) {
            Err(_) => {
                return Ok((rows, next));
            },
            Ok((row, after)) => {
                rows.push(row);
                end = after;
            },
        }
    }
}

} // verus!
