//! The output file of a billiard run: frame after frame, each announcing its
//! number of balls, then giving the time, then one line for each ball.

use vstd::prelude::*;
use crate::format::{
    digits_value, is_digit, lemma_digits_value_grows, refuse, ParseError, Problem, Span,
};
use crate::parser::MovingRow;

verus! {

/// One frame, as read: where its time stands, and its balls.
#[derive(Debug)]
pub struct FrameText {
    pub time: Span,
    pub balls: Vec<MovingRow>,
}

/// What a `FrameText` holds.
pub struct FrameLayout {
    pub time: Span,
    pub balls: Seq<MovingRow>,
}

impl View for FrameText {
    type V = FrameLayout;

    open spec fn view(&self) -> FrameLayout {
        FrameLayout { time: self.time, balls: self.balls@ }
    }
}

/// The place of the line feed that ends the line at `at`, or the end of the
/// input where no line feed follows.
pub open spec fn line_end(s: Seq<u8>, at: int) -> int
    decreases s.len() - at,
{
    if 0 <= at < s.len() && s[at] != 0x0a {
        line_end(s, at + 1)
    } else {
        at
    }
}

/// Where the text of the line at `at` ends: before its line feed, and before
/// the carriage return in front of that line feed, if there is one.
pub open spec fn content_end(s: Seq<u8>, at: int) -> int {
    let end = line_end(s, at);
    if end < s.len() && at < end && s[end - 1] == 0x0d {
        end - 1
    } else {
        end
    }
}

/// Where the line after the line at `at` starts.
pub open spec fn next_line(s: Seq<u8>, at: int) -> int {
    let end = line_end(s, at);
    if end < s.len() {
        end + 1
    } else {
        end
    }
}

/// The place after `count` lines from `at`, if the input has as many.
pub open spec fn lines_after(s: Seq<u8>, at: int, count: nat) -> Option<int>
    decreases count,
{
    if count == 0 {
        Some(at)
    } else if at >= s.len() {
        None
    } else {
        lines_after(s, next_line(s, at), (count - 1) as nat)
    }
}

/// The length of the white space that starts at `at` and ends by `to`: one
/// byte for tab, line feed, vertical tab, form feed, carriage return and
/// space, two or three for the other characters that separate words; 0 where
/// none starts.
pub open spec fn space_len(s: Seq<u8>, at: int, to: int) -> int {
    if at < to && (0x09 <= s[at] <= 0x0d || s[at] == 0x20) {
        1
    } else if at + 1 < to && s[at] == 0xc2 && (s[at + 1] == 0x85 || s[at + 1] == 0xa0) {
        2
    } else if at + 2 < to && s[at] == 0xe1 && s[at + 1] == 0x9a && s[at + 2] == 0x80 {
        3
    } else if at + 2 < to && s[at] == 0xe2 && s[at + 1] == 0x80 && (0x80 <= s[at + 2] <= 0x8a
        || s[at + 2] == 0xa8 || s[at + 2] == 0xa9 || s[at + 2] == 0xaf) {
        3
    } else if at + 2 < to && s[at] == 0xe2 && s[at + 1] == 0x81 && s[at + 2] == 0x9f {
        3
    } else if at + 2 < to && s[at] == 0xe3 && s[at + 1] == 0x80 && s[at + 2] == 0x80 {
        3
    } else {
        0
    }
}

/// The place after the white space that starts at `at`.
pub open spec fn spaces_end(s: Seq<u8>, at: int, to: int) -> int
    decreases to - at,
{
    if at < to && space_len(s, at, to) > 0 {
        spaces_end(s, at + space_len(s, at, to), to)
    } else {
        at
    }
}

/// The place after the word that starts at `at`: the next white space, or `to`.
pub open spec fn word_end(s: Seq<u8>, at: int, to: int) -> int
    decreases to - at,
{
    if at < to && space_len(s, at, to) == 0 {
        word_end(s, at + 1, to)
    } else {
        at
    }
}

/// The next word of a line that ends at `to`, after any white space, and the
/// place after it.
pub open spec fn word_at(s: Seq<u8>, at: int, to: int) -> Result<(Span, int), ParseError> {
    let start = spaces_end(s, at, to);
    let end = word_end(s, start, to);
    if start == end {
        refuse(start, Problem::ExpectedNumber)
    } else {
        Ok((Span { start: start as usize, end: end as usize }, end))
    }
}

/// An identifier or a count that fills the bytes from `from` up to `to`: an
/// optional plus sign, then nothing but digits, at least one.
pub open spec fn count_of(s: Seq<u8>, from: int, to: int) -> Result<usize, ParseError> {
    let first = if from < to && s[from] == 0x2b {
        from + 1
    } else {
        from
    };
    if !(first < to && forall|i: int| first <= i < to ==> is_digit(#[trigger] s[i])) {
        refuse(from, Problem::ExpectedDigit)
    } else if digits_value(s, first, to) > usize::MAX {
        refuse(from, Problem::NumberTooLarge)
    } else {
        Ok(digits_value(s, first, to) as usize)
    }
}

/// The ball on the line from `from` up to `to`: five words, of which the first
/// is its identifier, with white space between them and, as may be, around
/// them.
pub open spec fn ball_line(s: Seq<u8>, from: int, to: int) -> Result<MovingRow, ParseError> {
    match word_at(s, from, to) {
        Err(e) => refuse(e.at as int, Problem::ExpectedDigit),
        Ok((name, a)) => match count_of(s, name.start as int, name.end as int) {
            Err(e) => Err(e),
            Ok(id) => match word_at(s, a, to) {
                Err(e) => Err(e),
                Ok((x, b)) => match word_at(s, b, to) {
                    Err(e) => Err(e),
                    Ok((y, c)) => match word_at(s, c, to) {
                        Err(e) => Err(e),
                        Ok((vx, d)) => match word_at(s, d, to) {
                            Err(e) => Err(e),
                            Ok((vy, f)) => if spaces_end(s, f, to) == to {
                                Ok(MovingRow { id, x, y, vx, vy })
                            } else {
                                refuse(spaces_end(s, f, to), Problem::ExpectedLineEnd)
                            },
                        },
                    },
                },
            },
        },
    }
}

/// The balls on the next `left` lines from `at`, added to `done`, and the place
/// after them.
pub open spec fn balls_from(s: Seq<u8>, at: int, left: nat, done: Seq<MovingRow>) -> Result<
    (Seq<MovingRow>, int),
    ParseError,
>
    decreases left,
{
    if left == 0 {
        Ok((done, at))
    } else {
        match ball_line(s, at, content_end(s, at)) {
            Err(e) => Err(e),
            Ok(ball) => balls_from(s, next_line(s, at), (left - 1) as nat, done.push(ball)),
        }
    }
}

/// The frame that starts at `at`, and the place after it; none at the end of
/// the input.
///
/// A frame starts with the line of its count. If the input ends before the
/// lines that the count announces, one for the time and one for each ball,
/// there is no frame. The time is whatever its line holds.
pub open spec fn frame_at(s: Seq<u8>, at: int) -> Result<Option<(FrameLayout, int)>, ParseError> {
    if at >= s.len() {
        Ok(None)
    } else {
        match count_of(s, at, content_end(s, at)) {
            Err(e) => Err(e),
            Ok(count) => {
                let time_at = next_line(s, at);
                if lines_after(s, time_at, (count + 1) as nat) is None {
                    Ok(None)
                } else {
                    let time = Span {
                        start: time_at as usize,
                        end: content_end(s, time_at) as usize,
                    };
                    match balls_from(
                        s,
                        next_line(s, time_at),
                        count as nat,
                        Seq::<MovingRow>::empty(),
                    ) {
                        Err(e) => Err(e),
                        Ok((balls, next)) => Ok(Some((FrameLayout { time, balls }, next))),
                    }
                }
            },
        }
    }
}

/// The frames from `at` on, added to `done`: frame after frame, until there is
/// none.
pub open spec fn frames_from(s: Seq<u8>, at: int, done: Seq<FrameLayout>) -> Result<
    Seq<FrameLayout>,
    ParseError,
>
    decreases s.len() - at,
{
    match frame_at(s, at) {
        Err(e) => Err(e),
        Ok(None) => Ok(done),
        Ok(Some((frame, next))) => if at < next <= s.len() {
            frames_from(s, next, done.push(frame))
        } else {
            Ok(done)
        },
    }
}

/// The frames of a whole file.
pub open spec fn frames_text(s: Seq<u8>) -> Result<Seq<FrameLayout>, ParseError> {
    frames_from(s, 0, Seq::<FrameLayout>::empty())
}

/// A line ends within the input, at a line feed or at the end, and holds no
/// line feed before that.
pub proof fn lemma_line_end(s: Seq<u8>, at: int)
    requires
        0 <= at <= s.len(),
    ensures
        at <= content_end(s, at) <= line_end(s, at) <= next_line(s, at) <= s.len(),
        at < s.len() ==> at < next_line(s, at),
        line_end(s, at) < s.len() ==> s[line_end(s, at)] == 0x0a,
        forall|i: int| at <= i < line_end(s, at) ==> (#[trigger] s[i]) != 0x0a,
    decreases s.len() - at,
{
    if at < s.len() && s[at] != 0x0a {
        lemma_line_end(s, at + 1);
    }
}

proof fn lemma_line_end_from_inside(s: Seq<u8>, at: int, i: int)
    requires
        0 <= at <= i <= s.len(),
        forall|k: int| at <= k < i ==> (#[trigger] s[k]) != 0x0a,
    ensures
        line_end(s, at) == line_end(s, i),
    decreases i - at,
{
    if at < i {
        lemma_line_end_from_inside(s, at + 1, i);
    }
}

proof fn lemma_lines_after_advances(s: Seq<u8>, at: int, count: nat)
    requires
        0 <= at <= s.len(),
        lines_after(s, at, count) is Some,
    ensures
        at <= lines_after(s, at, count).unwrap() <= s.len(),
        count > 0 ==> at < lines_after(s, at, count).unwrap(),
    decreases count,
{
    if count > 0 {
        lemma_line_end(s, at);
        lemma_lines_after_advances(s, next_line(s, at), (count - 1) as nat);
    }
}

proof fn lemma_spaces_end(s: Seq<u8>, at: int, to: int)
    requires
        0 <= at <= to <= s.len(),
    ensures
        at <= spaces_end(s, at, to) <= to,
    decreases to - at,
{
    if at < to && space_len(s, at, to) > 0 {
        lemma_spaces_end(s, at + space_len(s, at, to), to);
    }
}

proof fn lemma_word_end(s: Seq<u8>, at: int, to: int)
    requires
        0 <= at <= to <= s.len(),
    ensures
        at <= word_end(s, at, to) <= to,
    decreases to - at,
{
    if at < to && space_len(s, at, to) == 0 {
        lemma_word_end(s, at + 1, to);
    }
}

proof fn lemma_word_end_from_inside(s: Seq<u8>, at: int, i: int, to: int)
    requires
        0 <= at <= i <= to <= s.len(),
        forall|k: int| at <= k < i ==> space_len(s, k, to) == 0,
    ensures
        word_end(s, at, to) == word_end(s, i, to),
    decreases i - at,
{
    if at < i {
        lemma_word_end_from_inside(s, at + 1, i, to);
    }
}

fn find_line_end(input: &[u8], at: usize) -> (end: usize)
    requires
        at <= input@.len(),
    ensures
        end == line_end(input@, at as int),
        at <= end <= input@.len(),
{
    let mut end: usize = at;
    while end < input.len() && input[end] != 0x0a
        invariant
            at <= end <= input@.len(),
            forall|k: int| at <= k < end ==> (#[trigger] input@[k]) != 0x0a,
        decreases input@.len() - end,
    {
        end += 1;
    }
    proof {
        lemma_line_end_from_inside(input@, at as int, end as int);
    }
    end
}

/// The line at `at`: where its text ends, and where the next line starts.
fn read_line(input: &[u8], at: usize) -> (line: (usize, usize))
    requires
        at <= input@.len(),
    ensures
        line.0 == content_end(input@, at as int),
        line.1 == next_line(input@, at as int),
        at <= line.0 <= line.1 <= input@.len(),
        at < input@.len() ==> at < line.1,
{
    let end: usize = find_line_end(input, at);
    let text_end: usize = if end < input.len() && at < end && input[end - 1] == 0x0d {
        end - 1
    } else {
        end
    };
    let next: usize = if end < input.len() {
        end + 1
    } else {
        end
    };
    (text_end, next)
}

fn skip_lines(input: &[u8], at: usize, count: usize) -> (after: Option<usize>)
    requires
        at <= input@.len(),
    ensures
        match after {
            Some(next) => lines_after(input@, at as int, count as nat) == Some(next as int)
                && at <= next <= input@.len(),
            None => lines_after(input@, at as int, count as nat) is None,
        },
{
    let mut here: usize = at;
    let mut left: usize = count;
    while left > 0
        invariant
            at <= here <= input@.len(),
            lines_after(input@, at as int, count as nat) == lines_after(
                input@,
                here as int,
                left as nat,
            ),
        decreases left,
    {
        if here >= input.len() {
            return None;
        }
        let (_, next) = read_line(input, here);
        here = next;
        left -= 1;
    }
    Some(here)
}

fn space_at(input: &[u8], at: usize, to: usize) -> (len: usize)
    requires
        at <= to <= input@.len(),
    ensures
        len == space_len(input@, at as int, to as int),
        at + len <= to,
{
    let left: usize = to - at;
    if left >= 1 && (0x09 <= input[at] && input[at] <= 0x0d || input[at] == 0x20) {
        1
    } else if left >= 2 && input[at] == 0xc2 && (input[at + 1] == 0x85 || input[at + 1] == 0xa0) {
        2
    } else if left >= 3 && input[at] == 0xe1 && input[at + 1] == 0x9a && input[at + 2] == 0x80 {
        3
    } else if left >= 3 && input[at] == 0xe2 && input[at + 1] == 0x80 && (0x80 <= input[at + 2]
        && input[at + 2] <= 0x8a || input[at + 2] == 0xa8 || input[at + 2] == 0xa9 || input[at
        + 2] == 0xaf) {
        3
    } else if left >= 3 && input[at] == 0xe2 && input[at + 1] == 0x81 && input[at + 2] == 0x9f {
        3
    } else if left >= 3 && input[at] == 0xe3 && input[at + 1] == 0x80 && input[at + 2] == 0x80 {
        3
    } else {
        0
    }
}

fn read_word(input: &[u8], at: usize, to: usize) -> (read: Result<(Span, usize), ParseError>)
    requires
        at <= to <= input@.len(),
    ensures
        match read {
            Ok((span, next)) => word_at(input@, at as int, to as int) == Ok::<
                (Span, int),
                ParseError,
            >((span, next as int)) && at <= span.start < span.end == next <= to,
            Err(e) => word_at(input@, at as int, to as int) == Err::<(Span, int), ParseError>(e),
        },
{
    let mut start: usize = at;
    let mut len: usize = space_at(input, start, to);
    while len > 0
        invariant
            at <= start <= to <= input@.len(),
            len == space_len(input@, start as int, to as int),
            spaces_end(input@, at as int, to as int) == spaces_end(
                input@,
                start as int,
                to as int,
            ),
        decreases to - start,
    {
        start += len;
        len = space_at(input, start, to);
    }
    let mut end: usize = start;
    while end < to && space_at(input, end, to) == 0
        invariant
            start <= end <= to <= input@.len(),
            forall|k: int| start <= k < end ==> space_len(input@, k, to as int) == 0,
        decreases to - end,
    {
        end += 1;
    }
    proof {
        lemma_word_end_from_inside(input@, start as int, end as int, to as int);
    }
    if start == end {
        Err(ParseError { at: start, problem: Problem::ExpectedNumber })
    } else {
        Ok((Span { start, end }, end))
    }
}

fn read_count(input: &[u8], from: usize, to: usize) -> (read: Result<usize, ParseError>)
    requires
        from <= to <= input@.len(),
    ensures
        read == count_of(input@, from as int, to as int),
{
    let first: usize = if from < to && input[from] == 0x2b {
        from + 1
    } else {
        from
    };
    if first >= to {
        return Err(ParseError { at: from, problem: Problem::ExpectedDigit });
    }
    let mut i: usize = first;
    while i < to
        invariant
            first <= i <= to <= input@.len(),
            first == (if from < to && input@[from as int] == 0x2b {
                from + 1
            } else {
                from as int
            }),
            forall|k: int| first <= k < i ==> is_digit(#[trigger] input@[k]),
        decreases to - i,
    {
        if !(0x30 <= input[i] && input[i] <= 0x39) {
            return Err(ParseError { at: from, problem: Problem::ExpectedDigit });
        }
        i += 1;
    }
    let mut value: usize = 0;
    let mut i: usize = first;
    while i < to
        invariant
            first <= i <= to <= input@.len(),
            first < to,
            first == (if from < to && input@[from as int] == 0x2b {
                from + 1
            } else {
                from as int
            }),
            forall|k: int| first <= k < to ==> is_digit(#[trigger] input@[k]),
            value == digits_value(input@, first as int, i as int),
        decreases to - i,
    {
        let digit: usize = (input[i] - 0x30) as usize;
        proof {
            lemma_digits_value_grows(input@, first as int, i + 1, to as int);
        }
        if value > (usize::MAX - digit) / 10 {
            return Err(ParseError { at: from, problem: Problem::NumberTooLarge });
        }
        value = value * 10 + digit;
        i += 1;
    }
    Ok(value)
}

fn read_ball_line(input: &[u8], from: usize, to: usize) -> (read: Result<MovingRow, ParseError>)
    requires
        from <= to <= input@.len(),
    ensures
        read == ball_line(input@, from as int, to as int),
{
    let (name, a) = match read_word(input, from, to) {
        Err(e) => {
            return Err(ParseError { at: e.at, problem: Problem::ExpectedDigit });
        },
        Ok(found) => found,
    };
    let id: usize = match read_count(input, name.start, name.end) {
        Err(e) => {
            return Err(e);
        },
        Ok(id) => id,
    };
    let (x, b) = match read_word(input, a, to) {
        Err(e) => {
            return Err(e);
        },
        Ok(found) => found,
    };
    let (y, c) = match read_word(input, b, to) {
        Err(e) => {
            return Err(e);
        },
        Ok(found) => found,
    };
    let (vx, d) = match read_word(input, c, to) {
        Err(e) => {
            return Err(e);
        },
        Ok(found) => found,
    };
    let (vy, f) = match read_word(input, d, to) {
        Err(e) => {
            return Err(e);
        },
        Ok(found) => found,
    };
    match read_word(input, f, to) {
        Err(e) => {
            proof {
                lemma_spaces_end(input@, f as int, to as int);
                assert(spaces_end(input@, f as int, to as int) == to) by {
                    let start = spaces_end(input@, f as int, to as int);
                    if start < to {
                        lemma_spaces_stop(input@, f as int, to as int);
                    }
                }
            }
            Ok(MovingRow { id, x, y, vx, vy })
        },
        Ok((extra, _)) => {
            Err(ParseError { at: extra.start, problem: Problem::ExpectedLineEnd })
        },
    }
}

proof fn lemma_spaces_stop(s: Seq<u8>, at: int, to: int)
    requires
        0 <= at <= to <= s.len(),
        spaces_end(s, at, to) < to,
    ensures
        space_len(s, spaces_end(s, at, to), to) == 0,
        word_end(s, spaces_end(s, at, to), to) > spaces_end(s, at, to),
    decreases to - at,
{
    if at < to && space_len(s, at, to) > 0 {
        lemma_spaces_stop(s, at + space_len(s, at, to), to);
    } else {
        lemma_word_end(s, at + 1, to);
    }
}

fn read_balls(input: &[u8], at: usize, count: usize) -> (read: Result<
    (Vec<MovingRow>, usize),
    ParseError,
>)
    requires
        at <= input@.len(),
    ensures
        match read {
            Ok((balls, next)) => balls_from(
                input@,
                at as int,
                count as nat,
                Seq::<MovingRow>::empty(),
            ) == Ok::<(Seq<MovingRow>, int), ParseError>((balls@, next as int)) && at <= next
                <= input@.len(),
            Err(e) => balls_from(input@, at as int, count as nat, Seq::<MovingRow>::empty())
                == Err::<(Seq<MovingRow>, int), ParseError>(e),
        },
{
    let mut balls: Vec<MovingRow> = Vec::new();
    let mut here: usize = at;
    let mut left: usize = count;
    while left > 0
        invariant
            at <= here <= input@.len(),
            balls_from(input@, at as int, count as nat, Seq::<MovingRow>::empty()) == balls_from(
                input@,
                here as int,
                left as nat,
                balls@,
            ),
        decreases left,
    {
        let (text_end, next) = read_line(input, here);
        match read_ball_line(input, here, text_end) {
            Err(e) => {
                return Err(e);
            },
            Ok(ball) => {
                balls.push(ball);
            },
        }
        here = next;
        left -= 1;
    }
    Ok((balls, here))
}

/// Reads the frame that starts at `at`.
pub fn read_frame(input: &[u8], at: usize) -> (read: Result<Option<(FrameText, usize)>, ParseError>)
    requires
        at <= input@.len(),
    ensures
        match read {
            Ok(Some((frame, next))) => frame_at(input@, at as int) == Ok::<
                Option<(FrameLayout, int)>,
                ParseError,
            >(Some((frame@, next as int))) && at < next <= input@.len(),
            Ok(None) => frame_at(input@, at as int) == Ok::<
                Option<(FrameLayout, int)>,
                ParseError,
            >(None),
            Err(e) => frame_at(input@, at as int) == Err::<
                Option<(FrameLayout, int)>,
                ParseError,
            >(e),
        },
{
    if at >= input.len() {
        return Ok(None);
    }
    let (count_end, time_at) = read_line(input, at);
    let count: usize = match read_count(input, at, count_end) {
        Err(e) => {
            return Err(e);
        },
        Ok(count) => count,
    };
    if count == usize::MAX {
        proof {
            lemma_unending_lines(input@, time_at as int, (count + 1) as nat);
        }
        return Ok(None);
    }
    if skip_lines(input, time_at, count + 1).is_none() {
        return Ok(None);
    }
    let (time_end, balls_at) = read_line(input, time_at);
    match read_balls(input, balls_at, count) {
        Err(e) => Err(e),
        Ok((balls, next)) => Ok(
            Some((FrameText { time: Span { start: time_at, end: time_end }, balls }, next)),
        ),
    }
}

/// The layouts of the frames read.
pub open spec fn layouts(frames: Seq<FrameText>) -> Seq<FrameLayout> {
    frames.map_values(|frame: FrameText| frame@)
}

/// Reads the output of a billiard run.
pub fn output_parser(input: &[u8]) -> (read: Result<Vec<FrameText>, ParseError>)
    ensures
        match read {
            Ok(frames) => frames_text(input@) == Ok::<Seq<FrameLayout>, ParseError>(
                layouts(frames@),
            ),
            Err(e) => frames_text(input@) == Err::<Seq<FrameLayout>, ParseError>(e),
        },
{
    let mut frames: Vec<FrameText> = Vec::new();
    let mut at: usize = 0;
    proof {
        assert(layouts(frames@) =~= Seq::<FrameLayout>::empty());
    }
    loop
        invariant
            at <= input@.len(),
            frames_text(input@) == frames_from(input@, at as int, layouts(frames@)),
        decreases input@.len() - at,
    {
        match read_frame(input, at) {
            Err(e) => {
                return Err(e);
            },
            Ok(None) => {
                return Ok(frames);
            },
            Ok(Some((frame, next))) => {
                proof {
                    assert(layouts(frames@.push(frame)) =~= layouts(frames@).push(frame@));
                }
                frames.push(frame);
                at = next;
            },
        }
    }
}

proof fn lemma_unending_lines(s: Seq<u8>, at: int, count: nat)
    requires
        0 <= at <= s.len(),
        count > s.len(),
    ensures
        lines_after(s, at, count) is None,
    decreases count,
{
    if at < s.len() {
        lemma_unending_lines_step(s, at, count);
    }
}

proof fn lemma_unending_lines_step(s: Seq<u8>, at: int, count: nat)
    requires
        0 <= at < s.len(),
        count > s.len() - at,
    ensures
        lines_after(s, at, count) is None,
    decreases count,
{
    lemma_line_end(s, at);
    let next = next_line(s, at);
    if next < s.len() {
        lemma_unending_lines_step(s, next, (count - 1) as nat);
    }
}

} // verus!
