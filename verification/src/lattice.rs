//! From the text of a number to the lattice: a decimal number becomes a whole
//! number of lattice units, of which there are a power of ten to the unit of
//! length.

use vstd::prelude::*;
use crate::format::{
    digits_end, digits_value, is_digit, lemma_digits_end, lemma_digits_value_grows, number_at,
    read_number, ParseError, Span,
};

verus! {

/// The finest lattice: with more places, one unit of length would not fit the
/// machine word.
pub const MAX_PLACES: u8 = 18;

/// Ten to the power of `places`.
pub open spec fn pow10(places: nat) -> nat
    decreases places,
{
    if places == 0 {
        1
    } else {
        10 * pow10((places - 1) as nat)
    }
}

/// The digits from `from` up to `to`, cut or filled with zeros to `places`
/// digits, as a number: the part after the point of a decimal number, in units
/// of ten to the power of minus `places`.
pub open spec fn fraction_value(s: Seq<u8>, from: int, to: int, places: nat) -> nat
    decreases places,
{
    if places == 0 {
        0
    } else if from < to {
        (s[from] - 0x30) as nat * pow10((places - 1) as nat) + fraction_value(
            s,
            from + 1,
            to,
            (places - 1) as nat,
        )
    } else {
        0
    }
}

/// Whether `span` is the place of a number in `s`, all of it and no more.
pub open spec fn is_number(s: Seq<u8>, span: Span) -> bool {
    span.start <= span.end <= s.len() && number_at(s, span.start as int) == Ok::<
        (Span, int),
        ParseError,
    >((span, span.end as int))
}

/// Where the digits before the point end in the number at `span`.
pub open spec fn whole_end(s: Seq<u8>, span: Span) -> int {
    let first = if s[span.start as int] == 0x2d {
        span.start + 1
    } else {
        span.start as int
    };
    if s[first] == 0x30 {
        first + 1
    } else {
        digits_end(s, first)
    }
}

/// The number at `span` in units of ten to the power of minus `places`,
/// rounded toward zero.
pub open spec fn scaled_value(s: Seq<u8>, span: Span, places: nat) -> int {
    let negative = s[span.start as int] == 0x2d;
    let first = if negative {
        span.start + 1
    } else {
        span.start as int
    };
    let point = whole_end(s, span);
    let whole = digits_value(s, first, point);
    let fraction = if point < span.end {
        fraction_value(s, point + 1, span.end as int, places)
    } else {
        0
    };
    let size = whole * pow10(places) + fraction;
    if negative {
        -size
    } else {
        size as int
    }
}

proof fn lemma_pow10_grows(low: nat, high: nat)
    requires
        low <= high,
    ensures
        0 < pow10(low) <= pow10(high),
    decreases high,
{
    if low < high {
        lemma_pow10_grows(low, (high - 1) as nat);
    } else if low > 0 {
        lemma_pow10_grows((low - 1) as nat, (low - 1) as nat);
    }
}

proof fn lemma_pow10_fits()
    ensures
        pow10(18) == 1_000_000_000_000_000_000,
{
    reveal_with_fuel(pow10, 19);
}

proof fn lemma_fraction_is_small(s: Seq<u8>, from: int, to: int, places: nat)
    requires
        0 <= from <= to <= s.len(),
        forall|i: int| from <= i < to ==> is_digit(#[trigger] s[i]),
    ensures
        fraction_value(s, from, to, places) < pow10(places),
    decreases places,
{
    if places > 0 && from < to {
        lemma_fraction_is_small(s, from + 1, to, (places - 1) as nat);
        let digit = (s[from] - 0x30) as nat;
        let unit = pow10((places - 1) as nat);
        assert(digit * unit <= 9 * unit) by (nonlinear_arith)
            requires
                digit <= 9,
        ;
    } else {
        lemma_pow10_grows(0, places);
    }
}

fn power_of_ten(places: u8) -> (power: u64)
    requires
        places <= MAX_PLACES,
    ensures
        power == pow10(places as nat),
        0 < power <= 1_000_000_000_000_000_000,
{
    let mut power: u64 = 1;
    let mut done: u8 = 0;
    proof {
        lemma_pow10_fits();
    }
    while done < places
        invariant
            done <= places <= MAX_PLACES,
            power == pow10(done as nat),
            pow10(18) == 1_000_000_000_000_000_000,
        decreases places - done,
    {
        proof {
            lemma_pow10_grows((done + 1) as nat, 18);
        }
        power = power * 10;
        done += 1;
    }
    proof {
        lemma_pow10_grows(places as nat, 18);
    }
    power
}

/// Reads the number at `span` in units of ten to the power of minus `places`,
/// rounded toward zero. There is no value where `span` is not the place of a
/// number, and none where the value does not fit the machine word.
pub fn read_scaled(input: &[u8], span: Span, places: u8) -> (value: Option<i64>)
    requires
        places <= MAX_PLACES,
    ensures
        value is Some <==> is_number(input@, span) && i64::MIN <= scaled_value(
            input@,
            span,
            places as nat,
        ) <= i64::MAX,
        value matches Some(v) ==> v == scaled_value(input@, span, places as nat),
{
    if span.start > span.end || span.end > input.len() {
        return None;
    }
    match read_number(input, span.start) {
        Err(_) => {
            return None;
        },
        Ok((found, _)) => {
            if found.end != span.end {
                return None;
            }
        },
    }
    let negative: bool = input[span.start] == 0x2d;
    let first: usize = if negative {
        span.start + 1
    } else {
        span.start
    };
    proof {
        lemma_digits_end(input@, first as int);
        if whole_end(input@, span) < span.end {
            lemma_digits_end(input@, whole_end(input@, span) + 1);
        }
    }
    let unit: u64 = power_of_ten(places);
    // the digits before the point
    let mut whole: u128 = 0;
    let mut at: usize = first;
    while at < span.end && input[at] != 0x2e
        invariant
            is_number(input@, span),
            first == (if input@[span.start as int] == 0x2d {
                span.start + 1
            } else {
                span.start as int
            }),
            first <= at <= whole_end(input@, span) <= span.end <= input@.len(),
            forall|i: int| first <= i < whole_end(input@, span) ==> is_digit(#[trigger] input@[i]),
            whole_end(input@, span) < span.end ==> input@[whole_end(input@, span)] == 0x2e,
            whole == digits_value(input@, first as int, at as int),
            whole <= 0x8000_0000_0000_0000,
        decreases span.end - at,
    {
        proof {
            lemma_digits_value_grows(
                input@,
                first as int,
                at + 1,
                whole_end(input@, span),
            );
        }
        let digit: u128 = (input[at] - 0x30) as u128;
        whole = whole * 10 + digit;
        if whole > 0x8000_0000_0000_0000 {
            proof {
                lemma_pow10_grows(0, places as nat);
                let all = digits_value(input@, first as int, whole_end(input@, span));
                assert(all * pow10(places as nat) >= all) by (nonlinear_arith)
                    requires
                        pow10(places as nat) >= 1,
                ;
            }
            return None;
        }
        at += 1;
    }
    // the digits after it, as far as they count
    let mut fraction: u64 = 0;
    let mut left: u8 = places;
    let mut scale: u64 = unit;
    if at < span.end {
        at += 1;
        proof {
            lemma_fraction_is_small(input@, at as int, span.end as int, places as nat);
        }
        while left > 0 && at < span.end
            invariant
                whole_end(input@, span) < at <= span.end <= input@.len(),
                forall|i: int|
                    whole_end(input@, span) < i < span.end ==> is_digit(#[trigger] input@[i]),
                left <= places <= MAX_PLACES,
                scale == pow10(left as nat),
                fraction + fraction_value(input@, at as int, span.end as int, left as nat)
                    == fraction_value(
                    input@,
                    whole_end(input@, span) + 1,
                    span.end as int,
                    places as nat,
                ),
                fraction_value(input@, whole_end(input@, span) + 1, span.end as int, places as nat)
                    < pow10(places as nat) <= 1_000_000_000_000_000_000,
            decreases left,
        {
            scale = scale / 10;
            let digit: u64 = (input[at] - 0x30) as u64;
            fraction = fraction + digit * scale;
            left -= 1;
            at += 1;
        }
    }
    proof {
        assert(whole * unit <= 0x8000_0000_0000_0000 * 1_000_000_000_000_000_000)
            by (nonlinear_arith)
            requires
                whole <= 0x8000_0000_0000_0000,
                unit <= 1_000_000_000_000_000_000,
        ;
    }
    let size: u128 = whole * (unit as u128) + fraction as u128;
    if negative {
        if size > 0x8000_0000_0000_0000 {
            None
        } else if size == 0x8000_0000_0000_0000 {
            Some(i64::MIN)
        } else {
            Some(-(size as i64))
        }
    } else if size > 0x7fff_ffff_ffff_ffff {
        None
    } else {
        Some(size as i64)
    }
}

} // verus!
