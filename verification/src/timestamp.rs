//! Timestamp normalisation: from the text of a record's first field to epoch
//! seconds.

use chrono::DateTime;
use chrono::NaiveDateTime;
use vstd::prelude::*;
use vstd::string::*;
use vstd::utf8::is_ascii_chars;

verus! {

/// The largest magnitude a signed 64-bit integer can have (that of `i64::MIN`).
const MAGNITUDE_LIMIT: u64 = 0x8000_0000_0000_0000;

/// Whether `c` is one of the ASCII digits `0` to `9`.
pub open spec fn is_decimal_digit(c: char) -> bool {
    '0' <= c && c <= '9'
}

/// The number that the ASCII digit `c` stands for.
pub open spec fn digit_value(c: char) -> int {
    c as int - 48
}

/// Whether every character of `s` is an ASCII digit.
pub open spec fn all_decimal_digits(s: Seq<char>) -> bool {
    forall|i: int| 0 <= i < s.len() ==> is_decimal_digit(#[trigger] s[i])
}

/// The number written by a run of decimal digits, most significant first.
pub open spec fn decimal_value(digits: Seq<char>) -> int
    decreases digits.len(),
{
    if digits.len() == 0 {
        0
    } else {
        10 * decimal_value(digits.drop_last()) + digit_value(digits.last())
    }
}

/// The integer that `text` writes in base 10: an optional `+` or `-`, then
/// one or more ASCII digits and nothing else.
pub open spec fn signed_decimal(text: Seq<char>) -> Option<int> {
    if text.len() == 0 {
        None
    } else {
        let digits = if text[0] == '-' || text[0] == '+' {
            text.subrange(1, text.len() as int)
        } else {
            text
        };
        if digits.len() > 0 && all_decimal_digits(digits) {
            if text[0] == '-' {
                Some(-decimal_value(digits))
            } else {
                Some(decimal_value(digits))
            }
        } else {
            None
        }
    }
}

/// `text` read as a base-10 signed integer that fits 64 bits.
pub open spec fn integer_seconds(text: Seq<char>) -> Option<i64> {
    match signed_decimal(text) {
        Some(v) => if i64::MIN <= v <= i64::MAX {
            Some(v as i64)
        } else {
            None
        },
        None => None,
    }
}

/// A character outside ASCII is neither a sign nor a digit, so a text that
/// holds one writes no integer.
proof fn lemma_non_ascii_writes_no_integer(text: Seq<char>)
    requires
        !is_ascii_chars(text),
    ensures
        signed_decimal(text) is None,
{
    let i = choose|i: int| 0 <= i < text.len() && !('\0' <= #[trigger] text[i] <= '\u{7f}');
    assert(!is_decimal_digit(text[i]));
    if i > 0 {
        let tail = text.subrange(1, text.len() as int);
        assert(tail[i - 1] == text[i]);
    }
}

/// Appending one digit multiplies the value by ten and adds the digit.
proof fn lemma_decimal_value_step(text: Seq<char>, from: int, to: int)
    requires
        0 <= from <= to < text.len(),
    ensures
        decimal_value(text.subrange(from, to + 1)) == 10 * decimal_value(text.subrange(from, to))
            + digit_value(text[to]),
{
    assert(text.subrange(from, to + 1).drop_last() =~= text.subrange(from, to));
}

/// Reads `text` as a base-10 signed 64-bit integer.
pub fn parse_integer_seconds(text: &str) -> (r: Option<i64>)
    ensures
        r == integer_seconds(text@),
{
    if !text.is_ascii() {
        proof {
            lemma_non_ascii_writes_no_integer(text@);
        }
        return None;
    }
    let n: usize = text.unicode_len();
    if n == 0 {
        return None;
    }
    let first: u8 = text.get_ascii(0);
    let negative: bool = first == 45;
    let start: usize = if first == 45 || first == 43 {
        1
    } else {
        0
    };
    if start == n {
        return None;
    }
    let ghost digits = text@.subrange(start as int, n as int);
    assert(digits =~= if text@[0] == '-' || text@[0] == '+' {
        text@.subrange(1, text@.len() as int)
    } else {
        text@
    });
    let mut magnitude: u64 = 0;
    let mut too_large: bool = false;
    let mut i: usize = start;
    while i < n
        invariant
            start <= i <= n,
            n == text@.len(),
            is_ascii(text),
            digits == text@.subrange(start as int, n as int),
            digits == if text@[0] == '-' || text@[0] == '+' {
                text@.subrange(1, text@.len() as int)
            } else {
                text@
            },
            all_decimal_digits(text@.subrange(start as int, i as int)),
            too_large ==> decimal_value(text@.subrange(start as int, i as int)) > MAGNITUDE_LIMIT,
            !too_large ==> magnitude == decimal_value(text@.subrange(start as int, i as int)),
            magnitude <= MAGNITUDE_LIMIT,
        decreases n - i,
    {
        let b: u8 = text.get_ascii(i);
        if b < 48 || b > 57 {
            proof {
                assert(digits[i - start] == text@[i as int]);
                assert(!is_decimal_digit(digits[i - start]));
            }
            return None;
        }
        let d: u64 = (b - 48) as u64;
        proof {
            lemma_decimal_value_step(text@, start as int, i as int);
            assert(is_decimal_digit(text@[i as int]));
            assert(digit_value(text@[i as int]) == d);
            assert forall|j: int| 0 <= j < i + 1 - start implies is_decimal_digit(
                #[trigger] text@.subrange(start as int, i + 1)[j],
            ) by {
                if j < i - start {
                    assert(text@.subrange(start as int, i as int)[j] == text@.subrange(
                        start as int,
                        i + 1,
                    )[j]);
                }
            }
        }
        if too_large || magnitude > (MAGNITUDE_LIMIT - d) / 10 {
            too_large = true;
        } else {
            magnitude = magnitude * 10 + d;
        }
        i += 1;
    }
    assert(text@.subrange(start as int, i as int) =~= digits);
    if too_large {
        None
    } else if negative {
        if magnitude == MAGNITUDE_LIMIT {
            Some(i64::MIN)
        } else {
            Some(-(magnitude as i64))
        }
    } else if magnitude == MAGNITUDE_LIMIT {
        None
    } else {
        Some(magnitude as i64)
    }
}

/// The pattern of a date and time of day without an offset:
/// `YYYY-MM-DD HH:MM:SS`.
pub const NAIVE_FORMAT: &'static str = "%Y-%m-%d %H:%M:%S";

/// The epoch seconds of the moment that `text` writes as an RFC 3339 date
/// and time with its UTC offset or `Z`, or `None` where `text` is no such
/// date and time.
///
/// This is what `chrono::DateTime::parse_from_rfc3339` reads from `text`,
/// taken through `chrono::DateTime::timestamp`. Nothing is stated of its
/// value here: it is whatever chrono computes, which depends on `text` alone.
pub uninterp spec fn rfc3339_seconds(text: Seq<char>) -> Option<i64>;

/// The epoch seconds of the date and time that `text` writes in the strftime
/// pattern `format`, taken as UTC, or `None` where `text` does not match.
///
/// This is what `chrono::NaiveDateTime::parse_from_str` reads from `text` and
/// `format`, taken through `NaiveDateTime::and_utc` and
/// `chrono::DateTime::timestamp`. Nothing is stated of its value here: it is
/// whatever chrono computes, which depends on the two strings alone.
pub uninterp spec fn naive_datetime_seconds(text: Seq<char>, format: Seq<char>) -> Option<i64>;

/// Calls `chrono::DateTime::parse_from_rfc3339` on `text` and, where that
/// succeeds, `chrono::DateTime::timestamp` on the moment it returns; a parse
/// error becomes `None`. Trusted: that the outcome is the one `rfc3339_seconds`
/// names, which claims only that equal texts give equal outcomes.
#[verifier::external_body]
fn parse_rfc3339_seconds(text: &str) -> (r: Option<i64>)
    ensures
        r == rfc3339_seconds(text@),
{
    match DateTime::parse_from_rfc3339(text) {
        Ok(moment) => Some(moment.timestamp()),
        Err(_) => None,
    }
}

/// Calls `chrono::NaiveDateTime::parse_from_str` on `text` and `format` and,
/// where that succeeds, `NaiveDateTime::and_utc` and
/// `chrono::DateTime::timestamp` on the date and time it returns; a parse
/// error becomes `None`. Trusted: that the outcome is the one
/// `naive_datetime_seconds` names, which claims only that equal arguments give
/// equal outcomes.
#[verifier::external_body]
fn parse_naive_datetime_seconds(text: &str, format: &str) -> (r: Option<i64>)
    ensures
        r == naive_datetime_seconds(text@, format@),
{
    match NaiveDateTime::parse_from_str(text, format) {
        Ok(moment) => Some(moment.and_utc().timestamp()),
        Err(_) => None,
    }
}

/// The outcome of the cascade over the four readings of one text: the first
/// that succeeded, in the order integer, floating point, RFC 3339, date and
/// time without offset; `None` where none did.
pub open spec fn cascade(
    integer: Option<i64>,
    float: Option<i64>,
    rfc3339: Option<i64>,
    naive: Option<i64>,
) -> Option<i64> {
    if integer is Some {
        integer
    } else if float is Some {
        float
    } else if rfc3339 is Some {
        rfc3339
    } else {
        naive
    }
}

/// The normalised timestamp of `text`: the outcome of the cascade over its
/// four readings.
///
/// 1. `text` as a base-10 signed integer;
/// 2. `float_seconds`, which stands for `text` read as a floating-point
///    number and cut toward zero;
/// 3. `text` as an RFC 3339 date and time with offset;
/// 4. `text` as a date and time in `NAIVE_FORMAT`, taken as UTC.
pub open spec fn normalized(text: Seq<char>, float_seconds: Option<i64>) -> Option<i64> {
    cascade(
        integer_seconds(text),
        float_seconds,
        rfc3339_seconds(text),
        naive_datetime_seconds(text, NAIVE_FORMAT@),
    )
}

/// Picks the outcome of the cascade from the four readings of one text, each
/// `None` where that reading failed: the first success wins.
pub fn first_success(
    integer: Option<i64>,
    float: Option<i64>,
    rfc3339: Option<i64>,
    naive: Option<i64>,
) -> (r: Option<i64>)
    ensures
        r == cascade(integer, float, rfc3339, naive),
        r is None <==> integer is None && float is None && rfc3339 is None && naive is None,
{
    if integer.is_some() {
        integer
    } else if float.is_some() {
        float
    } else if rfc3339.is_some() {
        rfc3339
    } else {
        naive
    }
}

/// Normalises the timestamp field `text` to epoch seconds, or returns `None`
/// where no reading of it succeeds.
///
/// Floating-point arithmetic is outside this library, so the caller hands in
/// `float_seconds`: `text` parsed as a floating-point number and cut toward
/// zero, or `None` where `text` is no such number. It counts only where
/// `text` is no integer.
pub fn parse_timestamp(text: &str, float_seconds: Option<i64>) -> (r: Option<i64>)
    ensures
        r == normalized(text@, float_seconds),
        integer_seconds(text@) is Some ==> r == integer_seconds(text@),
        r is None <==> integer_seconds(text@) is None && float_seconds is None && rfc3339_seconds(
            text@,
        ) is None && naive_datetime_seconds(text@, NAIVE_FORMAT@) is None,
{
    let integer: Option<i64> = parse_integer_seconds(text);
    let rfc3339: Option<i64> = parse_rfc3339_seconds(text);
    let naive: Option<i64> = parse_naive_datetime_seconds(text, NAIVE_FORMAT);
    first_success(integer, float_seconds, rfc3339, naive)
}

/// Normalisation is a function of its input alone: whatever `parse_timestamp`
/// returns for a text and its floating-point reading, it returns again for
/// the same text and reading.
pub proof fn lemma_normalization_repeats(
    first_text: Seq<char>,
    second_text: Seq<char>,
    float_seconds: Option<i64>,
    first: Option<i64>,
    second: Option<i64>,
)
    requires
        first_text == second_text,
        first == normalized(first_text, float_seconds),
        second == normalized(second_text, float_seconds),
    ensures
        first == second,
{
}

/// A text that reads as an integer normalises to that integer, whatever its
/// other readings are.
pub proof fn lemma_integer_reading_wins(text: Seq<char>, float_seconds: Option<i64>, seconds: i64)
    requires
        integer_seconds(text) == Some(seconds),
    ensures
        normalized(text, float_seconds) == Some(seconds),
{
}

} // verus!
