use csv2kml::timestamp::first_success;
use csv2kml::timestamp::parse_integer_seconds;
use csv2kml::timestamp::parse_timestamp;

/// The floating-point reading that `parse_timestamp` is handed.
fn float_reading(text: &str) -> Option<i64> {
    text.parse::<f64>().ok().map(|seconds| seconds as i64)
}

fn normalize(text: &str) -> Option<i64> {
    parse_timestamp(text, float_reading(text))
}

#[test]
fn integer_text_is_its_own_second() {
    assert_eq!(normalize("1700000000"), Some(1700000000));
    assert_eq!(normalize("0"), Some(0));
    assert_eq!(normalize("7"), Some(7));
}

#[test]
fn integer_text_may_carry_a_sign() {
    assert_eq!(parse_integer_seconds("-42"), Some(-42));
    assert_eq!(parse_integer_seconds("+42"), Some(42));
    assert_eq!(parse_integer_seconds("-0"), Some(0));
    assert_eq!(normalize("-42"), Some(-42));
    assert_eq!(normalize("+42"), Some(42));
}

#[test]
fn integer_text_may_have_leading_zeros() {
    assert_eq!(parse_integer_seconds("007"), Some(7));
    assert_eq!(parse_integer_seconds("-000"), Some(0));
    assert_eq!(parse_integer_seconds("00000000000000000000000012"), Some(12));
}

#[test]
fn integer_reading_reaches_both_ends_of_the_range() {
    assert_eq!(parse_integer_seconds("9223372036854775807"), Some(i64::MAX));
    assert_eq!(parse_integer_seconds("-9223372036854775808"), Some(i64::MIN));
    assert_eq!(parse_integer_seconds("+9223372036854775807"), Some(i64::MAX));
}

#[test]
fn integer_reading_fails_past_the_range() {
    assert_eq!(parse_integer_seconds("9223372036854775808"), None);
    assert_eq!(parse_integer_seconds("-9223372036854775809"), None);
    assert_eq!(parse_integer_seconds("99999999999999999999999999"), None);
    assert_eq!(parse_integer_seconds("18446744073709551616"), None);
    assert_eq!(parse_integer_seconds("-18446744073709551616"), None);
}

#[test]
fn integer_reading_takes_digits_only() {
    assert_eq!(parse_integer_seconds(""), None);
    assert_eq!(parse_integer_seconds("-"), None);
    assert_eq!(parse_integer_seconds("+"), None);
    assert_eq!(parse_integer_seconds("+-1"), None);
    assert_eq!(parse_integer_seconds("--1"), None);
    assert_eq!(parse_integer_seconds(" 1"), None);
    assert_eq!(parse_integer_seconds("1 "), None);
    assert_eq!(parse_integer_seconds("1_000"), None);
    assert_eq!(parse_integer_seconds("1.0"), None);
    assert_eq!(parse_integer_seconds("1e3"), None);
    assert_eq!(parse_integer_seconds("0x10"), None);
    assert_eq!(parse_integer_seconds("12a"), None);
    assert_eq!(parse_integer_seconds("\u{0663}"), None);
    assert_eq!(parse_integer_seconds("1\u{00e9}"), None);
}

#[test]
fn integer_reading_agrees_with_the_standard_parser() {
    let texts = [
        "", "-", "+", "0", "-0", "+0", "1", "-1", "+1", "10", "0010", "123456789",
        "9223372036854775806", "9223372036854775807", "9223372036854775808",
        "-9223372036854775807", "-9223372036854775808", "-9223372036854775809",
        "92233720368547758070", "1a", "a1", "1-", "1+", " ", "1 2", "١٢٣", "1.5", "٣",
    ];
    for text in texts {
        assert_eq!(parse_integer_seconds(text), text.parse::<i64>().ok(), "text {:?}", text);
    }
}

#[test]
fn float_text_is_cut_toward_zero() {
    assert_eq!(normalize("1700000000.4"), Some(1700000000));
    assert_eq!(normalize("1700000000.9"), Some(1700000000));
    assert_eq!(normalize("-1.9"), Some(-1));
    assert_eq!(normalize("0.5"), Some(0));
    assert_eq!(normalize("1e3"), Some(1000));
}

#[test]
fn float_text_that_is_no_finite_number_still_gives_a_second() {
    assert_eq!(normalize("NaN"), Some(0));
    assert_eq!(normalize("inf"), Some(i64::MAX));
    assert_eq!(normalize("-inf"), Some(i64::MIN));
    assert_eq!(normalize("1e400"), Some(i64::MAX));
}

#[test]
fn integer_past_the_range_is_read_as_a_float() {
    assert_eq!(normalize("9223372036854775808"), Some(i64::MAX));
    assert_eq!(normalize("-9223372036854775809"), Some(i64::MIN));
}

#[test]
fn float_reading_counts_only_where_the_integer_reading_fails() {
    assert_eq!(parse_timestamp("12", Some(99)), Some(12));
    assert_eq!(parse_timestamp("12.5", Some(12)), Some(12));
    assert_eq!(parse_timestamp("twelve", Some(99)), Some(99));
}

#[test]
fn float_reading_comes_before_the_date_readings() {
    assert_eq!(parse_timestamp("2023-11-14T22:13:20Z", Some(5)), Some(5));
    assert_eq!(parse_timestamp("2023-11-14 22:13:20", Some(5)), Some(5));
}

#[test]
fn rfc3339_text_gives_its_epoch_second() {
    assert_eq!(normalize("2023-11-14T22:13:20Z"), Some(1700000000));
    assert_eq!(normalize("1970-01-01T00:00:00Z"), Some(0));
    assert_eq!(normalize("1970-01-01T00:00:00+00:00"), Some(0));
    assert_eq!(normalize("1969-12-31T23:59:59Z"), Some(-1));
}

#[test]
fn rfc3339_offset_is_applied() {
    assert_eq!(normalize("2023-11-14T23:13:20+01:00"), Some(1700000000));
    assert_eq!(normalize("2023-11-14T14:13:20-08:00"), Some(1700000000));
    assert_eq!(normalize("1970-01-01T01:00:00+01:00"), Some(0));
}

#[test]
fn rfc3339_fraction_of_a_second_is_dropped() {
    assert_eq!(normalize("2023-11-14T22:13:20.75Z"), Some(1700000000));
    assert_eq!(normalize("2023-11-14T22:13:20.999999999Z"), Some(1700000000));
}

#[test]
fn naive_text_is_taken_as_utc() {
    assert_eq!(normalize("2023-11-14 22:13:20"), Some(1700000000));
    assert_eq!(normalize("1970-01-01 00:00:00"), Some(0));
    assert_eq!(normalize("2024-07-21 12:34:56"), Some(1721565296));
    assert_eq!(normalize("1969-12-31 23:59:59"), Some(-1));
}

#[test]
fn naive_text_must_be_a_real_date_and_time() {
    assert_eq!(normalize("2023-02-30 00:00:00"), None);
    assert_eq!(normalize("2023-13-01 00:00:00"), None);
    assert_eq!(normalize("2023-11-14 24:00:00"), None);
    assert_eq!(normalize("2023-11-14"), None);
    assert_eq!(normalize("2023-11-14 22:13"), None);
}

#[test]
fn unparseable_text_gives_no_timestamp() {
    assert_eq!(normalize("not-a-date"), None);
    assert_eq!(normalize(""), None);
    assert_eq!(normalize("timestamp"), None);
    assert_eq!(normalize("12:34:56"), None);
    assert_eq!(normalize("2023/11/14 22:13:20"), None);
}

#[test]
fn normalization_repeats() {
    let texts = [
        "1700000000",
        "1700000000.4",
        "2023-11-14T22:13:20Z",
        "2023-11-14 22:13:20",
        "not-a-date",
    ];
    for text in texts {
        assert_eq!(normalize(text), normalize(text), "text {:?}", text);
    }
}

#[test]
fn first_success_follows_the_order_of_the_cascade() {
    assert_eq!(first_success(Some(1), Some(2), Some(3), Some(4)), Some(1));
    assert_eq!(first_success(None, Some(2), Some(3), Some(4)), Some(2));
    assert_eq!(first_success(None, None, Some(3), Some(4)), Some(3));
    assert_eq!(first_success(None, None, None, Some(4)), Some(4));
    assert_eq!(first_success(None, None, None, None), None);
    assert_eq!(first_success(Some(1), None, None, None), Some(1));
    assert_eq!(first_success(None, Some(2), None, Some(4)), Some(2));
}
