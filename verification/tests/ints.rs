use cmdlog::ints::{int_to_string, parse_int};

#[test]
fn writes_small_numbers() {
    assert_eq!(int_to_string(0), "0");
    assert_eq!(int_to_string(7), "7");
    assert_eq!(int_to_string(42), "42");
    assert_eq!(int_to_string(-1), "-1");
    assert_eq!(int_to_string(1000), "1000");
}

#[test]
fn writes_extreme_numbers() {
    assert_eq!(int_to_string(i64::MAX), "9223372036854775807");
    assert_eq!(int_to_string(i64::MIN), "-9223372036854775808");
}

#[test]
fn reads_plain_numbers() {
    assert_eq!(parse_int("42"), Some(42));
    assert_eq!(parse_int("0"), Some(0));
    assert_eq!(parse_int("007"), Some(7));
    assert_eq!(parse_int("+7"), Some(7));
    assert_eq!(parse_int("-13"), Some(-13));
}

#[test]
fn reads_range_edges() {
    assert_eq!(parse_int("9223372036854775807"), Some(i64::MAX));
    assert_eq!(parse_int("-9223372036854775808"), Some(i64::MIN));
    assert_eq!(parse_int("9223372036854775808"), None);
    assert_eq!(parse_int("-9223372036854775809"), None);
    assert_eq!(parse_int("99999999999999999999"), None);
}

#[test]
fn rejects_non_numbers() {
    assert_eq!(parse_int(""), None);
    assert_eq!(parse_int("-"), None);
    assert_eq!(parse_int("+"), None);
    assert_eq!(parse_int("12a"), None);
    assert_eq!(parse_int("--1"), None);
    assert_eq!(parse_int(" 1"), None);
    assert_eq!(parse_int("1 "), None);
    assert_eq!(parse_int("hello"), None);
}

#[test]
fn round_trips_through_text() {
    for n in [0i64, 1, -1, 9, 10, -10, 123456789, -987654321, i64::MAX, i64::MIN] {
        assert_eq!(parse_int(&int_to_string(n)), Some(n));
    }
}
