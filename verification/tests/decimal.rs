use station_stats::decimal::{digit, magnitude, parse_value, push_digits, push_tenths};

fn text_of(value: i64) -> String {
    let mut out = Vec::new();
    push_tenths(&mut out, value);
    String::from_utf8(out).unwrap()
}

#[test]
fn parses_plain_values() {
    assert_eq!(parse_value(b"0.5"), Some(5));
    assert_eq!(parse_value(b"5.1"), Some(51));
    assert_eq!(parse_value(b"-5.1"), Some(-51));
    assert_eq!(parse_value(b"12.0"), Some(120));
    assert_eq!(parse_value(b"-99.9"), Some(-999));
    assert_eq!(parse_value(b"0.0"), Some(0));
    assert_eq!(parse_value(b"-0.0"), Some(0));
    assert_eq!(parse_value(b"007.3"), Some(73));
}

#[test]
fn refuses_what_is_no_value() {
    assert_eq!(parse_value(b""), None);
    assert_eq!(parse_value(b"xx"), None);
    assert_eq!(parse_value(b"-"), None);
    assert_eq!(parse_value(b"5"), None);
    assert_eq!(parse_value(b"5."), None);
    assert_eq!(parse_value(b".5"), None);
    assert_eq!(parse_value(b"-.5"), None);
    assert_eq!(parse_value(b"5.12"), None);
    assert_eq!(parse_value(b"+5.1"), None);
    assert_eq!(parse_value(b"--5.1"), None);
    assert_eq!(parse_value(b"5,1"), None);
    assert_eq!(parse_value(b"1e3"), None);
    assert_eq!(parse_value(b"5.x"), None);
    assert_eq!(parse_value(b"x.5"), None);
    assert_eq!(parse_value(b"1x.5"), None);
    assert_eq!(parse_value(b" 1.5"), None);
    assert_eq!(parse_value(b"1.5 "), None);
    assert_eq!(parse_value(b"1.5\r"), None);
    assert_eq!(parse_value(b"1.5;2.5"), None);
}

#[test]
fn parses_up_to_the_largest_magnitude() {
    assert_eq!(parse_value(b"922337203685477580.7"), Some(i64::MAX));
    assert_eq!(parse_value(b"-922337203685477580.7"), Some(-i64::MAX));
    assert_eq!(parse_value(b"922337203685477580.8"), None);
    assert_eq!(parse_value(b"-922337203685477580.8"), None);
    assert_eq!(parse_value(b"922337203685477581.0"), None);
    assert_eq!(parse_value(b"99999999999999999999999999999999.9"), None);
    assert_eq!(parse_value(b"000000000000000000000000000001.5"), Some(15));
}

#[test]
fn renders_with_one_fractional_digit() {
    assert_eq!(text_of(0), "0.0");
    assert_eq!(text_of(5), "0.5");
    assert_eq!(text_of(-5), "-0.5");
    assert_eq!(text_of(10), "1.0");
    assert_eq!(text_of(-51), "-5.1");
    assert_eq!(text_of(1234), "123.4");
    assert_eq!(text_of(i64::MAX), "922337203685477580.7");
    assert_eq!(text_of(i64::MIN), "-922337203685477580.8");
}

#[test]
fn parsing_undoes_rendering() {
    for value in [0i64, 1, -1, 9, 10, -10, 99, 100, 101, -999, 123456, i64::MAX, -i64::MAX] {
        assert_eq!(parse_value(text_of(value).as_bytes()), Some(value));
    }
}

#[test]
fn digits_and_magnitudes() {
    assert!(digit(b'0'));
    assert!(digit(b'9'));
    assert!(!digit(b'/'));
    assert!(!digit(b':'));
    assert_eq!(magnitude(0), 0);
    assert_eq!(magnitude(-7), 7);
    assert_eq!(magnitude(7), 7);
    assert_eq!(magnitude(i64::MIN), 9223372036854775808);
    let mut out = b"n=".to_vec();
    push_digits(&mut out, 0);
    push_digits(&mut out, 1905);
    push_digits(&mut out, u64::MAX);
    assert_eq!(out, b"n=0190518446744073709551615".to_vec());
}
