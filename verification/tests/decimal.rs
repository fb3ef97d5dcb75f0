use rot::decimal::{parse_i64, render_i64};

#[test]
fn render_writes_plain_decimal() {
    assert_eq!(render_i64(0), b"0".to_vec());
    assert_eq!(render_i64(7), b"7".to_vec());
    assert_eq!(render_i64(-1), b"-1".to_vec());
    assert_eq!(render_i64(1234567890), b"1234567890".to_vec());
    assert_eq!(render_i64(i64::MAX), b"9223372036854775807".to_vec());
    assert_eq!(render_i64(i64::MIN), b"-9223372036854775808".to_vec());
}

#[test]
fn render_agrees_with_the_standard_formatting() {
    let mut v: i64 = 1;
    for _ in 0..200 {
        v = v.wrapping_mul(6364136223846793005).wrapping_add(1442695040888963407);
        assert_eq!(render_i64(v), format!("{}", v).into_bytes());
        assert_eq!(render_i64(v >> 40), format!("{}", v >> 40).into_bytes());
    }
}

#[test]
fn parse_reads_signed_decimal() {
    assert_eq!(parse_i64(b"0"), Some(0));
    assert_eq!(parse_i64(b"-0"), Some(0));
    assert_eq!(parse_i64(b"+0"), Some(0));
    assert_eq!(parse_i64(b"42"), Some(42));
    assert_eq!(parse_i64(b"+42"), Some(42));
    assert_eq!(parse_i64(b"-42"), Some(-42));
    assert_eq!(parse_i64(b"007"), Some(7));
    assert_eq!(parse_i64(b"-000000000000000000000000000005"), Some(-5));
    assert_eq!(parse_i64(b"9223372036854775807"), Some(i64::MAX));
    assert_eq!(parse_i64(b"-9223372036854775808"), Some(i64::MIN));
}

#[test]
fn parse_rejects_what_is_no_number() {
    assert_eq!(parse_i64(b""), None);
    assert_eq!(parse_i64(b"+"), None);
    assert_eq!(parse_i64(b"-"), None);
    assert_eq!(parse_i64(b"--1"), None);
    assert_eq!(parse_i64(b"+-1"), None);
    assert_eq!(parse_i64(b" 1"), None);
    assert_eq!(parse_i64(b"1 "), None);
    assert_eq!(parse_i64(b"1_000"), None);
    assert_eq!(parse_i64(b"12a"), None);
    assert_eq!(parse_i64(b"0x10"), None);
    assert_eq!(parse_i64(b"1.5"), None);
}

#[test]
fn parse_rejects_what_does_not_fit() {
    assert_eq!(parse_i64(b"9223372036854775808"), None);
    assert_eq!(parse_i64(b"-9223372036854775809"), None);
    assert_eq!(parse_i64(b"92233720368547758070"), None);
    assert_eq!(parse_i64(b"99999999999999999999999999"), None);
    assert_eq!(parse_i64(b"-99999999999999999999999999"), None);
}

#[test]
fn parse_agrees_with_the_standard_parsing() {
    let samples = [
        "", "+", "-", "0", "-0", "+5", "05", "5+", "9223372036854775807", "9223372036854775808",
        "-9223372036854775808", "-9223372036854775809", "18446744073709551616", "1e3", "١٢٣",
        "12\n", "+ 1",
    ];
    for s in samples {
        assert_eq!(parse_i64(s.as_bytes()), s.parse::<i64>().ok(), "{:?}", s);
    }
}

#[test]
fn parse_inverts_render() {
    for v in [0i64, 1, -1, 9, 10, -10, 99, 100, i64::MAX, i64::MIN, i64::MAX - 1, i64::MIN + 1] {
        assert_eq!(parse_i64(&render_i64(v)), Some(v));
    }
}
