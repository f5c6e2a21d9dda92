use intercept::decimal::{push_decimal, push_signed, scan_signed, scan_unsigned};

fn unsigned(n: u64) -> String {
    let mut out = Vec::new();
    push_decimal(&mut out, n);
    String::from_utf8(out).unwrap()
}

fn signed(n: i64) -> String {
    let mut out = Vec::new();
    push_signed(&mut out, n);
    String::from_utf8(out).unwrap()
}

#[test]
fn push_decimal_writes_the_digits() {
    assert_eq!(unsigned(0), "0");
    assert_eq!(unsigned(7), "7");
    assert_eq!(unsigned(10), "10");
    assert_eq!(unsigned(1005), "1005");
    assert_eq!(unsigned(u64::MAX), "18446744073709551615");
}

#[test]
fn push_decimal_appends_to_what_is_there() {
    let mut out = b"n=".to_vec();
    push_decimal(&mut out, 42);
    assert_eq!(out, b"n=42".to_vec());
}

#[test]
fn push_signed_writes_a_sign_before_negative_numbers() {
    assert_eq!(signed(0), "0");
    assert_eq!(signed(15), "15");
    assert_eq!(signed(-15), "-15");
    assert_eq!(signed(i64::MAX), "9223372036854775807");
    assert_eq!(signed(i64::MIN), "-9223372036854775808");
    let mut out = b"n=".to_vec();
    push_signed(&mut out, -1);
    assert_eq!(out, b"n=-1".to_vec());
}

#[test]
fn scan_unsigned_reads_all_the_digits_that_stand_there() {
    assert_eq!(scan_unsigned(b"0", 0, u64::MAX), Some((0, 1)));
    assert_eq!(scan_unsigned(b"42", 0, u64::MAX), Some((42, 2)));
    assert_eq!(scan_unsigned(b"42,", 0, u64::MAX), Some((42, 2)));
    assert_eq!(scan_unsigned(b"x=123}", 2, u64::MAX), Some((123, 5)));
    assert_eq!(scan_unsigned(b"18446744073709551615", 0, u64::MAX), Some((u64::MAX, 20)));
}

#[test]
fn scan_unsigned_finds_no_number_where_none_stands() {
    assert_eq!(scan_unsigned(b"", 0, u64::MAX), None);
    assert_eq!(scan_unsigned(b"42", 2, u64::MAX), None);
    assert_eq!(scan_unsigned(b"x", 0, u64::MAX), None);
    assert_eq!(scan_unsigned(b"-1", 0, u64::MAX), None);
    assert_eq!(scan_unsigned(b" 1", 0, u64::MAX), None);
}

#[test]
fn scan_unsigned_refuses_a_zero_in_front() {
    assert_eq!(scan_unsigned(b"00", 0, u64::MAX), None);
    assert_eq!(scan_unsigned(b"01", 0, u64::MAX), None);
    assert_eq!(scan_unsigned(b"0123,", 0, u64::MAX), None);
    assert_eq!(scan_unsigned(b"10", 0, u64::MAX), Some((10, 2)));
    assert_eq!(scan_unsigned(b"10", 1, u64::MAX), Some((0, 2)));
}

#[test]
fn scan_unsigned_refuses_what_is_over_the_limit() {
    assert_eq!(scan_unsigned(b"255", 0, 255), Some((255, 3)));
    assert_eq!(scan_unsigned(b"256", 0, 255), None);
    assert_eq!(scan_unsigned(b"1000", 0, 255), None);
    assert_eq!(scan_unsigned(b"0", 0, 0), Some((0, 1)));
    assert_eq!(scan_unsigned(b"1", 0, 0), None);
    assert_eq!(scan_unsigned(b"9", 0, 5), None);
    assert_eq!(scan_unsigned(b"18446744073709551616", 0, u64::MAX), None);
    assert_eq!(scan_unsigned(b"99999999999999999999999999999", 0, u64::MAX), None);
}

#[test]
fn scan_signed_reads_numbers_with_and_without_a_sign() {
    assert_eq!(scan_signed(b"0", 0), Some((0, 1)));
    assert_eq!(scan_signed(b"17,", 0), Some((17, 2)));
    assert_eq!(scan_signed(b"-17,", 0), Some((-17, 3)));
    assert_eq!(scan_signed(b":-1}", 1), Some((-1, 3)));
    assert_eq!(scan_signed(b"9223372036854775807", 0), Some((i64::MAX, 19)));
    assert_eq!(scan_signed(b"-9223372036854775808", 0), Some((i64::MIN, 20)));
}

#[test]
fn scan_signed_refuses_what_push_signed_never_writes() {
    assert_eq!(scan_signed(b"", 0), None);
    assert_eq!(scan_signed(b"-", 0), None);
    assert_eq!(scan_signed(b"-0", 0), None);
    assert_eq!(scan_signed(b"--1", 0), None);
    assert_eq!(scan_signed(b"+1", 0), None);
    assert_eq!(scan_signed(b"-01", 0), None);
    assert_eq!(scan_signed(b"9223372036854775808", 0), None);
    assert_eq!(scan_signed(b"-9223372036854775809", 0), None);
}

#[test]
fn scan_takes_back_what_push_wrote() {
    for n in [0u64, 1, 9, 10, 99, 100, 4294967295, 4294967296, u64::MAX] {
        let mut out = Vec::new();
        push_decimal(&mut out, n);
        let end = out.len();
        out.push(b',');
        assert_eq!(scan_unsigned(&out, 0, u64::MAX), Some((n, end)));
    }
    for n in [i64::MIN, -4294967296, -10, -1, 0, 1, 10, 4294967296, i64::MAX] {
        let mut out = Vec::new();
        push_signed(&mut out, n);
        let end = out.len();
        out.push(b'}');
        assert_eq!(scan_signed(&out, 0), Some((n, end)));
    }
}

#[test]
fn scan_finds_no_number_past_the_end() {
    assert_eq!(scan_unsigned(b"42", 3, u64::MAX), None);
    assert_eq!(scan_unsigned(b"", 1, u64::MAX), None);
    assert_eq!(scan_signed(b"-42", 4), None);
    assert_eq!(scan_signed(b"42", usize::MAX), None);
}
