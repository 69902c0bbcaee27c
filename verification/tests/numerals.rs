use mini_http::numeral::{push_decimal, push_signed_decimal, read_digits};

fn unsigned(n: u64) -> String {
    let mut out = String::new();
    push_decimal(&mut out, n);
    out
}

fn signed(n: i64) -> String {
    let mut out = String::new();
    push_signed_decimal(&mut out, n);
    out
}

fn digits(text: &str, max: u64) -> Option<u64> {
    let chars: Vec<char> = text.chars().collect();
    read_digits(&chars, max)
}

#[test]
fn numbers_are_written_without_leading_zeros() {
    assert_eq!(unsigned(0), "0");
    assert_eq!(unsigned(7), "7");
    assert_eq!(unsigned(10), "10");
    assert_eq!(unsigned(404), "404");
    assert_eq!(unsigned(1234567890), "1234567890");
    assert_eq!(unsigned(u64::MAX), "18446744073709551615");
}

#[test]
fn numerals_are_appended() {
    let mut out = String::from("n=");
    push_decimal(&mut out, 42);
    assert_eq!(out, "n=42");
    push_signed_decimal(&mut out, -7);
    assert_eq!(out, "n=42-7");
}

#[test]
fn negative_numbers_carry_a_minus_sign() {
    assert_eq!(signed(0), "0");
    assert_eq!(signed(200), "200");
    assert_eq!(signed(-1), "-1");
    assert_eq!(signed(-2147483648), "-2147483648");
    assert_eq!(signed(i64::MIN), "-9223372036854775808");
    assert_eq!(signed(i64::MAX), "9223372036854775807");
}

#[test]
fn digits_are_read_as_a_number() {
    assert_eq!(digits("0", 100), Some(0));
    assert_eq!(digits("42", 100), Some(42));
    assert_eq!(digits("100", 100), Some(100));
    assert_eq!(digits("007", 100), Some(7));
    assert_eq!(digits("00000000000000000000000000000012", 100), Some(12));
}

#[test]
fn digits_beyond_the_limit_are_refused() {
    assert_eq!(digits("101", 100), None);
    assert_eq!(digits("99999999999999999999999999999999", 100), None);
    assert_eq!(digits("2147483648", 2147483647), None);
    assert_eq!(digits("2147483647", 2147483647), Some(2147483647));
}

#[test]
fn anything_but_digits_is_refused() {
    assert_eq!(digits("", 100), None);
    assert_eq!(digits("-1", 100), None);
    assert_eq!(digits("+1", 100), None);
    assert_eq!(digits("1 ", 100), None);
    assert_eq!(digits("1a", 100), None);
    assert_eq!(digits("\u{661}", 100), None);
}

#[test]
fn written_numbers_read_back() {
    for n in [0u64, 1, 9, 10, 99, 100, 65535, 2147483647] {
        assert_eq!(digits(&unsigned(n), 2147483647), Some(n));
    }
}
