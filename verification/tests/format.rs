use exact::format::format_rational;
use exact::number::{Integer, Rational};
use num::bigint::BigInt;
use num::rational::BigRational;
use std::str::FromStr;

fn from_big(q: &BigRational) -> Rational {
    Rational::new(
        Integer::from_le_bytes(q.numer().to_signed_bytes_le()),
        Integer::from_le_bytes(q.denom().to_signed_bytes_le()),
    )
}

fn big_ratio(n: i64, d: i64) -> BigRational {
    BigRational::new(BigInt::from(n), BigInt::from(d))
}

fn ratio(n: i64, d: i64) -> Rational {
    from_big(&big_ratio(n, d))
}

#[test]
fn test_zero() {
    assert_eq!(format_rational(&ratio(0, 1), 10), "0");
}

#[test]
fn test_integer() {
    assert_eq!(format_rational(&ratio(42, 1), 10), "42");
}

#[test]
fn test_negative_integer() {
    assert_eq!(format_rational(&ratio(-42, 1), 10), "-42");
}

#[test]
fn test_exact_decimal() {
    assert_eq!(format_rational(&ratio(1, 4), 10), "0.25");
}

#[test]
fn test_repeating_decimal() {
    let result = format_rational(&ratio(1, 3), 10);
    assert!(result.starts_with('~'), "Expected ~ prefix, got: {result}");
    assert_eq!(result, "~0.3333333333");
}

#[test]
fn test_repeating_two_thirds() {
    let result = format_rational(&ratio(2, 3), 10);
    assert!(result.starts_with('~'), "Expected ~ prefix, got: {result}");
    assert_eq!(result, "~0.6666666667");
}

#[test]
fn test_negative_fraction() {
    assert_eq!(format_rational(&ratio(-1, 4), 10), "-0.25");
}

#[test]
fn test_negative_repeating() {
    let result = format_rational(&ratio(-1, 3), 10);
    assert!(
        result.starts_with("~-"),
        "Expected ~- prefix, got: {result}"
    );
}

#[test]
fn test_max_digits_truncation() {
    // 1/7 = 0.142857142857...
    let result = format_rational(&ratio(1, 7), 4);
    assert!(result.starts_with('~'), "Expected ~ prefix, got: {result}");
    assert_eq!(result, "~0.1429");
}

#[test]
fn test_large_exact() {
    let val = BigRational::from_str("123456789/1").unwrap_or_else(|_| big_ratio(123_456_789, 1));
    assert_eq!(format_rational(&from_big(&val), 20), "123456789");
}

#[test]
fn test_exact_fits_max_digits() {
    assert_eq!(format_rational(&ratio(1, 8), 10), "0.125");
}

#[test]
fn test_one_sixth() {
    let result = format_rational(&ratio(1, 6), 10);
    assert!(result.starts_with('~'), "Expected ~ prefix, got: {result}");
    assert_eq!(result, "~0.1666666667");
}

#[test]
fn test_large_integer_not_rounded() {
    // With fractional-only limiting, large integers should always display in full
    let val = BigRational::from_str("12345678901/1")
        .unwrap_or_else(|_| big_ratio(12_345_678_901, 1));
    assert_eq!(format_rational(&from_big(&val), 4), "12345678901");
}

#[test]
fn test_large_integer_with_fraction() {
    // 100000 + 1/3: integer part shown fully, fraction limited to max_fractional_digits
    let val = BigRational::new(BigInt::from(300_001), BigInt::from(3));
    let result = format_rational(&from_big(&val), 4);
    assert_eq!(result, "~100000.3333");
}
