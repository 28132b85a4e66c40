use exact::engine::{parse_number, Engine, Operator};
use exact::format::format_rational;
use exact::number::{Integer, Rational};
use num::bigint::BigInt;
use num::rational::BigRational;

fn ratio(n: i64, d: i64) -> Rational {
    let q = BigRational::new(BigInt::from(n), BigInt::from(d));
    Rational::new(
        Integer::from_le_bytes(q.numer().to_signed_bytes_le()),
        Integer::from_le_bytes(q.denom().to_signed_bytes_le()),
    )
}

#[test]
fn division_is_undone_by_multiplication() {
    let a = ratio(5, 7);
    let b = ratio(-3, 11);
    let q = Operator::Divide.apply(&a, &b).unwrap();
    assert_eq!(Operator::Multiply.apply(&q, &b).ok(), Some(a));
}

#[test]
fn operations_are_exact_on_small_fractions() {
    let third = ratio(1, 3);
    let sum = Operator::Add.apply(&third, &third).unwrap();
    let sum = Operator::Add.apply(&sum, &third).unwrap();
    assert_eq!(sum, ratio(1, 1));
    let diff = Operator::Subtract.apply(&ratio(1, 10), &ratio(3, 10)).unwrap();
    assert_eq!(diff, ratio(-1, 5));
}

#[test]
fn repeated_equals_repeats_division() {
    let mut engine = Engine::new();
    engine.set_input(ratio(81, 1));
    engine.apply_operator(Operator::Divide).unwrap();
    engine.set_input(ratio(3, 1));
    engine.evaluate().unwrap();
    assert_eq!(*engine.current_value(), ratio(27, 1));
    engine.evaluate().unwrap();
    assert_eq!(*engine.current_value(), ratio(9, 1));
    engine.evaluate().unwrap();
    assert_eq!(*engine.current_value(), ratio(3, 1));
}

#[test]
fn operator_after_result_uses_the_result() {
    let mut engine = Engine::new();
    engine.set_input(ratio(1, 2));
    engine.apply_operator(Operator::Multiply).unwrap();
    engine.set_input(ratio(4, 1));
    engine.evaluate().unwrap();
    engine.apply_operator(Operator::Subtract).unwrap();
    engine.set_input(ratio(5, 1));
    engine.evaluate().unwrap();
    assert_eq!(*engine.current_value(), ratio(-3, 1));
}

#[test]
fn operator_key_evaluates_the_pending_operation() {
    let mut engine = Engine::new();
    engine.set_input(ratio(7, 1));
    engine.apply_operator(Operator::Subtract).unwrap();
    engine.set_input(ratio(1, 2));
    engine.apply_operator(Operator::Divide).unwrap();
    assert_eq!(*engine.current_value(), ratio(13, 2));
    engine.set_input(ratio(13, 1));
    engine.evaluate().unwrap();
    assert_eq!(*engine.current_value(), ratio(1, 2));
}

#[test]
fn clear_after_a_pending_operation_shows_zero() {
    let mut engine = Engine::new();
    engine.set_input(ratio(9, 4));
    engine.apply_operator(Operator::Divide).unwrap();
    engine.set_input(ratio(2, 1));
    engine.clear();
    assert_eq!(*engine.current_value(), ratio(0, 1));
    // nothing is pending any more: equals keeps zero
    engine.evaluate().unwrap();
    assert_eq!(*engine.current_value(), ratio(0, 1));
}

#[test]
fn integers_are_shown_in_full_with_no_digits_allowed() {
    assert_eq!(format_rational(&ratio(123, 1), 0), "123");
    assert_eq!(format_rational(&ratio(-1000, 1), 0), "-1000");
}

#[test]
fn tilde_marks_values_that_need_more_digits() {
    assert_eq!(format_rational(&ratio(1, 4), 2), "0.25");
    assert_eq!(format_rational(&ratio(1, 4), 1), "~0.3");
    assert_eq!(format_rational(&ratio(-1, 4), 1), "~-0.3");
}

#[test]
fn inexact_display_reads_back_as_the_rounded_value() {
    let shown = format_rational(&ratio(2, 3), 4);
    assert_eq!(shown, "~0.6667");
    assert_eq!(parse_number(&shown[1..]).ok(), Some(ratio(6667, 10000)));
    let shown = format_rational(&ratio(1, 1000), 2);
    assert_eq!(shown, "~0");
    assert_eq!(parse_number(&shown[1..]).ok(), Some(ratio(0, 1)));
    let shown = format_rational(&ratio(-29, 20), 1);
    assert_eq!(shown, "~-1.5");
    assert_eq!(parse_number(&shown[1..]).ok(), Some(ratio(-3, 2)));
}

#[test]
fn exact_display_reads_back_as_the_value() {
    let v = ratio(-22, 8);
    let shown = format_rational(&v, 10);
    assert_eq!(shown, "-2.75");
    assert_eq!(parse_number(&shown).ok(), Some(v));
    let v = ratio(1234567, 1000);
    assert_eq!(parse_number(&format_rational(&v, 3)).ok(), Some(v));
}

#[test]
fn leading_minus_negates() {
    assert_eq!(parse_number("-3.5").ok(), Some(ratio(-7, 2)));
    assert_eq!(parse_number("3.5").ok(), Some(ratio(7, 2)));
    assert_eq!(parse_number("-0.0").ok(), Some(ratio(0, 1)));
}
