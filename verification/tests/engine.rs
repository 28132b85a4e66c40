use exact::engine::{parse_number, Engine, Operator};
use exact::number::{Integer, Rational};
use num::bigint::BigInt;
use num::rational::BigRational;

fn from_big(q: &BigRational) -> Rational {
    Rational::new(
        Integer::from_le_bytes(q.numer().to_signed_bytes_le()),
        Integer::from_le_bytes(q.denom().to_signed_bytes_le()),
    )
}

fn ratio(n: i64, d: i64) -> Rational {
    from_big(&BigRational::new(BigInt::from(n), BigInt::from(d)))
}

// --- parse_number tests ---

#[test]
fn test_parse_integer() {
    assert_eq!(parse_number("42").ok(), Some(ratio(42, 1)));
}

#[test]
fn test_parse_negative() {
    assert_eq!(parse_number("-7").ok(), Some(ratio(-7, 1)));
}

#[test]
fn test_parse_decimal() {
    assert_eq!(parse_number("3.14").ok(), Some(ratio(314, 100)));
}

#[test]
fn test_parse_leading_dot() {
    assert_eq!(parse_number(".5").ok(), Some(ratio(5, 10)));
}

#[test]
fn test_parse_trailing_dot() {
    assert_eq!(parse_number("5.").ok(), Some(ratio(5, 1)));
}

#[test]
fn test_parse_empty() {
    assert!(parse_number("").is_err());
}

// --- Engine tests ---

#[test]
fn test_basic_addition() {
    let mut engine = Engine::new();
    engine.set_input(ratio(2, 1));
    engine.apply_operator(Operator::Add).ok();
    engine.set_input(ratio(3, 1));
    engine.evaluate().ok();
    assert_eq!(*engine.current_value(), ratio(5, 1));
}

#[test]
fn test_basic_subtraction() {
    let mut engine = Engine::new();
    engine.set_input(ratio(10, 1));
    engine.apply_operator(Operator::Subtract).ok();
    engine.set_input(ratio(3, 1));
    engine.evaluate().ok();
    assert_eq!(*engine.current_value(), ratio(7, 1));
}

#[test]
fn test_basic_multiplication() {
    let mut engine = Engine::new();
    engine.set_input(ratio(6, 1));
    engine.apply_operator(Operator::Multiply).ok();
    engine.set_input(ratio(7, 1));
    engine.evaluate().ok();
    assert_eq!(*engine.current_value(), ratio(42, 1));
}

#[test]
fn test_basic_division() {
    let mut engine = Engine::new();
    engine.set_input(ratio(22, 1));
    engine.apply_operator(Operator::Divide).ok();
    engine.set_input(ratio(7, 1));
    engine.evaluate().ok();
    assert_eq!(*engine.current_value(), ratio(22, 7));
}

#[test]
fn test_division_by_zero() {
    let mut engine = Engine::new();
    engine.set_input(ratio(1, 1));
    engine.apply_operator(Operator::Divide).ok();
    engine.set_input(ratio(0, 1));
    assert!(engine.evaluate().is_err());
}

#[test]
fn test_chained_operations() {
    // 2 + 3 + 4 = 9
    let mut engine = Engine::new();
    engine.set_input(ratio(2, 1));
    engine.apply_operator(Operator::Add).ok();
    engine.set_input(ratio(3, 1));
    engine.apply_operator(Operator::Add).ok();
    // At this point, 2+3=5 should be computed
    assert_eq!(*engine.current_value(), ratio(5, 1));
    engine.set_input(ratio(4, 1));
    engine.evaluate().ok();
    assert_eq!(*engine.current_value(), ratio(9, 1));
}

#[test]
fn test_result_carries_to_next_operation() {
    // Compute 2 + 3 = 5, then (without entering a new number) + 4 = 9
    let mut engine = Engine::new();
    engine.set_input(ratio(2, 1));
    engine.apply_operator(Operator::Add).ok();
    engine.set_input(ratio(3, 1));
    engine.evaluate().ok();
    assert_eq!(*engine.current_value(), ratio(5, 1));

    // Now press + without entering a number first
    engine.apply_operator(Operator::Add).ok();
    engine.set_input(ratio(4, 1));
    engine.evaluate().ok();
    assert_eq!(*engine.current_value(), ratio(9, 1));
}

#[test]
fn test_repeat_equals() {
    // 2 + 3 = 5, = 8, = 11 (repeat adding 3)
    let mut engine = Engine::new();
    engine.set_input(ratio(2, 1));
    engine.apply_operator(Operator::Add).ok();
    engine.set_input(ratio(3, 1));
    engine.evaluate().ok();
    assert_eq!(*engine.current_value(), ratio(5, 1));

    engine.evaluate().ok();
    assert_eq!(*engine.current_value(), ratio(8, 1));

    engine.evaluate().ok();
    assert_eq!(*engine.current_value(), ratio(11, 1));
}

#[test]
fn test_fraction_precision() {
    // 1/3 * 3 should equal exactly 1
    let mut engine = Engine::new();
    engine.set_input(ratio(1, 1));
    engine.apply_operator(Operator::Divide).ok();
    engine.set_input(ratio(3, 1));
    engine.evaluate().ok();
    assert_eq!(*engine.current_value(), ratio(1, 3));

    engine.apply_operator(Operator::Multiply).ok();
    engine.set_input(ratio(3, 1));
    engine.evaluate().ok();
    assert_eq!(*engine.current_value(), ratio(1, 1));
}

#[test]
fn test_clear() {
    let mut engine = Engine::new();
    engine.set_input(ratio(42, 1));
    engine.apply_operator(Operator::Add).ok();
    engine.clear();
    assert_eq!(*engine.current_value(), ratio(0, 1));
}

#[test]
fn test_last_result_as_second_operand() {
    // Compute 10 / 3, then compute 100 * (result)
    // Without entering a second operand, the last result is used
    let mut engine = Engine::new();
    engine.set_input(ratio(10, 1));
    engine.apply_operator(Operator::Divide).ok();
    engine.set_input(ratio(3, 1));
    engine.evaluate().ok();
    // last_result = 10/3
    assert_eq!(*engine.current_value(), ratio(10, 3));

    engine.set_input(ratio(100, 1));
    engine.apply_operator(Operator::Multiply).ok();
    // Don't enter a second operand, press equals
    // Should use last_result (10/3) as second operand
    engine.evaluate().ok();
    assert_eq!(*engine.current_value(), ratio(1000, 3));
}
