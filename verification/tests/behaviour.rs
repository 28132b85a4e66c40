use exact::engine::{parse_number, CalcError, Engine, Operator};
use exact::format::{format_rational, round_decimal_str, round_up_digits};
use exact::number::{Integer, Rational};
use exact::repl::{process_line, respond, Response};
use num::bigint::BigInt;
use num::rational::BigRational;

fn ratio(n: i64, d: i64) -> Rational {
    let q = BigRational::new(BigInt::from(n), BigInt::from(d));
    Rational::new(
        Integer::from_le_bytes(q.numer().to_signed_bytes_le()),
        Integer::from_le_bytes(q.denom().to_signed_bytes_le()),
    )
}

fn show(r: Response) -> String {
    match r {
        Response::Show(s) => s,
        Response::Skip => "<skip>".to_string(),
        Response::Quit => "<quit>".to_string(),
    }
}

#[test]
fn from_char_maps_the_four_symbols() {
    assert_eq!(Operator::from_char('+'), Some(Operator::Add));
    assert_eq!(Operator::from_char('-'), Some(Operator::Subtract));
    assert_eq!(Operator::from_char('*'), Some(Operator::Multiply));
    assert_eq!(Operator::from_char('/'), Some(Operator::Divide));
    assert_eq!(Operator::from_char('x'), None);
    assert_eq!(Operator::from_char('='), None);
}

#[test]
fn apply_computes_exactly() {
    assert_eq!(Operator::Add.apply(&ratio(1, 3), &ratio(1, 6)).ok(), Some(ratio(1, 2)));
    assert_eq!(Operator::Subtract.apply(&ratio(1, 3), &ratio(1, 2)).ok(), Some(ratio(-1, 6)));
    assert_eq!(Operator::Multiply.apply(&ratio(2, 3), &ratio(-3, 4)).ok(), Some(ratio(-1, 2)));
    assert_eq!(Operator::Divide.apply(&ratio(1, 2), &ratio(-1, 4)).ok(), Some(ratio(-2, 1)));
}

#[test]
fn apply_refuses_division_by_zero() {
    assert_eq!(
        Operator::Divide.apply(&ratio(5, 1), &ratio(0, 1)),
        Err(CalcError::DivisionByZero)
    );
    assert!(Operator::Multiply.apply(&ratio(5, 1), &ratio(0, 1)).is_ok());
}

#[test]
fn rational_new_reduces() {
    let q = Rational::new(
        Integer::from_le_bytes(vec![6]),
        Integer::from_le_bytes(vec![0xfc]),
    );
    // 6 / -4 == -3 / 2
    assert_eq!(q, ratio(-3, 2));
    assert_eq!(*q.numer(), Integer::from_le_bytes(vec![0xfd]));
    assert_eq!(*q.denom(), Integer::from_le_bytes(vec![2]));
}

#[test]
fn parse_accepts_signs_underscores_and_whitespace() {
    assert_eq!(parse_number("  12.50 \t").ok(), Some(ratio(25, 2)));
    assert_eq!(parse_number("1_000").ok(), Some(ratio(1000, 1)));
    assert_eq!(parse_number("+5").ok(), Some(ratio(5, 1)));
    assert_eq!(parse_number("-.25").ok(), Some(ratio(-1, 4)));
    assert_eq!(parse_number("--5").ok(), Some(ratio(5, 1)));
    assert_eq!(parse_number("0.000").ok(), Some(ratio(0, 1)));
}

#[test]
fn parse_reports_invalid_numbers_with_the_trimmed_input() {
    assert_eq!(parse_number("  abc "), Err(CalcError::InvalidNumber("abc".to_string())));
    assert_eq!(parse_number("."), Err(CalcError::InvalidNumber(".".to_string())));
    assert_eq!(parse_number("-"), Err(CalcError::InvalidNumber("-".to_string())));
    assert_eq!(parse_number("1.2.3"), Err(CalcError::InvalidNumber("1.2.3".to_string())));
    assert_eq!(parse_number("_1"), Err(CalcError::InvalidNumber("_1".to_string())));
    assert_eq!(parse_number("   "), Err(CalcError::EmptyInput));
}

#[test]
fn error_messages() {
    assert_eq!(CalcError::DivisionByZero.message(), "Division by zero");
    assert_eq!(CalcError::EmptyInput.message(), "Empty input");
    assert_eq!(CalcError::InvalidNumber("1x".to_string()).message(), "Invalid number: 1x");
}

#[test]
fn set_input_reads_back() {
    let mut engine = Engine::new();
    assert_eq!(*engine.current_value(), ratio(0, 1));
    engine.set_input(ratio(7, 9));
    assert_eq!(*engine.current_value(), ratio(7, 9));
}

#[test]
fn failed_operations_leave_the_state() {
    let mut engine = Engine::new();
    engine.set_input(ratio(4, 1));
    engine.apply_operator(Operator::Divide).unwrap();
    engine.set_input(ratio(0, 1));
    assert_eq!(engine.apply_operator(Operator::Add), Err(CalcError::DivisionByZero));
    assert_eq!(*engine.current_value(), ratio(0, 1));
    // the pending division is still there
    engine.set_input(ratio(2, 1));
    engine.evaluate().unwrap();
    assert_eq!(*engine.current_value(), ratio(2, 1));
}

#[test]
fn equals_without_pending_keeps_the_value() {
    let mut engine = Engine::default();
    engine.set_input(ratio(3, 1));
    engine.evaluate().unwrap();
    engine.evaluate().unwrap();
    assert_eq!(*engine.current_value(), ratio(3, 1));
}

#[test]
fn clear_keeps_the_last_result() {
    let mut engine = Engine::new();
    engine.set_input(ratio(2, 1));
    engine.apply_operator(Operator::Multiply).unwrap();
    engine.set_input(ratio(3, 1));
    engine.evaluate().unwrap();
    engine.clear();
    assert_eq!(*engine.current_value(), ratio(0, 1));
    engine.apply_operator(Operator::Add).unwrap();
    engine.set_input(ratio(1, 1));
    engine.evaluate().unwrap();
    assert_eq!(*engine.current_value(), ratio(1, 1));
}

#[test]
fn round_up_digits_carries() {
    assert_eq!(round_up_digits("129"), "130");
    assert_eq!(round_up_digits("1299"), "1300");
    assert_eq!(round_up_digits("999"), "0000");
    assert_eq!(round_up_digits(""), "0");
    assert_eq!(round_up_digits("08"), "09");
}

#[test]
fn round_decimal_str_trims_zeros() {
    assert_eq!(round_decimal_str("1200"), "12");
    assert_eq!(round_decimal_str("000"), "0");
    assert_eq!(round_decimal_str(""), "0");
    assert_eq!(round_decimal_str("105"), "105");
}

#[test]
fn format_rounds_half_up() {
    assert_eq!(format_rational(&ratio(1, 8), 2), "~0.13");
    assert_eq!(format_rational(&ratio(-2, 3), 3), "~-0.667");
    assert_eq!(format_rational(&ratio(19, 20), 1), "~1");
    assert_eq!(format_rational(&ratio(7, 2), 0), "~4");
    assert_eq!(format_rational(&ratio(3, 2), 5), "1.5");
    // digits that all round to zero leave the integer part alone
    assert_eq!(format_rational(&ratio(1, 1000), 2), "~0");
    assert_eq!(format_rational(&ratio(1, 3), 0), "~0");
    assert_eq!(format_rational(&ratio(-1, 30), 1), "~-0");
    assert_eq!(format_rational(&ratio(201, 2000), 1), "~0.1");
    // a carry out of the digits raises the integer part
    assert_eq!(format_rational(&ratio(2, 3), 0), "~1");
    assert_eq!(format_rational(&ratio(24, 25), 1), "~1");
    assert_eq!(format_rational(&ratio(-399, 200), 2), "~-2");
}

#[test]
fn process_line_handles_operators_and_numbers() {
    let mut engine = Engine::new();
    process_line("12", &mut engine).unwrap();
    process_line("+ 3", &mut engine).unwrap();
    assert_eq!(*engine.current_value(), ratio(15, 1));
    process_line("* 2", &mut engine).unwrap();
    assert_eq!(*engine.current_value(), ratio(30, 1));
    process_line("=", &mut engine).unwrap();
    assert_eq!(*engine.current_value(), ratio(60, 1));
    process_line("-5", &mut engine).unwrap();
    assert_eq!(*engine.current_value(), ratio(55, 1));
    process_line("/", &mut engine).unwrap();
    process_line("=", &mut engine).unwrap();
    assert_eq!(*engine.current_value(), ratio(1, 1));
    assert_eq!(process_line("/ 0", &mut engine), Err(CalcError::DivisionByZero));
    // the failed division is still pending
    assert_eq!(process_line("+", &mut engine), Err(CalcError::DivisionByZero));
    engine.clear();
    assert_eq!(
        process_line("+ zz", &mut engine),
        Err(CalcError::InvalidNumber("zz".to_string()))
    );
}

#[test]
fn respond_answers_lines() {
    let mut engine = Engine::new();
    assert!(matches!(respond(&mut engine, "   ", 20), Response::Skip));
    assert!(matches!(respond(&mut engine, " quit ", 20), Response::Quit));
    assert!(matches!(respond(&mut engine, "q", 20), Response::Quit));
    assert!(matches!(respond(&mut engine, "exit", 20), Response::Quit));
    assert_eq!(show(respond(&mut engine, "1", 20)), "  1");
    assert_eq!(show(respond(&mut engine, "/ 3", 20)), "  ~0.33333333333333333333");
    assert_eq!(show(respond(&mut engine, "/ 0", 20)), "  Error: Division by zero");
    assert_eq!(show(respond(&mut engine, "abc", 20)), "  Error: Invalid number: abc");
    assert_eq!(show(respond(&mut engine, "c", 20)), "  0");
    assert_eq!(*engine.current_value(), ratio(0, 1));
}
