//! The calculator engine: operators, the state machine of a pocket
//! calculator (pending operation, last result, repeated equals) and the
//! parser of decimal numbers.

use vstd::prelude::*;
use vstd::arithmetic::power::{lemma_pow_positive, pow};

use crate::number::{
    integer_add, integer_from_decimal, integer_from_i64, integer_mul, integer_neg, integer_parse,
    integer_pow, normalize, rat_add, rat_div, rat_mul, rat_sub, rational_add, rational_div,
    rational_is_zero, rational_mul, rational_new, rational_sub, rational_zero, Rational,
};
use crate::text::{
    chars_to_string, find_char, find_char_index, slice_chars, str_chars, trim, trim_chars,
};

verus! {

// ---------------------------------------------------------------------------
// Errors
// ---------------------------------------------------------------------------

/// Why an operation of the calculator failed.
#[derive(Debug, PartialEq, Eq)]
pub enum CalcError {
    /// A division whose divisor is zero.
    DivisionByZero,
    /// A number was expected and the input was blank.
    EmptyInput,
    /// The (trimmed) input is not a decimal number.
    InvalidNumber(String),
}

/// What a `CalcError` holds, with its text as characters.
pub enum Failure {
    DivisionByZero,
    EmptyInput,
    InvalidNumber(Seq<char>),
}

impl View for CalcError {
    type V = Failure;

    open spec fn view(&self) -> Failure {
        match self {
            CalcError::DivisionByZero => Failure::DivisionByZero,
            CalcError::EmptyInput => Failure::EmptyInput,
            CalcError::InvalidNumber(s) => Failure::InvalidNumber(s@),
        }
    }
}

/// The message that reports a failure.
pub open spec fn failure_message(f: Failure) -> Seq<char> {
    match f {
        Failure::DivisionByZero => "Division by zero"@,
        Failure::EmptyInput => "Empty input"@,
        Failure::InvalidNumber(s) => "Invalid number: "@ + s,
    }
}

impl CalcError {
    /// The message that reports this error.
    pub fn message(&self) -> (r: String)
        ensures
            r@ == failure_message(self@),
    {
        broadcast use vstd::string::group_string_axioms;

        match self {
            CalcError::DivisionByZero => "Division by zero".to_string(),
            CalcError::EmptyInput => "Empty input".to_string(),
            CalcError::InvalidNumber(s) => {
                let mut v = str_chars("Invalid number: ");
                let mut w = str_chars(s.as_str());
                v.append(&mut w);
                chars_to_string(&v)
            },
        }
    }
}

// ---------------------------------------------------------------------------
// Operators
// ---------------------------------------------------------------------------

/// Supported binary operations.
#[derive(Debug, Clone, Copy, PartialEq, Eq, Structural)]
pub enum Operator {
    Add,
    Subtract,
    Multiply,
    Divide,
}

/// The operator that a character names, if any.
pub open spec fn operator_of_char(c: char) -> Option<Operator> {
    if c == '+' {
        Some(Operator::Add)
    } else if c == '-' {
        Some(Operator::Subtract)
    } else if c == '*' {
        Some(Operator::Multiply)
    } else if c == '/' {
        Some(Operator::Divide)
    } else {
        None
    }
}

/// `lhs op rhs`, or `None` for a division by zero.
pub open spec fn apply_spec(op: Operator, lhs: (int, int), rhs: (int, int)) -> Option<(int, int)> {
    match op {
        Operator::Add => Some(rat_add(lhs, rhs)),
        Operator::Subtract => Some(rat_sub(lhs, rhs)),
        Operator::Multiply => Some(rat_mul(lhs, rhs)),
        Operator::Divide => if rhs.0 == 0 {
            None
        } else {
            Some(rat_div(lhs, rhs))
        },
    }
}

impl Operator {
    /// Parse an operator from a single character.
    pub fn from_char(c: char) -> (r: Option<Self>)
        ensures
            r == operator_of_char(c),
    {
        match c {
            '+' => Some(Self::Add),
            '-' => Some(Self::Subtract),
            '*' => Some(Self::Multiply),
            '/' => Some(Self::Divide),
            _ => None,
        }
    }

    /// Apply this operator to two operands.  Division by zero is an error.
    pub fn apply(self, lhs: &Rational, rhs: &Rational) -> (r: Result<Rational, CalcError>)
        ensures
            match apply_spec(self, lhs@, rhs@) {
                Some(v) => r matches Ok(x) && x@ == v,
                None => r matches Err(e) && e is DivisionByZero,
            },
    {
        match self {
            Operator::Add => Ok(rational_add(lhs, rhs)),
            Operator::Subtract => Ok(rational_sub(lhs, rhs)),
            Operator::Multiply => Ok(rational_mul(lhs, rhs)),
            Operator::Divide => {
                if rational_is_zero(rhs) {
                    return Err(CalcError::DivisionByZero);
                }
                Ok(rational_div(lhs, rhs))
            },
        }
    }
}

// ---------------------------------------------------------------------------
// Engine
// ---------------------------------------------------------------------------

/// What an `Engine` holds, with each number as a reduced fraction.
pub struct EngineState {
    pub last_result: (int, int),
    pub accumulator: (int, int),
    pub pending_op: Option<Operator>,
    pub pending_lhs: Option<(int, int)>,
    pub has_input: bool,
    pub just_evaluated: bool,
    pub last_op: Option<(Operator, (int, int))>,
}

/// The left operand of a pending operation; zero when none was kept.
pub open spec fn lhs_or_zero(lhs: Option<(int, int)>) -> (int, int) {
    match lhs {
        Some(q) => q,
        None => (0, 1),
    }
}

/// The state of a new engine: everything zero, nothing pending.
pub open spec fn initial_state() -> EngineState {
    EngineState {
        last_result: (0, 1),
        accumulator: (0, 1),
        pending_op: None,
        pending_lhs: None,
        has_input: false,
        just_evaluated: false,
        last_op: None,
    }
}

/// The state after a number was entered.
pub open spec fn set_input_step(s: EngineState, value: (int, int)) -> EngineState {
    EngineState { accumulator: value, has_input: true, just_evaluated: false, ..s }
}

/// The state after an operator key, or `None` where evaluating the pending
/// operation divides by zero.
pub open spec fn apply_operator_step(s: EngineState, op: Operator) -> Option<EngineState> {
    if s.just_evaluated && !s.has_input {
        Some(
            EngineState {
                pending_lhs: Some(s.last_result),
                pending_op: Some(op),
                has_input: false,
                just_evaluated: false,
                ..s
            },
        )
    } else {
        let acc = if s.pending_op is Some && s.has_input {
            apply_spec(s.pending_op->Some_0, lhs_or_zero(s.pending_lhs), s.accumulator)
        } else {
            Some(s.accumulator)
        };
        match acc {
            Some(a) => Some(
                EngineState {
                    accumulator: a,
                    pending_lhs: Some(a),
                    pending_op: Some(op),
                    has_input: false,
                    just_evaluated: false,
                    ..s
                },
            ),
            None => None,
        }
    }
}

/// The state after the equals key, or `None` where the operation divides by
/// zero.
pub open spec fn evaluate_step(s: EngineState) -> Option<EngineState> {
    match s.pending_op {
        Some(op) => {
            let lhs = lhs_or_zero(s.pending_lhs);
            let rhs = if s.has_input {
                s.accumulator
            } else {
                s.last_result
            };
            match apply_spec(op, lhs, rhs) {
                Some(r) => Some(
                    EngineState {
                        last_op: Some((op, rhs)),
                        accumulator: r,
                        last_result: r,
                        pending_op: None,
                        pending_lhs: None,
                        has_input: false,
                        just_evaluated: true,
                        ..s
                    },
                ),
                None => None,
            }
        },
        None => if s.just_evaluated {
            match s.last_op {
                Some((op, rhs)) => match apply_spec(op, s.accumulator, rhs) {
                    Some(r) => Some(EngineState { accumulator: r, last_result: r, ..s }),
                    None => None,
                },
                None => Some(s),
            }
        } else {
            Some(EngineState { last_result: s.accumulator, just_evaluated: true, ..s })
        },
    }
}

/// The state after the clear key: the last result is kept.
pub open spec fn clear_step(s: EngineState) -> EngineState {
    EngineState {
        accumulator: (0, 1),
        pending_op: None,
        pending_lhs: None,
        has_input: false,
        just_evaluated: false,
        last_op: None,
        ..s
    }
}

/// The calculator engine. Tracks pending operations and the last result.
pub struct Engine {
    /// The last computed result (used as implicit first operand).
    last_result: Rational,
    /// The current accumulated value being entered/computed.
    accumulator: Rational,
    /// A pending operator waiting for the second operand.
    pending_op: Option<Operator>,
    /// The left-hand side of the pending operation.
    pending_lhs: Option<Rational>,
    /// Whether a new number entry has started.
    has_input: bool,
    /// Whether the last action was pressing equals.
    just_evaluated: bool,
    /// The last operator and operand, for repeated equals.
    last_op: Option<(Operator, Rational)>,
}

pub open spec fn opt_view(o: Option<Rational>) -> Option<(int, int)> {
    match o {
        Some(q) => Some(q@),
        None => None,
    }
}

impl View for Engine {
    type V = EngineState;

    closed spec fn view(&self) -> EngineState {
        EngineState {
            last_result: self.last_result@,
            accumulator: self.accumulator@,
            pending_op: self.pending_op,
            pending_lhs: opt_view(self.pending_lhs),
            has_input: self.has_input,
            just_evaluated: self.just_evaluated,
            last_op: match self.last_op {
                Some((op, q)) => Some((op, q@)),
                None => None,
            },
        }
    }
}

impl Engine {
    /// Create a new calculator engine with initial state.
    pub fn new() -> (r: Self)
        ensures
            r@ == initial_state(),
    {
        Engine {
            last_result: rational_zero(),
            accumulator: rational_zero(),
            pending_op: None,
            pending_lhs: None,
            has_input: false,
            just_evaluated: false,
            last_op: None,
        }
    }

    /// Get the current display value.
    pub fn current_value(&self) -> (r: &Rational)
        ensures
            r@ == self@.accumulator,
    {
        &self.accumulator
    }

    /// Set the accumulator to a parsed rational number.
    pub fn set_input(&mut self, value: Rational)
        ensures
            final(self)@ == set_input_step(old(self)@, value@),
    {
        self.accumulator = value;
        self.has_input = true;
        self.just_evaluated = false;
    }

    /// Apply an operator. If there is a pending operation, evaluate it first.
    pub fn apply_operator(&mut self, op: Operator) -> (r: Result<(), CalcError>)
        ensures
            match apply_operator_step(old(self)@, op) {
                Some(s) => r is Ok && final(self)@ == s,
                None => r matches Err(e) && e is DivisionByZero && final(self)@ == old(self)@,
            },
    {
        if self.just_evaluated && !self.has_input {
            // After pressing equals, start a new chain with the last result
            self.pending_lhs = Some(self.last_result.clone());
            self.pending_op = Some(op);
            self.has_input = false;
            self.just_evaluated = false;
            return Ok(());
        }
        if let Some(pending) = self.pending_op {
            if self.has_input {
                // Evaluate the pending operation
                let lhs = match &self.pending_lhs {
                    Some(q) => q.clone(),
                    None => rational_zero(),
                };
                let result = pending.apply(&lhs, &self.accumulator)?;
                self.accumulator = result;
            }
        }
        // If no input, the user is changing the operator
        self.pending_lhs = Some(self.accumulator.clone());
        self.pending_op = Some(op);
        self.has_input = false;
        self.just_evaluated = false;
        Ok(())
    }

    /// Evaluate the pending operation (equals key).
    pub fn evaluate(&mut self) -> (r: Result<(), CalcError>)
        ensures
            match evaluate_step(old(self)@) {
                Some(s) => r is Ok && final(self)@ == s,
                None => r matches Err(e) && e is DivisionByZero && final(self)@ == old(self)@,
            },
    {
        if let Some(op) = self.pending_op {
            let lhs = match &self.pending_lhs {
                Some(q) => q.clone(),
                None => rational_zero(),
            };
            let rhs = if self.has_input {
                self.accumulator.clone()
            } else {
                // No second operand: use the last result as a convenience
                self.last_result.clone()
            };
            let result = op.apply(&lhs, &rhs)?;
            self.last_op = Some((op, rhs));
            self.accumulator = result.clone();
            self.last_result = result;
            self.pending_op = None;
            self.pending_lhs = None;
            self.has_input = false;
            self.just_evaluated = true;
        } else if self.just_evaluated {
            // Repeat last operation
            let repeated = match &self.last_op {
                Some((op, rhs)) => Some(op.apply(&self.accumulator, rhs)),
                None => None,
            };
            if let Some(outcome) = repeated {
                let result = outcome?;
                self.accumulator = result.clone();
                self.last_result = result;
            }
        } else {
            // No pending operation, just set last_result
            self.last_result = self.accumulator.clone();
            self.just_evaluated = true;
        }
        Ok(())
    }

    /// Clear the current state (C key).
    pub fn clear(&mut self)
        ensures
            final(self)@ == clear_step(old(self)@),
    {
        self.accumulator = rational_zero();
        self.pending_op = None;
        self.pending_lhs = None;
        self.has_input = false;
        self.just_evaluated = false;
        self.last_op = None;
    }
}

impl Default for Engine {
    fn default() -> (r: Self)
        ensures
            r@ == initial_state(),
    {
        Self::new()
    }
}

// ---------------------------------------------------------------------------
// Decimal numbers
// ---------------------------------------------------------------------------

/// The value of decimal text `t` (already trimmed): an optional leading '-',
/// then either integer notation, or digits around the first '.' of which at
/// least one side is present.  Each side is read as `integer_from_decimal`
/// reads it; a missing integer side counts as 0.
pub open spec fn decimal_value(t: Seq<char>) -> Result<(int, int), Failure> {
    if t.len() == 0 {
        Err(Failure::EmptyInput)
    } else {
        let negative = t[0] == '-';
        let digits = if negative {
            t.drop_first()
        } else {
            t
        };
        match find_char(digits, '.') {
            Some(p) => fraction_value(t, negative, digits.take(p), digits.skip(p + 1)),
            None => whole_value(t, negative, digits),
        }
    }
}

/// The value of text `t` read as an integer `digits` after an optional '-'.
#[verifier::opaque]
pub open spec fn whole_value(t: Seq<char>, negative: bool, digits: Seq<char>) -> Result<
    (int, int),
    Failure,
> {
    match integer_from_decimal(digits) {
        Some(v) => Ok(
            normalize(
                if negative {
                    -v
                } else {
                    v
                },
                1,
            ),
        ),
        None => Err(Failure::InvalidNumber(t)),
    }
}

/// The value of text `t` read as `ip.fp` after an optional '-'.
#[verifier::opaque]
pub open spec fn fraction_value(t: Seq<char>, negative: bool, ip: Seq<char>, fp: Seq<char>) -> Result<
    (int, int),
    Failure,
> {
    let scale = pow(10, fp.len());
    let int_val = integer_from_decimal(
        if ip.len() == 0 {
            seq!['0']
        } else {
            ip
        },
    );
    let frac_val = if fp.len() == 0 {
        Some(0int)
    } else {
        integer_from_decimal(fp)
    };
    if ip.len() == 0 && fp.len() == 0 {
        Err(Failure::InvalidNumber(t))
    } else if int_val is None || frac_val is None {
        Err(Failure::InvalidNumber(t))
    } else {
        let numer = int_val->Some_0 * scale + frac_val->Some_0;
        Ok(
            normalize(
                if negative {
                    -numer
                } else {
                    numer
                },
                scale,
            ),
        )
    }
}

/// The value of the text `t` whose `digits` (after an optional '-') hold
/// their first '.' at `dot_pos`.
fn parse_fraction(t: &Vec<char>, digits: &Vec<char>, negative: bool, dot_pos: usize) -> (r: Result<
    Rational,
    CalcError,
>)
    requires
        dot_pos < digits@.len(),
    ensures
        match fraction_value(t@, negative, digits@.take(dot_pos as int), digits@.skip(dot_pos + 1)) {
            Ok(v) => r matches Ok(x) && x@ == v,
            Err(f) => r matches Err(e) && e@ == f,
        },
{
    reveal(fraction_value);
    let n = digits.len();
    let integer_part = slice_chars(digits, 0, dot_pos);
    let frac_part = slice_chars(digits, dot_pos + 1, n);
    assert(integer_part@ =~= digits@.take(dot_pos as int));
    assert(frac_part@ =~= digits@.skip(dot_pos + 1));
    if integer_part.len() == 0 && frac_part.len() == 0 {
        return Err(CalcError::InvalidNumber(chars_to_string(t)));
    }
    let int_str = if integer_part.len() == 0 {
        vec!['0']
    } else {
        integer_part
    };
    assert(int_str@ =~= (if digits@.take(dot_pos as int).len() == 0 {
        seq!['0']
    } else {
        digits@.take(dot_pos as int)
    }));
    // numerator = integer part * 10^frac_len + fraction digits,
    // denominator = 10^frac_len
    let frac_len = frac_part.len();
    let ten = integer_from_i64(10);
    let scale = integer_pow(&ten, frac_len);
    let int_val = match integer_parse(int_str.as_slice()) {
        Some(x) => x,
        None => return Err(CalcError::InvalidNumber(chars_to_string(t))),
    };
    let frac_val = if frac_len == 0 {
        integer_from_i64(0)
    } else {
        match integer_parse(frac_part.as_slice()) {
            Some(x) => x,
            None => return Err(CalcError::InvalidNumber(chars_to_string(t))),
        }
    };
    let numer = integer_add(&integer_mul(&int_val, &scale), &frac_val);
    let numer = if negative {
        integer_neg(&numer)
    } else {
        numer
    };
    proof {
        lemma_pow_positive(10, frac_len as nat);
    }
    Ok(rational_new(&numer, &scale))
}

/// Parse a decimal string into an exact fraction, ignoring surrounding
/// whitespace.
///
/// Supports integers, decimals, and negative numbers.
pub fn parse_number(input: &str) -> (r: Result<Rational, CalcError>)
    ensures
        match decimal_value(trim(input@)) {
            Ok(v) => r matches Ok(x) && x@ == v,
            Err(f) => r matches Err(e) && e@ == f,
        },
{
    let raw = str_chars(input);
    let t = trim_chars(&raw);
    parse_trimmed(&t)
}

/// The value of the trimmed text `t`.
fn parse_trimmed(t: &Vec<char>) -> (r: Result<Rational, CalcError>)
    ensures
        match decimal_value(t@) {
            Ok(v) => r matches Ok(x) && x@ == v,
            Err(f) => r matches Err(e) && e@ == f,
        },
{
    if t.len() == 0 {
        return Err(CalcError::EmptyInput);
    }
    let negative = t[0] == '-';
    let digits = if negative {
        slice_chars(t, 1, t.len())
    } else {
        slice_chars(t, 0, t.len())
    };
    assert(digits@ =~= (if negative {
        t@.drop_first()
    } else {
        t@
    }));
    match find_char_index(&digits, '.') {
        Some(dot_pos) => parse_fraction(t, &digits, negative, dot_pos),
        None => parse_whole(t, &digits, negative),
    }
}

/// The value of the text `t` whose `digits` (after an optional '-') hold no '.'.
fn parse_whole(t: &Vec<char>, digits: &Vec<char>, negative: bool) -> (r: Result<Rational, CalcError>)
    ensures
        match whole_value(t@, negative, digits@) {
            Ok(v) => r matches Ok(x) && x@ == v,
            Err(f) => r matches Err(e) && e@ == f,
        },
{
    reveal(whole_value);
    let val = match integer_parse(digits.as_slice()) {
        Some(x) => x,
        None => return Err(CalcError::InvalidNumber(chars_to_string(t))),
    };
    let val = if negative {
        integer_neg(&val)
    } else {
        val
    };
    Ok(rational_new(&val, &integer_from_i64(1)))
}

} // verus!
