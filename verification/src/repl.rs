//! One line of the interactive calculator: what a line does to the engine
//! and what the calculator answers.

use vstd::prelude::*;

use crate::engine::{
    apply_operator_step, clear_step, decimal_value, evaluate_step, failure_message,
    operator_of_char, parse_number, set_input_step, CalcError, Engine, EngineState, Failure,
    Operator,
};
use crate::format::{format_rational, format_text};
use crate::text::{chars_to_string, slice_chars, str_chars, trim, trim_chars};

verus! {

/// Default maximum number of digits displayed after the decimal point.
pub const DEFAULT_MAX_FRACTIONAL_DIGITS: usize = 20;

/// The equals key: the new state, or the old one with the error.
pub open spec fn evaluate_outcome(s: EngineState) -> (EngineState, Result<(), Failure>) {
    match evaluate_step(s) {
        Some(t) => (t, Ok(())),
        None => (s, Err(Failure::DivisionByZero)),
    }
}

/// What `process_line` does: the state after the line, and its error, if any.
///
/// The (trimmed) line is `=`, or starts with an operator that may be followed
/// by `=` or by a number (entered, then evaluated), or is a number.
pub open spec fn process_line_step(s: EngineState, line: Seq<char>) -> (
    EngineState,
    Result<(), Failure>,
) {
    let l = trim(line);
    let first = if l.len() > 0 {
        l[0]
    } else {
        ' '
    };
    if first == '=' {
        evaluate_outcome(s)
    } else if operator_of_char(first) is Some {
        match apply_operator_step(s, operator_of_char(first)->Some_0) {
            None => (s, Err(Failure::DivisionByZero)),
            Some(s1) => {
                let rest = trim(l.drop_first());
                if rest.len() == 0 {
                    (s1, Ok(()))
                } else if rest == seq!['='] {
                    evaluate_outcome(s1)
                } else {
                    match decimal_value(trim(rest)) {
                        Err(f) => (s1, Err(f)),
                        Ok(v) => evaluate_outcome(set_input_step(s1, v)),
                    }
                }
            },
        }
    } else {
        match decimal_value(trim(l)) {
            Err(f) => (s, Err(f)),
            Ok(v) => (set_input_step(s, v), Ok(())),
        }
    }
}

/// Whether `v` holds exactly the characters of `s`.
fn chars_equal(v: &Vec<char>, s: &str) -> (r: bool)
    ensures
        r == (v@ == s@),
{
    let w = str_chars(s);
    if v.len() != w.len() {
        return false;
    }
    let mut i: usize = 0;
    while i < v.len()
        invariant
            i <= v@.len() == w@.len(),
            w@ == s@,
            forall|j: int| 0 <= j < i ==> v@[j] == w@[j],
        decreases v@.len() - i,
    {
        if v[i] != w[i] {
            return false;
        }
        i += 1;
    }
    assert(v@ =~= w@);
    true
}

/// Process a single line of input.
///
/// Supports formats like:
/// - `5` (set a number)
/// - `+ 3` (operator and number)
/// - `+` (operator only, second operand from last result)
/// - `=` (evaluate)
/// - `* 2` then `=` on next line
pub fn process_line(line: &str, engine: &mut Engine) -> (r: Result<(), CalcError>)
    ensures
        final(engine)@ == process_line_step(old(engine)@, line@).0,
        match process_line_step(old(engine)@, line@).1 {
            Ok(_) => r is Ok,
            Err(f) => r matches Err(e) && e@ == f,
        },
{
    let raw = str_chars(line);
    let l = trim_chars(&raw);
    // Check if line starts with an operator
    let first_char = if l.len() > 0 {
        l[0]
    } else {
        ' '
    };
    if first_char == '=' {
        engine.evaluate()?;
        return Ok(());
    }
    if let Some(op) = Operator::from_char(first_char) {
        // Line starts with an operator
        let after = slice_chars(&l, 1, l.len());
        assert(after@ =~= l@.drop_first());
        let rest = trim_chars(&after);
        engine.apply_operator(op)?;
        if rest.len() == 0 {
            // No second operand; will use last result when equals is pressed
        } else if rest.len() == 1 && rest[0] == '=' {
            assert(rest@ =~= seq!['=']);
            engine.evaluate()?;
        } else {
            assert(rest@ != seq!['=']);
            let value = parse_number(chars_to_string(&rest).as_str())?;
            engine.set_input(value);
            engine.evaluate()?;
        }
        return Ok(());
    }
    // A line that starts with '-' was taken as a subtraction above, so a
    // negative number can only be entered after an operator (`* -2`).
    // Any other line is a number.
    let value = parse_number(chars_to_string(&l).as_str())?;
    engine.set_input(value);
    Ok(())
}

/// The answer of the calculator to one line of input.
pub enum Response {
    /// A blank line: nothing to answer.
    Skip,
    /// The user asked to leave.
    Quit,
    /// A line of output.
    Show(String),
}

/// What a `Response` holds, with its text as characters.
pub enum Reply {
    Skip,
    Quit,
    Show(Seq<char>),
}

impl View for Response {
    type V = Reply;

    open spec fn view(&self) -> Reply {
        match self {
            Response::Skip => Reply::Skip,
            Response::Quit => Reply::Quit,
            Response::Show(s) => Reply::Show(s@),
        }
    }
}

/// How the calculator answers the line `line` in state `s`: blank lines are
/// skipped, `q`/`quit`/`exit` leave, `c`/`clear` clear and show 0; any other
/// line goes through `process_line_step`, and then the current value (or the
/// error) is shown, indented by two spaces.
pub open spec fn respond_step(s: EngineState, line: Seq<char>, max_digits: nat) -> (
    EngineState,
    Reply,
) {
    let l = trim(line);
    if l.len() == 0 {
        (s, Reply::Skip)
    } else if l == "q"@ || l == "quit"@ || l == "exit"@ {
        (s, Reply::Quit)
    } else if l == "c"@ || l == "clear"@ {
        (clear_step(s), Reply::Show("  0"@))
    } else {
        let (t, res) = process_line_step(s, l);
        match res {
            Err(f) => (t, Reply::Show("  Error: "@ + failure_message(f))),
            Ok(_) => (t, Reply::Show("  "@ + format_text(t.accumulator, max_digits))),
        }
    }
}

/// Answer one line of input, as the interactive calculator does between
/// reading the line and printing the answer.
pub fn respond(engine: &mut Engine, line: &str, max_digits: usize) -> (r: Response)
    ensures
        final(engine)@ == respond_step(old(engine)@, line@, max_digits as nat).0,
        r@ == respond_step(old(engine)@, line@, max_digits as nat).1,
{
    let raw = str_chars(line);
    let l = trim_chars(&raw);
    if l.len() == 0 {
        return Response::Skip;
    }
    if chars_equal(&l, "q") || chars_equal(&l, "quit") || chars_equal(&l, "exit") {
        return Response::Quit;
    }
    if chars_equal(&l, "c") || chars_equal(&l, "clear") {
        engine.clear();
        return Response::Show(chars_to_string(&str_chars("  0")));
    }
    let text = chars_to_string(&l);
    match process_line(text.as_str(), engine) {
        Err(e) => {
            let mut out = str_chars("  Error: ");
            let mut msg = str_chars(e.message().as_str());
            out.append(&mut msg);
            Response::Show(chars_to_string(&out))
        },
        Ok(()) => {
            let mut out = str_chars("  ");
            let shown = format_rational(engine.current_value(), max_digits);
            let mut w = str_chars(shown.as_str());
            out.append(&mut w);
            Response::Show(chars_to_string(&out))
        },
    }
}

} // verus!
