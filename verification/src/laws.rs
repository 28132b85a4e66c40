//! Properties of the calculator that span several operations or hold of
//! every input, proved over the specifications of `engine`, `number` and
//! `format`.

use vstd::prelude::*;
use vstd::arithmetic::div_mod::{
    lemma_div_multiples_vanish, lemma_fundamental_div_mod, lemma_mod_multiples_basic,
    lemma_mod_multiples_vanish, lemma_mul_mod_noop_left, lemma_small_mod,
};
use vstd::arithmetic::power::pow;
use vstd::utf8::{
    encode_utf8, encode_utf8_decode_utf8, encode_utf8_valid_utf8, is_ascii_chars,
    is_ascii_chars_encode_utf8,
};

use crate::engine::{
    apply_operator_step, apply_spec, clear_step, decimal_value, evaluate_step, fraction_value,
    initial_state, lhs_or_zero, operator_of_char, set_input_step, whole_value, EngineState, Failure, Operator,
};
use crate::repl::{process_line_step, respond_step, Reply};
use crate::format::{
    decimal_digits, digit_at, digits_upto, first_exact_from, format_text, rem_after,
    round_decimal_text, round_up_bytes, round_up_text,
};
use crate::number::{
    abs, digit_char, digits_value, gcd, int_to_decimal, integer_from_decimal, is_digit,
    nat_to_decimal, normalize, rat_div, rat_mul,
};
use crate::text::{
    find_char, is_white_space, lemma_find_char_absent, lemma_find_char_first, lemma_trim_unchanged,
    trim, trim_trailing_zeros,
};

verus! {

// ---------------------------------------------------------------------------
// Fractions
// ---------------------------------------------------------------------------

/// `p` and `q` stand for the same number (their cross products agree).
pub open spec fn same_value(p: (int, int), q: (int, int)) -> bool {
    p.0 * q.1 == q.0 * p.1
}

/// The mathematical result of `a op b`, as an unreduced fraction.
pub open spec fn exact_result(op: Operator, a: (int, int), b: (int, int)) -> (int, int) {
    match op {
        Operator::Add => (a.0 * b.1 + b.0 * a.1, a.1 * b.1),
        Operator::Subtract => (a.0 * b.1 - b.0 * a.1, a.1 * b.1),
        Operator::Multiply => (a.0 * b.0, a.1 * b.1),
        Operator::Divide => (a.0 * b.1, a.1 * b.0),
    }
}

/// `gcd(a, b)` divides both `a` and `b`: the cofactors are returned.
proof fn lemma_gcd_divides(a: nat, b: nat) -> (r: (int, int))
    ensures
        a == gcd(a, b) * r.0,
        b == gcd(a, b) * r.1,
    decreases b,
{
    if b == 0 {
        (1, 0)
    } else {
        let (y, z) = lemma_gcd_divides(b, a % b);
        let g = gcd(a, b);
        assert(g == gcd(b, a % b));
        let q = (a / b) as int;
        let m = (a % b) as int;
        let ai = a as int;
        let bi = b as int;
        let gi = g as int;
        vstd::arithmetic::div_mod::lemma_fundamental_div_mod(a as int, b as int);
        assert(ai == bi * q + m);
        assert(ai == gi * (y * q + z)) by (nonlinear_arith)
            requires
                ai == bi * q + m,
                bi == gi * y,
                m == gi * z,
        ;
        (y * q + z, y)
    }
}

proof fn lemma_gcd_pos(a: nat, b: nat)
    requires
        a > 0 || b > 0,
    ensures
        gcd(a, b) > 0,
    decreases b,
{
    if b > 0 {
        lemma_gcd_pos(b, a % b);
    }
}

/// `normalize` keeps the number and gives a positive denominator.
pub proof fn lemma_normalize_value(n: int, d: int)
    requires
        d != 0,
    ensures
        normalize(n, d).1 > 0,
        same_value(normalize(n, d), (n, d)),
{
    let g = gcd(abs(n), abs(d)) as int;
    lemma_gcd_pos(abs(n), abs(d));
    let (kn, kd) = lemma_gcd_divides(abs(n), abs(d));
    // n == g * s and d == g * t with t > 0 when d > 0
    let s = if n < 0 {
        -kn
    } else {
        kn
    };
    let t = if d < 0 {
        -kd
    } else {
        kd
    };
    assert(n == g * s) by (nonlinear_arith)
        requires
            abs(n) == g * kn,
            s == (if n < 0 {
                -kn
            } else {
                kn
            }),
            abs(n) == (if n < 0 {
                -n
            } else {
                n
            }),
    ;
    assert(d == g * t) by (nonlinear_arith)
        requires
            abs(d) == g * kd,
            t == (if d < 0 {
                -kd
            } else {
                kd
            }),
            abs(d) == (if d < 0 {
                -d
            } else {
                d
            }),
    ;
    if d > 0 {
        lemma_div_multiples_vanish(s, g);
        lemma_div_multiples_vanish(t, g);
        assert(t > 0) by (nonlinear_arith)
            requires
                d == g * t,
                d > 0,
                g > 0,
        ;
        assert(s * d == n * t) by (nonlinear_arith)
            requires
                n == g * s,
                d == g * t,
        ;
    } else {
        assert(-n == g * (-s)) by (nonlinear_arith)
            requires
                n == g * s,
        ;
        assert(-d == g * (-t)) by (nonlinear_arith)
            requires
                d == g * t,
        ;
        lemma_div_multiples_vanish(-s, g);
        lemma_div_multiples_vanish(-t, g);
        assert(-t > 0) by (nonlinear_arith)
            requires
                d == g * t,
                d < 0,
                g > 0,
        ;
        assert((-s) * d == n * (-t)) by (nonlinear_arith)
            requires
                n == g * s,
                d == g * t,
        ;
    }
}

/// Exact arithmetic: every operation that succeeds gives a fraction with a
/// positive denominator equal in value to the mathematical result; nothing
/// is rounded.
pub proof fn law_operations_are_exact(op: Operator, a: (int, int), b: (int, int))
    requires
        a.1 > 0,
        b.1 > 0,
    ensures
        apply_spec(op, a, b) matches Some(r) ==> r.1 > 0 && same_value(r, exact_result(op, a, b)),
        apply_spec(op, a, b) is None <==> (op == Operator::Divide && b.0 == 0),
{
    assert(a.1 * b.1 != 0) by (nonlinear_arith)
        requires
            a.1 > 0,
            b.1 > 0,
    ;
    match op {
        Operator::Divide => {
            if b.0 != 0 {
                assert(a.1 * b.0 != 0) by (nonlinear_arith)
                    requires
                        a.1 > 0,
                        b.0 != 0,
                ;
                lemma_normalize_value(a.0 * b.1, a.1 * b.0);
            }
        },
        _ => {
            let e = exact_result(op, a, b);
            lemma_normalize_value(e.0, e.1);
        },
    }
}

/// Dividing by a number and multiplying by it again gives back the number
/// (as a value): `(a / b) * b == a` for every `b != 0`.
pub proof fn law_division_undone_by_multiplication(a: (int, int), b: (int, int))
    requires
        a.1 > 0,
        b.1 > 0,
        b.0 != 0,
    ensures
        same_value(rat_mul(rat_div(a, b), b), a),
{
    law_operations_are_exact(Operator::Divide, a, b);
    let q = rat_div(a, b);
    law_operations_are_exact(Operator::Multiply, q, b);
    let m = rat_mul(q, b);
    assert(m.0 * a.1 == a.0 * m.1) by (nonlinear_arith)
        requires
            m.0 * (q.1 * b.1) == (q.0 * b.0) * m.1,
            q.0 * (a.1 * b.0) == (a.0 * b.1) * q.1,
            q.1 > 0,
            b.1 > 0,
            b.0 != 0,
    ;
}

// ---------------------------------------------------------------------------
// Engine
// ---------------------------------------------------------------------------

/// What every state an engine can reach satisfies: right after equals, the
/// value shown is the last result and no operation is pending.
pub open spec fn consistent(s: EngineState) -> bool {
    s.just_evaluated ==> s.last_result == s.accumulator && s.pending_op is None
}

/// Every operation keeps `consistent`, and a new engine satisfies it.
pub proof fn law_operations_keep_consistency(s: EngineState, v: (int, int), op: Operator)
    requires
        consistent(s),
    ensures
        consistent(initial_state()),
        consistent(set_input_step(s, v)),
        consistent(clear_step(s)),
        apply_operator_step(s, op) matches Some(t) ==> consistent(t),
        evaluate_step(s) matches Some(t) ==> consistent(t),
{
}

/// A number that was entered is the value shown.
pub proof fn law_input_is_shown(s: EngineState, v: (int, int))
    ensures
        set_input_step(s, v).accumulator == v,
{
}

/// Clearing shows zero and forgets the pending and the repeated operation,
/// but keeps the last result for the next operator.
pub proof fn law_clear_shows_zero(s: EngineState, op: Operator)
    ensures
        clear_step(s).accumulator == (0int, 1int),
        clear_step(s).pending_op is None,
        clear_step(s).last_op is None,
        clear_step(s).last_result == s.last_result,
        evaluate_step(clear_step(s)) == Some(
            EngineState { last_result: (0int, 1int), just_evaluated: true, ..clear_step(s) },
        ),
{
}

/// After a successful equals, pressing equals again repeats the last
/// operation with the same right operand on the value shown.
pub proof fn law_repeated_equals(s: EngineState, t: EngineState, op: Operator, rhs: (int, int))
    requires
        evaluate_step(s) == Some(t),
        t.last_op == Some((op, rhs)),
    ensures
        evaluate_step(t) == (match apply_spec(op, t.accumulator, rhs) {
            Some(r) => Some(EngineState { accumulator: r, last_result: r, ..t }),
            None => None::<EngineState>,
        }),
{
}

/// After a successful equals, an operator key starts a new operation whose
/// left operand is the result shown.
pub proof fn law_result_carries_to_next_operation(s: EngineState, t: EngineState, op: Operator)
    requires
        consistent(s),
        evaluate_step(s) == Some(t),
    ensures
        apply_operator_step(t, op) == Some(
            EngineState {
                pending_lhs: Some(t.accumulator),
                pending_op: Some(op),
                has_input: false,
                just_evaluated: false,
                ..t
            },
        ),
{
    assert(t.pending_op is None);
    assert(t.last_result == t.accumulator);
    assert(t.just_evaluated);
}

/// An operator key after `lhs op1` and a second operand evaluates the
/// pending operation first: the shown value becomes `lhs op1 operand` and is
/// the left operand of the new operation.
pub proof fn law_operator_evaluates_pending(
    s: EngineState,
    op1: Operator,
    lhs: (int, int),
    operand: (int, int),
    op2: Operator,
)
    requires
        s.pending_op == Some(op1),
        s.pending_lhs == Some(lhs),
    ensures
        apply_operator_step(set_input_step(s, operand), op2) == (match apply_spec(
            op1,
            lhs,
            operand,
        ) {
            Some(r) => Some(
                EngineState {
                    accumulator: r,
                    pending_lhs: Some(r),
                    pending_op: Some(op2),
                    has_input: false,
                    just_evaluated: false,
                    ..s
                },
            ),
            None => None::<EngineState>,
        }),
{
}

// ---------------------------------------------------------------------------
// Display
// ---------------------------------------------------------------------------

/// Some `k <= count` makes `v * 10^k` an integer: `v` has an exact decimal
/// notation with at most `count` digits after the point.
pub open spec fn fits_in_digits(v: (int, int), count: nat) -> bool {
    exists|k: nat| k <= count && #[trigger] ((v.0 * pow(10, k)) % v.1) == 0
}

proof fn lemma_nat_to_decimal_starts_with_digit(n: nat)
    ensures
        nat_to_decimal(n).len() > 0,
        '0' <= nat_to_decimal(n)[0] <= '9',
    decreases n,
{
    if n >= 10 {
        lemma_nat_to_decimal_starts_with_digit(n / 10);
    }
}

/// An integer is displayed in full, whatever the number of digits allowed
/// after the point.
pub proof fn law_integers_shown_in_full(n: int, count: nat)
    ensures
        format_text((n, 1), count) == int_to_decimal(n),
{
    if n == 0 {
        assert(digit_char(0) == '0');
        assert(format_text((n, 1), count) =~= int_to_decimal(n));
    } else {
        let a = if n < 0 {
            -n
        } else {
            n
        };
        assert(a / 1 == a);
        assert(a % 1 == 0);
        assert(format_text((n, 1), count) =~= int_to_decimal(n));
    }
}

proof fn lemma_rem_after_is_mod(r: int, d: int, k: nat)
    requires
        0 <= r < d,
    ensures
        rem_after(r, d, k) == (r * pow(10, k)) % d,
    decreases k,
{
    if k == 0 {
        lemma_small_mod(r as nat, d as nat);
        assert(r * pow(10, 0) == r) by {
            vstd::arithmetic::power::lemma_pow0(10);
        }
    } else {
        lemma_rem_after_is_mod(r, d, (k - 1) as nat);
        let p = pow(10, (k - 1) as nat);
        lemma_mul_mod_noop_left(r * p, 10, d);
        assert(pow(10, k) == 10 * p) by {
            reveal(vstd::arithmetic::power::pow);
        }
        assert(r * pow(10, k) == (r * p) * 10) by (nonlinear_arith)
            requires
                pow(10, k) == 10 * p,
        ;
    }
}

proof fn lemma_first_exact_some(r: int, d: int, from: nat, count: nat)
    ensures
        first_exact_from(r, d, from, count) is Some <==> exists|k: nat|
            from <= k <= count && #[trigger] rem_after(r, d, k) == 0,
    decreases count + 1 - from,
{
    if from <= count {
        lemma_first_exact_some(r, d, from + 1, count);
        if rem_after(r, d, from) != 0 {
            assert forall|k: nat| from <= k <= count && #[trigger] rem_after(r, d, k) == 0 implies from
                + 1 <= k by {}
        }
    }
}

proof fn lemma_mod_zero_neg(x: int, d: int)
    requires
        d > 0,
    ensures
        (x % d == 0) <==> ((-x) % d == 0),
{
    lemma_fundamental_div_mod(x, d);
    lemma_fundamental_div_mod(-x, d);
    if x % d == 0 {
        lemma_mod_multiples_basic(-(x / d), d);
        assert(-x == (-(x / d)) * d) by (nonlinear_arith)
            requires
                x == d * (x / d) + 0,
        ;
    }
    if (-x) % d == 0 {
        lemma_mod_multiples_basic(-((-x) / d), d);
        assert(x == (-((-x) / d)) * d) by (nonlinear_arith)
            requires
                -x == d * ((-x) / d) + 0,
        ;
    }
}

/// `a * 10^k` and `(a % d) * 10^k` leave the same remainder modulo `d`.
proof fn lemma_scaled_remainder(a: int, d: int, k: nat)
    requires
        d > 0,
    ensures
        (a * pow(10, k)) % d == ((a % d) * pow(10, k)) % d,
{
    lemma_fundamental_div_mod(a, d);
    let p = pow(10, k);
    assert(a * p == d * ((a / d) * p) + (a % d) * p) by (nonlinear_arith)
        requires
            a == d * (a / d) + (a % d),
    ;
    lemma_mod_multiples_vanish((a / d) * p, (a % d) * p, d);
}

/// The display starts with '~' exactly when the value has no exact decimal
/// notation with at most `count` digits after the point.
pub proof fn law_tilde_marks_inexact_display(v: (int, int), count: nat)
    requires
        v.1 > 0,
    ensures
        format_text(v, count).len() > 0,
        (format_text(v, count)[0] == '~') <==> !fits_in_digits(v, count),
{
    let d = v.1;
    vstd::arithmetic::power::lemma_pow0(10);
    if v.0 == 0 {
        assert(v.0 * pow(10, 0) == 0);
        lemma_small_mod(0, d as nat);
        assert((v.0 * pow(10, 0)) % d == 0);
        assert(fits_in_digits(v, count));
    } else {
        let negative = v.0 < 0;
        let a = if negative {
            -v.0
        } else {
            v.0
        };
        let ip = a / d;
        let rem = a % d;
        vstd::arithmetic::div_mod::lemma_mod_pos_bound(a, d);
        vstd::arithmetic::div_mod::lemma_div_pos_is_pos(a, d);
        lemma_nat_to_decimal_starts_with_digit(ip as nat);
        lemma_nat_to_decimal_starts_with_digit((ip + 1) as nat);
        // v fits in k digits exactly when a does, and when rem does
        assert forall|k: nat| #[trigger] ((v.0 * pow(10, k)) % d) == 0 <==> rem_after(rem, d, k) == 0 by {
            lemma_rem_after_is_mod(rem, d, k);
            lemma_scaled_remainder(a, d, k);
            if negative {
                assert(v.0 * pow(10, k) == -(a * pow(10, k))) by (nonlinear_arith)
                    requires
                        v.0 == -a,
                ;
                lemma_mod_zero_neg(a * pow(10, k), d);
            }
        }
        if rem == 0 {
            assert(rem_after(rem, d, 0) == 0);
            assert((v.0 * pow(10, 0)) % d == 0);
            assert(fits_in_digits(v, count));
        } else {
            lemma_first_exact_some(rem, d, 1, count);
            let (digits, exact) = decimal_digits(rem, d, count);
            if exact {
                let k = choose|k: nat| 1 <= k <= count && #[trigger] rem_after(rem, d, k) == 0;
                assert((v.0 * pow(10, k)) % d == 0);
            } else {
                assert forall|k: nat| k <= count implies #[trigger] ((v.0 * pow(10, k)) % d) != 0 by {
                    if k >= 1 {
                        assert(rem_after(rem, d, k) != 0);
                    } else {
                        assert(rem_after(rem, d, 0) == rem);
                    }
                }
            }
        }
    }
}

// ---------------------------------------------------------------------------
// Rounding digit strings
// ---------------------------------------------------------------------------

pub open spec fn all_digits(s: Seq<char>) -> bool {
    forall|i: int| 0 <= i < s.len() ==> is_digit(#[trigger] s[i])
}

pub open spec fn all_nines(s: Seq<char>) -> bool {
    forall|i: int| 0 <= i < s.len() ==> #[trigger] s[i] == '9'
}

/// `n` characters '0'.
pub open spec fn zeros(n: nat) -> Seq<char> {
    Seq::new(n, |i: int| '0')
}

/// `round_up_bytes` on characters.
spec fn round_up_chars(s: Seq<char>) -> (Seq<char>, bool)
    decreases s.len(),
{
    if s.len() == 0 {
        (s, true)
    } else if s.last() == '9' {
        let (p, c) = round_up_chars(s.drop_last());
        (p.push('0'), c)
    } else {
        (s.drop_last().push(((s.last() as int) + 1) as char), false)
    }
}

proof fn lemma_round_up_chars(s: Seq<char>)
    requires
        all_digits(s),
    ensures
        all_nines(s) ==> round_up_chars(s) == (zeros(s.len()), true),
        !all_nines(s) ==> {
            let (t, c) = round_up_chars(s);
            &&& !c
            &&& t.len() == s.len()
            &&& all_digits(t)
            &&& digits_value(t) == digits_value(s) + 1
        },
    decreases s.len(),
{
    if s.len() == 0 {
        assert(zeros(0) =~= s);
    } else {
        let p = s.drop_last();
        lemma_round_up_chars(p);
        assert(all_nines(s) ==> all_nines(p));
        if s.last() == '9' {
            let (t, c) = round_up_chars(p);
            if all_nines(p) {
                assert(zeros(p.len()).push('0') =~= zeros(s.len()));
                assert(all_nines(s)) by {
                    assert forall|i: int| 0 <= i < s.len() implies #[trigger] s[i] == '9' by {
                        if i < p.len() {
                            assert(s[i] == p[i]);
                        }
                    }
                }
            } else {
                assert(!all_nines(s)) by {
                    let j = choose|j: int| 0 <= j < p.len() && p[j] != '9';
                    assert(s[j] == p[j]);
                }
                assert(t.push('0').drop_last() =~= t);
                assert(all_digits(t.push('0')));
                assert(digits_value(t.push('0')) == digits_value(t) * 10);
                assert(digits_value(s) == digits_value(p) * 10 + 9);
            }
        } else {
            assert(!all_nines(s)) by {
                assert(s[s.len() - 1] != '9');
            }
            let t = p.push(((s.last() as int) + 1) as char);
            assert(t.drop_last() =~= p);
            assert(is_digit(s.last()));
            assert((((s.last() as int) + 1) as char) as int == (s.last() as int) + 1);
            assert(all_digits(t));
            assert(digits_value(t) == digits_value(p) * 10 + (s.last() as int) + 1 - 48);
            assert(digits_value(s) == digits_value(p) * 10 + (s.last() as int) - 48);
        }
    }
}

/// For ASCII text, rounding the bytes is rounding the characters.
proof fn lemma_round_up_bytes_ascii(s: Seq<char>)
    requires
        all_digits(s),
    ensures
        round_up_bytes(encode_utf8(s)) == (encode_utf8(round_up_chars(s).0), round_up_chars(s).1),
        all_digits(round_up_chars(s).0),
    decreases s.len(),
{
    assert(is_ascii_chars(s));
    is_ascii_chars_encode_utf8(s);
    let b = encode_utf8(s);
    if s.len() > 0 {
        let p = s.drop_last();
        assert(is_ascii_chars(p));
        is_ascii_chars_encode_utf8(p);
        assert(b.drop_last() =~= encode_utf8(p));
        lemma_round_up_bytes_ascii(p);
        let (t, c) = round_up_chars(p);
        if s.last() == '9' {
            assert(b.last() == 57);
            let u = t.push('0');
            assert(all_digits(u));
            assert(is_ascii_chars(t));
            assert(is_ascii_chars(u));
            is_ascii_chars_encode_utf8(t);
            is_ascii_chars_encode_utf8(u);
            assert(encode_utf8(t).push(48) =~= encode_utf8(u));
        } else {
            assert(b.last() != 57);
            let u = p.push(((s.last() as int) + 1) as char);
            assert(all_digits(u));
            assert(is_ascii_chars(u));
            is_ascii_chars_encode_utf8(u);
            assert(b.drop_last().push(((b.last() + 1) % 256) as u8) =~= encode_utf8(u));
        }
    } else {
        assert(encode_utf8(s) =~= Seq::<u8>::empty());
        assert(s =~= Seq::<char>::empty());
    }
}

/// Rounding up a string of decimal digits adds one to the number they
/// write, keeping their count; when every digit is '9' the digits all
/// become '0' and a '0' is put in front.
pub proof fn law_round_up_adds_one(s: Seq<char>)
    requires
        all_digits(s),
    ensures
        all_nines(s) ==> round_up_text(s) == seq!['0'] + zeros(s.len()),
        !all_nines(s) ==> {
            &&& round_up_text(s).len() == s.len()
            &&& all_digits(round_up_text(s))
            &&& digits_value(round_up_text(s)) == digits_value(s) + 1
        },
{
    lemma_round_up_bytes_ascii(s);
    lemma_round_up_chars(s);
    let t = round_up_chars(s).0;
    encode_utf8_valid_utf8(t);
    encode_utf8_decode_utf8(t);
}

// ---------------------------------------------------------------------------
// Reading back what is displayed
// ---------------------------------------------------------------------------

proof fn lemma_same_value_trans(p: (int, int), q: (int, int), r: (int, int))
    requires
        same_value(p, q),
        same_value(q, r),
        q.1 != 0,
    ensures
        same_value(p, r),
{
    assert(p.0 * r.1 == r.0 * p.1) by (nonlinear_arith)
        requires
            p.0 * q.1 == q.0 * p.1,
            q.0 * r.1 == r.0 * q.1,
            q.1 != 0,
    ;
}

proof fn lemma_digits_value_push(p: Seq<char>, c: char)
    requires
        is_digit(c),
    ensures
        digits_value(p.push(c)) == digits_value(p) * 10 + (c as int - 48),
{
    let t = p.push(c);
    assert(t.drop_last() =~= p);
    assert(t.last() == c);
    assert(c != '_');
}

proof fn lemma_nat_to_decimal_value(n: nat)
    ensures
        all_digits(nat_to_decimal(n)),
        nat_to_decimal(n).len() > 0,
        digits_value(nat_to_decimal(n)) == n,
    decreases n,
{
    let t = nat_to_decimal(n);
    if n < 10 {
        assert(digit_char(n as int) as int == n + 48);
        assert(t =~= Seq::<char>::empty().push(digit_char(n as int)));
        lemma_digits_value_push(Seq::<char>::empty(), digit_char(n as int));
    } else {
        lemma_nat_to_decimal_value(n / 10);
        assert(digit_char((n % 10) as int) as int == n % 10 + 48);
        lemma_digits_value_push(nat_to_decimal(n / 10), digit_char((n % 10) as int));
        lemma_fundamental_div_mod(n as int, 10);
        assert(all_digits(t)) by {
            assert forall|i: int| 0 <= i < t.len() implies is_digit(#[trigger] t[i]) by {
                if i < t.len() - 1 {
                    assert(t[i] == nat_to_decimal(n / 10)[i]);
                }
            }
        }
    }
}

/// Digits without separators read back as their value.
proof fn lemma_read_digits(s: Seq<char>)
    requires
        s.len() > 0,
        all_digits(s),
    ensures
        integer_from_decimal(s) == Some(digits_value(s) as int),
{
    assert(is_digit(s[0]));
}

proof fn lemma_long_division(r: int, d: int, k: nat)
    requires
        0 <= r < d,
    ensures
        all_digits(digits_upto(r, d, k)),
        digits_value(digits_upto(r, d, k)) * d + rem_after(r, d, k) == r * pow(10, k),
    decreases k,
{
    reveal(vstd::arithmetic::power::pow);
    let t = digits_upto(r, d, k);
    if k == 0 {
        assert(t =~= Seq::<char>::empty());
        assert(digits_value(t) == 0);
        assert(pow(10, 0) == 1);
    } else {
        let k1 = (k - 1) as nat;
        lemma_long_division(r, d, k1);
        lemma_rem_after_bound_law(r, d, k1);
        assert(t =~= digits_upto(r, d, k1).push(digit_char(digit_at(r, d, k1))));
        let dig = digit_at(r, d, k1);
        assert(digit_char(dig) as int == dig + 48);
        lemma_digits_value_push(digits_upto(r, d, k1), digit_char(dig));
        assert(all_digits(t)) by {
            assert forall|i: int| 0 <= i < t.len() implies is_digit(#[trigger] t[i]) by {
                if i < k1 {
                    assert(t[i] == digits_upto(r, d, k1)[i]);
                }
            }
        }
        let x = rem_after(r, d, k1) * 10;
        lemma_fundamental_div_mod(x, d);
        let dv = digits_value(digits_upto(r, d, k1));
        assert(digits_value(t) == dv * 10 + dig);
        assert(pow(10, k) == 10 * pow(10, k1));
        let r1 = rem_after(r, d, k1);
        let rk = rem_after(r, d, k);
        let p1 = pow(10, k1);
        let pk = pow(10, k);
        assert((dv * 10 + dig) * d + rk == r * pk) by (nonlinear_arith)
            requires
                dv * d + r1 == r * p1,
                x == r1 * 10,
                x == d * dig + rk,
                pk == 10 * p1,
        ;
    }
}

proof fn lemma_rem_after_bound_law(r: int, d: int, k: nat)
    requires
        0 <= r < d,
    ensures
        0 <= rem_after(r, d, k) < d,
        0 <= digit_at(r, d, k) < 10,
    decreases k,
{
    if k > 0 {
        lemma_rem_after_bound_law(r, d, (k - 1) as nat);
    }
    let x = rem_after(r, d, k);
    vstd::arithmetic::div_mod::lemma_multiply_divide_lt(x * 10, d, 10);
    vstd::arithmetic::div_mod::lemma_div_pos_is_pos(x * 10, d);
    vstd::arithmetic::div_mod::lemma_mod_pos_bound(x * 10, d);
    if k > 0 {
        vstd::arithmetic::div_mod::lemma_mod_pos_bound(rem_after(r, d, (k - 1) as nat) * 10, d);
    }
}

proof fn lemma_first_exact_props(r: int, d: int, from: nat, count: nat, k: nat)
    requires
        first_exact_from(r, d, from, count) == Some(k),
    ensures
        from <= k <= count,
        rem_after(r, d, k) == 0,
        forall|j: nat| from <= j < k ==> rem_after(r, d, j) != 0,
    decreases count + 1 - from,
{
    if from <= count && rem_after(r, d, from) != 0 {
        lemma_first_exact_props(r, d, from + 1, count, k);
    }
}

/// The digits of an exact expansion end with a digit other than '0'.
proof fn lemma_exact_digits_untrimmed(r: int, d: int, k: nat)
    requires
        0 < r < d,
        k >= 1,
        rem_after(r, d, k) == 0,
        rem_after(r, d, (k - 1) as nat) != 0,
    ensures
        trim_trailing_zeros(digits_upto(r, d, k)) == digits_upto(r, d, k),
{
    let k1 = (k - 1) as nat;
    lemma_rem_after_bound_law(r, d, k1);
    let x = rem_after(r, d, k1) * 10;
    lemma_fundamental_div_mod(x, d);
    let dig = digit_at(r, d, k1);
    assert(dig != 0) by (nonlinear_arith)
        requires
            x == d * dig + 0,
            x > 0,
    ;
    assert(digit_char(dig) as int == dig + 48);
    assert(digits_upto(r, d, k).last() != '0');
}

spec fn sign_text(negative: bool) -> Seq<char> {
    if negative {
        seq!['-']
    } else {
        Seq::<char>::empty()
    }
}

spec fn signed(negative: bool, x: int) -> int {
    if negative {
        -x
    } else {
        x
    }
}

/// An optional '-' and the decimal notation of `n` read back as `n` or `-n`.
proof fn lemma_read_integer(negative: bool, n: nat)
    ensures
        decimal_value(trim(sign_text(negative) + nat_to_decimal(n))) == Ok::<(int, int), Failure>(
            normalize(signed(negative, n as int), 1),
        ),
{
    let istr = nat_to_decimal(n);
    let text = sign_text(negative) + istr;
    lemma_nat_to_decimal_value(n);
    assert(!is_white_space('-'));
    assert(is_digit(istr[0]));
    assert(is_digit(istr.last()));
    assert(!is_white_space(istr[0]));
    assert(!is_white_space(istr.last()));
    assert(text.last() == istr.last());
    lemma_trim_unchanged(text);
    let digits = if negative {
        text.drop_first()
    } else {
        text
    };
    assert(digits =~= istr);
    assert forall|j: int| 0 <= j < istr.len() implies istr[j] != '.' by {
        assert(is_digit(istr[j]));
    }
    lemma_find_char_absent(istr, '.');
    reveal(whole_value);
    lemma_read_digits(istr);
}

/// An optional '-', the decimal notation of `n`, a '.' and the digits `fp`
/// read back as `n + fp / 10^|fp|` or its negation.
proof fn lemma_read_decimal(negative: bool, n: nat, fp: Seq<char>)
    requires
        fp.len() > 0,
        all_digits(fp),
    ensures
        decimal_value(trim(sign_text(negative) + nat_to_decimal(n) + seq!['.'] + fp)) == Ok::<
            (int, int),
            Failure,
        >(normalize(signed(negative, n * pow(10, fp.len()) + digits_value(fp)), pow(10, fp.len()))),
{
    let istr = nat_to_decimal(n);
    let text = sign_text(negative) + istr + seq!['.'] + fp;
    lemma_nat_to_decimal_value(n);
    assert(is_digit(fp.last()));
    assert(!is_white_space(fp.last()));
    assert(is_digit(istr[0]));
    assert(!is_white_space(istr[0]));
    assert(!is_white_space('-'));
    assert(text.last() == fp.last());
    lemma_trim_unchanged(text);
    let digits = istr + seq!['.'] + fp;
    assert(digits =~= (if negative {
        text.drop_first()
    } else {
        text
    }));
    assert forall|j: int| 0 <= j < istr.len() implies digits[j] != '.' by {
        assert(is_digit(istr[j]));
    }
    lemma_find_char_first(digits, '.', istr.len() as int);
    assert(digits.take(istr.len() as int) =~= istr);
    assert(digits.skip(istr.len() as int + 1) =~= fp);
    reveal(fraction_value);
    lemma_read_digits(istr);
    lemma_read_digits(fp);
}

/// What is displayed without '~' reads back (through `parse_number`) as a
/// number equal to the value displayed.
pub proof fn law_exact_display_reads_back(v: (int, int), count: nat)
    requires
        v.1 > 0,
        format_text(v, count).len() > 0,
        format_text(v, count)[0] != '~',
    ensures
        decimal_value(trim(format_text(v, count))) matches Ok(q) && same_value(q, v),
{
    let d = v.1;
    let text = format_text(v, count);
    if v.0 == 0 {
        lemma_read_integer(false, 0);
        assert(text =~= sign_text(false) + nat_to_decimal(0));
        lemma_normalize_value(0, 1);
        lemma_same_value_trans(normalize(0, 1), (0, 1), v);
        return;
    }
    let negative = v.0 < 0;
    let a = if negative {
        -v.0
    } else {
        v.0
    };
    let ip = a / d;
    let rem = a % d;
    vstd::arithmetic::div_mod::lemma_mod_pos_bound(a, d);
    vstd::arithmetic::div_mod::lemma_div_pos_is_pos(a, d);
    lemma_fundamental_div_mod(a, d);
    let istr = nat_to_decimal(ip as nat);
    assert(int_to_decimal(ip) == istr);
    if rem == 0 {
        assert(text =~= sign_text(negative) + istr);
        lemma_read_integer(negative, ip as nat);
        let sv = signed(negative, ip);
        lemma_normalize_value(sv, 1);
        assert(same_value((sv, 1), v)) by (nonlinear_arith)
            requires
                a == d * ip + 0,
                sv == signed(negative, ip),
                v.0 == signed(negative, a),
                d == v.1,
        ;
        lemma_same_value_trans(normalize(sv, 1), (sv, 1), v);
    } else {
        let (digits_shown, exact) = decimal_digits(rem, d, count);
        assert(exact) by {
            if !exact {
                assert(text[0] == '~');
            }
        }
        let k = first_exact_from(rem, d, 1, count)->Some_0;
        lemma_first_exact_props(rem, d, 1, count, k);
        assert(digits_shown == digits_upto(rem, d, k));
        assert(rem_after(rem, d, (k - 1) as nat) != 0) by {
            if k > 1 {
                assert(1 <= (k - 1) as nat);
            }
        }
        lemma_exact_digits_untrimmed(rem, d, k);
        let fp = digits_upto(rem, d, k);
        lemma_long_division(rem, d, k);
        assert(fp.len() == k);
        assert(text =~= sign_text(negative) + istr + seq!['.'] + fp);
        lemma_read_decimal(negative, ip as nat, fp);
        let scale = pow(10, k);
        vstd::arithmetic::power::lemma_pow_positive(10, k);
        let dv = digits_value(fp) as int;
        let numer = ip * scale + dv;
        let sv = signed(negative, numer);
        lemma_normalize_value(sv, scale);
        assert(same_value((sv, scale), v)) by (nonlinear_arith)
            requires
                a == d * ip + rem,
                dv * d + 0 == rem * scale,
                numer == ip * scale + dv,
                sv == signed(negative, numer),
                v.0 == signed(negative, a),
                d == v.1,
        ;
        lemma_same_value_trans(normalize(sv, scale), (sv, scale), v);
    }
}

// ---------------------------------------------------------------------------
// Rounding of inexact displays
// ---------------------------------------------------------------------------

/// `v` rounded half away from zero to `count` digits after the point, as a
/// fraction over `10^count`.
pub open spec fn rounded(v: (int, int), count: nat) -> (int, int) {
    let r = (2 * (abs(v.0) as int) * pow(10, count) + v.1) / (2 * v.1);
    (
        if v.0 < 0 {
            -r
        } else {
            r
        },
        pow(10, count),
    )
}

proof fn lemma_zeros_value(n: nat)
    ensures
        all_digits(zeros(n)),
        digits_value(zeros(n)) == 0,
    decreases n,
{
    if n > 0 {
        lemma_zeros_value((n - 1) as nat);
        assert(zeros(n).drop_last() =~= zeros((n - 1) as nat));
    }
}

proof fn lemma_all_nines_value(s: Seq<char>)
    requires
        all_nines(s),
    ensures
        all_digits(s),
        digits_value(s) + 1 == pow(10, s.len()),
    decreases s.len(),
{
    reveal(vstd::arithmetic::power::pow);
    if s.len() > 0 {
        let p = s.drop_last();
        assert(all_nines(p)) by {
            assert forall|i: int| 0 <= i < p.len() implies #[trigger] p[i] == '9' by {
                assert(p[i] == s[i]);
            }
        }
        lemma_all_nines_value(p);
        assert(s.last() == '9');
        assert(digits_value(s) == digits_value(p) * 10 + 9);
        assert(pow(10, s.len()) == 10 * pow(10, p.len()));
    }
}

/// Trailing '0's dropped from digits divide their value by a power of ten.
proof fn lemma_trim_zeros_value(s: Seq<char>)
    requires
        all_digits(s),
    ensures
        trim_trailing_zeros(s).len() <= s.len(),
        all_digits(trim_trailing_zeros(s)),
        digits_value(s) == digits_value(trim_trailing_zeros(s)) * pow(
            10,
            (s.len() - trim_trailing_zeros(s).len()) as nat,
        ),
        trim_trailing_zeros(s).len() == 0 <==> digits_value(s) == 0,
    decreases s.len(),
{
    let t = trim_trailing_zeros(s);
    if s.len() > 0 && s.last() == '0' {
        let p = s.drop_last();
        assert(all_digits(p)) by {
            assert forall|i: int| 0 <= i < p.len() implies is_digit(#[trigger] p[i]) by {
                assert(p[i] == s[i]);
            }
        }
        lemma_trim_zeros_value(p);
        assert(digits_value(s) == digits_value(p) * 10);
        let e = (p.len() - t.len()) as nat;
        assert(pow(10, e + 1) == 10 * pow(10, e)) by {
            reveal(vstd::arithmetic::power::pow);
        }
        assert((s.len() - t.len()) as nat == e + 1);
        let dt = digits_value(t) as int;
        let pe = pow(10, e);
        assert(dt * pe * 10 == dt * (10 * pe)) by (nonlinear_arith);
    } else {
        assert(pow(10, 0) == 1) by {
            reveal(vstd::arithmetic::power::pow);
        }
        assert((s.len() - t.len()) as nat == 0);
        if s.len() > 0 {
            assert(is_digit(s.last()));
            assert(digits_value(s) == digits_value(s.drop_last()) * 10 + (s.last() as int - 48));
        }
    }
}

/// An optional '-', the decimal notation of `n`, a '.' and `digits` without
/// their trailing '0's read back as `n + digits / 10^|digits|` or its
/// negation.
proof fn lemma_read_trimmed(negative: bool, n: nat, digits: Seq<char>)
    requires
        all_digits(digits),
        digits_value(digits) != 0,
    ensures
        trim_trailing_zeros(digits).len() > 0,
        decimal_value(
            trim(sign_text(negative) + nat_to_decimal(n) + seq!['.'] + trim_trailing_zeros(digits)),
        ) matches Ok(q) && same_value(
            q,
            (
                signed(negative, n * pow(10, digits.len()) + digits_value(digits)),
                pow(10, digits.len()),
            ),
        ),
{
    let t = trim_trailing_zeros(digits);
    lemma_trim_zeros_value(digits);
    lemma_read_decimal(negative, n, t);
    let tl = t.len();
    let e = (digits.len() - tl) as nat;
    let tp = pow(10, tl);
    let ep = pow(10, e);
    let pp = pow(10, digits.len());
    vstd::arithmetic::power::lemma_pow_adds(10, tl, e);
    assert(tl + e == digits.len());
    vstd::arithmetic::power::lemma_pow_positive(10, tl);
    let dt = digits_value(t) as int;
    let dd = digits_value(digits) as int;
    let s1 = signed(negative, n * tp + dt);
    let s2 = signed(negative, n * pp + dd);
    assert(s1 * pp == s2 * tp) by (nonlinear_arith)
        requires
            pp == tp * ep,
            dd == dt * ep,
            s1 == signed(negative, n * tp + dt),
            s2 == signed(negative, n * pp + dd),
    ;
    lemma_normalize_value(s1, tp);
    lemma_same_value_trans(normalize(s1, tp), (s1, tp), (s2, pp));
}

/// A value displayed with '~' reads back, after the '~', as the value
/// rounded half away from zero to `count` digits after the point.
pub proof fn law_inexact_display_is_rounded(v: (int, int), count: nat)
    requires
        v.1 > 0,
        !fits_in_digits(v, count),
    ensures
        format_text(v, count).len() > 1,
        format_text(v, count)[0] == '~',
        decimal_value(trim(format_text(v, count).drop_first())) matches Ok(q) && same_value(
            q,
            rounded(v, count),
        ),
{
    let d = v.1;
    let text = format_text(v, count);
    law_tilde_marks_inexact_display(v, count);
    let pp = pow(10, count);
    vstd::arithmetic::power::lemma_pow_positive(10, count);
    assert(v.0 != 0) by {
        if v.0 == 0 {
            assert(text =~= seq!['0']);
        }
    }
    let negative = v.0 < 0;
    let a = abs(v.0) as int;
    let ip = a / d;
    let rem = a % d;
    vstd::arithmetic::div_mod::lemma_mod_pos_bound(a, d);
    vstd::arithmetic::div_mod::lemma_div_pos_is_pos(a, d);
    lemma_fundamental_div_mod(a, d);
    let istr = nat_to_decimal(ip as nat);
    lemma_nat_to_decimal_starts_with_digit(ip as nat);
    assert(int_to_decimal(ip) == istr);
    assert(int_to_decimal(ip + 1) == nat_to_decimal((ip + 1) as nat));
    let sign = sign_text(negative);
    assert(rem != 0) by {
        if rem == 0 {
            assert(text == sign + istr);
            assert(text[0] != '~');
        }
    }
    let (shown, exact) = decimal_digits(rem, d, count);
    assert(!exact) by {
        if exact {
            assert(text[0] != '~');
        }
    }
    assert(first_exact_from(rem, d, 1, count) is None);
    let ds = digits_upto(rem, d, count);
    lemma_long_division(rem, d, count);
    lemma_rem_after_bound_law(rem, d, count);
    let rc = rem_after(rem, d, count);
    let nd = digit_at(rem, d, count);
    lemma_fundamental_div_mod(rc * 10, d);
    vstd::arithmetic::div_mod::lemma_mod_pos_bound(rc * 10, d);
    let m = (rc * 10) % d;
    let up = nd >= 5;
    assert(up <==> 2 * rc >= d) by (nonlinear_arith)
        requires
            rc * 10 == d * nd + m,
            0 <= m < d,
            up == (nd >= 5),
    ;
    let dv = digits_value(ds) as int;
    let q = ip * pp + dv;
    let e: int = if up {
        1
    } else {
        0
    };
    let x = 2 * a * pp + d;
    assert(x == (q + e) * (2 * d) + (2 * rc + d - 2 * d * e)) by (nonlinear_arith)
        requires
            a == d * ip + rem,
            dv * d + rc == rem * pp,
            q == ip * pp + dv,
            x == 2 * a * pp + d,
    ;
    vstd::arithmetic::div_mod::lemma_fundamental_div_mod_converse(
        x,
        2 * d,
        q + e,
        2 * rc + d - 2 * d * e,
    );
    assert(rounded(v, count) == (signed(negative, q + e), pp));
    assert(text.drop_first().len() > 0 ==> text.len() > 1);
    if up {
        law_round_up_adds_one(ds);
        if all_nines(ds) {
            lemma_all_nines_value(ds);
            lemma_zeros_value(count + 1);
            assert(seq!['0'] + zeros(count) =~= zeros(count + 1));
            lemma_trim_zeros_value(zeros(count + 1));
            assert(round_up_text(ds).len() == count + 1);
            assert(text == seq!['~'] + sign + nat_to_decimal((ip + 1) as nat));
            assert(text.drop_first() =~= sign + nat_to_decimal((ip + 1) as nat));
            lemma_read_integer(negative, (ip + 1) as nat);
            let s1 = signed(negative, ip + 1);
            lemma_normalize_value(s1, 1);
            assert(same_value((s1, 1), (signed(negative, q + e), pp))) by (nonlinear_arith)
                requires
                    dv + 1 == pp,
                    q == ip * pp + dv,
                    e == 1,
                    s1 == signed(negative, ip + 1),
            ;
            lemma_same_value_trans(normalize(s1, 1), (s1, 1), (signed(negative, q + e), pp));
        } else {
            let digits = round_up_text(ds);
            lemma_read_trimmed(negative, ip as nat, digits);
            assert(round_decimal_text(digits) == trim_trailing_zeros(digits));
            assert(text == seq!['~'] + sign + istr + seq!['.'] + trim_trailing_zeros(digits));
            assert(text.drop_first() =~= sign + istr + seq!['.'] + trim_trailing_zeros(digits));
        }
    } else if dv == 0 {
        // the value rounds down to its integer part
        lemma_trim_zeros_value(ds);
        assert(ds.len() == count);
        assert(text == seq!['~'] + sign + istr);
        assert(text.drop_first() =~= sign + istr);
        lemma_read_integer(negative, ip as nat);
        let s1 = signed(negative, ip);
        lemma_normalize_value(s1, 1);
        assert(same_value((s1, 1), (signed(negative, q + e), pp))) by (nonlinear_arith)
            requires
                dv == 0,
                q == ip * pp + dv,
                e == 0,
                s1 == signed(negative, ip),
        ;
        lemma_same_value_trans(normalize(s1, 1), (s1, 1), (signed(negative, q + e), pp));
    } else {
        lemma_read_trimmed(negative, ip as nat, ds);
        lemma_trim_zeros_value(ds);
        assert(round_decimal_text(ds) == trim_trailing_zeros(ds));
        assert(text == seq!['~'] + sign + istr + seq!['.'] + trim_trailing_zeros(ds));
        assert(text.drop_first() =~= sign + istr + seq!['.'] + trim_trailing_zeros(ds));
    }
}

/// Negating the numerator commutes with reducing a fraction.
proof fn lemma_normalize_neg(n: int, d: int)
    requires
        d != 0,
    ensures
        normalize(-n, d) == (-normalize(n, d).0, normalize(n, d).1),
{
    let g = gcd(abs(n), abs(d)) as int;
    assert(abs(-n) == abs(n));
    lemma_gcd_pos(abs(n), abs(d));
    let (kn, kd) = lemma_gcd_divides(abs(n), abs(d));
    let sn = if n < 0 {
        -kn
    } else {
        kn
    };
    assert(n == g * sn) by (nonlinear_arith)
        requires
            abs(n) == g * kn,
            sn == (if n < 0 {
                -kn
            } else {
                kn
            }),
            abs(n) == (if n < 0 {
                -n
            } else {
                n
            }),
    ;
    assert(-n == g * (-sn)) by (nonlinear_arith)
        requires
            n == g * sn,
    ;
    lemma_div_multiples_vanish(sn, g);
    lemma_div_multiples_vanish(-sn, g);
}

/// A leading '-' negates a number that does not itself start with '-'.
pub proof fn law_minus_negates(t: Seq<char>)
    requires
        t.len() > 0,
        t[0] != '-',
    ensures
        decimal_value(seq!['-'] + t) is Ok <==> decimal_value(t) is Ok,
        decimal_value(t) matches Ok(p) ==> decimal_value(seq!['-'] + t) == Ok::<
            (int, int),
            Failure,
        >((-p.0, p.1)),
{
    let m = seq!['-'] + t;
    assert(m.drop_first() =~= t);
    reveal(fraction_value);
    reveal(whole_value);
    match find_char(t, '.') {
        Some(p) => {
            let ip = t.take(p);
            let fp = t.skip(p + 1);
            let scale = pow(10, fp.len());
            vstd::arithmetic::power::lemma_pow_positive(10, fp.len());
            let int_val = integer_from_decimal(
                if ip.len() == 0 {
                    seq!['0']
                } else {
                    ip
                },
            );
            let frac_val = if fp.len() == 0 {
                Some(0int)
            } else {
                integer_from_decimal(fp)
            };
            if int_val is Some && frac_val is Some {
                lemma_normalize_neg(int_val->Some_0 * scale + frac_val->Some_0, scale);
            }
        },
        None => {
            if integer_from_decimal(t) is Some {
                lemma_normalize_neg(integer_from_decimal(t)->Some_0, 1);
            }
        },
    }
}

// ---------------------------------------------------------------------------
// Keys and lines
// ---------------------------------------------------------------------------

/// The equals key computes the pending operation with the pending left
/// operand on the left, and on the right the number entered since the
/// operator, or the last result when none was entered.  The result is the
/// exact value of that operation, shown and kept as the last result; only a
/// division by zero fails.
pub proof fn law_equals_computes_pending(s: EngineState, op: Operator)
    requires
        s.pending_op == Some(op),
    ensures
        ({
            let lhs = lhs_or_zero(s.pending_lhs);
            let rhs = if s.has_input {
                s.accumulator
            } else {
                s.last_result
            };
            &&& evaluate_step(s) is None <==> (op == Operator::Divide && rhs.0 == 0)
            &&& evaluate_step(s) matches Some(t) ==> {
                &&& apply_spec(op, lhs, rhs) == Some(t.accumulator)
                &&& t.last_result == t.accumulator
                &&& t.pending_op is None
                &&& t.just_evaluated
                &&& t.last_op == Some((op, rhs))
                &&& (lhs.1 > 0 && rhs.1 > 0) ==> t.accumulator.1 > 0 && same_value(
                    t.accumulator,
                    exact_result(op, lhs, rhs),
                )
            }
        }),
{
    let lhs = lhs_or_zero(s.pending_lhs);
    let rhs = if s.has_input {
        s.accumulator
    } else {
        s.last_result
    };
    if lhs.1 > 0 && rhs.1 > 0 {
        law_operations_are_exact(op, lhs, rhs);
    }
}

/// An operator key pressed while an operation is pending, with no number
/// entered since and not right after equals, only replaces the pending
/// operator: nothing is computed, the value shown and the left operand stay.
pub proof fn law_operator_key_replaces_pending_operator(s: EngineState, op: Operator)
    requires
        s.pending_op is Some,
        !s.has_input,
        !s.just_evaluated,
    ensures
        apply_operator_step(s, op) matches Some(t) && {
            &&& t.pending_op == Some(op)
            &&& t.accumulator == s.accumulator
            &&& t.pending_lhs == Some(s.accumulator)
            &&& t.last_result == s.last_result
            &&& t.last_op == s.last_op
            &&& !t.has_input
            &&& !t.just_evaluated
        },
        consistent(s) && s.pending_lhs == Some(s.accumulator) ==> apply_operator_step(s, op) == Some(
            EngineState { pending_op: Some(op), ..s },
        ),
{
}

/// The equals key with nothing pending and not right after equals keeps the
/// value shown and makes it the last result.
pub proof fn law_equals_without_pending_keeps_value(s: EngineState)
    requires
        s.pending_op is None,
        !s.just_evaluated,
    ensures
        evaluate_step(s) matches Some(t) && {
            &&& t.accumulator == s.accumulator
            &&& t.last_result == s.accumulator
            &&& t.just_evaluated
            &&& t.pending_op is None
            &&& t.last_op == s.last_op
        },
{
}

/// After a number was entered with nothing pending, a line made of an
/// operator and a number computes `entered op number` at once: the result is
/// shown and kept as the last result, with nothing left pending; a division
/// by zero is reported.
pub proof fn law_operator_line_computes(s: EngineState, line: Seq<char>, op: Operator, v: (int, int))
    requires
        s.pending_op is None,
        s.has_input,
        trim(line).len() > 0,
        operator_of_char(trim(line)[0]) == Some(op),
        trim(trim(line).drop_first()).len() > 0,
        trim(trim(line).drop_first()) != seq!['='],
        decimal_value(trim(trim(line).drop_first())) == Ok::<(int, int), Failure>(v),
    ensures
        ({
            let (t, res) = process_line_step(s, line);
            match apply_spec(op, s.accumulator, v) {
                Some(r) => {
                    &&& res is Ok
                    &&& t.accumulator == r
                    &&& t.last_result == r
                    &&& t.pending_op is None
                    &&& t.just_evaluated
                    &&& t.last_op == Some((op, v))
                },
                None => res == Err::<(), Failure>(Failure::DivisionByZero),
            }
        }),
{
    assert(trim(line)[0] != '=');
    lemma_trim_twice(trim(line).drop_first());
}

/// A line that is a number (it starts neither with '=' nor with an operator)
/// only enters that number: the value shown becomes the number read and
/// nothing pending is evaluated.  A line that is not a number changes
/// nothing and reports why.
pub proof fn law_number_line_only_enters_it(s: EngineState, line: Seq<char>)
    requires
        trim(line).len() > 0,
        trim(line)[0] != '=',
        operator_of_char(trim(line)[0]) is None,
    ensures
        ({
            let (t, res) = process_line_step(s, line);
            match decimal_value(trim(line)) {
                Ok(v) => {
                    &&& res is Ok
                    &&& t.accumulator == v
                    &&& t.has_input
                    &&& !t.just_evaluated
                    &&& t.pending_op == s.pending_op
                    &&& t.pending_lhs == s.pending_lhs
                    &&& t.last_result == s.last_result
                    &&& t.last_op == s.last_op
                },
                Err(f) => t == s && res == Err::<(), Failure>(f),
            }
        }),
{
    lemma_trim_twice(line);
}

/// Trimming twice is trimming once.
proof fn lemma_trim_twice(line: Seq<char>)
    ensures
        trim(trim(line)) == trim(line),
{
    let l = trim(line);
    if l.len() > 0 {
        crate::text::lemma_trim_is_trimmed(line);
        lemma_trim_unchanged(l);
    } else {
        assert(trim(l) =~= l);
    }
}

/// Without a '~', a display starts with '-' exactly for a negative value;
/// with one, the same holds of what follows the '~'.
pub proof fn law_display_shows_the_sign(v: (int, int), count: nat)
    requires
        v.1 > 0,
    ensures
        ({
            let t = format_text(v, count);
            let u = if t.len() > 0 && t[0] == '~' {
                t.drop_first()
            } else {
                t
            };
            u.len() > 0 && ((u[0] == '-') <==> v.0 < 0)
        }),
{
    let d = v.1;
    if v.0 != 0 {
        let a = if v.0 < 0 {
            -v.0
        } else {
            v.0
        };
        vstd::arithmetic::div_mod::lemma_div_pos_is_pos(a, d);
        lemma_nat_to_decimal_starts_with_digit((a / d) as nat);
        lemma_nat_to_decimal_starts_with_digit((a / d + 1) as nat);
    }
}

/// A line that is neither blank nor one of the quit or clear words is
/// processed, and then answered with two spaces and the display of the value
/// shown by the engine after it (so a negative value shows its '-'), or with
/// the message of its error.
pub proof fn law_respond_shows_the_current_value(s: EngineState, line: Seq<char>, max_digits: nat)
    requires
        trim(line).len() > 0,
        trim(line) != "q"@,
        trim(line) != "quit"@,
        trim(line) != "exit"@,
        trim(line) != "c"@,
        trim(line) != "clear"@,
    ensures
        ({
            let (t, res) = process_line_step(s, trim(line));
            let (u, reply) = respond_step(s, line, max_digits);
            &&& u == t
            &&& res is Ok ==> reply == Reply::Show("  "@ + format_text(t.accumulator, max_digits))
            &&& res matches Err(f) ==> reply == Reply::Show(
                "  Error: "@ + crate::engine::failure_message(f),
            )
        }),
{
}

/// The lines "c" and "clear" clear the engine and are answered "  0"; the
/// lines "q", "quit" and "exit" leave it as it was and end the session.
pub proof fn law_respond_clear_and_quit(s: EngineState, line: Seq<char>, max_digits: nat)
    ensures
        (trim(line) == "c"@ || trim(line) == "clear"@) ==> {
            let (t, reply) = respond_step(s, line, max_digits);
            &&& reply == Reply::Show("  0"@)
            &&& t.accumulator == (0int, 1int)
            &&& t.pending_op is None
            &&& t.pending_lhs is None
            &&& t.last_op is None
            &&& !t.has_input
            &&& !t.just_evaluated
            &&& t.last_result == s.last_result
        },
        (trim(line) == "q"@ || trim(line) == "quit"@ || trim(line) == "exit"@) ==> respond_step(
            s,
            line,
            max_digits,
        ) == (s, Reply::Quit),
{
    reveal_strlit("c");
    reveal_strlit("clear");
    reveal_strlit("q");
    reveal_strlit("quit");
    reveal_strlit("exit");
}

} // verus!
