//! Decimal display of exact fractions, with the fractional part limited to
//! a number of digits and rounded half up.

use vstd::prelude::*;
use vstd::arithmetic::div_mod::{
    lemma_div_pos_is_pos, lemma_fundamental_div_mod, lemma_mod_pos_bound, lemma_multiply_divide_lt,
};
use vstd::utf8::{decode_utf8, encode_utf8, valid_utf8};

use crate::number::{
    digit_char, int_to_decimal, integer_add, integer_div_rem, integer_from_i64, integer_is_negative,
    integer_is_zero, integer_mul, integer_to_decimal, integer_to_u8, rational_neg, trunc_div,
    trunc_rem, Integer, Rational,
};
use crate::text::{chars_to_string, str_chars, trim_trailing_zero_chars, trim_trailing_zeros};

verus! {

// ---------------------------------------------------------------------------
// Long division
// ---------------------------------------------------------------------------

/// The remainder after `k` steps of the long division of `r` by `d`.
pub open spec fn rem_after(r: int, d: int, k: nat) -> int
    decreases k,
{
    if k == 0 {
        r
    } else {
        (rem_after(r, d, (k - 1) as nat) * 10) % d
    }
}

/// The decimal digit that step `k` (from 0) of the long division of `r` by
/// `d` yields: digit `k + 1` after the point of `r / d`.
pub open spec fn digit_at(r: int, d: int, k: nat) -> int {
    (rem_after(r, d, k) * 10) / d
}

/// The first `k` digits after the point of `r / d`.
pub open spec fn digits_upto(r: int, d: int, k: nat) -> Seq<char> {
    Seq::new(k, |j: int| digit_char(digit_at(r, d, j as nat)))
}

/// The least `k` with `from <= k <= count` after which the long division of
/// `r` by `d` leaves no remainder.
pub open spec fn first_exact_from(r: int, d: int, from: nat, count: nat) -> Option<nat>
    decreases count + 1 - from,
{
    if from > count {
        None
    } else if rem_after(r, d, from) == 0 {
        Some(from)
    } else {
        first_exact_from(r, d, from + 1, count)
    }
}

/// Up to `count` digits after the point of `r / d` and whether they are
/// exact.  Exact digits stop at the first step that leaves no remainder;
/// otherwise `count` digits are kept, rounded up (as `round_up_text` does)
/// when the next digit is 5 or more.
pub open spec fn decimal_digits(r: int, d: int, count: nat) -> (Seq<char>, bool) {
    match first_exact_from(r, d, 1, count) {
        Some(k) => (digits_upto(r, d, k), true),
        None => {
            let ds = digits_upto(r, d, count);
            if digit_at(r, d, count) >= 5 {
                (round_up_text(ds), false)
            } else {
                (ds, false)
            }
        },
    }
}

// ---------------------------------------------------------------------------
// Rounding of digit strings
// ---------------------------------------------------------------------------

/// Adds one to the last byte of `b`, carrying over bytes equal to b'9' (which
/// become b'0'); the flag tells whether the carry ran past the first byte.
pub open spec fn round_up_bytes(b: Seq<u8>) -> (Seq<u8>, bool)
    decreases b.len(),
{
    if b.len() == 0 {
        (b, true)
    } else if b.last() == 57 {
        let (p, c) = round_up_bytes(b.drop_last());
        (p.push(48), c)
    } else {
        (b.drop_last().push(((b.last() + 1) % 256) as u8), false)
    }
}

/// What `round_up_digits` makes of the text `s`: its UTF-8 bytes rounded up
/// by `round_up_bytes` and read back (empty when they are no longer UTF-8),
/// with a '0' in front when the carry ran past the first digit.
pub open spec fn round_up_text(s: Seq<char>) -> Seq<char> {
    let (b, carry) = round_up_bytes(encode_utf8(s));
    let t = if valid_utf8(b) {
        decode_utf8(b)
    } else {
        Seq::empty()
    };
    if carry {
        seq!['0'] + t
    } else {
        t
    }
}

/// `s` without trailing '0' characters, or "0" when nothing is left.
pub open spec fn round_decimal_text(s: Seq<char>) -> Seq<char> {
    let t = trim_trailing_zeros(s);
    if t.len() == 0 {
        seq!['0']
    } else {
        t
    }
}

/// The display of the fraction `v` (reduced, positive denominator) with at
/// most `count` digits after the point.  An integer shows in full.  Other
/// values show the integer part, a '.', and the digits of `decimal_digits`
/// without trailing zeros; a value not shown exactly starts with '~'.  When
/// no digit is left after rounding, only the integer part shows, raised by
/// one where rounding carried into it (the digits then have `count + 1`
/// characters).
pub open spec fn format_text(v: (int, int), count: nat) -> Seq<char> {
    if v.0 == 0 {
        seq!['0']
    } else {
        let negative = v.0 < 0;
        let a = if negative {
            -v.0
        } else {
            v.0
        };
        let d = v.1;
        let ip = a / d;
        let rem = a % d;
        let sign = if negative {
            seq!['-']
        } else {
            Seq::<char>::empty()
        };
        let istr = int_to_decimal(ip);
        if rem == 0 {
            sign + istr
        } else {
            let (digits, exact) = decimal_digits(rem, d, count);
            let trimmed = trim_trailing_zeros(digits);
            if trimmed.len() == 0 {
                if exact {
                    sign + istr
                } else if digits.len() > count {
                    seq!['~'] + sign + int_to_decimal(ip + 1)
                } else {
                    seq!['~'] + sign + istr
                }
            } else if exact {
                sign + istr + seq!['.'] + trimmed
            } else {
                seq!['~'] + sign + istr + seq!['.'] + round_decimal_text(digits)
            }
        }
    }
}

// ---------------------------------------------------------------------------
// Lemmas
// ---------------------------------------------------------------------------

proof fn lemma_trunc_nonneg(a: int, b: int)
    requires
        0 <= a,
        0 < b,
    ensures
        trunc_div(a, b) == a / b,
        trunc_rem(a, b) == a % b,
        0 <= a / b,
        0 <= a % b < b,
{
    lemma_fundamental_div_mod(a, b);
    lemma_mod_pos_bound(a, b);
    lemma_div_pos_is_pos(a, b);
}

proof fn lemma_digit_bound(x: int, d: int)
    requires
        0 <= x < d,
    ensures
        0 <= (x * 10) / d < 10,
        0 <= (x * 10) % d < d,
{
    lemma_multiply_divide_lt(x * 10, d, 10);
    lemma_div_pos_is_pos(x * 10, d);
    lemma_mod_pos_bound(x * 10, d);
}

proof fn lemma_rem_after_bound(r: int, d: int, k: nat)
    requires
        0 <= r < d,
    ensures
        0 <= rem_after(r, d, k) < d,
        0 <= digit_at(r, d, k) < 10,
    decreases k,
{
    if k > 0 {
        lemma_rem_after_bound(r, d, (k - 1) as nat);
        lemma_digit_bound(rem_after(r, d, (k - 1) as nat), d);
    }
    lemma_digit_bound(rem_after(r, d, k), d);
}

proof fn lemma_first_exact_found(r: int, d: int, from: nat, count: nat, k: nat)
    requires
        from <= k <= count,
        rem_after(r, d, k) == 0,
        forall|j: nat| from <= j < k ==> rem_after(r, d, j) != 0,
    ensures
        first_exact_from(r, d, from, count) == Some(k),
    decreases k - from,
{
    if from < k {
        lemma_first_exact_found(r, d, from + 1, count, k);
    }
}

proof fn lemma_first_exact_none(r: int, d: int, from: nat, count: nat)
    requires
        forall|j: nat| from <= j <= count ==> rem_after(r, d, j) != 0,
    ensures
        first_exact_from(r, d, from, count) is None,
    decreases count + 1 - from,
{
    if from <= count {
        lemma_first_exact_none(r, d, from + 1, count);
    }
}

/// Rounding up bytes that end in b'9's works on the part before them.
proof fn lemma_round_up_nines(b: Seq<u8>, i: int)
    requires
        0 <= i <= b.len(),
        forall|j: int| i <= j < b.len() ==> b[j] == 57,
    ensures
        round_up_bytes(b) == (
            round_up_bytes(b.take(i)).0 + Seq::new((b.len() - i) as nat, |j: int| 48u8),
            round_up_bytes(b.take(i)).1,
        ),
    decreases b.len() - i,
{
    if i == b.len() {
        assert(b.take(i) =~= b);
        assert(round_up_bytes(b).0 + Seq::new(0, |j: int| 48u8) =~= round_up_bytes(b).0);
    } else {
        lemma_round_up_nines(b.drop_last(), i);
        assert(b.drop_last().take(i) =~= b.take(i));
        let p = round_up_bytes(b.take(i)).0;
        assert(p + Seq::new((b.len() - 1 - i) as nat, |j: int| 48u8) + seq![48u8] =~= p + Seq::new(
            (b.len() - i) as nat,
            |j: int| 48u8,
        ));
    }
}

// ---------------------------------------------------------------------------
// Functions
// ---------------------------------------------------------------------------

/// `String::from_utf8`: the string whose UTF-8 encoding is `bytes`, or `None`
/// where `bytes` is not UTF-8.
#[verifier::external_body]
fn string_from_utf8(bytes: Vec<u8>) -> (r: Option<String>)
    ensures
        r is Some <==> valid_utf8(bytes@),
        r matches Some(s) ==> s@ == decode_utf8(bytes@),
{
    match String::from_utf8(bytes) {
        Ok(s) => Some(s),
        Err(_) => None,
    }
}

/// Round up a string of digits (carrying as needed). Returns the new string.
///
/// Digits equal to '9' at the end become '0' and the digit before them goes
/// up by one; when every digit was '9', a '0' is put in front.
pub fn round_up_digits(digits: &str) -> (r: String)
    ensures
        r@ == round_up_text(digits@),
{
    let src = digits.as_bytes();
    let ghost b = src@;
    let n = src.len();
    let mut chars: Vec<u8> = Vec::new();
    let mut k: usize = 0;
    while k < n
        invariant
            k <= n == b.len(),
            src@ == b,
            chars@ == b.take(k as int),
        decreases n - k,
    {
        chars.push(src[k]);
        assert(chars@ =~= b.take(k + 1));
        k += 1;
    }
    assert(chars@ =~= b);
    let mut carry = true;
    let mut i = n;
    while i > 0 && carry
        invariant
            i <= n == b.len(),
            chars@.len() == n,
            carry ==> chars@ == b.take(i as int) + Seq::new((n - i) as nat, |j: int| 48u8),
            carry ==> forall|j: int| i <= j < n ==> b[j] == 57,
            !carry ==> chars@ == round_up_bytes(b).0 && !round_up_bytes(b).1,
        decreases i,
    {
        i -= 1;
        if chars[i] == 57 {
            chars.set(i, 48);
            assert(chars@ =~= b.take(i as int) + Seq::new((n - i) as nat, |j: int| 48u8));
        } else {
            let x = chars[i];
            chars.set(i, x.wrapping_add(1));
            carry = false;
            proof {
                assert(b[i as int] == x);
                lemma_round_up_nines(b, i + 1);
                let t = b.take(i + 1);
                assert(t.drop_last() =~= b.take(i as int));
                assert(t.last() == x);
                assert(chars@ =~= round_up_bytes(t).0 + Seq::new((n - i - 1) as nat, |j: int| 48u8));
            }
        }
    }
    proof {
        if carry {
            lemma_round_up_nines(b, 0);
            assert(b.take(0) =~= Seq::<u8>::empty());
            assert(chars@ =~= round_up_bytes(b).0);
        }
    }
    let result = match string_from_utf8(chars) {
        Some(s) => s,
        None => String::new(),
    };
    if carry {
        // All 9s rolled over; this propagates to the integer part
        let mut out = vec!['0'];
        let mut rest = str_chars(result.as_str());
        out.append(&mut rest);
        chars_to_string(&out)
    } else {
        result
    }
}

/// Round a decimal digit string, trimming trailing zeros from the result.
pub fn round_decimal_str(digits: &str) -> (r: String)
    ensures
        r@ == round_decimal_text(digits@),
{
    let v = str_chars(digits);
    let trimmed = trim_trailing_zero_chars(&v);
    if trimmed.len() == 0 {
        chars_to_string(&vec!['0'])
    } else {
        chars_to_string(&trimmed)
    }
}

/// Compute `count` decimal digits of `remainder / denom` via long division.
/// Returns (digits, exact).
fn compute_decimal_digits(remainder: &Integer, denom: &Integer, count: usize) -> (r: (String, bool))
    requires
        0 <= remainder@ < denom@,
    ensures
        (r.0@, r.1) == decimal_digits(remainder@, denom@, count as nat),
{
    let ghost rr = remainder@;
    let ghost d = denom@;
    let mut digits: Vec<char> = Vec::new();
    let mut rem = remainder.clone();
    let ten = integer_from_i64(10);
    let mut i: usize = 0;
    while i < count
        invariant
            0 <= rr < d,
            rr == remainder@,
            d == denom@,
            i <= count,
            ten@ == 10,
            rem@ == rem_after(rr, d, i as nat),
            digits@ == digits_upto(rr, d, i as nat),
            forall|j: nat| 1 <= j <= i ==> rem_after(rr, d, j) != 0,
        decreases count - i,
    {
        proof {
            lemma_rem_after_bound(rr, d, i as nat);
            lemma_trunc_nonneg(rem@ * 10, d);
            lemma_rem_after_bound(rr, d, (i + 1) as nat);
        }
        rem = integer_mul(&rem, &ten);
        let (digit, new_rem) = integer_div_rem(&rem, denom);
        let dv: u8 = match integer_to_u8(&digit) {
            Some(x) => x,
            None => 0,
        };
        digits.push(((48u8 + dv) as char));
        assert(digits@ =~= digits_upto(rr, d, (i + 1) as nat));
        rem = new_rem;
        if integer_is_zero(&rem) {
            proof {
                assert(rem@ == rem_after(rr, d, (i + 1) as nat));
                lemma_first_exact_found(rr, d, 1, count as nat, (i + 1) as nat);
                assert(decimal_digits(rr, d, count as nat) == (digits_upto(rr, d, (i + 1) as nat), true));
            }
            let text = chars_to_string(digits.as_slice());
            assert(text@ == digits_upto(rr, d, (i + 1) as nat));
            return (text, true);
        }
        i += 1;
    }
    proof {
        lemma_first_exact_none(rr, d, 1, count as nat);
        lemma_rem_after_bound(rr, d, count as nat);
        lemma_trunc_nonneg(rem@ * 10, d);
    }
    // Check the next digit for rounding
    rem = integer_mul(&rem, &ten);
    let (next_digit, _) = integer_div_rem(&rem, denom);
    let next_d: u8 = match integer_to_u8(&next_digit) {
        Some(x) => x,
        None => 0,
    };
    let text = chars_to_string(&digits);
    if next_d >= 5 {
        (round_up_digits(text.as_str()), false)
    } else {
        (text, false)
    }
}

/// Appends the characters of `s` to `out`.
fn push_str(out: &mut Vec<char>, s: &str)
    ensures
        final(out)@ == old(out)@ + s@,
{
    let mut w = str_chars(s);
    out.append(&mut w);
}

/// Format an exact fraction for display, limiting the fractional part to at
/// most `max_fractional_digits` digits after the decimal point.
///
/// The integer part is always displayed in full regardless of its length.
/// If the value cannot be exactly represented within the given number of
/// fractional digits, the output is rounded and prefixed with `~`.
pub fn format_rational(value: &Rational, max_fractional_digits: usize) -> (r: String)
    ensures
        r@ == format_text(value@, max_fractional_digits as nat),
{
    if integer_is_zero(value.numer()) {
        return chars_to_string(&vec!['0']);
    }
    let negative = integer_is_negative(value.numer());
    let abs_value = if negative {
        rational_neg(value)
    } else {
        value.clone()
    };
    let numer = abs_value.numer();
    let denom = abs_value.denom();
    proof {
        lemma_trunc_nonneg(numer@, denom@);
    }
    // Compute integer and fractional parts
    let (integer_part, remainder) = integer_div_rem(numer, denom);
    let integer_str = integer_to_decimal(&integer_part);
    let sign_prefix = if negative {
        "-"
    } else {
        ""
    };
    proof {
        reveal_strlit("-");
        reveal_strlit("");
        reveal_strlit("~");
        reveal_strlit(".");
    }
    let mut out: Vec<char> = Vec::new();
    // Exact integer: always display in full
    if integer_is_zero(&remainder) {
        push_str(&mut out, sign_prefix);
        push_str(&mut out, integer_str.as_str());
        assert(out@ =~= format_text(value@, max_fractional_digits as nat));
        return chars_to_string(&out);
    }
    let (decimal_digits, is_exact) = compute_decimal_digits(&remainder, denom, max_fractional_digits);
    let dd = str_chars(decimal_digits.as_str());
    let trimmed = trim_trailing_zero_chars(&dd);
    if trimmed.len() == 0 {
        // All decimal digits rounded to zero
        if is_exact {
            push_str(&mut out, sign_prefix);
            push_str(&mut out, integer_str.as_str());
        } else if dd.len() > max_fractional_digits {
            // Rounding carried into the integer part
            let rounded_int = integer_add(&integer_part, &integer_from_i64(1));
            let rounded_str = integer_to_decimal(&rounded_int);
            push_str(&mut out, "~");
            push_str(&mut out, sign_prefix);
            push_str(&mut out, rounded_str.as_str());
        } else {
            // The value rounds down to its integer part
            push_str(&mut out, "~");
            push_str(&mut out, sign_prefix);
            push_str(&mut out, integer_str.as_str());
        }
    } else if is_exact {
        push_str(&mut out, sign_prefix);
        push_str(&mut out, integer_str.as_str());
        push_str(&mut out, ".");
        let mut t = trimmed;
        out.append(&mut t);
    } else {
        let rounded = round_decimal_str(decimal_digits.as_str());
        push_str(&mut out, "~");
        push_str(&mut out, sign_prefix);
        push_str(&mut out, integer_str.as_str());
        push_str(&mut out, ".");
        push_str(&mut out, rounded.as_str());
    }
    assert(out@ =~= format_text(value@, max_fractional_digits as nat));
    chars_to_string(&out)
}

} // verus!
