//! Exact numbers: integers of any size and rationals kept in lowest terms.
//!
//! The arithmetic itself is done by the `num` crate.  The values are held
//! here as plain bytes so that every contract can speak of them as
//! mathematical integers and fractions.

use vstd::prelude::*;
use vstd::arithmetic::power::pow;

use num::bigint::BigInt;
use num::rational::BigRational;
use num::{Integer as _, Signed, ToPrimitive, Zero};

verus! {

// ---------------------------------------------------------------------------
// Mathematical model
// ---------------------------------------------------------------------------

/// Value of a sequence of base-256 digits, least significant first.
pub open spec fn le_value(bytes: Seq<u8>) -> nat
    decreases bytes.len(),
{
    if bytes.len() == 0 {
        0
    } else {
        (bytes[0] + 256 * le_value(bytes.drop_first())) as nat
    }
}

/// Value of a two's-complement byte sequence, least significant byte first.
/// The empty sequence stands for zero.
pub open spec fn twos_complement_value(bytes: Seq<u8>) -> int {
    if bytes.len() > 0 && bytes.last() >= 128 {
        le_value(bytes) - pow(256, bytes.len())
    } else {
        le_value(bytes) as int
    }
}

pub open spec fn abs(x: int) -> nat {
    if x < 0 {
        (-x) as nat
    } else {
        x as nat
    }
}

/// Greatest common divisor, by Euclid's algorithm (`gcd(a, 0) == a`).
pub open spec fn gcd(a: nat, b: nat) -> nat
    decreases b,
{
    if b == 0 {
        a
    } else {
        gcd(b, a % b)
    }
}

/// A fraction `(numerator, denominator)` in lowest terms with a positive
/// denominator; zero is `(0, 1)`.
pub open spec fn is_reduced(q: (int, int)) -> bool {
    q.1 > 0 && gcd(abs(q.0), abs(q.1)) == 1
}

/// The fraction `n / d` in lowest terms, with a positive denominator.
/// Defined for `d != 0`.
pub open spec fn normalize(n: int, d: int) -> (int, int) {
    let g = gcd(abs(n), abs(d)) as int;
    if d > 0 {
        (n / g, d / g)
    } else {
        ((-n) / g, (-d) / g)
    }
}

pub open spec fn rat_add(a: (int, int), b: (int, int)) -> (int, int) {
    normalize(a.0 * b.1 + b.0 * a.1, a.1 * b.1)
}

pub open spec fn rat_sub(a: (int, int), b: (int, int)) -> (int, int) {
    normalize(a.0 * b.1 - b.0 * a.1, a.1 * b.1)
}

pub open spec fn rat_mul(a: (int, int), b: (int, int)) -> (int, int) {
    normalize(a.0 * b.0, a.1 * b.1)
}

/// Quotient of two fractions; defined for `b.0 != 0`.
pub open spec fn rat_div(a: (int, int), b: (int, int)) -> (int, int) {
    normalize(a.0 * b.1, a.1 * b.0)
}

/// Integer division rounding toward zero.
pub open spec fn trunc_div(a: int, b: int) -> int {
    let q = (abs(a) / abs(b)) as int;
    if (a < 0) == (b < 0) {
        q
    } else {
        -q
    }
}

/// Remainder of `trunc_div`; it takes the sign of `a`.
pub open spec fn trunc_rem(a: int, b: int) -> int {
    a - b * trunc_div(a, b)
}

/// The character of a decimal digit `0 <= d <= 9`.
pub open spec fn digit_char(d: int) -> char {
    (d + 48) as char
}

/// Decimal digits of a natural number, without leading zeros ("0" for zero).
pub open spec fn nat_to_decimal(n: nat) -> Seq<char>
    decreases n,
{
    if n < 10 {
        seq![digit_char(n as int)]
    } else {
        nat_to_decimal(n / 10).push(digit_char((n % 10) as int))
    }
}

/// Decimal notation of an integer: a '-' before the digits of a negative one.
pub open spec fn int_to_decimal(i: int) -> Seq<char> {
    if i < 0 {
        seq!['-'] + nat_to_decimal(abs(i))
    } else {
        nat_to_decimal(abs(i))
    }
}

pub open spec fn is_digit(c: char) -> bool {
    '0' <= c <= '9'
}

/// Value of decimal digits, where '_' separators are skipped.
pub open spec fn digits_value(s: Seq<char>) -> nat
    decreases s.len(),
{
    if s.len() == 0 {
        0
    } else if s.last() == '_' {
        digits_value(s.drop_last())
    } else {
        (digits_value(s.drop_last()) * 10 + (s.last() as int - 48)) as nat
    }
}

/// Digits and '_' separators, not starting with a separator.
pub open spec fn is_digit_body(s: Seq<char>) -> bool {
    &&& s.len() > 0
    &&& s[0] != '_'
    &&& forall|i: int| 0 <= i < s.len() ==> is_digit(#[trigger] s[i]) || s[i] == '_'
}

/// Decimal notation of an unsigned integer: one optional leading '+'
/// (not followed by another '+'), then digits with '_' separators.
pub open spec fn unsigned_from_decimal(s: Seq<char>) -> Option<nat> {
    let body = if s.len() > 0 && s[0] == '+' && !(s.len() > 1 && s[1] == '+') {
        s.drop_first()
    } else {
        s
    };
    if is_digit_body(body) {
        Some(digits_value(body))
    } else {
        None
    }
}

/// Decimal notation of a signed integer: a leading '-' (not followed by '+')
/// negates what follows; otherwise as `unsigned_from_decimal`.
pub open spec fn integer_from_decimal(s: Seq<char>) -> Option<int> {
    if s.len() > 0 && s[0] == '-' {
        if s.len() > 1 && s[1] == '+' {
            None
        } else {
            match unsigned_from_decimal(s.drop_first()) {
                Some(v) => Some(-v),
                None => None,
            }
        }
    } else {
        match unsigned_from_decimal(s) {
            Some(v) => Some(v as int),
            None => None,
        }
    }
}

// ---------------------------------------------------------------------------
// Integer
// ---------------------------------------------------------------------------

/// An integer of any size, held as its two's-complement bytes, least
/// significant first.
#[derive(Debug, PartialEq, Eq)]
pub struct Integer {
    bytes: Vec<u8>,
}

impl View for Integer {
    type V = int;

    closed spec fn view(&self) -> int {
        twos_complement_value(self.bytes@)
    }
}

impl Integer {
    /// The integer whose two's-complement bytes, least significant first,
    /// are `bytes` (the empty sequence is zero).
    pub fn from_le_bytes(bytes: Vec<u8>) -> (r: Integer)
        ensures
            r@ == twos_complement_value(bytes@),
    {
        Integer { bytes }
    }
}

impl Clone for Integer {
    fn clone(&self) -> (r: Self)
        ensures
            r@ == self@,
    {
        let bytes = self.bytes.clone();
        assert(bytes@ =~= self.bytes@);
        Integer { bytes }
    }
}

/// `BigInt::from(i64)`: the integer `v`.
#[verifier::external_body]
pub(crate) fn integer_from_i64(v: i64) -> (r: Integer)
    ensures
        r@ == v as int,
{
    Integer { bytes: BigInt::from(v).to_signed_bytes_le() }
}

/// `Zero::is_zero` on a `BigInt`: whether it is zero.
#[verifier::external_body]
pub(crate) fn integer_is_zero(a: &Integer) -> (r: bool)
    ensures
        r == (a@ == 0),
{
    BigInt::from_signed_bytes_le(&a.bytes).is_zero()
}

/// `Signed::is_negative` on a `BigInt`: whether it is below zero.
#[verifier::external_body]
pub(crate) fn integer_is_negative(a: &Integer) -> (r: bool)
    ensures
        r == (a@ < 0),
{
    BigInt::from_signed_bytes_le(&a.bytes).is_negative()
}

/// `BigInt + BigInt`: the sum.
#[verifier::external_body]
pub(crate) fn integer_add(a: &Integer, b: &Integer) -> (r: Integer)
    ensures
        r@ == a@ + b@,
{
    let x = BigInt::from_signed_bytes_le(&a.bytes);
    let y = BigInt::from_signed_bytes_le(&b.bytes);
    Integer { bytes: (x + y).to_signed_bytes_le() }
}

/// `BigInt * BigInt`: the product.
#[verifier::external_body]
pub(crate) fn integer_mul(a: &Integer, b: &Integer) -> (r: Integer)
    ensures
        r@ == a@ * b@,
{
    let x = BigInt::from_signed_bytes_le(&a.bytes);
    let y = BigInt::from_signed_bytes_le(&b.bytes);
    Integer { bytes: (x * y).to_signed_bytes_le() }
}

/// `-BigInt`: the negation.
#[verifier::external_body]
pub(crate) fn integer_neg(a: &Integer) -> (r: Integer)
    ensures
        r@ == -a@,
{
    Integer { bytes: (-BigInt::from_signed_bytes_le(&a.bytes)).to_signed_bytes_le() }
}

/// `num_integer::Integer::div_rem` on `BigInt`: truncated quotient and
/// remainder.  It panics on a zero divisor, which `requires` rules out.
#[verifier::external_body]
pub(crate) fn integer_div_rem(a: &Integer, b: &Integer) -> (r: (Integer, Integer))
    requires
        b@ != 0,
    ensures
        r.0@ == trunc_div(a@, b@),
        r.1@ == trunc_rem(a@, b@),
{
    let x = BigInt::from_signed_bytes_le(&a.bytes);
    let (q, m) = x.div_rem(&BigInt::from_signed_bytes_le(&b.bytes));
    (Integer { bytes: q.to_signed_bytes_le() }, Integer { bytes: m.to_signed_bytes_le() })
}

/// `num::pow::pow` on `BigInt`: `base` to the power `exp` (1 for `exp == 0`).
#[verifier::external_body]
pub(crate) fn integer_pow(base: &Integer, exp: usize) -> (r: Integer)
    ensures
        r@ == pow(base@, exp as nat),
{
    let x = BigInt::from_signed_bytes_le(&base.bytes);
    Integer { bytes: num::pow::pow(x, exp).to_signed_bytes_le() }
}

/// `ToPrimitive::to_u8` on `BigInt`: the value when it fits in a `u8`.
#[verifier::external_body]
pub(crate) fn integer_to_u8(a: &Integer) -> (r: Option<u8>)
    ensures
        r is Some <==> 0 <= a@ <= 255,
        r matches Some(x) ==> x == a@,
{
    BigInt::from_signed_bytes_le(&a.bytes).to_u8()
}

/// `ToString::to_string` on `BigInt` (its `Display`): decimal notation.
#[verifier::external_body]
pub(crate) fn integer_to_decimal(a: &Integer) -> (r: String)
    ensures
        r@ == int_to_decimal(a@),
{
    BigInt::from_signed_bytes_le(&a.bytes).to_string()
}

/// `str::parse::<BigInt>` (`from_str_radix` with radix 10) on the text made
/// of `s`: the value, or `None` where the text is not decimal notation.
#[verifier::external_body]
pub(crate) fn integer_parse(s: &[char]) -> (r: Option<Integer>)
    ensures
        r is Some <==> integer_from_decimal(s@) is Some,
        r matches Some(x) ==> x@ == integer_from_decimal(s@)->Some_0,
{
    let text: String = s.iter().collect();
    match text.parse::<BigInt>() {
        Ok(x) => Some(Integer { bytes: x.to_signed_bytes_le() }),
        Err(_) => None,
    }
}

// ---------------------------------------------------------------------------
// Rational
// ---------------------------------------------------------------------------

/// A fraction of integers of any size, always in lowest terms with a positive
/// denominator.
#[derive(Debug, PartialEq, Eq)]
pub struct Rational {
    numer: Integer,
    denom: Integer,
}

impl View for Rational {
    type V = (int, int);

    closed spec fn view(&self) -> (int, int) {
        (self.numer@, self.denom@)
    }
}

impl Rational {
    #[verifier::type_invariant]
    spec fn reduced(self) -> bool {
        is_reduced(self@)
    }

    /// The fraction `numer / denom`, reduced to lowest terms.  A zero
    /// denominator is refused (the underlying constructor panics on it).
    pub fn new(numer: Integer, denom: Integer) -> (r: Rational)
        requires
            denom@ != 0,
        ensures
            r@ == normalize(numer@, denom@),
    {
        rational_new(&numer, &denom)
    }

    /// The numerator.
    pub fn numer(&self) -> (r: &Integer)
        ensures
            r@ == self@.0,
    {
        &self.numer
    }

    /// The denominator; it is positive.
    pub fn denom(&self) -> (r: &Integer)
        ensures
            r@ == self@.1,
            r@ > 0,
    {
        proof {
            use_type_invariant(self);
        }
        &self.denom
    }
}

impl Clone for Rational {
    fn clone(&self) -> (r: Self)
        ensures
            r@ == self@,
    {
        proof {
            use_type_invariant(self);
        }
        Rational { numer: self.numer.clone(), denom: self.denom.clone() }
    }
}

/// `BigRational::new`: `n / d` reduced to lowest terms with a positive
/// denominator.  It panics on a zero denominator, which `requires` rules out.
#[verifier::external_body]
pub(crate) fn rational_new(n: &Integer, d: &Integer) -> (r: Rational)
    requires
        d@ != 0,
    ensures
        r@ == normalize(n@, d@),
{
    let q = BigRational::new(BigInt::from_signed_bytes_le(&n.bytes), BigInt::from_signed_bytes_le(&d.bytes));
    Rational { numer: Integer { bytes: q.numer().to_signed_bytes_le() }, denom: Integer { bytes: q.denom().to_signed_bytes_le() } }
}

/// `Zero::zero` for `BigRational`: `0 / 1`.
#[verifier::external_body]
pub(crate) fn rational_zero() -> (r: Rational)
    ensures
        r@ == (0int, 1int),
{
    let q = BigRational::zero();
    Rational { numer: Integer { bytes: q.numer().to_signed_bytes_le() }, denom: Integer { bytes: q.denom().to_signed_bytes_le() } }
}

/// `Zero::is_zero` on a `BigRational`: whether its numerator is zero.
#[verifier::external_body]
pub(crate) fn rational_is_zero(a: &Rational) -> (r: bool)
    ensures
        r == (a@.0 == 0),
{
    BigRational::new_raw(BigInt::from_signed_bytes_le(&a.numer.bytes), BigInt::from_signed_bytes_le(&a.denom.bytes)).is_zero()
}

/// `-BigRational`: the numerator negated, the denominator kept.
#[verifier::external_body]
pub(crate) fn rational_neg(a: &Rational) -> (r: Rational)
    ensures
        r@ == (-a@.0, a@.1),
{
    let q = -BigRational::new_raw(BigInt::from_signed_bytes_le(&a.numer.bytes), BigInt::from_signed_bytes_le(&a.denom.bytes));
    Rational { numer: Integer { bytes: q.numer().to_signed_bytes_le() }, denom: Integer { bytes: q.denom().to_signed_bytes_le() } }
}

/// `BigRational + BigRational`: the sum in lowest terms.
#[verifier::external_body]
pub(crate) fn rational_add(a: &Rational, b: &Rational) -> (r: Rational)
    ensures
        r@ == rat_add(a@, b@),
{
    let x = BigRational::new_raw(BigInt::from_signed_bytes_le(&a.numer.bytes), BigInt::from_signed_bytes_le(&a.denom.bytes));
    let y = BigRational::new_raw(BigInt::from_signed_bytes_le(&b.numer.bytes), BigInt::from_signed_bytes_le(&b.denom.bytes));
    let q = x + y;
    Rational { numer: Integer { bytes: q.numer().to_signed_bytes_le() }, denom: Integer { bytes: q.denom().to_signed_bytes_le() } }
}

/// `BigRational - BigRational`: the difference in lowest terms.
#[verifier::external_body]
pub(crate) fn rational_sub(a: &Rational, b: &Rational) -> (r: Rational)
    ensures
        r@ == rat_sub(a@, b@),
{
    let x = BigRational::new_raw(BigInt::from_signed_bytes_le(&a.numer.bytes), BigInt::from_signed_bytes_le(&a.denom.bytes));
    let y = BigRational::new_raw(BigInt::from_signed_bytes_le(&b.numer.bytes), BigInt::from_signed_bytes_le(&b.denom.bytes));
    let q = x - y;
    Rational { numer: Integer { bytes: q.numer().to_signed_bytes_le() }, denom: Integer { bytes: q.denom().to_signed_bytes_le() } }
}

/// `BigRational * BigRational`: the product in lowest terms.
#[verifier::external_body]
pub(crate) fn rational_mul(a: &Rational, b: &Rational) -> (r: Rational)
    ensures
        r@ == rat_mul(a@, b@),
{
    let x = BigRational::new_raw(BigInt::from_signed_bytes_le(&a.numer.bytes), BigInt::from_signed_bytes_le(&a.denom.bytes));
    let y = BigRational::new_raw(BigInt::from_signed_bytes_le(&b.numer.bytes), BigInt::from_signed_bytes_le(&b.denom.bytes));
    let q = x * y;
    Rational { numer: Integer { bytes: q.numer().to_signed_bytes_le() }, denom: Integer { bytes: q.denom().to_signed_bytes_le() } }
}

/// `BigRational / BigRational`: the quotient in lowest terms.  It panics on a
/// zero divisor, which `requires` rules out.
#[verifier::external_body]
pub(crate) fn rational_div(a: &Rational, b: &Rational) -> (r: Rational)
    requires
        b@.0 != 0,
    ensures
        r@ == rat_div(a@, b@),
{
    let x = BigRational::new_raw(BigInt::from_signed_bytes_le(&a.numer.bytes), BigInt::from_signed_bytes_le(&a.denom.bytes));
    let y = BigRational::new_raw(BigInt::from_signed_bytes_le(&b.numer.bytes), BigInt::from_signed_bytes_le(&b.denom.bytes));
    let q = x / y;
    Rational { numer: Integer { bytes: q.numer().to_signed_bytes_le() }, denom: Integer { bytes: q.denom().to_signed_bytes_le() } }
}

} // verus!
