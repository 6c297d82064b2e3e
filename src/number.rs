use vstd::arithmetic::div_mod::{
    lemma_div_nonincreasing, lemma_fundamental_div_mod, lemma_mod_multiples_basic, lemma_mod_self_0,
};
use vstd::math::abs;
use vstd::prelude::*;
use vstd::string::StrSliceExecFns;

use crate::text::{
    digit_chars, digit_value, digits_of, is_digit, lemma_digit_char, lemma_digits_of, push_char,
    push_digits,
};

verus! {

/// Greatest common divisor, by Euclid's algorithm.
pub open spec fn gcd(a: nat, b: nat) -> nat
    decreases b,
{
    if b == 0 {
        a
    } else {
        gcd(b, a % b)
    }
}

proof fn lemma_multiple_mod(q: int, k: int)
    requires
        k > 0,
    ensures
        (q * k) % k == 0,
{
    lemma_mod_multiples_basic(q, k);
}

/// The gcd is positive and divides both arguments.
pub proof fn lemma_gcd_divides(a: nat, b: nat)
    requires
        a > 0 || b > 0,
    ensures
        gcd(a, b) > 0,
        a % gcd(a, b) == 0,
        b % gcd(a, b) == 0,
    decreases b,
{
    if b == 0 {
        lemma_mod_self_0(a as int);
    } else {
        let r = a % b;
        lemma_gcd_divides(b, r);
        let g = gcd(b, r) as int;
        lemma_fundamental_div_mod(a as int, b as int);
        lemma_fundamental_div_mod(b as int, g);
        lemma_fundamental_div_mod(r as int, g);
        let q = (b as int / g) * (a as int / b as int) + r as int / g;
        assert(a as int == q * g) by (nonlinear_arith)
            requires
                a as int == b as int * (a as int / b as int) + r as int,
                b as int == g * (b as int / g),
                r as int == g * (r as int / g),
                q == (b as int / g) * (a as int / b as int) + r as int / g,
        ;
        lemma_multiple_mod(q, g);
    }
}

/// Every common divisor divides the gcd.
pub proof fn lemma_gcd_greatest(a: nat, b: nat, k: nat)
    requires
        k > 0,
        a % k == 0,
        b % k == 0,
    ensures
        gcd(a, b) % k == 0,
    decreases b,
{
    if b > 0 {
        let r = a % b;
        lemma_fundamental_div_mod(a as int, b as int);
        let k = k as int;
        lemma_fundamental_div_mod(a as int, k);
        lemma_fundamental_div_mod(b as int, k);
        let q = a as int / k - (b as int / k) * (a as int / b as int);
        assert(r as int == q * k) by (nonlinear_arith)
            requires
                a as int == b as int * (a as int / b as int) + r as int,
                a as int == k * (a as int / k) + 0,
                b as int == k * (b as int / k) + 0,
                q == a as int / k - (b as int / k) * (a as int / b as int),
        ;
        lemma_multiple_mod(q, k);
        lemma_gcd_greatest(b, r, k as nat);
    }
}

/// Dividing both arguments by their gcd leaves them coprime.
pub proof fn lemma_gcd_reduces(a: nat, b: nat)
    requires
        b > 0,
    ensures
        gcd(a, b) > 0,
        b / gcd(a, b) > 0,
        gcd(a / gcd(a, b), b / gcd(a, b)) == 1,
{
    lemma_gcd_divides(a, b);
    let g = gcd(a, b) as int;
    lemma_fundamental_div_mod(a as int, g);
    lemma_fundamental_div_mod(b as int, g);
    let a1 = a as int / g;
    let b1 = b as int / g;
    assert(b1 > 0) by (nonlinear_arith)
        requires
            b as int == g * b1 + 0,
            b > 0,
            g > 0,
    ;
    let h = gcd(a1 as nat, b1 as nat) as int;
    lemma_gcd_divides(a1 as nat, b1 as nat);
    lemma_fundamental_div_mod(a1, h);
    lemma_fundamental_div_mod(b1, h);
    let x = a1 / h;
    let y = b1 / h;
    assert(a as int == x * (g * h) && b as int == y * (g * h)) by (nonlinear_arith)
        requires
            a as int == g * a1 + 0,
            b as int == g * b1 + 0,
            a1 == h * x + 0,
            b1 == h * y + 0,
    ;
    assert(g * h > 0) by (nonlinear_arith)
        requires
            g > 0,
            h > 0,
    ;
    lemma_multiple_mod(x, g * h);
    lemma_multiple_mod(y, g * h);
    lemma_gcd_greatest(a, b, (g * h) as nat);
    lemma_fundamental_div_mod(g, g * h);
    let z = g / (g * h);
    assert(h == 1) by (nonlinear_arith)
        requires
            g == (g * h) * z + 0,
            g > 0,
            h > 0,
    ;
}

/// An exact rational number `num / den`, kept in lowest terms with a positive
/// denominator, so that two numbers are equal exactly when their fields are.
#[derive(Clone, Copy, Debug, PartialEq, Eq, Structural)]
pub struct Number {
    num: i64,
    den: i64,
}

/// Euclid's algorithm on machine integers.
fn gcd_u128(a: u128, b: u128) -> (g: u128)
    ensures
        g == gcd(a as nat, b as nat),
{
    let mut x = a;
    let mut y = b;
    while y != 0
        invariant
            gcd(x as nat, y as nat) == gcd(a as nat, b as nat),
        decreases y,
    {
        let r = x % y;
        x = y;
        y = r;
    }
    x
}

proof fn lemma_mul_i64_bounds(p: int, q: int)
    requires
        i64::MIN <= p <= i64::MAX,
        i64::MIN <= q <= i64::MAX,
    ensures
        -0x4000_0000_0000_0000_0000_0000_0000_0000 <= p * q <= 0x4000_0000_0000_0000_0000_0000_0000_0000,
{
    assert(-0x4000_0000_0000_0000_0000_0000_0000_0000 <= p * q <= 0x4000_0000_0000_0000_0000_0000_0000_0000)
        by (nonlinear_arith)
        requires
            -0x8000_0000_0000_0000 <= p <= 0x8000_0000_0000_0000,
            -0x8000_0000_0000_0000 <= q <= 0x8000_0000_0000_0000,
    ;
}

proof fn lemma_mul_den_bounds(p: int, q: int)
    requires
        i64::MIN <= p <= i64::MAX,
        0 < q <= i64::MAX,
    ensures
        -0x3fff_ffff_ffff_ffff_8000_0000_0000_0000 <= p * q <= 0x3fff_ffff_ffff_ffff_8000_0000_0000_0000,
{
    assert(-0x3fff_ffff_ffff_ffff_8000_0000_0000_0000 <= p * q <= 0x3fff_ffff_ffff_ffff_8000_0000_0000_0000)
        by (nonlinear_arith)
        requires
            -0x8000_0000_0000_0000 <= p <= 0x8000_0000_0000_0000,
            0 < q <= 0x7fff_ffff_ffff_ffff,
    ;
}

proof fn lemma_mul_pos(p: int, q: int)
    requires
        p > 0,
        q > 0,
    ensures
        p * q > 0,
{
    assert(p * q > 0) by (nonlinear_arith)
        requires
            p > 0,
            q > 0,
    ;
}

impl Number {
    #[verifier::type_invariant]
    spec fn inv(self) -> bool {
        self.canonical()
    }

    /// In lowest terms with a positive denominator, as every number that the
    /// library makes is.
    pub closed spec fn canonical(self) -> bool {
        &&& self.den > 0
        &&& gcd(abs(self.num as int), self.den as nat) == 1
    }

    /// The numerator, signed.
    pub closed spec fn numer(self) -> int {
        self.num as int
    }

    /// The denominator, always positive.
    pub closed spec fn denom(self) -> int {
        self.den as int
    }

    /// The number `n / d` (for `d > 0`) in lowest terms, or `None` when its
    /// reduced numerator or denominator does not fit in 64 bits.
    pub closed spec fn from_ratio(n: int, d: int) -> Option<Number> {
        let g = gcd(abs(n), d as nat);
        let a = abs(n) / g;
        let num = if n < 0 {
            -(a as int)
        } else {
            a as int
        };
        let den = d / (g as int);
        if i64::MIN <= num <= i64::MAX && den <= i64::MAX {
            Some(Number { num: num as i64, den: den as i64 })
        } else {
            None
        }
    }

    /// The integer `n`.
    pub open spec fn integer(n: int) -> Option<Number> {
        Number::from_ratio(n, 1)
    }

    pub open spec fn sum(a: Number, b: Number) -> Option<Number> {
        Number::from_ratio(a.numer() * b.denom() + b.numer() * a.denom(), a.denom() * b.denom())
    }

    pub open spec fn difference(a: Number, b: Number) -> Option<Number> {
        Number::from_ratio(a.numer() * b.denom() - b.numer() * a.denom(), a.denom() * b.denom())
    }

    pub open spec fn product(a: Number, b: Number) -> Option<Number> {
        Number::from_ratio(a.numer() * b.numer(), a.denom() * b.denom())
    }

    /// `a / b`, for `b` other than zero.
    pub open spec fn quotient(a: Number, b: Number) -> Option<Number> {
        if b.numer() < 0 {
            Number::from_ratio(-(a.numer() * b.denom()), -(a.denom() * b.numer()))
        } else {
            Number::from_ratio(a.numer() * b.denom(), a.denom() * b.numer())
        }
    }

    pub open spec fn is_zero(self) -> bool {
        self.numer() == 0
    }

    /// Comparison of the two rational values.
    pub open spec fn cmp_spec(a: Number, b: Number) -> int {
        let x = a.numer() * b.denom();
        let y = b.numer() * a.denom();
        if x < y {
            -1
        } else if x == y {
            0
        } else {
            1
        }
    }

    /// `from_ratio` keeps the value of the fraction.
    pub proof fn lemma_from_ratio_value(n: int, d: int)
        requires
            d > 0,
        ensures
            Number::from_ratio(n, d) matches Some(r) ==> r.numer() * d == n * r.denom()
                && r.denom() > 0,
    {
        lemma_gcd_divides(abs(n), d as nat);
        let g = gcd(abs(n), d as nat) as int;
        lemma_fundamental_div_mod(abs(n) as int, g);
        lemma_fundamental_div_mod(d, g);
        let a = abs(n) as int / g;
        let e = d / g;
        if n < 0 {
            assert(-a * d == n * e) by (nonlinear_arith)
                requires
                    -n == g * a + 0,
                    d == g * e + 0,
            ;
        } else {
            assert(a * d == n * e) by (nonlinear_arith)
                requires
                    n == g * a + 0,
                    d == g * e + 0,
            ;
        }
        assert(e > 0) by (nonlinear_arith)
            requires
                d == g * e + 0,
                d > 0,
                g > 0,
        ;
    }

    /// A fraction whose parts fit in 64 bits still fits once reduced.
    pub proof fn lemma_from_ratio_fits(n: int, d: int)
        requires
            0 < d <= i64::MAX,
            i64::MIN <= n <= i64::MAX,
        ensures
            Number::from_ratio(n, d) is Some,
    {
        lemma_gcd_divides(abs(n), d as nat);
        let g = gcd(abs(n), d as nat) as int;
        lemma_div_nonincreasing(abs(n) as int, g);
        lemma_div_nonincreasing(d, g);
    }

    /// Reduces `n / d` to lowest terms.
    fn normalize(n: i128, d: i128) -> (r: Option<Number>)
        requires
            d > 0,
            n > i128::MIN,
        ensures
            r == Number::from_ratio(n as int, d as int),
    {
        let a: u128 = if n < 0 {
            (-n) as u128
        } else {
            n as u128
        };
        let b = d as u128;
        let g = gcd_u128(a, b);
        proof {
            lemma_gcd_reduces(a as nat, b as nat);
            assert(a as nat == abs(n as int));
        }
        let a1 = a / g;
        let b1 = b / g;
        let num: i128 = if n < 0 {
            -(a1 as i128)
        } else {
            a1 as i128
        };
        if num < i64::MIN as i128 || num > i64::MAX as i128 || b1 > i64::MAX as u128 {
            return None;
        }
        proof {
            assert(abs(num as int) == a1 as nat);
        }
        Some(Number { num: num as i64, den: b1 as i64 })
    }

    /// The integer `n`.
    pub fn from_int(n: i64) -> (r: Number)
        ensures
            Number::integer(n as int) == Some(r),
            r.numer() == n,
            r.denom() == 1,
    {
        proof {
            reveal_with_fuel(gcd, 2);
            assert(gcd(abs(n as int), 1) == 1);
            assert(abs(n as int) / 1 == abs(n as int));
            assert(1int / 1int == 1);
        }
        let r = Number::normalize(n as i128, 1);
        r.unwrap()
    }

    /// The fraction `n / d` in lowest terms, or `None` when `d` is not positive
    /// or the reduced fraction does not fit.
    pub fn ratio(n: i64, d: i64) -> (r: Option<Number>)
        ensures
            d <= 0 ==> r.is_none(),
            d > 0 ==> r == Number::from_ratio(n as int, d as int),
    {
        if d <= 0 {
            None
        } else {
            Number::normalize(n as i128, d as i128)
        }
    }

    pub fn numerator(&self) -> (r: i64)
        ensures
            r == self.numer(),
    {
        self.num
    }

    pub fn denominator(&self) -> (r: i64)
        ensures
            r == self.denom(),
            r > 0,
    {
        proof {
            use_type_invariant(self);
        }
        self.den
    }

    pub fn checked_add(&self, other: &Number) -> (r: Option<Number>)
        ensures
            r == Number::sum(*self, *other),
    {
        proof {
            use_type_invariant(self);
            use_type_invariant(other);
            lemma_mul_den_bounds(self.num as int, other.den as int);
            lemma_mul_den_bounds(other.num as int, self.den as int);
            lemma_mul_i64_bounds(self.den as int, other.den as int);
            lemma_mul_pos(self.den as int, other.den as int);
        }
        let n = self.num as i128 * other.den as i128 + other.num as i128 * self.den as i128;
        let d = self.den as i128 * other.den as i128;
        Number::normalize(n, d)
    }

    pub fn checked_sub(&self, other: &Number) -> (r: Option<Number>)
        ensures
            r == Number::difference(*self, *other),
    {
        proof {
            use_type_invariant(self);
            use_type_invariant(other);
            lemma_mul_den_bounds(self.num as int, other.den as int);
            lemma_mul_den_bounds(other.num as int, self.den as int);
            lemma_mul_i64_bounds(self.den as int, other.den as int);
            lemma_mul_pos(self.den as int, other.den as int);
        }
        let n = self.num as i128 * other.den as i128 - other.num as i128 * self.den as i128;
        let d = self.den as i128 * other.den as i128;
        Number::normalize(n, d)
    }

    pub fn checked_mul(&self, other: &Number) -> (r: Option<Number>)
        ensures
            r == Number::product(*self, *other),
    {
        proof {
            use_type_invariant(self);
            use_type_invariant(other);
            lemma_mul_i64_bounds(self.num as int, other.num as int);
            lemma_mul_i64_bounds(self.den as int, other.den as int);
            lemma_mul_pos(self.den as int, other.den as int);
        }
        let n = self.num as i128 * other.num as i128;
        let d = self.den as i128 * other.den as i128;
        Number::normalize(n, d)
    }

    /// Division by a number other than zero.
    pub fn checked_div(&self, other: &Number) -> (r: Option<Number>)
        requires
            !other.is_zero(),
        ensures
            r == Number::quotient(*self, *other),
    {
        proof {
            use_type_invariant(self);
            use_type_invariant(other);
            lemma_mul_i64_bounds(self.num as int, other.den as int);
            lemma_mul_i64_bounds(self.den as int, other.num as int);
        }
        let n = self.num as i128 * other.den as i128;
        let d = self.den as i128 * other.num as i128;
        if other.num < 0 {
            proof {
                assert((self.den as int) * (other.num as int) < 0) by (nonlinear_arith)
                    requires
                        self.den > 0,
                        other.num < 0,
                ;
            }
            Number::normalize(-n, -d)
        } else {
            proof {
                lemma_mul_pos(self.den as int, other.num as int);
            }
            Number::normalize(n, d)
        }
    }

    pub fn equals_zero(&self) -> (r: bool)
        ensures
            r == self.is_zero(),
    {
        self.num == 0
    }

    /// -1, 0 or 1 as `self` is less than, equal to or greater than `other`.
    pub fn compare(&self, other: &Number) -> (r: i8)
        ensures
            r as int == Number::cmp_spec(*self, *other),
    {
        proof {
            lemma_mul_i64_bounds(self.num as int, other.den as int);
            lemma_mul_i64_bounds(other.num as int, self.den as int);
        }
        let x = self.num as i128 * other.den as i128;
        let y = other.num as i128 * self.den as i128;
        if x < y {
            -1
        } else if x == y {
            0
        } else {
            1
        }
    }
}

/// Each run of digits in a literal, read as one integer, stays below this bound.
pub const MANTISSA_LIMIT: u128 = 10_000_000_000_000_000_000;

/// At most eighteen digits may follow a decimal point.
pub const SCALE_LIMIT: u128 = 1_000_000_000_000_000_000;

/// Where a scan of a numeric literal stands.
pub const AT_START: u8 = 0;
pub const AT_SIGN: u8 = 1;
pub const IN_INTEGER: u8 = 2;
pub const AT_POINT: u8 = 3;
pub const AT_BARE_POINT: u8 = 4;
pub const IN_FRACTION: u8 = 5;
pub const AT_SLASH: u8 = 6;
pub const IN_DENOMINATOR: u8 = 7;
pub const REJECTED: u8 = 8;
pub const AT_EXPONENT: u8 = 9;
pub const AT_EXPONENT_SIGN: u8 = 10;
pub const IN_EXPONENT: u8 = 11;

/// The state of a left-to-right scan of a numeric literal. The literal is a
/// decimal, `[+-]digits`, `[+-]digits.`, `[+-]digits.digits` or
/// `[+-].digits`, optionally followed by an exponent `e` or `E`, a sign and
/// digits; or a fraction `[+-]digits/digits`.
#[derive(Clone, Copy, Debug, PartialEq, Eq, Structural)]
pub struct LiteralScan {
    pub phase: u8,
    pub negative: bool,
    /// All digits before any slash or exponent, read as one integer.
    pub mantissa: u128,
    /// Ten to the number of digits after the point.
    pub scale: u128,
    /// The digits after a slash.
    pub denominator: u128,
    pub exponent_negative: bool,
    /// The digits of the exponent.
    pub exponent: u128,
}

pub open spec fn scan_start() -> LiteralScan {
    LiteralScan {
        phase: AT_START,
        negative: false,
        mantissa: 0,
        scale: 1,
        denominator: 0,
        exponent_negative: false,
        exponent: 0,
    }
}

pub open spec fn scan_wf(st: LiteralScan) -> bool {
    &&& st.mantissa < MANTISSA_LIMIT
    &&& 1 <= st.scale <= 10 * SCALE_LIMIT
    &&& st.denominator < MANTISSA_LIMIT
    &&& st.exponent < MANTISSA_LIMIT
}

pub open spec fn append_digit(v: u128, c: char) -> Option<u128> {
    if v * 10 + digit_value(c) < MANTISSA_LIMIT {
        Some((v * 10 + digit_value(c)) as u128)
    } else {
        None
    }
}

pub open spec fn rejected(st: LiteralScan) -> LiteralScan {
    LiteralScan { phase: REJECTED, ..st }
}

/// A phase after which the literal may end as a decimal.
pub open spec fn is_decimal_end(p: u8) -> bool {
    p == IN_INTEGER || p == AT_POINT || p == IN_FRACTION
}

/// One character of the scan.
pub open spec fn scan_step(st: LiteralScan, c: char) -> LiteralScan {
    let p = st.phase;
    if is_digit(c) {
        if p == AT_START || p == AT_SIGN || p == IN_INTEGER {
            match append_digit(st.mantissa, c) {
                Some(m) => LiteralScan { phase: IN_INTEGER, mantissa: m, ..st },
                None => rejected(st),
            }
        } else if p == AT_POINT || p == AT_BARE_POINT || p == IN_FRACTION {
            match append_digit(st.mantissa, c) {
                Some(m) => if st.scale < SCALE_LIMIT {
                    LiteralScan { phase: IN_FRACTION, mantissa: m, scale: (st.scale * 10) as u128, ..st }
                } else {
                    rejected(st)
                },
                None => rejected(st),
            }
        } else if p == AT_SLASH || p == IN_DENOMINATOR {
            match append_digit(st.denominator, c) {
                Some(d) => LiteralScan { phase: IN_DENOMINATOR, denominator: d, ..st },
                None => rejected(st),
            }
        } else if p == AT_EXPONENT || p == AT_EXPONENT_SIGN || p == IN_EXPONENT {
            match append_digit(st.exponent, c) {
                Some(e) => LiteralScan { phase: IN_EXPONENT, exponent: e, ..st },
                None => rejected(st),
            }
        } else {
            rejected(st)
        }
    } else if (c == '+' || c == '-') && p == AT_START {
        LiteralScan { phase: AT_SIGN, negative: c == '-', ..st }
    } else if (c == '+' || c == '-') && p == AT_EXPONENT {
        LiteralScan { phase: AT_EXPONENT_SIGN, exponent_negative: c == '-', ..st }
    } else if c == '.' && p == IN_INTEGER {
        LiteralScan { phase: AT_POINT, ..st }
    } else if c == '.' && (p == AT_START || p == AT_SIGN) {
        LiteralScan { phase: AT_BARE_POINT, ..st }
    } else if c == '/' && p == IN_INTEGER {
        LiteralScan { phase: AT_SLASH, ..st }
    } else if (c == 'e' || c == 'E') && is_decimal_end(p) {
        LiteralScan { phase: AT_EXPONENT, ..st }
    } else {
        rejected(st)
    }
}

/// The scan after the characters `s`, from the state `st`.
pub open spec fn scan_from(st: LiteralScan, s: Seq<char>) -> LiteralScan
    decreases s.len(),
{
    if s.len() == 0 {
        st
    } else {
        scan_step(scan_from(st, s.drop_last()), s.last())
    }
}

pub open spec fn pow10(k: nat) -> nat
    decreases k,
{
    if k == 0 {
        1
    } else {
        10 * pow10((k - 1) as nat)
    }
}

/// The number that a finished scan denotes.
pub open spec fn scan_value(st: LiteralScan) -> Option<Number> {
    let n = if st.negative {
        -(st.mantissa as int)
    } else {
        st.mantissa as int
    };
    if is_decimal_end(st.phase) {
        Number::from_ratio(n, st.scale as int)
    } else if st.phase == IN_EXPONENT {
        if st.exponent_negative {
            Number::from_ratio(n, st.scale * pow10(st.exponent as nat))
        } else {
            Number::from_ratio(n * pow10(st.exponent as nat), st.scale as int)
        }
    } else if st.phase == IN_DENOMINATOR && st.denominator > 0 {
        Number::from_ratio(n, st.denominator as int)
    } else {
        None
    }
}

/// The number that the token `s` writes, if it is a numeric literal whose
/// value fits.
pub open spec fn literal_number(s: Seq<char>) -> Option<Number> {
    scan_value(scan_from(scan_start(), s))
}

fn append_digit_exec(v: u128, c: char) -> (r: Option<u128>)
    requires
        v < MANTISSA_LIMIT,
        is_digit(c),
    ensures
        r == append_digit(v, c),
{
    let d = (c as u32 - '0' as u32) as u128;
    if v * 10 + d < MANTISSA_LIMIT {
        Some(v * 10 + d)
    } else {
        None
    }
}

fn scan_step_exec(st: LiteralScan, c: char) -> (r: LiteralScan)
    requires
        scan_wf(st),
    ensures
        r == scan_step(st, c),
        scan_wf(r),
{
    let p = st.phase;
    let rej = LiteralScan { phase: REJECTED, ..st };
    if '0' <= c && c <= '9' {
        if p == AT_START || p == AT_SIGN || p == IN_INTEGER {
            match append_digit_exec(st.mantissa, c) {
                Some(m) => LiteralScan { phase: IN_INTEGER, mantissa: m, ..st },
                None => rej,
            }
        } else if p == AT_POINT || p == AT_BARE_POINT || p == IN_FRACTION {
            match append_digit_exec(st.mantissa, c) {
                Some(m) => if st.scale < SCALE_LIMIT {
                    LiteralScan { phase: IN_FRACTION, mantissa: m, scale: st.scale * 10, ..st }
                } else {
                    rej
                },
                None => rej,
            }
        } else if p == AT_SLASH || p == IN_DENOMINATOR {
            match append_digit_exec(st.denominator, c) {
                Some(d) => LiteralScan { phase: IN_DENOMINATOR, denominator: d, ..st },
                None => rej,
            }
        } else if p == AT_EXPONENT || p == AT_EXPONENT_SIGN || p == IN_EXPONENT {
            match append_digit_exec(st.exponent, c) {
                Some(e) => LiteralScan { phase: IN_EXPONENT, exponent: e, ..st },
                None => rej,
            }
        } else {
            rej
        }
    } else if (c == '+' || c == '-') && p == AT_START {
        LiteralScan { phase: AT_SIGN, negative: c == '-', ..st }
    } else if (c == '+' || c == '-') && p == AT_EXPONENT {
        LiteralScan { phase: AT_EXPONENT_SIGN, exponent_negative: c == '-', ..st }
    } else if c == '.' && p == IN_INTEGER {
        LiteralScan { phase: AT_POINT, ..st }
    } else if c == '.' && (p == AT_START || p == AT_SIGN) {
        LiteralScan { phase: AT_BARE_POINT, ..st }
    } else if c == '/' && p == IN_INTEGER {
        LiteralScan { phase: AT_SLASH, ..st }
    } else if (c == 'e' || c == 'E') && (p == IN_INTEGER || p == AT_POINT || p == IN_FRACTION) {
        LiteralScan { phase: AT_EXPONENT, ..st }
    } else {
        rej
    }
}

proof fn lemma_pow10_grows(i: nat, e: nat)
    requires
        i < e,
    ensures
        pow10(e) >= 10 * pow10(i),
        pow10(i) >= 1,
    decreases e,
{
    lemma_pow10_positive(i);
    if i + 1 < e {
        lemma_pow10_grows(i, (e - 1) as nat);
        lemma_pow10_positive((e - 1) as nat);
    }
}

proof fn lemma_pow10_positive(k: nat)
    ensures
        pow10(k) >= 1,
    decreases k,
{
    if k > 0 {
        lemma_pow10_positive((k - 1) as nat);
    }
}

/// `b` times ten to the `e`, when that stays within `i128`.
fn times_pow10(b: u128, e: u128) -> (r: Option<u128>)
    requires
        b >= 1,
        b <= i128::MAX,
    ensures
        r matches Some(t) ==> t == b * pow10(e as nat) && 1 <= t <= i128::MAX,
        r is None ==> b * pow10(e as nat) > i128::MAX,
{
    let mut t = b;
    let mut i: u128 = 0;
    proof {
        assert(pow10(0) == 1);
    }
    while i < e
        invariant
            i <= e,
            b >= 1,
            t >= 1,
            t == b * pow10(i as nat),
            t <= i128::MAX,
        decreases e - i,
    {
        if t > (i128::MAX as u128) / 10 {
            proof {
                lemma_pow10_grows(i as nat, e as nat);
                let p = pow10(i as nat) as int;
                let q = pow10(e as nat) as int;
                assert(b * q >= b * (10 * p)) by (nonlinear_arith)
                    requires
                        q >= 10 * p,
                        b >= 1,
                ;
                assert(b * (10 * p) == 10 * (b * p)) by (nonlinear_arith);
            }
            return None;
        }
        proof {
            assert(b * pow10((i + 1) as nat) == 10 * (b * pow10(i as nat))) by (nonlinear_arith)
                requires
                    pow10((i + 1) as nat) == 10 * pow10(i as nat),
            ;
        }
        t = t * 10;
        i = i + 1;
    }
    Some(t)
}

/// Bounds that any fraction `from_ratio` accepts must meet.
proof fn lemma_ratio_bounds(n: int, d: int)
    requires
        d > 0,
        Number::from_ratio(n, d) is Some,
    ensures
        abs(n) <= 0x8000_0000_0000_0000 * d,
        n != 0 ==> d <= 0x8000_0000_0000_0000 * abs(n),
{
    lemma_gcd_divides(abs(n), d as nat);
    let g = gcd(abs(n), d as nat) as int;
    lemma_fundamental_div_mod(abs(n) as int, g);
    lemma_fundamental_div_mod(d, g);
    let a = abs(n) as int / g;
    let e = d / g;
    assert(0 <= a <= 0x8000_0000_0000_0000);
    assert(1 <= e <= 0x8000_0000_0000_0000) by (nonlinear_arith)
        requires
            d == g * e + 0,
            d > 0,
            g > 0,
            e <= i64::MAX,
    ;
    assert(abs(n) <= 0x8000_0000_0000_0000 * d) by (nonlinear_arith)
        requires
            abs(n) == g * a + 0,
            d == g * e + 0,
            e >= 1,
            g > 0,
            0 <= a <= 0x8000_0000_0000_0000,
    ;
    if n != 0 {
        assert(d <= 0x8000_0000_0000_0000 * abs(n)) by (nonlinear_arith)
            requires
                abs(n) == g * a + 0,
                abs(n) > 0,
                d == g * e + 0,
                g > 0,
                a >= 0,
                1 <= e <= 0x8000_0000_0000_0000,
        ;
    }
}

/// Zero over any positive denominator is zero.
proof fn lemma_zero_ratio(d: int)
    requires
        d > 0,
    ensures
        Number::from_ratio(0, d) == Number::from_ratio(0, 1),
{
    reveal_with_fuel(gcd, 2);
    assert(abs(0int) == 0);
    assert(0nat % (d as nat) == 0);
    assert(gcd(0, d as nat) == d);
    assert(1int / 1int == 1);
    assert(gcd(0, 1) == 1);
    assert(d / d == 1) by (nonlinear_arith)
        requires
            d > 0,
    ;
    assert(0nat / (d as nat) == 0);
}

impl Number {
    /// `±m × 10^e / scale`, or `±m / (scale × 10^e)` when the exponent is negative.
    fn with_exponent(negative: bool, m: u128, scale: u128, exponent_negative: bool, e: u128) -> (r:
        Option<Number>)
        requires
            m < MANTISSA_LIMIT,
            1 <= scale <= 10 * SCALE_LIMIT,
        ensures
            r == scan_value(
                LiteralScan {
                    phase: IN_EXPONENT,
                    negative,
                    mantissa: m,
                    scale,
                    denominator: 0,
                    exponent_negative,
                    exponent: e,
                },
            ),
    {
        let ghost n: int = if negative {
            -(m as int)
        } else {
            m as int
        };
        proof {
            lemma_pow10_positive(e as nat);
        }
        if m == 0 {
            proof {
                assert(n * pow10(e as nat) == 0);
                assert(scale * pow10(e as nat) >= 1) by (nonlinear_arith)
                    requires
                        scale >= 1,
                        pow10(e as nat) >= 1,
                ;
                lemma_zero_ratio(scale * pow10(e as nat));
                lemma_zero_ratio(scale as int);
            }
            return Number::normalize(0, 1);
        }
        if exponent_negative {
            match times_pow10(scale, e) {
                Some(d) => {
                    let n1: i128 = if negative {
                        -(m as i128)
                    } else {
                        m as i128
                    };
                    Number::normalize(n1, d as i128)
                },
                None => {
                    proof {
                        if Number::from_ratio(n, scale * pow10(e as nat)) is Some {
                            lemma_ratio_bounds(n, scale * pow10(e as nat));
                        }
                    }
                    None
                },
            }
        } else {
            match times_pow10(m, e) {
                Some(t) => {
                    let n1: i128 = if negative {
                        -(t as i128)
                    } else {
                        t as i128
                    };
                    proof {
                        if negative {
                            assert(n * pow10(e as nat) == -(m * pow10(e as nat))) by (nonlinear_arith)
                                requires
                                    n == -(m as int),
                            ;
                        }
                    }
                    Number::normalize(n1, scale as i128)
                },
                None => {
                    proof {
                        if negative {
                            assert(n * pow10(e as nat) == -(m * pow10(e as nat))) by (nonlinear_arith)
                                requires
                                    n == -(m as int),
                            ;
                        }
                        if Number::from_ratio(n * pow10(e as nat), scale as int) is Some {
                            lemma_ratio_bounds(n * pow10(e as nat), scale as int);
                        }
                    }
                    None
                },
            }
        }
    }

    /// The number that `token` writes, when it is a numeric literal whose value fits.
    pub fn from_literal(token: &str) -> (r: Option<Number>)
        ensures
            r == literal_number(token@),
    {
        let len = token.unicode_len();
        let mut st = LiteralScan {
            phase: AT_START,
            negative: false,
            mantissa: 0,
            scale: 1,
            denominator: 0,
            exponent_negative: false,
            exponent: 0,
        };
        let mut i: usize = 0;
        while i < len
            invariant
                len == token@.len(),
                i <= len,
                st == scan_from(scan_start(), token@.take(i as int)),
                scan_wf(st),
            decreases len - i,
        {
            let c = token.get_char(i);
            proof {
                assert(token@.take(i + 1).drop_last() =~= token@.take(i as int));
            }
            st = scan_step_exec(st, c);
            i = i + 1;
        }
        proof {
            assert(token@.take(len as int) =~= token@);
        }
        let n: i128 = if st.negative {
            -(st.mantissa as i128)
        } else {
            st.mantissa as i128
        };
        if st.phase == IN_INTEGER || st.phase == AT_POINT || st.phase == IN_FRACTION {
            Number::normalize(n, st.scale as i128)
        } else if st.phase == IN_EXPONENT {
            let r = Number::with_exponent(
                st.negative,
                st.mantissa,
                st.scale,
                st.exponent_negative,
                st.exponent,
            );
            r
        } else if st.phase == IN_DENOMINATOR && st.denominator > 0 {
            Number::normalize(n, st.denominator as i128)
        } else {
            None
        }
    }
}

/// The text of a number: an optional `-`, the digits of the numerator's
/// magnitude, and `/` with the denominator's digits unless that is one.
pub open spec fn number_text(x: Number) -> Seq<char> {
    let sign = if x.numer() < 0 {
        seq!['-']
    } else {
        Seq::<char>::empty()
    };
    let tail = if x.denom() == 1 {
        Seq::<char>::empty()
    } else {
        seq!['/'] + digits_of(x.denom() as nat)
    };
    sign + digits_of(abs(x.numer())) + tail
}

impl Number {
    /// The number's text, which reads back as the same number.
    pub fn to_text(&self) -> (r: String)
        ensures
            r@ == number_text(*self),
    {
        proof {
            use_type_invariant(self);
        }
        let mut s = String::new();
        if self.num < 0 {
            push_char(&mut s, '-');
        }
        let a: u64 = if self.num < 0 {
            (-(self.num as i128)) as u64
        } else {
            self.num as u64
        };
        push_digits(&mut s, a);
        if self.den != 1 {
            push_char(&mut s, '/');
            push_digits(&mut s, self.den as u64);
        }
        proof {
            assert(s@ =~= number_text(*self));
        }
        s
    }
}

impl Number {
    /// A number in lowest terms is what `from_ratio` makes of its own parts.
    pub proof fn lemma_canonical(x: Number)
        requires
            x.canonical(),
        ensures
            Number::from_ratio(x.numer(), x.denom()) == Some(x),
            x.denom() > 0,
            i64::MIN <= x.numer() <= i64::MAX,
            x.denom() <= i64::MAX,
    {
        assert(abs(x.numer()) / 1 == abs(x.numer()));
        assert(x.denom() / 1 == x.denom());
    }
}

/// Scanning `a + b` is scanning `a`, then `b`.
pub proof fn lemma_scan_concat(st: LiteralScan, a: Seq<char>, b: Seq<char>)
    ensures
        scan_from(st, a + b) == scan_from(scan_from(st, a), b),
    decreases b.len(),
{
    if b.len() == 0 {
        assert(a + b =~= a);
    } else {
        lemma_scan_concat(st, a, b.drop_last());
        assert((a + b).drop_last() =~= a + b.drop_last());
        assert((a + b).last() == b.last());
    }
}

/// The digits of `v`, scanned at the start or after a sign, give the integer `v`.
proof fn lemma_scan_integer_digits(st: LiteralScan, v: nat)
    requires
        st.phase == AT_START || st.phase == AT_SIGN,
        st.mantissa == 0,
        v < MANTISSA_LIMIT,
    ensures
        scan_from(st, digits_of(v)) == (LiteralScan { phase: IN_INTEGER, mantissa: v as u128, ..st }),
    decreases v,
{
    let d = digits_of(v);
    if v < 10 {
        lemma_digit_char(v);
        assert(d.drop_last() =~= Seq::<char>::empty());
        assert(scan_from(st, d.drop_last()) == st);
        assert(d.last() == digit_chars()[v as int]);
    } else {
        lemma_scan_integer_digits(st, v / 10);
        lemma_digit_char(v % 10);
        assert(d.drop_last() =~= digits_of(v / 10));
        assert(d.last() == digit_chars()[(v % 10) as int]);
        assert((v / 10) * 10 + v % 10 == v);
    }
}

/// The digits of `v`, scanned after a slash, give the denominator `v`.
proof fn lemma_scan_denominator_digits(st: LiteralScan, v: nat)
    requires
        st.phase == AT_SLASH,
        st.denominator == 0,
        v < MANTISSA_LIMIT,
    ensures
        scan_from(st, digits_of(v)) == (LiteralScan {
            phase: IN_DENOMINATOR,
            denominator: v as u128,
            ..st
        }),
    decreases v,
{
    let d = digits_of(v);
    if v < 10 {
        lemma_digit_char(v);
        assert(d.drop_last() =~= Seq::<char>::empty());
        assert(scan_from(st, d.drop_last()) == st);
        assert(d.last() == digit_chars()[v as int]);
    } else {
        lemma_scan_denominator_digits(st, v / 10);
        lemma_digit_char(v % 10);
        assert(d.drop_last() =~= digits_of(v / 10));
        assert(d.last() == digit_chars()[(v % 10) as int]);
        assert((v / 10) * 10 + v % 10 == v);
    }
}

/// The text of a number in lowest terms reads back as that number.
pub proof fn lemma_number_text_reads_back(x: Number)
    requires
        x.canonical(),
    ensures
        literal_number(number_text(x)) == Some(x),
{
    Number::lemma_canonical(x);
    let n = x.numer();
    let sign = if n < 0 {
        seq!['-']
    } else {
        Seq::<char>::empty()
    };
    let tail = if x.denom() == 1 {
        Seq::<char>::empty()
    } else {
        seq!['/'] + digits_of(x.denom() as nat)
    };
    let digits = digits_of(abs(n));
    assert(number_text(x) == sign + digits + tail);
    lemma_scan_concat(scan_start(), sign + digits, tail);
    lemma_scan_concat(scan_start(), sign, digits);
    let s1 = scan_from(scan_start(), sign);
    if n < 0 {
        assert(sign.drop_last() =~= Seq::<char>::empty());
        assert(scan_from(scan_start(), sign.drop_last()) == scan_start());
        assert(!is_digit('-'));
        assert(s1 == LiteralScan { phase: AT_SIGN, negative: true, ..scan_start() });
    } else {
        assert(s1 == scan_start());
    }
    lemma_scan_integer_digits(s1, abs(n));
    let s2 = scan_from(s1, digits);
    assert(s2 == LiteralScan { phase: IN_INTEGER, mantissa: abs(n) as u128, ..s1 });
    if x.denom() == 1 {
        assert(scan_from(s2, tail) == s2);
        assert(sign + digits + tail =~= sign + digits);
    } else {
        lemma_scan_concat(s2, seq!['/'], digits_of(x.denom() as nat));
        assert(seq!['/'].drop_last() =~= Seq::<char>::empty());
        assert(scan_from(s2, seq!['/'].drop_last()) == s2);
        assert(!is_digit('/'));
        let s3 = scan_from(s2, seq!['/']);
        assert(s3 == LiteralScan { phase: AT_SLASH, ..s2 });
        lemma_scan_denominator_digits(s3, x.denom() as nat);
    }
}

/// The text of a number is non-empty, begins with `-` or a digit, and holds
/// only digits, `-` and `/`.
pub proof fn lemma_number_text_chars(x: Number)
    ensures
        number_text(x).len() > 0,
        number_text(x)[0] == '-' || is_digit(number_text(x)[0]),
        forall|i: int|
            0 <= i < number_text(x).len() ==> #[trigger] is_digit(number_text(x)[i]) || number_text(
                x,
            )[i] == '-' || number_text(x)[i] == '/',
{
    lemma_digits_of(abs(x.numer()));
    lemma_digits_of(x.denom() as nat);
}

} // verus!
