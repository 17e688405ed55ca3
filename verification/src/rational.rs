//! Exact rational numbers in lowest terms.
//!
//! A `Rational` holds its sign and the decimal digits of numerator and
//! denominator. The arithmetic is done by `num_rational` on
//! arbitrary-precision integers; this module states what each operation
//! returns and handles the signs.

use crate::digits::{
    copy_digits, digits_value, is_canonical, is_digits, lemma_value_single, same_digits,
};
use crate::text::{digits_text, push_digits};
use num::traits::Pow;
use num_bigint::{BigInt, BigUint};
use num_rational::Ratio;
use vstd::arithmetic::div_mod::lemma_small_mod;
use vstd::arithmetic::power::{lemma_pow_positive, pow};
use vstd::prelude::*;

verus! {

/// The sign of a number; `NoSign` is the sign of zero.
#[derive(Clone, Copy, Debug, PartialEq, Eq, Structural)]
pub enum Sign {
    Minus,
    NoSign,
    Plus,
}

/// A fraction of two integers, not necessarily in lowest terms: the
/// mathematical value that contracts speak of.
pub struct Frac {
    pub num: int,
    pub den: int,
}

impl Frac {
    /// The two fractions denote the same number (for nonzero denominators).
    pub open spec fn eqv(self, other: Frac) -> bool {
        self.num * other.den == other.num * self.den
    }

    pub open spec fn plus(self, other: Frac) -> Frac {
        Frac { num: self.num * other.den + other.num * self.den, den: self.den * other.den }
    }

    pub open spec fn minus(self, other: Frac) -> Frac {
        Frac { num: self.num * other.den - other.num * self.den, den: self.den * other.den }
    }

    pub open spec fn times(self, other: Frac) -> Frac {
        Frac { num: self.num * other.num, den: self.den * other.den }
    }

    pub open spec fn over(self, other: Frac) -> Frac {
        Frac { num: self.num * other.den, den: self.den * other.num }
    }

    pub open spec fn negated(self) -> Frac {
        Frac { num: -self.num, den: self.den }
    }

    pub open spec fn integer(n: int) -> Frac {
        Frac { num: n, den: 1 }
    }
}

/// The integer with the given sign and magnitude. Only `Minus` negates.
pub open spec fn signed(sign: Sign, magnitude: nat) -> int {
    match sign {
        Sign::Minus => -(magnitude as int),
        _ => magnitude as int,
    }
}

/// `k` divides `n`.
pub open spec fn divides(k: nat, n: nat) -> bool {
    k > 0 && n % k == 0
}

/// No number above one divides both.
pub open spec fn coprime(a: nat, b: nat) -> bool {
    forall|k: nat| k >= 2 ==> !(#[trigger] divides(k, a) && divides(k, b))
}

/// Numerator and denominator of a fraction in lowest terms, each written
/// without leading zeros.
pub open spec fn is_reduced(n: Seq<u8>, d: Seq<u8>) -> bool {
    &&& is_canonical(n)
    &&& is_canonical(d)
    &&& digits_value(d) >= 1
    &&& coprime(digits_value(n), digits_value(d))
}

/// `base^exp` as a fraction.
pub open spec fn power_frac(base: nat, exp: int) -> Frac {
    if exp >= 0 {
        Frac { num: pow(base as int, exp as nat), den: 1 }
    } else {
        Frac { num: 1, den: pow(base as int, (-exp) as nat) }
    }
}

/// An exact rational number.
#[derive(Clone, Debug, PartialEq, Eq)]
pub struct Rational {
    pub sign: Sign,
    /// Decimal digits of the numerator's magnitude.
    pub numer: Vec<u8>,
    /// Decimal digits of the denominator.
    pub denom: Vec<u8>,
}

impl View for Rational {
    type V = Frac;

    open spec fn view(&self) -> Frac {
        Frac { num: signed(self.sign, digits_value(self.numer@)), den: digits_value(self.denom@) as int }
    }
}

/// The fraction `numer / denom` in lowest terms.
///
/// Trusted: `Ratio::new` on `BigUint`, which reduces by the greatest common
/// divisor, with `BigUint::from_radix_be` and `BigUint::to_radix_be` as the
/// conversions. It panics on a zero denominator, which `requires` excludes.
#[verifier::external_body]
fn ratio_reduce(numer: &Vec<u8>, denom: &Vec<u8>) -> (r: (Vec<u8>, Vec<u8>))
    requires
        is_digits(numer@),
        is_digits(denom@),
        digits_value(denom@) > 0,
    ensures
        is_reduced(r.0@, r.1@),
        digits_value(r.0@) * digits_value(denom@) == digits_value(numer@) * digits_value(r.1@),
{
    let n = BigUint::from_radix_be(numer, 10).unwrap();
    let d = BigUint::from_radix_be(denom, 10).unwrap();
    let q = Ratio::new(n, d);
    (q.numer().to_radix_be(10), q.denom().to_radix_be(10))
}

/// The sum of two non-negative fractions, in lowest terms.
///
/// Trusted: `Add` for `Ratio<BigUint>`, which returns the reduced sum.
#[verifier::external_body]
fn ratio_add(an: &Vec<u8>, ad: &Vec<u8>, bn: &Vec<u8>, bd: &Vec<u8>) -> (r: (Vec<u8>, Vec<u8>))
    requires
        is_reduced(an@, ad@),
        is_reduced(bn@, bd@),
    ensures
        is_reduced(r.0@, r.1@),
        digits_value(r.0@) * (digits_value(ad@) * digits_value(bd@)) == (digits_value(an@)
            * digits_value(bd@) + digits_value(bn@) * digits_value(ad@)) * digits_value(r.1@),
{
    let a = Ratio::new_raw(
        BigUint::from_radix_be(an, 10).unwrap(),
        BigUint::from_radix_be(ad, 10).unwrap(),
    );
    let b = Ratio::new_raw(
        BigUint::from_radix_be(bn, 10).unwrap(),
        BigUint::from_radix_be(bd, 10).unwrap(),
    );
    let q = a + b;
    (q.numer().to_radix_be(10), q.denom().to_radix_be(10))
}

/// The difference of two non-negative fractions, in lowest terms, with its
/// sign.
///
/// Trusted: `Sub` for `Ratio<BigInt>`, which returns the reduced difference
/// with a positive denominator. `BigInt::from_radix_be` and
/// `BigInt::to_radix_be` are the conversions; the latter hands out sign and
/// magnitude, the sign being `NoSign` exactly for zero.
#[verifier::external_body]
fn ratio_sub(an: &Vec<u8>, ad: &Vec<u8>, bn: &Vec<u8>, bd: &Vec<u8>) -> (r: (Sign, Vec<u8>, Vec<u8>))
    requires
        is_reduced(an@, ad@),
        is_reduced(bn@, bd@),
    ensures
        is_reduced(r.1@, r.2@),
        r.0 is NoSign <==> digits_value(r.1@) == 0,
        signed(r.0, digits_value(r.1@)) * (digits_value(ad@) * digits_value(bd@)) == (digits_value(
            an@,
        ) * digits_value(bd@) - digits_value(bn@) * digits_value(ad@)) * digits_value(r.2@),
{
    let p = num_bigint::Sign::Plus;
    let (an, ad) = (BigInt::from_radix_be(p, an, 10).unwrap(), BigInt::from_radix_be(p, ad, 10).unwrap());
    let (bn, bd) = (BigInt::from_radix_be(p, bn, 10).unwrap(), BigInt::from_radix_be(p, bd, 10).unwrap());
    let (a, b) = (Ratio::new_raw(an, ad), Ratio::new_raw(bn, bd));
    let q = a - b;
    let (s, n) = q.numer().to_radix_be(10);
    let sign = match s {
        num_bigint::Sign::Minus => Sign::Minus,
        num_bigint::Sign::NoSign => Sign::NoSign,
        num_bigint::Sign::Plus => Sign::Plus,
    };
    (sign, n, q.denom().to_radix_be(10).1)
}

/// The product of two non-negative fractions, in lowest terms.
///
/// Trusted: `Mul` for `Ratio<BigUint>`, which returns the reduced product.
#[verifier::external_body]
fn ratio_mul(an: &Vec<u8>, ad: &Vec<u8>, bn: &Vec<u8>, bd: &Vec<u8>) -> (r: (Vec<u8>, Vec<u8>))
    requires
        is_reduced(an@, ad@),
        is_reduced(bn@, bd@),
    ensures
        is_reduced(r.0@, r.1@),
        digits_value(r.0@) * (digits_value(ad@) * digits_value(bd@)) == (digits_value(an@)
            * digits_value(bn@)) * digits_value(r.1@),
{
    let a = Ratio::new_raw(
        BigUint::from_radix_be(an, 10).unwrap(),
        BigUint::from_radix_be(ad, 10).unwrap(),
    );
    let b = Ratio::new_raw(
        BigUint::from_radix_be(bn, 10).unwrap(),
        BigUint::from_radix_be(bd, 10).unwrap(),
    );
    let q = a * b;
    (q.numer().to_radix_be(10), q.denom().to_radix_be(10))
}

/// The quotient of two non-negative fractions, in lowest terms.
///
/// Trusted: `Div` for `Ratio<BigUint>`, which returns the reduced quotient.
/// It panics on a zero divisor, which `requires` excludes.
#[verifier::external_body]
fn ratio_div(an: &Vec<u8>, ad: &Vec<u8>, bn: &Vec<u8>, bd: &Vec<u8>) -> (r: (Vec<u8>, Vec<u8>))
    requires
        is_reduced(an@, ad@),
        is_reduced(bn@, bd@),
        digits_value(bn@) > 0,
    ensures
        is_reduced(r.0@, r.1@),
        digits_value(r.0@) * (digits_value(ad@) * digits_value(bn@)) == (digits_value(an@)
            * digits_value(bd@)) * digits_value(r.1@),
{
    let a = Ratio::new_raw(
        BigUint::from_radix_be(an, 10).unwrap(),
        BigUint::from_radix_be(ad, 10).unwrap(),
    );
    let b = Ratio::new_raw(
        BigUint::from_radix_be(bn, 10).unwrap(),
        BigUint::from_radix_be(bd, 10).unwrap(),
    );
    let q = a / b;
    (q.numer().to_radix_be(10), q.denom().to_radix_be(10))
}

/// An integer power of a positive whole number, in lowest terms.
///
/// Trusted: `Pow<i32>` for `Ratio<BigUint>`. For a non-negative exponent it
/// raises numerator and denominator to it; for a negative one it raises
/// them to the magnitude and takes the reciprocal.
#[verifier::external_body]
fn ratio_pow(base: &Vec<u8>, exp: i32) -> (r: (Vec<u8>, Vec<u8>))
    requires
        is_digits(base@),
        digits_value(base@) > 0,
    ensures
        is_reduced(r.0@, r.1@),
        digits_value(r.0@) == power_frac(digits_value(base@), exp as int).num,
        digits_value(r.1@) == power_frac(digits_value(base@), exp as int).den,
{
    let b = Ratio::from_integer(BigUint::from_radix_be(base, 10).unwrap());
    let q = Pow::pow(b, exp);
    (q.numer().to_radix_be(10), q.denom().to_radix_be(10))
}

/// Fractions that denote the same number as a third one, whose
/// denominator is not zero, denote the same number.
pub proof fn lemma_eqv_transitive(a: Frac, b: Frac, c: Frac)
    requires
        a.eqv(b),
        b.eqv(c),
        b.den != 0,
    ensures
        a.eqv(c),
{
    let x = a.num * c.den;
    let y = c.num * a.den;
    assert(x * b.den == y * b.den) by (nonlinear_arith)
        requires
            a.num * b.den == b.num * a.den,
            b.num * c.den == c.num * b.den,
            x == a.num * c.den,
            y == c.num * a.den,
    ;
    assert(x == y) by (nonlinear_arith)
        requires
            x * b.den == y * b.den,
            b.den != 0,
    ;
}

/// Regrouping a product of four factors.
pub proof fn lemma_mul4(w: int, x: int, y: int, z: int)
    ensures
        (w * x) * (y * z) == (w * y) * (x * z),
        (w * x) * (y * z) == (w * z) * (x * y),
        (w * x) * (y * z) == (w * y) * (z * x),
        (w * x) * (y * z) == (w * z) * (y * x),
{
    assert((w * x) * (y * z) == (w * y) * (x * z)) by (nonlinear_arith);
    assert((w * x) * (y * z) == (w * z) * (x * y)) by (nonlinear_arith);
    assert(x * z == z * x && x * y == y * x) by (nonlinear_arith);
}

pub proof fn lemma_plus_congruent(a: Frac, a2: Frac, b: Frac, b2: Frac)
    requires
        a.eqv(a2),
        b.eqv(b2),
    ensures
        a.plus(b).eqv(a2.plus(b2)),
{
    let k = a2.den * b2.den;
    let k2 = a.den * b.den;
    assert((a.num * b.den + b.num * a.den) * k == (a.num * b.den) * k + (b.num * a.den) * k)
        by (nonlinear_arith);
    assert((a2.num * b2.den + b2.num * a2.den) * k2 == (a2.num * b2.den) * k2 + (b2.num * a2.den)
        * k2) by (nonlinear_arith);
    lemma_mul4(a.num, b.den, a2.den, b2.den);
    lemma_mul4(b.num, a.den, a2.den, b2.den);
    lemma_mul4(a2.num, b2.den, a.den, b.den);
    lemma_mul4(b2.num, a2.den, a.den, b.den);
}

pub proof fn lemma_minus_congruent(a: Frac, a2: Frac, b: Frac, b2: Frac)
    requires
        a.eqv(a2),
        b.eqv(b2),
    ensures
        a.minus(b).eqv(a2.minus(b2)),
{
    let k = a2.den * b2.den;
    let k2 = a.den * b.den;
    assert((a.num * b.den - b.num * a.den) * k == (a.num * b.den) * k - (b.num * a.den) * k)
        by (nonlinear_arith);
    assert((a2.num * b2.den - b2.num * a2.den) * k2 == (a2.num * b2.den) * k2 - (b2.num * a2.den)
        * k2) by (nonlinear_arith);
    lemma_mul4(a.num, b.den, a2.den, b2.den);
    lemma_mul4(b.num, a.den, a2.den, b2.den);
    lemma_mul4(a2.num, b2.den, a.den, b.den);
    lemma_mul4(b2.num, a2.den, a.den, b.den);
}

pub proof fn lemma_times_congruent(a: Frac, a2: Frac, b: Frac, b2: Frac)
    requires
        a.eqv(a2),
        b.eqv(b2),
    ensures
        a.times(b).eqv(a2.times(b2)),
{
    lemma_mul4(a.num, b.num, a2.den, b2.den);
    lemma_mul4(a2.num, b2.num, a.den, b.den);
}

pub proof fn lemma_over_congruent(a: Frac, a2: Frac, b: Frac, b2: Frac)
    requires
        a.eqv(a2),
        b.eqv(b2),
    ensures
        a.over(b).eqv(a2.over(b2)),
{
    lemma_mul4(a.num, b.den, a2.den, b2.num);
    lemma_mul4(a2.num, b2.den, a.den, b.num);
}

pub proof fn lemma_negated_congruent(a: Frac, a2: Frac)
    requires
        a.eqv(a2),
    ensures
        a.negated().eqv(a2.negated()),
{
    assert((-a.num) * a2.den == (-a2.num) * a.den) by (nonlinear_arith)
        requires
            a.num * a2.den == a2.num * a.den,
    ;
}

pub proof fn lemma_coprime_with_one(n: nat)
    ensures
        coprime(n, 1),
{
    assert forall|k: nat| k >= 2 implies !(#[trigger] divides(k, n) && divides(k, 1)) by {
        lemma_small_mod(1, k);
    }
}

fn one_digit(d: u8) -> (r: Vec<u8>)
    requires
        d <= 9,
    ensures
        r@ == seq![d],
        is_canonical(r@),
        digits_value(r@) == d,
{
    let mut r: Vec<u8> = Vec::new();
    r.push(d);
    proof {
        assert(r@ =~= seq![d]);
        lemma_value_single(d);
    }
    r
}

fn is_zero_digits(v: &Vec<u8>) -> (r: bool)
    requires
        is_canonical(v@),
    ensures
        r == (digits_value(v@) == 0),
{
    proof {
        if v@.len() > 1 {
            crate::digits::lemma_value_lower_bound(v@);
            crate::digits::lemma_pow10_positive((v@.len() - 1) as nat);
        } else {
            assert(v@ =~= seq![v@[0]]);
            lemma_value_single(v@[0]);
        }
    }
    v.len() == 1 && v[0] == 0
}

fn is_one_digits(v: &Vec<u8>) -> (r: bool)
    requires
        is_canonical(v@),
    ensures
        r == (digits_value(v@) == 1),
{
    proof {
        if v@.len() > 1 {
            crate::digits::lemma_value_lower_bound(v@);
            crate::digits::lemma_pow10_step((v@.len() - 2) as nat);
            crate::digits::lemma_pow10_positive((v@.len() - 2) as nat);
        } else {
            assert(v@ =~= seq![v@[0]]);
            lemma_value_single(v@[0]);
        }
    }
    v.len() == 1 && v[0] == 1
}

impl Rational {
    /// In lowest terms with a positive denominator, digits written without
    /// leading zeros, and `NoSign` exactly for zero.
    pub open spec fn wf(&self) -> bool {
        &&& is_reduced(self.numer@, self.denom@)
        &&& (self.sign is NoSign <==> digits_value(self.numer@) == 0)
    }

    /// The text `n` for a whole number and `n/d` otherwise, with a leading
    /// `-` for a negative number.
    pub open spec fn text(&self) -> Seq<char> {
        let sign = if self.sign is Minus {
            seq!['-']
        } else {
            Seq::<char>::empty()
        };
        let tail = if digits_value(self.denom@) == 1 {
            Seq::<char>::empty()
        } else {
            seq!['/'] + digits_text(self.denom@)
        };
        sign + digits_text(self.numer@) + tail
    }

    pub fn zero() -> (r: Self)
        ensures
            r.wf(),
            r@ == Frac::integer(0),
    {
        proof {
            lemma_coprime_with_one(0);
        }
        Rational { sign: Sign::NoSign, numer: one_digit(0), denom: one_digit(1) }
    }

    /// The fraction `± numer / denom`; `sign` negates when it is `Minus`.
    pub fn new(sign: Sign, numer: &Vec<u8>, denom: &Vec<u8>) -> (r: Self)
        requires
            is_digits(numer@),
            is_digits(denom@),
            digits_value(denom@) > 0,
        ensures
            r.wf(),
            r@.eqv(
                Frac {
                    num: signed(sign, digits_value(numer@)),
                    den: digits_value(denom@) as int,
                },
            ),
    {
        let (n, d) = ratio_reduce(numer, denom);
        let ghost rn = digits_value(n@) as int;
        let ghost rd = digits_value(d@) as int;
        let ghost gn = digits_value(numer@) as int;
        let ghost gd = digits_value(denom@) as int;
        let zero = is_zero_digits(&n);
        let s = if zero {
            Sign::NoSign
        } else {
            match sign {
                Sign::Minus => Sign::Minus,
                _ => Sign::Plus,
            }
        };
        proof {
            assert(rn * gd == gn * rd);
            assert((-rn) * gd == (-gn) * rd) by (nonlinear_arith)
                requires
                    rn * gd == gn * rd,
            ;
            if zero {
                assert(gn * rd == 0);
                assert(gn == 0) by (nonlinear_arith)
                    requires
                        gn * rd == 0,
                        rd >= 1,
                ;
            }
        }
        Rational { sign: s, numer: n, denom: d }
    }

    /// The whole number `± digits`.
    pub fn from_integer(sign: Sign, digits: &Vec<u8>) -> (r: Self)
        requires
            is_digits(digits@),
        ensures
            r.wf(),
            r@ == Frac::integer(signed(sign, digits_value(digits@))),
    {
        let n = crate::digits::trim_leading_zeros(digits);
        let zero = is_zero_digits(&n);
        let s = if zero {
            Sign::NoSign
        } else {
            match sign {
                Sign::Minus => Sign::Minus,
                _ => Sign::Plus,
            }
        };
        proof {
            lemma_coprime_with_one(digits_value(n@));
        }
        Rational { sign: s, numer: n, denom: one_digit(1) }
    }

    /// A copy of the number.
    pub fn duplicate(&self) -> (r: Self)
        ensures
            r.sign == self.sign,
            r.numer@ == self.numer@,
            r.denom@ == self.denom@,
            r@ == self@,
            r.wf() == self.wf(),
    {
        Rational {
            sign: self.sign,
            numer: copy_digits(&self.numer),
            denom: copy_digits(&self.denom),
        }
    }

    pub fn is_zero(&self) -> (r: bool)
        requires
            self.wf(),
        ensures
            r == (self@.num == 0),
    {
        match self.sign {
            Sign::NoSign => true,
            _ => false,
        }
    }

    pub fn is_positive(&self) -> (r: bool)
        requires
            self.wf(),
        ensures
            r == (self@.num > 0),
    {
        match self.sign {
            Sign::Plus => true,
            _ => false,
        }
    }

    pub fn is_negative(&self) -> (r: bool)
        requires
            self.wf(),
        ensures
            r == (self@.num < 0),
    {
        match self.sign {
            Sign::Minus => true,
            _ => false,
        }
    }

    /// Whether the number is whole: in lowest terms, whether the
    /// denominator is one.
    pub fn is_integer(&self) -> (r: bool)
        requires
            self.wf(),
        ensures
            r == (self@.den == 1),
    {
        is_one_digits(&self.denom)
    }

    pub fn is_one(&self) -> (r: bool)
        requires
            self.wf(),
        ensures
            r == (self@.num == 1 && self@.den == 1),
    {
        let plus = match self.sign {
            Sign::Plus => true,
            _ => false,
        };
        plus && is_one_digits(&self.numer) && is_one_digits(&self.denom)
    }

    /// Whether two numbers are equal. In lowest terms that is to have the
    /// same numerator and denominator.
    pub fn same(&self, other: &Self) -> (r: bool)
        requires
            self.wf(),
            other.wf(),
        ensures
            r == (self@ == other@),
    {
        proof {
            if digits_value(self.numer@) == digits_value(other.numer@) {
                crate::digits::lemma_canonical_unique(self.numer@, other.numer@);
            }
            if digits_value(self.denom@) == digits_value(other.denom@) {
                crate::digits::lemma_canonical_unique(self.denom@, other.denom@);
            }
        }
        self.sign == other.sign && same_digits(&self.numer, &other.numer) && same_digits(
            &self.denom,
            &other.denom,
        )
    }

    pub fn neg(&self) -> (r: Self)
        requires
            self.wf(),
        ensures
            r.wf(),
            r@ == self@.negated(),
    {
        let s = match self.sign {
            Sign::Minus => Sign::Plus,
            Sign::NoSign => Sign::NoSign,
            Sign::Plus => Sign::Minus,
        };
        Rational { sign: s, numer: copy_digits(&self.numer), denom: copy_digits(&self.denom) }
    }

    pub fn abs(&self) -> (r: Self)
        requires
            self.wf(),
        ensures
            r.wf(),
            r@.den == self@.den,
            r@.num == if self@.num < 0 {
                -self@.num
            } else {
                self@.num
            },
    {
        let s = match self.sign {
            Sign::NoSign => Sign::NoSign,
            _ => Sign::Plus,
        };
        Rational { sign: s, numer: copy_digits(&self.numer), denom: copy_digits(&self.denom) }
    }

    pub fn add(&self, other: &Self) -> (r: Self)
        requires
            self.wf(),
            other.wf(),
        ensures
            r.wf(),
            r@.eqv(self@.plus(other@)),
    {
        let ghost an = digits_value(self.numer@) as int;
        let ghost ad = digits_value(self.denom@) as int;
        let ghost bn = digits_value(other.numer@) as int;
        let ghost bd = digits_value(other.denom@) as int;
        let a_neg = self.is_negative();
        let b_neg = other.is_negative();
        if a_neg == b_neg {
            let (n, d) = ratio_add(&self.numer, &self.denom, &other.numer, &other.denom);
            let ghost rn = digits_value(n@) as int;
            let ghost rd = digits_value(d@) as int;
            let zero = is_zero_digits(&n);
            let s = if zero {
                Sign::NoSign
            } else if a_neg {
                Sign::Minus
            } else {
                Sign::Plus
            };
            proof {
                assert(rn * (ad * bd) == (an * bd + bn * ad) * rd);
                assert((-rn) * (ad * bd) == ((-an) * bd + (-bn) * ad) * rd) by (nonlinear_arith)
                    requires
                        rn * (ad * bd) == (an * bd + bn * ad) * rd,
                ;
            }
            Rational { sign: s, numer: n, denom: d }
        } else if a_neg {
            let (s, n, d) = ratio_sub(&other.numer, &other.denom, &self.numer, &self.denom);
            let ghost rs = signed(s, digits_value(n@));
            let ghost rd = digits_value(d@) as int;
            proof {
                assert(rs * (bd * ad) == (bn * ad - an * bd) * rd);
                assert(rs * (ad * bd) == ((-an) * bd + bn * ad) * rd) by (nonlinear_arith)
                    requires
                        rs * (bd * ad) == (bn * ad - an * bd) * rd,
                ;
            }
            Rational { sign: s, numer: n, denom: d }
        } else {
            let (s, n, d) = ratio_sub(&self.numer, &self.denom, &other.numer, &other.denom);
            let ghost rs = signed(s, digits_value(n@));
            let ghost rd = digits_value(d@) as int;
            proof {
                assert(rs * (ad * bd) == (an * bd - bn * ad) * rd);
                assert(rs * (ad * bd) == (an * bd + (-bn) * ad) * rd) by (nonlinear_arith)
                    requires
                        rs * (ad * bd) == (an * bd - bn * ad) * rd,
                ;
            }
            Rational { sign: s, numer: n, denom: d }
        }
    }

    pub fn sub(&self, other: &Self) -> (r: Self)
        requires
            self.wf(),
            other.wf(),
        ensures
            r.wf(),
            r@.eqv(self@.minus(other@)),
    {
        let minus = other.neg();
        let r = self.add(&minus);
        proof {
            let a = self@;
            let b = other@;
            assert(a.num * b.den + (-b.num) * a.den == a.num * b.den - b.num * a.den)
                by (nonlinear_arith);
        }
        r
    }

    pub fn mul(&self, other: &Self) -> (r: Self)
        requires
            self.wf(),
            other.wf(),
        ensures
            r.wf(),
            r@.eqv(self@.times(other@)),
    {
        let ghost an = digits_value(self.numer@) as int;
        let ghost ad = digits_value(self.denom@) as int;
        let ghost bn = digits_value(other.numer@) as int;
        let ghost bd = digits_value(other.denom@) as int;
        let (n, d) = ratio_mul(&self.numer, &self.denom, &other.numer, &other.denom);
        let ghost rn = digits_value(n@) as int;
        let ghost rd = digits_value(d@) as int;
        let zero = is_zero_digits(&n);
        let negative = self.is_negative() != other.is_negative();
        let s = if zero {
            Sign::NoSign
        } else if negative {
            Sign::Minus
        } else {
            Sign::Plus
        };
        proof {
            assert(rn * (ad * bd) == (an * bn) * rd);
            assert((-rn) * (ad * bd) == ((-an) * bn) * rd && (-rn) * (ad * bd) == (an * (-bn)) * rd
                && rn * (ad * bd) == ((-an) * (-bn)) * rd) by (nonlinear_arith)
                requires
                    rn * (ad * bd) == (an * bn) * rd,
            ;
        }
        Rational { sign: s, numer: n, denom: d }
    }

    /// The quotient by a nonzero number.
    pub fn div(&self, other: &Self) -> (r: Self)
        requires
            self.wf(),
            other.wf(),
            other@.num != 0,
        ensures
            r.wf(),
            r@.eqv(self@.over(other@)),
    {
        let ghost an = digits_value(self.numer@) as int;
        let ghost ad = digits_value(self.denom@) as int;
        let ghost bn = digits_value(other.numer@) as int;
        let ghost bd = digits_value(other.denom@) as int;
        let (n, d) = ratio_div(&self.numer, &self.denom, &other.numer, &other.denom);
        let ghost rn = digits_value(n@) as int;
        let ghost rd = digits_value(d@) as int;
        let zero = is_zero_digits(&n);
        let negative = self.is_negative() != other.is_negative();
        let s = if zero {
            Sign::NoSign
        } else if negative {
            Sign::Minus
        } else {
            Sign::Plus
        };
        proof {
            assert(rn * (ad * bn) == (an * bd) * rd);
            assert((-rn) * (ad * bn) == ((-an) * bd) * rd && (-rn) * (ad * (-bn)) == (an * bd) * rd
                && rn * (ad * (-bn)) == ((-an) * bd) * rd) by (nonlinear_arith)
                requires
                    rn * (ad * bn) == (an * bd) * rd,
            ;
        }
        Rational { sign: s, numer: n, denom: d }
    }

    /// `10^exp`.
    pub fn power_of_ten(exp: i32) -> (r: Self)
        ensures
            r.wf(),
            r@ == power_frac(10, exp as int),
            r@.num > 0,
    {
        let mut base: Vec<u8> = Vec::new();
        base.push(1);
        base.push(0);
        proof {
            assert(base@ =~= seq![1u8].push(0u8));
            crate::digits::lemma_value_push(seq![1u8], 0u8);
            lemma_value_single(1);
        }
        Self::power(&base, exp)
    }

    /// `2^exp`.
    pub fn power_of_two(exp: i32) -> (r: Self)
        ensures
            r.wf(),
            r@ == power_frac(2, exp as int),
            r@.num > 0,
    {
        let base = one_digit(2);
        Self::power(&base, exp)
    }

    fn power(base: &Vec<u8>, exp: i32) -> (r: Self)
        requires
            is_digits(base@),
            digits_value(base@) > 0,
        ensures
            r.wf(),
            r@ == power_frac(digits_value(base@), exp as int),
            r@.num > 0,
    {
        let (n, d) = ratio_pow(base, exp);
        proof {
            if exp >= 0 {
                lemma_pow_positive(digits_value(base@) as int, exp as nat);
            }
        }
        Rational { sign: Sign::Plus, numer: n, denom: d }
    }

    /// The number as text; see [`Rational::text`].
    pub fn to_string(&self) -> (r: String)
        requires
            self.wf(),
        ensures
            r@ == self.text(),
    {
        let mut out = String::new();
        if self.is_negative() {
            out.push('-');
        }
        push_digits(&mut out, &self.numer);
        if !is_one_digits(&self.denom) {
            out.push('/');
            push_digits(&mut out, &self.denom);
        }
        proof {
            assert(out@ =~= self.text());
        }
        out
    }
}

} // verus!
