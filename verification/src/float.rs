//! Binary64 floats as bit patterns: what kind of float the bits encode and
//! which rational number they denote exactly.

use crate::digits::{lemma_pow10_positive, pow10};
use crate::division::{lemma_repeat_from_divisibility, Remainder};
use crate::number::{abs_nat, digits_of_u64, division_start, has_expansion};
use crate::rational::{power_frac, Frac, Rational, Sign};
use crate::utils::is_repeat;
use vstd::arithmetic::div_mod::{lemma_mod_multiples_basic, lemma_mul_mod_noop_left};
use vstd::arithmetic::power::{lemma_pow_distributes, lemma_pow_positive, pow};
use vstd::prelude::*;

verus! {

/// The kinds of float that are shown differently.
#[derive(Clone, Copy, Debug, PartialEq, Eq, Structural)]
pub enum FloatClass {
    Nan,
    Infinity,
    NegInfinity,
    /// Zero with the sign bit set.
    NegZero,
    /// Any other float, which denotes a rational number.
    Finite,
}

/// The sign bit.
pub open spec fn sign_bit(bits: u64) -> bool {
    bits >> 63 == 1
}

/// The eleven bits of the biased exponent.
pub open spec fn exponent_bits(bits: u64) -> u64 {
    (bits >> 52) & 0x7ff
}

/// The 52 bits of the fraction.
pub open spec fn fraction_bits(bits: u64) -> u64 {
    bits & 0xf_ffff_ffff_ffff
}

/// The kind of float that the bits encode.
pub open spec fn float_class(bits: u64) -> FloatClass {
    if exponent_bits(bits) == 0x7ff {
        if fraction_bits(bits) != 0 {
            FloatClass::Nan
        } else if sign_bit(bits) {
            FloatClass::NegInfinity
        } else {
            FloatClass::Infinity
        }
    } else if exponent_bits(bits) == 0 && fraction_bits(bits) == 0 && sign_bit(bits) {
        FloatClass::NegZero
    } else {
        FloatClass::Finite
    }
}

/// The integer that is scaled by a power of two: the fraction bits, with
/// the hidden bit for a normal float.
pub open spec fn float_mantissa(bits: u64) -> nat {
    if exponent_bits(bits) == 0 {
        fraction_bits(bits) as nat
    } else {
        (fraction_bits(bits) + 0x10_0000_0000_0000) as nat
    }
}

/// The power of two that scales the mantissa.
pub open spec fn float_exponent(bits: u64) -> int {
    if exponent_bits(bits) == 0 {
        -1074
    } else {
        exponent_bits(bits) - 1075
    }
}

/// The rational number that a finite float denotes:
/// `± mantissa * 2^exponent`.
pub open spec fn float_value(bits: u64) -> Frac {
    Frac::integer(
        if sign_bit(bits) {
            -(float_mantissa(bits) as int)
        } else {
            float_mantissa(bits) as int
        },
    ).times(power_frac(2, float_exponent(bits)))
}

/// The kind of float that the bits encode.
pub fn classify(bits: u64) -> (r: FloatClass)
    ensures
        r == float_class(bits),
{
    let exponent = (bits >> 52) & 0x7ff;
    let fraction = bits & 0xf_ffff_ffff_ffff;
    let negative = bits >> 63 == 1;
    if exponent == 0x7ff {
        if fraction != 0 {
            FloatClass::Nan
        } else if negative {
            FloatClass::NegInfinity
        } else {
            FloatClass::Infinity
        }
    } else if exponent == 0 && fraction == 0 && negative {
        FloatClass::NegZero
    } else {
        FloatClass::Finite
    }
}

/// The exact value of a float that denotes a number.
pub fn to_rational(bits: u64) -> (r: Rational)
    requires
        exponent_bits(bits) != 0x7ff,
    ensures
        r.wf(),
        r@.eqv(float_value(bits)),
        float_value(bits).den > 0,
        has_expansion(r@),
{
    let exponent = (bits >> 52) & 0x7ff;
    let fraction = bits & 0xf_ffff_ffff_ffff;
    let negative = bits >> 63 == 1;
    assert(exponent <= 0x7ff && fraction < 0x10_0000_0000_0000) by (bit_vector)
        requires
            exponent == (bits >> 52) & 0x7ff,
            fraction == bits & 0xf_ffff_ffff_ffff,
    ;
    let mantissa: u64 = if exponent == 0 {
        fraction
    } else {
        fraction + 0x10_0000_0000_0000
    };
    let power: i32 = if exponent == 0 {
        -1074
    } else {
        exponent as i32 - 1075
    };
    let sign = if negative {
        Sign::Minus
    } else {
        Sign::Plus
    };
    let whole = Rational::from_integer(sign, &digits_of_u64(mantissa));
    let scale = Rational::power_of_two(power);
    let r = whole.mul(&scale);
    proof {
        let signed_mantissa: int = if sign_bit(bits) {
            -(float_mantissa(bits) as int)
        } else {
            float_mantissa(bits) as int
        };
        assert(whole@ == Frac::integer(signed_mantissa));
        assert(scale@ == power_frac(2, float_exponent(bits)));
        assert(float_value(bits).den > 0) by (nonlinear_arith)
            requires
                float_value(bits).den == 1 * scale@.den,
                scale@.den >= 1,
        ;
        lemma_dyadic_has_expansion(r@, signed_mantissa, power as int);
    }
    r
}

/// A fraction that denotes `m * 2^e` can be written out: its expansion
/// ends after at most `-e` digits.
pub proof fn lemma_dyadic_has_expansion(q: Frac, m: int, e: int)
    requires
        q.den > 0,
        q.eqv(Frac::integer(m).times(power_frac(2, e))),
        -2000 <= e,
    ensures
        has_expansion(q),
        is_repeat::<Remainder>(
            division_start(q),
            if e < 0 {
                (-e) as nat
            } else {
                0
            },
            1,
        ),
{
    let k: nat = if e < 0 {
        (-e) as nat
    } else {
        0
    };
    let value = Frac::integer(m).times(power_frac(2, e));
    let two_k = pow(2, k);
    let five_k = pow(5, k);
    lemma_pow_positive(2, k);
    lemma_pow_positive(5, k);
    lemma_pow_distributes(2, 5, k);
    lemma_pow10_positive(k);
    assert(pow10(k) == two_k * five_k);
    // What the fraction is a multiple of its own denominator by.
    let n = abs_nat(q.num) as int;
    let d = q.den;
    let top: int = if m < 0 {
        -value.num
    } else {
        value.num
    };
    if e >= 0 {
        lemma_pow_positive(2, e as nat);
        assert(value.den == 1 && two_k == 1) by {
            vstd::arithmetic::power::lemma_pow0(2);
        }
    } else {
        assert(value.den == two_k);
        assert(value.num == m * 1);
    }
    assert(value.den == two_k) by (nonlinear_arith)
        requires
            value.den == 1 * power_frac(2, e).den,
            power_frac(2, e).den == two_k,
    ;
    assert(top >= 0) by (nonlinear_arith)
        requires
            value.num == m * power_frac(2, e).num,
            power_frac(2, e).num > 0,
            top == if m < 0 {
                -value.num
            } else {
                value.num
            },
    ;
    assert(n * two_k == top * d) by (nonlinear_arith)
        requires
            q.num * two_k == value.num * d,
            two_k > 0,
            d > 0,
            top >= 0,
            top == value.num || top == -value.num,
            n == if q.num < 0 {
                -q.num
            } else {
                q.num
            },
    ;
    let big_w: int = (pow10(k) * 9) as int;
    let mult = top * five_k * 9;
    assert(n * big_w == mult * d) by (nonlinear_arith)
        requires
            n * two_k == top * d,
            big_w == (two_k * five_k) * 9,
            mult == top * five_k * 9,
    ;
    lemma_mod_multiples_basic(mult, d);
    lemma_mul_mod_noop_left(n, big_w, d);
    let x0 = (n % d) as nat;
    crate::digits::lemma_pow10_step(0);
    assert(pow10(1) == 10);
    assert(x0 * pow10(k) * (pow10(1) - 1) == x0 * big_w) by (nonlinear_arith)
        requires
            big_w == pow10(k) * 9,
            pow10(1) == 10,
    ;
    assert(x0 < d) by (nonlinear_arith)
        requires
            x0 == n % d,
            d > 0,
            n >= 0,
    ;
    lemma_repeat_from_divisibility(x0, d as nat, k, 1);
    assert(division_start(q) == (x0, d as nat));
}

} // verus!
