//! Long division in base ten: the remainders it runs through, the digits
//! it produces, and where the remainders first repeat.

use crate::digits::{
    copy_digits, digits_value, is_canonical, lemma_canonical_unique, lemma_pow10_positive,
    lemma_pow10_step, lemma_value_lower_bound, lemma_value_push, lemma_value_single, nat_div_rem,
    pow10, same_digits,
};
use crate::utils::{is_least_repeat, is_repeat, iterate, Orbit};
use vstd::arithmetic::div_mod::{
    lemma_add_mod_noop, lemma_fundamental_div_mod, lemma_fundamental_div_mod_converse,
    lemma_mod_twice, lemma_mul_mod_noop_left, lemma_small_mod,
};
use vstd::prelude::*;

verus! {

/// A remainder of a long division together with its divisor.
///
/// Its orbit under `x -> 10 x mod d` is the sequence of remainders that
/// long division by `d` runs through.
pub struct Remainder {
    pub value: Vec<u8>,
    pub modulus: Vec<u8>,
}

/// The digit that long division by `den` produces from the remainder `x`.
pub open spec fn quotient_digit(x: nat, den: nat) -> u8 {
    ((x * 10) / den) as u8
}

impl Remainder {
    /// One step of long division: the next digit and the next remainder.
    pub fn divide(&self) -> (r: (u8, Remainder))
        requires
            self.inv(),
        ensures
            r.0 <= 9,
            r.0 == quotient_digit(self.state().0, self.state().1),
            r.1.inv(),
            r.1.state() == Self::successor(self.state()),
    {
        let mut shifted = copy_digits(&self.value);
        shifted.push(0);
        let ghost x = digits_value(self.value@);
        let ghost d = digits_value(self.modulus@);
        proof {
            lemma_value_push(self.value@, 0);
        }
        let (q, rest) = nat_div_rem(&shifted, &self.modulus);
        proof {
            assert(digits_value(q@) == (x * 10) / d);
            assert((x * 10) / d <= 9 && (x * 10) % d < d) by (nonlinear_arith)
                requires
                    x < d,
            ;
            if q@.len() > 1 {
                lemma_value_lower_bound(q@);
                crate::digits::lemma_pow10_step((q@.len() - 2) as nat);
                lemma_pow10_positive((q@.len() - 2) as nat);
            }
            assert(q@ =~= seq![q@[0]]);
            lemma_value_single(q@[0]);
        }
        (q[0], Remainder { value: rest, modulus: copy_digits(&self.modulus) })
    }
}

impl Orbit for Remainder {
    type State = (nat, nat);

    type Family = ();

    open spec fn inv(&self) -> bool {
        &&& is_canonical(self.value@)
        &&& is_canonical(self.modulus@)
        &&& digits_value(self.value@) < digits_value(self.modulus@)
    }

    open spec fn state(&self) -> (nat, nat) {
        (digits_value(self.value@), digits_value(self.modulus@))
    }

    open spec fn family(&self) -> () {
        ()
    }

    open spec fn successor(s: (nat, nat)) -> (nat, nat) {
        ((s.0 * 10) % s.1, s.1)
    }

    fn step(&self) -> (next: Self) {
        self.divide().1
    }

    fn same(&self, other: &Self) -> (eq: bool) {
        proof {
            if digits_value(self.value@) == digits_value(other.value@) {
                lemma_canonical_unique(self.value@, other.value@);
            }
            if digits_value(self.modulus@) == digits_value(other.modulus@) {
                lemma_canonical_unique(self.modulus@, other.modulus@);
            }
        }
        same_digits(&self.value, &other.value) && same_digits(&self.modulus, &other.modulus)
    }
}

/// The remainder after `i` steps of the long division of `x0` by `den`.
pub open spec fn remainder_at(x0: nat, den: nat, i: nat) -> nat {
    iterate::<Remainder>((x0, den), i).0
}

/// The `i`-th digit after the decimal point of `x0 / den`, for `x0 < den`.
pub open spec fn expansion_digit(x0: nat, den: nat, i: nat) -> u8 {
    quotient_digit(remainder_at(x0, den, i), den)
}

/// The least `(mu, lambda)` at which the remainders of `x0 / den` repeat.
pub open spec fn least_repeat(x0: nat, den: nat) -> (nat, nat) {
    choose|p: (nat, nat)| is_least_repeat::<Remainder>((x0, den), p.0, p.1)
}

/// The least repeat of an orbit is unique.
pub proof fn lemma_least_repeat_unique(x0: nat, den: nat, mu: nat, lambda: nat)
    requires
        is_least_repeat::<Remainder>((x0, den), mu, lambda),
    ensures
        least_repeat(x0, den) == (mu, lambda),
{
    let p = least_repeat(x0, den);
    assert(is_least_repeat::<Remainder>((x0, den), (mu, lambda).0, (mu, lambda).1));
    assert(is_least_repeat::<Remainder>((x0, den), p.0, p.1));
    assert(is_repeat::<Remainder>((x0, den), p.0, p.1));
    assert(is_repeat::<Remainder>((x0, den), mu, lambda));
}

/// The divisor stays the same along the orbit.
pub proof fn lemma_remainder_modulus(x0: nat, den: nat, i: nat)
    ensures
        iterate::<Remainder>((x0, den), i).1 == den,
        iterate::<Remainder>((x0, den), i + 1) == Remainder::successor(
            iterate::<Remainder>((x0, den), i),
        ),
    decreases i,
{
    if i > 0 {
        lemma_remainder_modulus(x0, den, (i - 1) as nat);
    }
}

/// Two divisions of proportional numbers have the same quotient and
/// proportional remainders.
pub proof fn lemma_proportional_division(a: nat, d: nat, b: nat, e: nat)
    requires
        d > 0,
        e > 0,
        a * e == b * d,
    ensures
        a / d == b / e,
        (a % d) * e == (b % e) * d,
{
    let q = (a / d) as int;
    let r = (a % d) as int;
    lemma_fundamental_div_mod(a as int, d as int);
    let t = b - q * e;
    assert(t * d == r * e) by (nonlinear_arith)
        requires
            a * e == b * d,
            a == d * q + r,
            t == b - q * e,
    ;
    assert(0 <= t < e) by (nonlinear_arith)
        requires
            t * d == r * e,
            0 <= r < d,
            d > 0,
            e > 0,
    ;
    lemma_fundamental_div_mod_converse(b as int, e as int, q, t);
}

/// Long divisions that start from proportional remainders stay
/// proportional and produce the same digits.
pub proof fn lemma_proportional_orbit(x0: nat, d: nat, y0: nat, e: nat, i: nat)
    requires
        d > 0,
        e > 0,
        x0 * e == y0 * d,
    ensures
        remainder_at(x0, d, i) * e == remainder_at(y0, e, i) * d,
        expansion_digit(x0, d, i) == expansion_digit(y0, e, i),
    decreases i,
{
    if i > 0 {
        let j = (i - 1) as nat;
        lemma_proportional_orbit(x0, d, y0, e, j);
        lemma_remainder_modulus(x0, d, j);
        lemma_remainder_modulus(y0, e, j);
        let x = remainder_at(x0, d, j);
        let y = remainder_at(y0, e, j);
        assert((x * 10) * e == (y * 10) * d) by (nonlinear_arith)
            requires
                x * e == y * d,
        ;
        lemma_proportional_division(x * 10, d, y * 10, e);
    }
    let x = remainder_at(x0, d, i);
    let y = remainder_at(y0, e, i);
    assert((x * 10) * e == (y * 10) * d) by (nonlinear_arith)
        requires
            x * e == y * d,
    ;
    lemma_proportional_division(x * 10, d, y * 10, e);
}

/// Long divisions that start from proportional remainders repeat at the
/// same places.
pub proof fn lemma_proportional_repeat(x0: nat, d: nat, y0: nat, e: nat, m: nat, l: nat)
    requires
        d > 0,
        e > 0,
        x0 * e == y0 * d,
    ensures
        is_repeat::<Remainder>((x0, d), m, l) == is_repeat::<Remainder>((y0, e), m, l),
{
    lemma_proportional_orbit(x0, d, y0, e, m);
    lemma_proportional_orbit(x0, d, y0, e, m + l);
    lemma_remainder_modulus(x0, d, m);
    lemma_remainder_modulus(x0, d, m + l);
    lemma_remainder_modulus(y0, e, m);
    lemma_remainder_modulus(y0, e, m + l);
    let xa = remainder_at(x0, d, m);
    let xb = remainder_at(x0, d, m + l);
    let ya = remainder_at(y0, e, m);
    let yb = remainder_at(y0, e, m + l);
    assert(xa == xb <==> ya == yb) by (nonlinear_arith)
        requires
            xa * e == ya * d,
            xb * e == yb * d,
            d > 0,
            e > 0,
    ;
}

pub proof fn lemma_proportional_least_repeat(
    x0: nat,
    d: nat,
    y0: nat,
    e: nat,
    mu: nat,
    lambda: nat,
)
    requires
        d > 0,
        e > 0,
        x0 * e == y0 * d,
        is_least_repeat::<Remainder>((x0, d), mu, lambda),
    ensures
        is_least_repeat::<Remainder>((y0, e), mu, lambda),
{
    lemma_proportional_repeat(x0, d, y0, e, mu, lambda);
    assert forall|m: nat, l: nat| l >= 1 && #[trigger] is_repeat::<Remainder>((y0, e), m, l) implies mu
        < m || (mu == m && lambda <= l) by {
        lemma_proportional_repeat(x0, d, y0, e, m, l);
    }
}

/// The remainder after `i` steps is `x0 * 10^i` modulo the divisor.
pub proof fn lemma_remainder_closed_form(x0: nat, d: nat, i: nat)
    requires
        d > 0,
    ensures
        remainder_at(x0, d, i) == (x0 * pow10(i)) % d || (i == 0 && remainder_at(x0, d, i) == x0),
        x0 < d ==> remainder_at(x0, d, i) == (x0 * pow10(i)) % d,
        i > 0 ==> remainder_at(x0, d, i) == (x0 * pow10(i)) % d,
    decreases i,
{
    lemma_pow10_step(0);
    if i == 0 {
        assert(x0 * 1 == x0);
        if x0 < d {
            lemma_small_mod(x0, d);
        }
    } else {
        let j = (i - 1) as nat;
        lemma_remainder_closed_form(x0, d, j);
        lemma_remainder_modulus(x0, d, j);
        lemma_pow10_step(j);
        let p = pow10(j) as int;
        assert(x0 * (p * 10) == (x0 * p) * 10) by (nonlinear_arith);
        if j == 0 {
            assert(x0 * p == x0) by (nonlinear_arith)
                requires
                    p == 1,
            ;
        } else {
            lemma_mul_mod_noop_left(x0 * p, 10, d as int);
        }
    }
}

/// Where `d` divides `x0 * 10^m * (10^l - 1)`, the remainders repeat at
/// `m` with length `l`.
pub proof fn lemma_repeat_from_divisibility(x0: nat, d: nat, m: nat, l: nat)
    requires
        d > 0,
        x0 < d,
        (x0 * pow10(m) * (pow10(l) - 1)) % (d as int) == 0,
    ensures
        is_repeat::<Remainder>((x0, d), m, l),
{
    lemma_remainder_closed_form(x0, d, m);
    lemma_remainder_closed_form(x0, d, m + l);
    lemma_remainder_modulus(x0, d, m);
    lemma_remainder_modulus(x0, d, m + l);
    crate::digits::lemma_pow10_adds(m, l);
    lemma_pow10_positive(l);
    let a = (x0 * pow10(m)) as int;
    let c = a * (pow10(l) - 1);
    assert(x0 * (pow10(m) * pow10(l)) == a + c) by (nonlinear_arith)
        requires
            a == x0 * pow10(m),
            c == a * (pow10(l) - 1),
    ;
    lemma_add_mod_noop(a, c, d as int);
    lemma_mod_twice(a, d as int);
}

/// The remainders of a long division stay below the divisor, and its
/// digits are digits.
pub proof fn lemma_remainder_bound(x0: nat, den: nat, i: nat)
    requires
        x0 < den,
    ensures
        remainder_at(x0, den, i) < den,
        expansion_digit(x0, den, i) <= 9,
        (remainder_at(x0, den, i) * 10) / den == expansion_digit(x0, den, i),
    decreases i,
{
    if i > 0 {
        lemma_remainder_bound(x0, den, (i - 1) as nat);
        lemma_remainder_modulus(x0, den, (i - 1) as nat);
        let x = remainder_at(x0, den, (i - 1) as nat);
        assert((x * 10) % den < den) by (nonlinear_arith)
            requires
                den > 0,
        ;
    }
    let x = remainder_at(x0, den, i);
    assert((x * 10) / den <= 9) by (nonlinear_arith)
        requires
            x < den,
    ;
}

/// The `n` digits that long division produces from step `from` on.
pub open spec fn expansion(x0: nat, den: nat, from: nat, n: nat) -> Seq<u8> {
    Seq::new(n, |i: int| expansion_digit(x0, den, (from + i) as nat))
}

/// What long division has done after `n` more steps: the remainder it
/// started from, shifted by `n` places, is the divisor times the digits it
/// has produced, plus the remainder that is left.
pub proof fn lemma_long_division(x0: nat, den: nat, from: nat, n: nat)
    requires
        x0 < den,
    ensures
        remainder_at(x0, den, from) * pow10(n) == den * digits_value(expansion(x0, den, from, n))
            + remainder_at(x0, den, from + n),
        crate::digits::is_digits(expansion(x0, den, from, n)),
        remainder_at(x0, den, from + n) < den,
    decreases n,
{
    lemma_pow10_step(0);
    lemma_remainder_bound(x0, den, from + n);
    assert forall|i: int| 0 <= i < n implies expansion(x0, den, from, n)[i] <= 9 by {
        lemma_remainder_bound(x0, den, (from + i) as nat);
    }
    if n == 0 {
        assert(expansion(x0, den, from, 0) =~= Seq::<u8>::empty());
        assert(remainder_at(x0, den, from) * 1 == remainder_at(x0, den, from));
        assert(den * 0 == 0);
    } else {
        let k = (n - 1) as nat;
        lemma_long_division(x0, den, from, k);
        lemma_remainder_bound(x0, den, from + k);
        lemma_remainder_modulus(x0, den, from + k);
        lemma_pow10_step(k);
        let before = expansion(x0, den, from, k);
        let d = expansion_digit(x0, den, from + k);
        assert(expansion(x0, den, from, n) =~= before.push(d));
        lemma_value_push(before, d);
        let x = remainder_at(x0, den, from + k) as int;
        let next = remainder_at(x0, den, from + n) as int;
        lemma_fundamental_div_mod(x * 10, den as int);
        assert(next == (x * 10) % (den as int));
        let start = remainder_at(x0, den, from) as int;
        let v = digits_value(before) as int;
        let p = pow10(k) as int;
        assert(start * (p * 10) == den * (v * 10 + d) + next) by (nonlinear_arith)
            requires
                start * p == den * v + x,
                x * 10 == den * (d as int) + next,
        ;
    }
}

} // verus!
