//! The canonical form of a repeating decimal, and why a canonical decimal
//! is the decimal of the number it denotes.

use crate::digits::{
    digits_value, is_canonical, is_digits, lemma_canonical_unique, lemma_pow10_adds,
    lemma_pow10_positive, lemma_pow10_step, lemma_same_length_unique, lemma_value_all_nines,
    lemma_value_bound, lemma_value_concat, lemma_value_single, pow10,
};
use crate::division::{
    expansion, expansion_digit, lemma_least_repeat_unique, lemma_long_division,
    lemma_remainder_bound, lemma_remainder_modulus, remainder_at, Remainder,
};
use crate::number::{
    abs_nat, decimal_of, division_start, first_difference, has_repeat, lcp_bound, lcp_spec,
    lemma_decimal_of_eqv, lemma_lcp_self, lemma_nat_digits, lemma_value_denominator, nat_digits,
    DecimalView,
};
use crate::rational::Frac;
use crate::utils::{is_least_repeat, is_repeat, lemma_repeat_shift};
use vstd::arithmetic::div_mod::{
    lemma_fundamental_div_mod_converse, lemma_mod_multiples_vanish, lemma_small_mod,
};
use vstd::prelude::*;

verus! {

/// A string of nines, and at least one.
pub open spec fn all_nines(s: Seq<u8>) -> bool {
    s.len() > 0 && forall|i: int| 0 <= i < s.len() ==> s[i] == 9
}

impl DecimalView {
    /// The length of the repeating block, or one where nothing repeats:
    /// the period of the digits after the non-repeating ones.
    pub open spec fn period(self) -> nat {
        if self.frac_rep.len() == 0 {
            1
        } else {
            self.frac_rep.len()
        }
    }

    /// The `i`-th digit after the decimal point comes again `lambda`
    /// digits later.
    pub open spec fn comes_again(self, i: nat, lambda: nat) -> bool {
        self.frac_digit(i) == self.frac_digit(i + lambda)
    }

    /// From the `mu`-th digit after the decimal point on, the digits come
    /// again after every `lambda` digits.
    pub open spec fn stream_repeats(self, mu: nat, lambda: nat) -> bool {
        forall|i: nat| i >= mu ==> #[trigger] self.comes_again(i, lambda)
    }

    /// The canonical form of a decimal:
    ///
    /// - all parts are digit strings, the integer part without leading
    ///   zeros;
    /// - the sign is `NoSign` exactly for zero, which is written `0`;
    /// - the repeating block is neither `0` nor made of nines;
    /// - the non-repeating digits are as few as can be, and the repeating
    ///   block is as short as can be.
    pub open spec fn wf(self) -> bool {
        &&& self.is_digits()
        &&& is_canonical(self.int_part)
        &&& (self.sign is NoSign <==> self.int_part == seq![0u8] && self.frac_once.len() == 0
            && self.frac_rep.len() == 0)
        &&& self.frac_rep != seq![0u8]
        &&& !all_nines(self.frac_rep)
        &&& forall|mu: nat, lambda: nat|
            lambda >= 1 && #[trigger] self.stream_repeats(mu, lambda) ==> self.frac_once.len() < mu
                || (self.frac_once.len() == mu && self.period() <= lambda)
    }

    /// The numerator of the part after the decimal point, over
    /// [`frac_denom`](Self::frac_denom).
    pub open spec fn frac_numer(self) -> nat {
        digits_value(self.frac_once) * self.nines() + digits_value(self.frac_rep)
    }

    /// The denominator `10^|frac_once| (10^|frac_rep| - 1)` of the part
    /// after the decimal point.
    pub open spec fn frac_denom(self) -> nat {
        pow10(self.frac_once.len()) * self.nines()
    }

    /// The number that the decimal denotes as one fraction.
    pub open spec fn normal(self) -> Frac {
        let top = digits_value(self.int_part) * self.frac_denom() + self.frac_numer();
        Frac {
            num: if self.sign is Minus {
                -(top as int)
            } else {
                top as int
            },
            den: self.frac_denom() as int,
        }
    }
}

/// `10^l - 1` is at least nine for `l >= 1`, and the number of nines is
/// at least one.
pub proof fn lemma_nines(v: DecimalView)
    ensures
        v.nines() >= 1,
        v.frac_denom() >= 1,
        v.frac_rep.len() > 0 ==> v.nines() + 1 == pow10(v.frac_rep.len()),
{
    let l = v.frac_rep.len();
    lemma_pow10_positive(l);
    lemma_pow10_positive(v.frac_once.len());
    lemma_pow10_step(0);
    if l > 0 {
        lemma_pow10_step((l - 1) as nat);
        lemma_pow10_positive((l - 1) as nat);
    }
    assert(pow10(v.frac_once.len()) * v.nines() >= 1) by (nonlinear_arith)
        requires
            pow10(v.frac_once.len()) >= 1,
            v.nines() >= 1,
    ;
}

/// The fraction that a decimal denotes and its one fraction denote the
/// same number.
pub proof fn lemma_normal_form(v: DecimalView)
    ensures
        v.value().eqv(v.normal()),
        v.normal().den > 0,
        v.value().den > 0,
{
    lemma_nines(v);
    lemma_value_denominator(v);
    let scale = pow10(v.frac_once.len()) as int;
    let nn = v.nines() as int;
    let whole = digits_value(v.int_part) as int;
    let once = digits_value(v.frac_once) as int;
    let rep = digits_value(v.frac_rep) as int;
    let mag = v.magnitude();
    let top = whole * (scale * nn) + (once * nn + rep);
    let core = (whole * scale + once) * nn + rep;
    assert(mag.num == scale * core && mag.den == scale * (nn * scale)) by (nonlinear_arith)
        requires
            mag.num == (whole * scale + once * 1) * (nn * scale) + rep * (1 * scale),
            mag.den == (1 * scale) * (nn * scale),
            core == (whole * scale + once) * nn + rep,
    ;
    assert(top == core) by (nonlinear_arith)
        requires
            top == whole * (scale * nn) + (once * nn + rep),
            core == (whole * scale + once) * nn + rep,
    ;
    assert(mag.num * (scale * nn) == top * mag.den) by (nonlinear_arith)
        requires
            mag.num == scale * core,
            mag.den == scale * (nn * scale),
            top == core,
    ;
    assert((-mag.num) * (scale * nn) == (-top) * mag.den) by (nonlinear_arith)
        requires
            mag.num * (scale * nn) == top * mag.den,
    ;
}

/// The part after the decimal point is below one, unless the repeating
/// block is made of nines.
pub proof fn lemma_fraction_below_one(v: DecimalView)
    requires
        v.is_digits(),
        !all_nines(v.frac_rep),
    ensures
        v.frac_numer() < v.frac_denom(),
        digits_value(v.frac_rep) < v.nines(),
{
    lemma_nines(v);
    lemma_value_bound(v.frac_once);
    lemma_value_bound(v.frac_rep);
    let scale = pow10(v.frac_once.len()) as int;
    let nn = v.nines() as int;
    let once = digits_value(v.frac_once) as int;
    let rep = digits_value(v.frac_rep) as int;
    if v.frac_rep.len() > 0 {
        if rep + 1 == pow10(v.frac_rep.len()) {
            lemma_value_all_nines(v.frac_rep);
        }
    } else {
        assert(v.frac_rep =~= Seq::<u8>::empty());
    }
    assert(once * nn + rep < scale * nn) by (nonlinear_arith)
        requires
            0 <= once < scale,
            0 <= rep < nn,
    ;
}

/// What long division of the part after the decimal point yields first:
/// the non-repeating digits and the repeating block.
pub proof fn lemma_first_digits(v: DecimalView)
    requires
        v.is_digits(),
        !all_nines(v.frac_rep),
    ensures
        expansion(v.frac_numer(), v.frac_denom(), 0, v.frac_once.len() + v.frac_rep.len())
            == v.frac_once + v.frac_rep,
        remainder_at(v.frac_numer(), v.frac_denom(), v.frac_once.len() + v.frac_rep.len())
            == digits_value(v.frac_rep) * pow10(v.frac_once.len()),
        remainder_at(v.frac_numer(), v.frac_denom(), v.frac_once.len()) == digits_value(v.frac_rep)
            * pow10(v.frac_once.len()),
{
    lemma_nines(v);
    lemma_fraction_below_one(v);
    let m = v.frac_once.len();
    let l = v.frac_rep.len();
    let x0 = v.frac_numer();
    let d = v.frac_denom();
    let scale = pow10(m) as int;
    let ten_l = pow10(l) as int;
    let nn = v.nines() as int;
    let once = digits_value(v.frac_once) as int;
    let rep = digits_value(v.frac_rep) as int;
    lemma_pow10_adds(m, l);
    lemma_pow10_step(0);
    lemma_pow10_positive(m);
    lemma_pow10_positive(l);
    let left = rep * scale;
    assert(0 <= left < d) by (nonlinear_arith)
        requires
            left == rep * scale,
            d == scale * nn,
            0 <= rep < nn,
            scale >= 1,
    ;
    // The whole expansion.
    lemma_long_division(x0, d, 0, m + l);
    let all = expansion(x0, d, 0, m + l);
    assert((x0 as int) * (scale * ten_l) == d * (once * ten_l + rep) + left) by (nonlinear_arith)
        requires
            x0 == once * nn + rep,
            d == scale * nn,
            left == rep * scale,
            (l > 0 && nn + 1 == ten_l) || (l == 0 && nn == 1 && ten_l == 1 && rep == 0),
    ;
    let shifted = (x0 * pow10(m + l)) as int;
    assert(remainder_at(x0, d, 0) == x0);
    assert(digits_value(all) * d == d * digits_value(all)) by (nonlinear_arith);
    assert((once * ten_l + rep) * d == d * (once * ten_l + rep)) by (nonlinear_arith);
    assert(pow10(m + l) == scale * ten_l);
    lemma_fundamental_div_mod_converse(
        shifted,
        d as int,
        digits_value(all) as int,
        remainder_at(x0, d, m + l) as int,
    );
    lemma_fundamental_div_mod_converse(shifted, d as int, once * ten_l + rep, left);
    lemma_value_concat(v.frac_once, v.frac_rep);
    lemma_same_length_unique(all, v.frac_once + v.frac_rep);
    // The non-repeating digits alone.
    lemma_long_division(x0, d, 0, m);
    assert((x0 as int) * scale == d * once + left) by (nonlinear_arith)
        requires
            x0 == once * nn + rep,
            d == scale * nn,
            left == rep * scale,
    ;
    let head = expansion(x0, d, 0, m);
    assert(digits_value(head) * d == d * digits_value(head)) by (nonlinear_arith);
    assert(once * d == d * once) by (nonlinear_arith);
    lemma_fundamental_div_mod_converse(
        (x0 * pow10(m)) as int,
        d as int,
        digits_value(head) as int,
        remainder_at(x0, d, m) as int,
    );
    lemma_fundamental_div_mod_converse((x0 * pow10(m)) as int, d as int, once, left);
}

/// Once long division has come to the remainder zero, it stays there.
pub proof fn lemma_zero_stays(x0: nat, den: nat, from: nat, i: nat)
    requires
        den > 0,
        from <= i,
        remainder_at(x0, den, from) == 0,
    ensures
        remainder_at(x0, den, i) == 0,
        expansion_digit(x0, den, i) == 0,
    decreases i - from,
{
    if from < i {
        lemma_zero_stays(x0, den, from, (i - 1) as nat);
        lemma_remainder_modulus(x0, den, (i - 1) as nat);
        lemma_small_mod(0, den);
    }
    assert((0nat * 10) / den == 0) by (nonlinear_arith)
        requires
            den > 0,
    ;
}

/// The remainders of the part after the decimal point repeat after the
/// non-repeating digits, with the period of the decimal.
pub proof fn lemma_fraction_repeats(v: DecimalView)
    requires
        v.is_digits(),
        !all_nines(v.frac_rep),
    ensures
        is_repeat::<Remainder>((v.frac_numer(), v.frac_denom()), v.frac_once.len(), v.period()),
{
    lemma_nines(v);
    lemma_first_digits(v);
    let m = v.frac_once.len();
    let x0 = v.frac_numer();
    let d = v.frac_denom();
    lemma_remainder_modulus(x0, d, m);
    lemma_remainder_modulus(x0, d, m + v.period());
    if v.frac_rep.len() == 0 {
        assert(v.frac_rep =~= Seq::<u8>::empty());
        assert(0 * pow10(m) == 0) by (nonlinear_arith);
        lemma_zero_stays(x0, d, m, m + 1);
    }
}

/// The digits that long division of the part after the decimal point
/// yields are the digits that the decimal shows.
pub proof fn lemma_digits_are_shown(v: DecimalView, i: nat)
    requires
        v.is_digits(),
        !all_nines(v.frac_rep),
    ensures
        expansion_digit(v.frac_numer(), v.frac_denom(), i) == v.frac_digit(i),
    decreases i,
{
    lemma_nines(v);
    lemma_first_digits(v);
    let m = v.frac_once.len();
    let l = v.frac_rep.len();
    let x0 = v.frac_numer();
    let d = v.frac_denom();
    if i < m + l {
        let all = expansion(x0, d, 0, m + l);
        assert(all[i as int] == expansion_digit(x0, d, i));
        assert(all[i as int] == (v.frac_once + v.frac_rep)[i as int]);
        if i >= m {
            lemma_small_mod((i - m) as nat, l);
        }
    } else if l == 0 {
        assert(v.frac_rep =~= Seq::<u8>::empty());
        assert(0 * pow10(m) == 0) by (nonlinear_arith);
        lemma_zero_stays(x0, d, m, i);
    } else {
        let j = (i - l) as nat;
        lemma_digits_are_shown(v, j);
        lemma_fraction_repeats(v);
        lemma_repeat_shift::<Remainder>((x0, d), m, l, (j - m) as nat);
        lemma_remainder_modulus(x0, d, j);
        lemma_remainder_modulus(x0, d, i);
        assert(remainder_at(x0, d, j) == remainder_at(x0, d, i));
        lemma_mod_multiples_vanish(1, (j - m) as int, l as int);
        assert((i - m) % (l as int) == (j - m) % (l as int));
    }
}

/// The remainders of the part after the decimal point of a canonical
/// decimal first repeat after its non-repeating digits, with its period.
pub proof fn lemma_fraction_least_repeat(v: DecimalView)
    requires
        v.wf(),
    ensures
        is_least_repeat::<Remainder>(
            (v.frac_numer(), v.frac_denom()),
            v.frac_once.len(),
            v.period(),
        ),
{
    let x0 = v.frac_numer();
    let d = v.frac_denom();
    let s = (x0, d);
    lemma_fraction_repeats(v);
    assert forall|a: nat, p: nat| p >= 1 && #[trigger] is_repeat::<Remainder>(s, a, p) implies v.frac_once.len()
        < a || (v.frac_once.len() == a && v.period() <= p) by {
        assert forall|i: nat| i >= a implies #[trigger] v.comes_again(i, p) by {
            lemma_digits_are_shown(v, i);
            lemma_digits_are_shown(v, i + p);
            lemma_repeat_shift::<Remainder>(s, a, p, (i - a) as nat);
            lemma_remainder_modulus(x0, d, i);
            lemma_remainder_modulus(x0, d, i + p);
        }
        assert(v.stream_repeats(a, p));
    }
}

/// A canonical decimal other than zero denotes a number other than zero.
pub proof fn lemma_nonzero(v: DecimalView)
    requires
        v.wf(),
        !(v.sign is NoSign),
    ensures
        digits_value(v.int_part) * v.frac_denom() + v.frac_numer() > 0,
{
    lemma_nines(v);
    let whole = digits_value(v.int_part);
    let d = v.frac_denom();
    if whole == 0 && v.frac_numer() == 0 {
        lemma_nat_digits(0);
        lemma_canonical_unique(v.int_part, nat_digits(0));
        lemma_fraction_below_one(v);
        // Long division of zero yields zeros, so the digits repeat from
        // the start.
        assert forall|i: nat| i >= 0 implies #[trigger] v.comes_again(i, 1) by {
            lemma_digits_are_shown(v, i);
            lemma_digits_are_shown(v, i + 1);
            lemma_zero_stays(0, d, 0, i);
            lemma_zero_stays(0, d, 0, i + 1);
        }
        assert(v.stream_repeats(0, 1));
        assert(v.frac_once =~= Seq::<u8>::empty());
        if v.frac_rep.len() == 1 {
            lemma_digits_are_shown(v, 0);
            lemma_zero_stays(0, d, 0, 0);
            lemma_small_mod(0, 1);
            assert(v.frac_rep =~= seq![0u8]);
        }
        assert(false);
    }
    assert(whole * d + v.frac_numer() > 0) by (nonlinear_arith)
        requires
            whole >= 1 || v.frac_numer() >= 1,
            d >= 1,
    ;
}

/// A canonical decimal is the decimal of its one fraction.
pub proof fn lemma_decimal_of_normal(v: DecimalView)
    requires
        v.wf(),
    ensures
        decimal_of(v.normal()) == v,
        v.normal().num != 0 ==> is_repeat::<Remainder>(
            division_start(v.normal()),
            v.frac_once.len(),
            v.period(),
        ),
{
    lemma_nines(v);
    let g = v.normal();
    let whole = digits_value(v.int_part);
    let d = v.frac_denom();
    let x0 = v.frac_numer();
    let m = v.frac_once.len();
    let l = v.frac_rep.len();
    if v.sign is NoSign {
        lemma_value_single(0);
        assert(v.frac_once =~= Seq::<u8>::empty());
        assert(v.frac_rep =~= Seq::<u8>::empty());
        assert(whole * d + x0 == 0) by (nonlinear_arith)
            requires
                whole == 0,
                x0 == digits_value(v.frac_once) * v.nines() + digits_value(v.frac_rep),
                digits_value(v.frac_once) == 0,
                digits_value(v.frac_rep) == 0,
        ;
    } else {
        lemma_nonzero(v);
        lemma_fraction_below_one(v);
        let a = abs_nat(g.num);
        assert(a == whole * d + x0);
        lemma_fundamental_div_mod_converse(a as int, d as int, whole as int, x0 as int);
        lemma_nat_digits(whole);
        lemma_canonical_unique(v.int_part, nat_digits(whole));
        lemma_fraction_least_repeat(v);
        lemma_least_repeat_unique(x0, d, m, v.period());
        let got = decimal_of(g);
        assert forall|i: int| 0 <= i < m implies expansion_digit(x0, d, i as nat)
            == v.frac_once[i] by {
            lemma_digits_are_shown(v, i as nat);
        }
        assert(got.frac_once =~= v.frac_once);
        let rep = Seq::new(v.period(), |i: int| expansion_digit(x0, d, (m + i) as nat));
        if l == 0 {
            assert(v.frac_rep =~= Seq::<u8>::empty());
            lemma_digits_are_shown(v, m);
            assert(rep =~= seq![0u8]);
        } else {
            assert forall|i: int| 0 <= i < l implies rep[i] == v.frac_rep[i] by {
                lemma_digits_are_shown(v, (m + i) as nat);
                lemma_small_mod(i as nat, l);
            }
            assert(rep =~= v.frac_rep);
        }
        assert(got.frac_rep =~= v.frac_rep);
        assert(got.int_part == v.int_part);
        assert(got.sign == v.sign);
    }
}

/// Turning a canonical decimal into a fraction and back gives the same
/// decimal: a canonical decimal is the decimal of every fraction that
/// denotes the number it denotes.
pub proof fn lemma_round_trip(v: DecimalView, q: Frac)
    requires
        v.wf(),
        q.den > 0,
        q.eqv(v.value()),
    ensures
        decimal_of(q) == v,
{
    lemma_normal_form(v);
    lemma_decimal_of_normal(v);
    let g = v.normal();
    crate::rational::lemma_eqv_transitive(q, v.value(), g);
    if g.num != 0 {
        assert(has_repeat(g));
        lemma_decimal_of_eqv(g, q);
    } else {
        assert(q.num == 0) by (nonlinear_arith)
            requires
                q.num * g.den == g.num * q.den,
                g.num == 0,
                g.den > 0,
        ;
    }
}

/// A string of nines denotes `10^n - 1`.
pub proof fn lemma_value_of_nines(s: Seq<u8>)
    requires
        forall|i: int| 0 <= i < s.len() ==> s[i] == 9,
    ensures
        digits_value(s) + 1 == pow10(s.len()),
    decreases s.len(),
{
    lemma_pow10_step(0);
    if s.len() > 0 {
        lemma_value_of_nines(s.drop_last());
        lemma_pow10_step(s.drop_last().len());
    }
}

/// `10^n` is larger than `n`.
pub proof fn lemma_pow10_grows(n: nat)
    ensures
        pow10(n) > n,
    decreases n,
{
    lemma_pow10_step(0);
    if n > 0 {
        lemma_pow10_grows((n - 1) as nat);
        lemma_pow10_step((n - 1) as nat);
    }
}

/// The `i`-th digit of a long division comes again `p` digits later.
pub open spec fn digit_comes_again(x0: nat, den: nat, i: nat, p: nat) -> bool {
    expansion_digit(x0, den, i) == expansion_digit(x0, den, i + p)
}

/// Where the digits of a long division come again after `p` digits from
/// the `a`-th on, the remainders repeat at `a` with length `p`: the digits
/// that follow a remainder tell what the remainder is.
pub proof fn lemma_digits_tell_remainder(x0: nat, den: nat, a: nat, p: nat)
    requires
        x0 < den,
        forall|i: nat| i >= a ==> #[trigger] digit_comes_again(x0, den, i, p),
    ensures
        is_repeat::<Remainder>((x0, den), a, p),
{
    let n = den;
    lemma_pow10_grows(n);
    lemma_long_division(x0, den, a, n);
    lemma_long_division(x0, den, a + p, n);
    let first = expansion(x0, den, a, n);
    let second = expansion(x0, den, a + p, n);
    assert forall|i: int| 0 <= i < n implies first[i] == second[i] by {
        let j = (a + i) as nat;
        assert(digit_comes_again(x0, den, j, p));
    }
    assert(first =~= second);
    let xa = remainder_at(x0, den, a) as int;
    let xb = remainder_at(x0, den, a + p) as int;
    let ra = remainder_at(x0, den, a + n) as int;
    let rb = remainder_at(x0, den, a + p + n) as int;
    let big = pow10(n) as int;
    assert(xa == xb) by (nonlinear_arith)
        requires
            xa * big == den * digits_value(first) + ra,
            xb * big == den * digits_value(first) + rb,
            0 <= ra < den,
            0 <= rb < den,
            big > den,
    ;
    lemma_remainder_modulus(x0, den, a);
    lemma_remainder_modulus(x0, den, a + p);
}

/// The decimal of a fraction shows the digits that long division yields.
pub proof fn lemma_shown_are_digits(f: Frac, mu: nat, lambda: nat, i: nat)
    requires
        f.den > 0,
        f.num != 0,
        is_least_repeat::<Remainder>(division_start(f), mu, lambda),
    ensures
        decimal_of(f).frac_digit(i) == expansion_digit(division_start(f).0, division_start(f).1, i),
        decimal_of(f).frac_once.len() == mu,
        decimal_of(f).period() == lambda,
    decreases i,
{
    let (x0, den) = division_start(f);
    let v = decimal_of(f);
    lemma_least_repeat_unique(x0, den, mu, lambda);
    assert(x0 < den) by (nonlinear_arith)
        requires
            x0 == abs_nat(f.num) % den,
            den > 0,
    ;
    let block = Seq::new(lambda, |k: int| expansion_digit(x0, den, (mu + k) as nat));
    lemma_remainder_modulus(x0, den, mu);
    lemma_remainder_modulus(x0, den, mu + lambda);
    if block == seq![0u8] {
        // The block `0` is left out; the remainder is zero from `mu` on.
        assert(block.len() == 1 && block[0] == 0);
        lemma_remainder_bound(x0, den, mu);
        let x = remainder_at(x0, den, mu);
        vstd::arithmetic::div_mod::lemma_fundamental_div_mod((x * 10) as int, den as int);
        assert(x == 0) by (nonlinear_arith)
            requires
                (x * 10) / den == 0,
                (x * 10) % den == x,
                den > 0,
                x * 10 == den * ((x * 10) / den) + (x * 10) % den,
        ;
        if i >= mu {
            lemma_zero_stays(x0, den, mu, i);
        }
    } else if i >= mu + lambda {
        let j = (i - lambda) as nat;
        lemma_shown_are_digits(f, mu, lambda, j);
        lemma_repeat_shift::<Remainder>((x0, den), mu, lambda, (j - mu) as nat);
        lemma_remainder_modulus(x0, den, j);
        lemma_remainder_modulus(x0, den, i);
        lemma_mod_multiples_vanish(1, (j - mu) as int, lambda as int);
        assert((i - mu) % (lambda as int) == (j - mu) % (lambda as int));
    } else if i >= mu {
        lemma_small_mod((i - mu) as nat, lambda);
    }
}

/// The decimal of a fraction is canonical.
pub proof fn lemma_decimal_of_wf(f: Frac)
    requires
        f.den > 0,
        has_repeat(f),
    ensures
        decimal_of(f).wf(),
{
    let v = decimal_of(f);
    if f.num == 0 {
        assert(v.frac_rep =~= Seq::<u8>::empty());
        assert(v.frac_once =~= Seq::<u8>::empty());
    } else {
        let (x0, den) = division_start(f);
        let a = abs_nat(f.num);
        assert(x0 < den) by (nonlinear_arith)
            requires
                x0 == a % den,
                den > 0,
        ;
        let (m, l) = choose|m: nat, l: nat|
            l >= 1 && #[trigger] is_repeat::<Remainder>(division_start(f), m, l);
        let (mu, lambda) = crate::utils::lemma_least_repeat_exists::<Remainder>((x0, den), m, l);
        lemma_least_repeat_unique(x0, den, mu, lambda);
        lemma_shown_are_digits(f, mu, lambda, 0);
        let block = Seq::new(lambda, |k: int| expansion_digit(x0, den, (mu + k) as nat));
        // All parts are digit strings.
        lemma_nat_digits(a / den);
        assert forall|i: int| 0 <= i < v.frac_once.len() implies v.frac_once[i] <= 9 by {
            lemma_remainder_bound(x0, den, i as nat);
        }
        assert forall|i: int| 0 <= i < v.frac_rep.len() implies v.frac_rep[i] <= 9 by {
            lemma_remainder_bound(x0, den, (mu + i) as nat);
        }
        // The decimal is not written as zero is.
        if v.int_part == seq![0u8] && v.frac_once.len() == 0 && v.frac_rep.len() == 0 {
            lemma_value_single(0);
            assert(a / den == 0);
            assert(block == seq![0u8]);
            assert(block.len() == 1 && block[0] == 0);
            lemma_remainder_modulus(x0, den, 0);
            lemma_remainder_modulus(x0, den, 1);
            lemma_remainder_bound(x0, den, 0);
            assert(remainder_at(x0, den, 0) == x0);
            vstd::arithmetic::div_mod::lemma_fundamental_div_mod((x0 * 10) as int, den as int);
            vstd::arithmetic::div_mod::lemma_fundamental_div_mod(a as int, den as int);
            assert(false) by (nonlinear_arith)
                requires
                    a / den == 0,
                    a == den * (a / den) + a % den,
                    x0 == a % den,
                    a > 0,
                    (x0 * 10) / den == 0,
                    (x0 * 10) % den == x0,
                    x0 * 10 == den * ((x0 * 10) / den) + (x0 * 10) % den,
                    den > 0,
            ;
        }
        // The repeating block is not made of nines.
        if all_nines(v.frac_rep) {
            assert(v.frac_rep == block);
            assert(block =~= expansion(x0, den, mu, lambda));
            lemma_value_of_nines(block);
            lemma_long_division(x0, den, mu, lambda);
            lemma_remainder_modulus(x0, den, mu);
            lemma_remainder_modulus(x0, den, mu + lambda);
            let x = remainder_at(x0, den, mu) as int;
            let nn = digits_value(block) as int;
            lemma_pow10_positive(lambda);
            lemma_pow10_step((lambda - 1) as nat);
            lemma_pow10_positive((lambda - 1) as nat);
            assert(false) by (nonlinear_arith)
                requires
                    x * (nn + 1) == den * nn + x,
                    nn >= 9,
                    0 <= x < den,
            ;
        }
        // No fewer digits would do.
        assert forall|a1: nat, p: nat| p >= 1 && #[trigger] v.stream_repeats(a1, p) implies v.frac_once.len()
            < a1 || (v.frac_once.len() == a1 && v.period() <= p) by {
            assert forall|i: nat| i >= a1 implies #[trigger] digit_comes_again(x0, den, i, p) by {
                lemma_shown_are_digits(f, mu, lambda, i);
                lemma_shown_are_digits(f, mu, lambda, i + p);
                assert(v.comes_again(i, p));
            }
            lemma_digits_tell_remainder(x0, den, a1, p);
        }
    }
}

/// Zero, written `0`, is canonical.
pub proof fn lemma_zero_wf()
    ensures
        DecimalView::zero().wf(),
{
    let v = DecimalView::zero();
    assert(v.frac_rep =~= Seq::<u8>::empty());
    assert(v.frac_once =~= Seq::<u8>::empty());
}

/// The digits after the decimal point come again after each period.
pub proof fn lemma_stream_repeats(v: DecimalView)
    ensures
        v.stream_repeats(v.frac_once.len(), v.period()),
{
    let m = v.frac_once.len();
    let l = v.frac_rep.len();
    assert forall|i: nat| i >= m implies #[trigger] v.comes_again(i, v.period()) by {
        if l > 0 {
            lemma_mod_multiples_vanish(1, (i - m) as int, l as int);
            assert((i + l - m) % (l as int) == (i - m) % (l as int));
        }
    }
}

/// Two decimals whose digits come again after `p` and after `q` digits
/// from the `from`-th on, and that show the same `from + p + q` digits,
/// show the same digits for ever.
pub proof fn lemma_same_digits(a: DecimalView, b: DecimalView, from: nat, p: nat, q: nat, j: nat)
    requires
        p >= 1,
        q >= 1,
        a.stream_repeats(from, p),
        b.stream_repeats(from, q),
        forall|i: nat| i < from + p + q ==> a.frac_digit(i) == b.frac_digit(i),
    ensures
        a.frac_digit(j) == b.frac_digit(j),
    decreases j,
{
    if j >= from + p + q {
        let j1 = (j - p) as nat;
        let j2 = (j - q) as nat;
        let j3 = (j - p - q) as nat;
        lemma_same_digits(a, b, from, p, q, j1);
        lemma_same_digits(a, b, from, p, q, j2);
        lemma_same_digits(a, b, from, p, q, j3);
        assert(a.comes_again(j1, p));
        assert(b.comes_again(j3, q));
        assert(a.comes_again(j3, p));
        assert(b.comes_again(j2, q));
    }
}

/// Where no first difference is found, the decimals show the same up to
/// the bound.
pub proof fn lemma_no_difference(a: DecimalView, b: DecimalView, from: nat, bound: nat, i: nat)
    requires
        first_difference(a, b, from, bound) is None,
        from <= i < bound,
    ensures
        a.stream(i) == b.stream(i),
    decreases bound - from,
{
    if from < i {
        lemma_no_difference(a, b, from + 1, bound, i);
    }
}

/// Two canonical decimals show no difference exactly where they are the
/// same decimal.
pub proof fn lemma_lcp_none_iff_equal(a: DecimalView, b: DecimalView)
    requires
        a.wf(),
        b.wf(),
    ensures
        lcp_spec(a, b) is None <==> a == b,
{
    lemma_lcp_self(a);
    if lcp_spec(a, b) is None {
        let k = a.int_part.len();
        let bound = lcp_bound(a, b);
        let m_a = a.frac_once.len();
        let m_b = b.frac_once.len();
        let from = if m_a >= m_b {
            m_a
        } else {
            m_b
        };
        let p = a.period();
        let q = b.period();
        assert forall|i: int| 0 <= i < k implies a.int_part[i] == b.int_part[i] by {
            lemma_no_difference(a, b, 0, bound, i as nat);
        }
        assert(a.int_part =~= b.int_part);
        assert forall|i: nat| i < from + p + q implies a.frac_digit(i) == b.frac_digit(i) by {
            lemma_no_difference(a, b, 0, bound, k + 1 + i);
        }
        lemma_stream_repeats(a);
        lemma_stream_repeats(b);
        assert forall|i: nat| i >= from implies #[trigger] a.comes_again(i, p) by {}
        assert forall|i: nat| i >= from implies #[trigger] b.comes_again(i, q) by {}
        assert forall|j: nat| a.frac_digit(j) == b.frac_digit(j) by {
            lemma_same_digits(a, b, from, p, q, j);
        }
        assert forall|i: nat| i >= m_b implies #[trigger] a.comes_again(i, q) by {
            assert(b.comes_again(i, q));
        }
        assert forall|i: nat| i >= m_a implies #[trigger] b.comes_again(i, p) by {
            assert(a.comes_again(i, p));
        }
        assert(a.stream_repeats(m_b, q));
        assert(b.stream_repeats(m_a, p));
        assert(m_a == m_b && p == q);
        assert forall|i: int| 0 <= i < m_a implies a.frac_once[i] == b.frac_once[i] by {
            assert(a.frac_digit(i as nat) == b.frac_digit(i as nat));
        }
        assert(a.frac_once =~= b.frac_once);
        let l_a = a.frac_rep.len();
        let l_b = b.frac_rep.len();
        if l_a == 0 && l_b > 0 {
            assert(a.frac_digit(m_a) == b.frac_digit(m_a));
            lemma_small_mod(0, l_b);
            assert(b.frac_rep =~= seq![0u8]);
        }
        if l_b == 0 && l_a > 0 {
            assert(a.frac_digit(m_a) == b.frac_digit(m_a));
            lemma_small_mod(0, l_a);
            assert(a.frac_rep =~= seq![0u8]);
        }
        assert forall|i: int| 0 <= i < l_a implies a.frac_rep[i] == b.frac_rep[i] by {
            assert(a.frac_digit((m_a + i) as nat) == b.frac_digit((m_a + i) as nat));
            lemma_small_mod(i as nat, l_a);
        }
        assert(a.frac_rep =~= b.frac_rep);
    }
}

} // verus!
