//! Repeating decimals in canonical form, and their conversion to and from
//! exact rationals.
//!
//! For example, `8.451(923076...) = 879/104` is the tuple with integer part
//! `8`, non-repeating digits `4, 5, 1` and repeating block
//! `9, 2, 3, 0, 7, 6`.

use crate::digits::{
    append_zeros, copy_digits, digits_value, is_canonical, is_digits, lemma_canonical_unique,
    lemma_pow10_positive, lemma_value_push, lemma_value_single, nat_div_rem, nines_digits, pow10,
    power_of_ten_digits,
};
use crate::division::{
    expansion_digit, least_repeat, lemma_least_repeat_unique, lemma_proportional_division,
    lemma_proportional_least_repeat, lemma_proportional_orbit, lemma_remainder_modulus,
    lemma_repeat_from_divisibility, Remainder,
};
use crate::rational::{Frac, Rational};
use crate::rational::{lemma_eqv_transitive, lemma_negated_congruent, lemma_plus_congruent};
use crate::text::{digits_text, push_digits};
use crate::utils::lemma_least_repeat_exists;
use crate::utils::{
    is_least_repeat, is_repeat, iterate, meets_within, orbit_mu_lambda, try_orbit_mu_lambda,
    IterDiffIndex, Orbit,
};
use num_bigint::{BigUint, ParseBigIntError};
use vstd::arithmetic::div_mod::{lemma_mod_multiples_basic, lemma_mul_mod_noop_left};
use vstd::prelude::*;
use vstd::string::StringSliceAdditionalSpecFns;
pub use crate::rational::Sign;

verus! {

/// The way a natural number is written in decimal.
pub open spec fn nat_digits(n: nat) -> Seq<u8>
    decreases n,
{
    if n < 10 {
        seq![n as u8]
    } else {
        nat_digits(n / 10).push((n % 10) as u8)
    }
}

pub proof fn lemma_nat_digits(n: nat)
    ensures
        is_canonical(nat_digits(n)),
        digits_value(nat_digits(n)) == n,
        n > 0 ==> nat_digits(n)[0] != 0,
    decreases n,
{
    if n < 10 {
        lemma_value_single(n as u8);
    } else {
        lemma_nat_digits(n / 10);
        lemma_value_push(nat_digits(n / 10), (n % 10) as u8);
    }
}

/// The decimal digits of a machine integer.
pub fn digits_of_u64(n: u64) -> (r: Vec<u8>)
    ensures
        r@ == nat_digits(n as nat),
        is_canonical(r@),
        digits_value(r@) == n,
    decreases n,
{
    proof {
        lemma_nat_digits(n as nat);
    }
    if n < 10 {
        let mut r: Vec<u8> = Vec::new();
        r.push(n as u8);
        proof {
            assert(r@ =~= seq![n as u8]);
        }
        r
    } else {
        let mut r = digits_of_u64(n / 10);
        r.push((n % 10) as u8);
        r
    }
}

/// An integer as text.
pub open spec fn integer_text(n: int) -> Seq<char> {
    if n < 0 {
        seq!['-'] + digits_text(nat_digits((-n) as nat))
    } else {
        digits_text(nat_digits(n as nat))
    }
}

/// Appends an integer as text.
pub fn push_integer(out: &mut String, n: i64)
    requires
        n > i64::MIN,
    ensures
        final(out)@ == old(out)@ + integer_text(n as int),
{
    let magnitude: u64 = if n < 0 {
        out.push('-');
        (-n) as u64
    } else {
        n as u64
    };
    let digits = digits_of_u64(magnitude);
    push_digits(out, &digits);
    proof {
        assert(out@ =~= old(out)@ + integer_text(n as int));
    }
}

/// The mathematical content of a [`DecimalTuple`].
pub struct DecimalView {
    pub sign: Sign,
    pub int_part: Seq<u8>,
    pub frac_once: Seq<u8>,
    pub frac_rep: Seq<u8>,
}

impl DecimalView {
    pub open spec fn zero() -> DecimalView {
        DecimalView {
            sign: Sign::NoSign,
            int_part: seq![0u8],
            frac_once: Seq::empty(),
            frac_rep: Seq::empty(),
        }
    }

    /// All parts are digit strings.
    pub open spec fn is_digits(self) -> bool {
        &&& is_digits(self.int_part)
        &&& is_digits(self.frac_once)
        &&& is_digits(self.frac_rep)
    }

    /// `10^|frac_rep| - 1`, or one where nothing repeats.
    pub open spec fn nines(self) -> nat {
        if self.frac_rep.len() == 0 {
            1
        } else {
            (pow10(self.frac_rep.len()) - 1) as nat
        }
    }

    /// The magnitude
    /// `int + frac_once / 10^|frac_once| + frac_rep / ((10^|frac_rep| - 1) 10^|frac_once|)`.
    pub open spec fn magnitude(self) -> Frac {
        let scale = pow10(self.frac_once.len()) as int;
        Frac::integer(digits_value(self.int_part) as int).plus(
            Frac { num: digits_value(self.frac_once) as int, den: scale },
        ).plus(Frac { num: digits_value(self.frac_rep) as int, den: self.nines() * scale })
    }

    /// The number the decimal denotes; only `Minus` negates.
    pub open spec fn value(self) -> Frac {
        if self.sign is Minus {
            self.magnitude().negated()
        } else {
            self.magnitude()
        }
    }

    /// The text `[-]int[.frac_once[(frac_rep...)]]`.
    pub open spec fn text(self) -> Seq<char> {
        let sign = if self.sign is Minus {
            seq!['-']
        } else {
            Seq::<char>::empty()
        };
        let group = if self.frac_rep.len() == 0 {
            Seq::<char>::empty()
        } else {
            seq!['('] + digits_text(self.frac_rep) + seq!['.', '.', '.', ')']
        };
        let frac = digits_text(self.frac_once) + group;
        let tail = if frac.len() == 0 {
            frac
        } else {
            seq!['.'] + frac
        };
        sign + digits_text(self.int_part) + tail
    }
}

/// The canonical repeating decimal of a fraction with a positive
/// denominator: sign, integer part, and the digits that long division
/// produces, cut where the remainders first repeat.
pub open spec fn decimal_of(f: Frac) -> DecimalView {
    if f.num == 0 {
        DecimalView::zero()
    } else {
        let a = abs_nat(f.num);
        let den = f.den as nat;
        let x0 = a % den;
        let (mu, lambda) = least_repeat(x0, den);
        let rep = Seq::new(lambda, |i: int| expansion_digit(x0, den, (mu + i) as nat));
        DecimalView {
            sign: if f.num < 0 {
                Sign::Minus
            } else {
                Sign::Plus
            },
            int_part: nat_digits(a / den),
            frac_once: Seq::new(mu, |i: int| expansion_digit(x0, den, i as nat)),
            frac_rep: if rep == seq![0u8] {
                Seq::empty()
            } else {
                rep
            },
        }
    }
}

/// The magnitude of an integer.
pub open spec fn abs_nat(n: int) -> nat {
    if n < 0 {
        (-n) as nat
    } else {
        n as nat
    }
}

/// Where the long division of the fractional part starts: the remainder
/// left by the integer part, and the divisor.
pub open spec fn division_start(f: Frac) -> (nat, nat) {
    (abs_nat(f.num) % (f.den as nat), f.den as nat)
}

/// The remainders of the fraction's long division repeat within what
/// `usize` can count, so that its expansion can be held in memory.
pub open spec fn has_expansion(f: Frac) -> bool {
    exists|m: nat, l: nat|
        l >= 1 && m <= usize::MAX && l <= usize::MAX && #[trigger] is_repeat::<Remainder>(
            division_start(f),
            m,
            l,
        )
}

/// The number is zero, or the search for the repeating block of its
/// decimal ends within what `usize` can count.
pub open spec fn can_expand(f: Frac) -> bool {
    f.num == 0 || meets_within::<Remainder>(division_start(f), usize::MAX as nat)
}

/// The remainders of the fraction's long division repeat somewhere.
pub open spec fn has_repeat(f: Frac) -> bool {
    exists|m: nat, l: nat| l >= 1 && #[trigger] is_repeat::<Remainder>(division_start(f), m, l)
}

/// Fractions that denote the same number have the same decimal.
pub proof fn lemma_decimal_of_eqv(f: Frac, g: Frac)
    requires
        f.den > 0,
        g.den > 0,
        f.eqv(g),
        has_repeat(f),
    ensures
        decimal_of(f) == decimal_of(g),
{
    assert((f.num == 0 <==> g.num == 0) && (f.num < 0 <==> g.num < 0)) by (nonlinear_arith)
        requires
            f.num * g.den == g.num * f.den,
            f.den > 0,
            g.den > 0,
    ;
    if f.num != 0 {
        let a = abs_nat(f.num);
        let b = abs_nat(g.num);
        let d = f.den as nat;
        let e = g.den as nat;
        assert(a * e == b * d) by (nonlinear_arith)
            requires
                f.num * g.den == g.num * f.den,
                a == if f.num < 0 {
                    -f.num
                } else {
                    f.num
                },
                b == if g.num < 0 {
                    -g.num
                } else {
                    g.num
                },
                f.num < 0 <==> g.num < 0,
                d == f.den,
                e == g.den,
        ;
        lemma_proportional_division(a, d, b, e);
        let x0 = a % d;
        let y0 = b % e;
        let (m, l) = choose|m: nat, l: nat|
            l >= 1 && #[trigger] is_repeat::<Remainder>(division_start(f), m, l);
        let (mu, lambda) = lemma_least_repeat_exists::<Remainder>((x0, d), m, l);
        lemma_least_repeat_unique(x0, d, mu, lambda);
        lemma_proportional_least_repeat(x0, d, y0, e, mu, lambda);
        lemma_least_repeat_unique(y0, e, mu, lambda);
        assert forall|i: nat| expansion_digit(x0, d, i) == expansion_digit(y0, e, i) by {
            lemma_proportional_orbit(x0, d, y0, e, i);
        }
        let df = decimal_of(f);
        let dg = decimal_of(g);
        assert(df.frac_once =~= dg.frac_once);
        let rf = Seq::new(lambda, |i: int| expansion_digit(x0, d, (mu + i) as nat));
        let rg = Seq::new(lambda, |i: int| expansion_digit(y0, e, (mu + i) as nat));
        assert(rf =~= rg);
        assert(df.frac_rep =~= dg.frac_rep);
    }
}

/// Fractions that denote the same number can be written out together.
pub proof fn lemma_can_expand_eqv(f: Frac, g: Frac)
    requires
        f.den > 0,
        g.den > 0,
        f.eqv(g),
    ensures
        can_expand(f) == can_expand(g),
        can_expand(f) ==> decimal_of(f) == decimal_of(g),
{
    assert((f.num == 0 <==> g.num == 0) && (f.num < 0 <==> g.num < 0)) by (nonlinear_arith)
        requires
            f.num * g.den == g.num * f.den,
            f.den > 0,
            g.den > 0,
    ;
    if f.num != 0 {
        let a = abs_nat(f.num);
        let b = abs_nat(g.num);
        let d = f.den as nat;
        let e = g.den as nat;
        assert(a * e == b * d) by (nonlinear_arith)
            requires
                f.num * g.den == g.num * f.den,
                a == if f.num < 0 {
                    -f.num
                } else {
                    f.num
                },
                b == if g.num < 0 {
                    -g.num
                } else {
                    g.num
                },
                f.num < 0 <==> g.num < 0,
                d == f.den,
                e == g.den,
        ;
        lemma_proportional_division(a, d, b, e);
        let x0 = a % d;
        let y0 = b % e;
        assert forall|nu: nat| is_repeat::<Remainder>((x0, d), nu, nu) == is_repeat::<Remainder>(
            (y0, e),
            nu,
            nu,
        ) by {
            crate::division::lemma_proportional_repeat(x0, d, y0, e, nu, nu);
        }
        if can_expand(f) {
            let nu = choose|nu: nat|
                1 <= nu <= usize::MAX && #[trigger] is_repeat::<Remainder>(
                    division_start(f),
                    nu,
                    nu,
                );
            assert(is_repeat::<Remainder>((y0, e), nu, nu));
            lemma_decimal_of_eqv(f, g);
        }
        if can_expand(g) {
            let nu = choose|nu: nat|
                1 <= nu <= usize::MAX && #[trigger] is_repeat::<Remainder>(
                    division_start(g),
                    nu,
                    nu,
                );
            assert(is_repeat::<Remainder>((x0, d), nu, nu));
        }
    }
}

/// A fraction that denotes what a decimal denotes has remainders that
/// repeat after the decimal's non-repeating digits, with the length of its
/// repeating block (or with length one, where nothing repeats).
pub proof fn lemma_value_repeats(v: DecimalView, q: Frac)
    requires
        v.is_digits(),
        q.den > 0,
        q.eqv(v.value()),
    ensures
        is_repeat::<Remainder>(
            division_start(q),
            v.frac_once.len(),
            if v.frac_rep.len() == 0 {
                1
            } else {
                v.frac_rep.len()
            },
        ),
{
    let m = v.frac_once.len();
    let l: nat = if v.frac_rep.len() == 0 {
        1
    } else {
        v.frac_rep.len()
    };
    let scale = pow10(m) as int;
    let nn = v.nines() as int;
    let whole = digits_value(v.int_part) as int;
    let once = digits_value(v.frac_once) as int;
    let rep = digits_value(v.frac_rep) as int;
    lemma_pow10_positive(m);
    lemma_pow10_positive(l);
    lemma_pow10_positive(v.frac_rep.len());
    crate::digits::lemma_pow10_step(0);
    if v.frac_rep.len() > 0 {
        crate::digits::lemma_pow10_step((v.frac_rep.len() - 1) as nat);
        lemma_pow10_positive((v.frac_rep.len() - 1) as nat);
    }
    assert(nn >= 1);
    let mag = v.magnitude();
    let core = (whole * scale + once) * nn + rep;
    assert(mag.num == scale * core && mag.den == scale * (nn * scale)) by (nonlinear_arith)
        requires
            mag.num == (whole * scale + once * 1) * (nn * scale) + rep * (1 * scale),
            mag.den == (1 * scale) * (nn * scale),
            core == (whole * scale + once) * nn + rep,
    ;
    let big_w = scale * (pow10(l) - 1);
    let k = if v.frac_rep.len() == 0 {
        9 * core
    } else {
        core
    };
    assert(mag.num * big_w == mag.den * k) by (nonlinear_arith)
        requires
            mag.num == scale * core,
            mag.den == scale * (nn * scale),
            big_w == scale * (pow10(l) - 1),
            (nn == 1 && pow10(l) - 1 == 9 && k == 9 * core) || (nn == pow10(l) - 1 && k == core),
    ;
    let n = abs_nat(q.num) as int;
    let d = q.den;
    assert(mag.den > 0) by (nonlinear_arith)
        requires
            mag.den == scale * (nn * scale),
            scale >= 1,
            nn >= 1,
    ;
    assert(core >= 0) by (nonlinear_arith)
        requires
            core == (whole * scale + once) * nn + rep,
            whole >= 0,
            scale >= 1,
            once >= 0,
            nn >= 1,
            rep >= 0,
    ;
    assert(mag.num >= 0) by (nonlinear_arith)
        requires
            mag.num == scale * core,
            scale >= 1,
            core >= 0,
    ;
    assert(n * mag.den == mag.num * d) by (nonlinear_arith)
        requires
            q.num * mag.den == mag.num * d || q.num * mag.den == (-mag.num) * d,
            mag.den > 0,
            mag.num >= 0,
            d > 0,
            n == if q.num < 0 {
                -q.num
            } else {
                q.num
            },
    ;
    assert((n * big_w) * mag.den == (k * d) * mag.den) by (nonlinear_arith)
        requires
            n * mag.den == mag.num * d,
            mag.num * big_w == mag.den * k,
    ;
    assert(n * big_w == k * d) by (nonlinear_arith)
        requires
            (n * big_w) * mag.den == (k * d) * mag.den,
            mag.den > 0,
    ;
    lemma_mod_multiples_basic(k, d);
    lemma_mul_mod_noop_left(n, big_w, d);
    let x0 = (n % d) as nat;
    assert(x0 * pow10(m) * (pow10(l) - 1) == x0 * big_w) by (nonlinear_arith)
        requires
            big_w == scale * (pow10(l) - 1),
            scale == pow10(m),
    ;
    assert(x0 < d) by (nonlinear_arith)
        requires
            x0 == n % d,
            d > 0,
            n >= 0,
    ;
    lemma_repeat_from_divisibility(x0, d as nat, m, l);
}

/// The fraction that a decimal denotes has a positive denominator.
pub proof fn lemma_value_denominator(v: DecimalView)
    ensures
        v.value().den > 0,
        v.magnitude().den > 0,
{
    let m = v.frac_once.len();
    let scale = pow10(m) as int;
    let nn = v.nines() as int;
    lemma_pow10_positive(m);
    lemma_pow10_positive(v.frac_rep.len());
    crate::digits::lemma_pow10_step(0);
    if v.frac_rep.len() > 0 {
        crate::digits::lemma_pow10_step((v.frac_rep.len() - 1) as nat);
        lemma_pow10_positive((v.frac_rep.len() - 1) as nat);
    }
    let mag = v.magnitude();
    assert(mag.den > 0) by (nonlinear_arith)
        requires
            mag.den == (1 * scale) * (nn * scale),
            scale >= 1,
            nn >= 1,
    ;
}

impl DecimalView {
    /// The number of characters of the text without the sign, counting a
    /// decimal point and leaving out the brackets of the repeating block.
    pub open spec fn len(self) -> nat {
        self.int_part.len() + 1 + self.frac_once.len() + self.frac_rep.len()
    }

    /// The `j`-th digit after the decimal point, the repeating block being
    /// repeated for ever and a terminating decimal being followed by zeros.
    pub open spec fn frac_digit(self, j: nat) -> u8 {
        if j < self.frac_once.len() {
            self.frac_once[j as int]
        } else if self.frac_rep.len() > 0 {
            self.frac_rep[((j - self.frac_once.len()) % (self.frac_rep.len() as int)) as int]
        } else {
            0
        }
    }

    /// The `i`-th element of the endless sequence that the decimal shows:
    /// the digits of the integer part, the decimal point (as the byte `.`),
    /// then the digits after it.
    pub open spec fn stream(self, i: nat) -> u8 {
        if i < self.int_part.len() {
            self.int_part[i as int]
        } else if i == self.int_part.len() {
            46
        } else {
            self.frac_digit((i - self.int_part.len() - 1) as nat)
        }
    }
}

/// The first index from `from` on and below `bound` at which the two
/// decimals show different elements.
pub open spec fn first_difference(a: DecimalView, b: DecimalView, from: nat, bound: nat) -> Option<
    nat,
>
    decreases bound - from,
{
    if from >= bound {
        None
    } else if a.stream(from) != b.stream(from) {
        Some(from)
    } else {
        first_difference(a, b, from + 1, bound)
    }
}

/// How many elements two decimals are compared on: twice the longer
/// length.
pub open spec fn lcp_bound(a: DecimalView, b: DecimalView) -> nat {
    if a.len() >= b.len() {
        2 * a.len()
    } else {
        2 * b.len()
    }
}

/// The length of the longest common prefix of two decimals as they are
/// shown; `None` where no difference shows.
///
/// Decimals of different sign have nothing in common, and neither have
/// decimals whose integer parts differ in length. A minus sign that both
/// share counts as one common character.
pub open spec fn lcp_spec(a: DecimalView, b: DecimalView) -> Option<nat> {
    if a.sign != b.sign {
        Some(0)
    } else {
        let shared: nat = if a.sign is Minus {
            1
        } else {
            0
        };
        if a.int_part.len() != b.int_part.len() {
            Some(shared)
        } else {
            match first_difference(a, b, 0, lcp_bound(a, b)) {
                Some(i) => Some(i + shared),
                None => None,
            }
        }
    }
}

pub proof fn lemma_first_difference_symmetric(a: DecimalView, b: DecimalView, from: nat, bound: nat)
    ensures
        first_difference(a, b, from, bound) == first_difference(b, a, from, bound),
    decreases bound - from,
{
    if from < bound && a.stream(from) == b.stream(from) {
        lemma_first_difference_symmetric(a, b, from + 1, bound);
    }
}

pub proof fn lemma_first_difference_self(a: DecimalView, from: nat, bound: nat)
    ensures
        first_difference(a, a, from, bound) is None,
    decreases bound - from,
{
    if from < bound {
        lemma_first_difference_self(a, from + 1, bound);
    }
}

/// Where two decimals show the same up to `i` and differ there, `i` is
/// their first difference.
pub proof fn lemma_first_difference_at(a: DecimalView, b: DecimalView, from: nat, i: nat, bound: nat)
    requires
        from <= i < bound,
        forall|j: nat| from <= j < i ==> a.stream(j) == b.stream(j),
        a.stream(i) != b.stream(i),
    ensures
        first_difference(a, b, from, bound) == Some(i),
    decreases i - from,
{
    if from < i {
        lemma_first_difference_at(a, b, from + 1, i, bound);
    }
}

/// The length of the common prefix does not depend on the order of the
/// two decimals.
pub proof fn lemma_lcp_symmetric(a: DecimalView, b: DecimalView)
    ensures
        lcp_spec(a, b) == lcp_spec(b, a),
{
    lemma_first_difference_symmetric(a, b, 0, lcp_bound(a, b));
    assert(lcp_bound(a, b) == lcp_bound(b, a));
}

/// A decimal shows no difference from itself.
pub proof fn lemma_lcp_self(a: DecimalView)
    ensures
        lcp_spec(a, a) is None,
{
    lemma_first_difference_self(a, 0, lcp_bound(a, a));
}

/// The byte is an ASCII digit.
pub open spec fn is_digit_byte(b: u8) -> bool {
    48 <= b <= 57
}

/// Where the longest run of ASCII digits that starts at `i` ends.
pub open spec fn digit_run_end(s: Seq<u8>, i: int) -> int
    decreases s.len() - i,
{
    if 0 <= i < s.len() && is_digit_byte(s[i]) {
        digit_run_end(s, i + 1)
    } else {
        i
    }
}

/// Where the longest run of dots that starts at `i` ends.
pub open spec fn dot_run_end(s: Seq<u8>, i: int) -> int
    decreases s.len() - i,
{
    if 0 <= i < s.len() && s[i] == 46 {
        dot_run_end(s, i + 1)
    } else {
        i
    }
}

/// The digits that the ASCII digits of `s` between `from` and `to` show.
pub open spec fn digit_values(s: Seq<u8>, from: int, to: int) -> Seq<u8> {
    Seq::new((to - from) as nat, |i: int| (s[from + i] - 48) as u8)
}

/// What the text of a decimal says, before normalization.
pub struct DecimalText {
    pub negative: bool,
    pub int_part: Seq<u8>,
    pub frac_once: Seq<u8>,
    pub frac_rep: Seq<u8>,
}

impl DecimalText {
    pub open spec fn view(self) -> DecimalView {
        DecimalView {
            sign: if self.negative {
                Sign::Minus
            } else {
                Sign::Plus
            },
            int_part: self.int_part,
            frac_once: self.frac_once,
            frac_rep: self.frac_rep,
        }
    }
}

/// Reads the text of a decimal,
///
/// ```text
/// decimal := sign? digits ('.' digits? group?)?
/// group   := '(' digits '.'* ')'
/// sign    := '+' | '-'
/// digits  := [0-9]+
/// ```
///
/// and gives `None` for any other text.
pub open spec fn scan_decimal(s: Seq<u8>) -> Option<DecimalText> {
    let i1: int = if s.len() > 0 && (s[0] == 43 || s[0] == 45) {
        1
    } else {
        0
    };
    let negative = i1 == 1 && s[0] == 45;
    let i3 = digit_run_end(s, i1);
    let int_part = digit_values(s, i1, i3);
    if i3 == i1 {
        None
    } else if i3 == s.len() {
        Some(DecimalText { negative, int_part, frac_once: Seq::empty(), frac_rep: Seq::empty() })
    } else if s[i3] != 46 {
        None
    } else {
        let i4 = i3 + 1;
        let i5 = digit_run_end(s, i4);
        let frac_once = digit_values(s, i4, i5);
        if i5 == s.len() {
            Some(DecimalText { negative, int_part, frac_once, frac_rep: Seq::empty() })
        } else if s[i5] != 40 {
            None
        } else {
            let i6 = i5 + 1;
            let i7 = digit_run_end(s, i6);
            let i8 = dot_run_end(s, i7);
            if i7 > i6 && i8 + 1 == s.len() && s[i8] == 41 {
                Some(DecimalText { negative, int_part, frac_once, frac_rep: digit_values(s, i6, i7) })
            } else {
                None
            }
        }
    }
}

pub proof fn lemma_digit_run_end(s: Seq<u8>, i: int)
    requires
        0 <= i <= s.len(),
    ensures
        i <= digit_run_end(s, i) <= s.len(),
        forall|j: int| i <= j < digit_run_end(s, i) ==> is_digit_byte(s[j]),
        digit_run_end(s, i) < s.len() ==> !is_digit_byte(s[digit_run_end(s, i)]),
    decreases s.len() - i,
{
    if i < s.len() && is_digit_byte(s[i]) {
        lemma_digit_run_end(s, i + 1);
    }
}

/// Why the text of a decimal was not accepted.
#[derive(Debug, PartialEq, Eq)]
pub enum DecimalTupleParseError {
    /// The text does not have the form of a decimal.
    MatchFailed,
    /// The integer part was not taken for a natural number. No text gives
    /// this: the integer part of a decimal is made of digits.
    BigIntError(ParseBigIntError),
}

#[verifier::external_type_specification]
#[verifier::external_body]
pub struct ExParseBigIntError(ParseBigIntError);

/// Every character is an ASCII digit.
pub open spec fn is_digit_text(t: Seq<char>) -> bool {
    forall|i: int| 0 <= i < t.len() ==> '0' <= #[trigger] t[i] <= '9'
}

/// The digits that a text of ASCII digits shows.
pub open spec fn text_digits(t: Seq<char>) -> Seq<u8> {
    Seq::new(t.len(), |i: int| ((t[i] as u8) - 48) as u8)
}

/// Reads a natural number.
///
/// Trusted: `FromStr` for `BigUint`, with `BigUint::to_radix_be` as the
/// conversion of the result. Of a text of one or more ASCII digits it
/// gives the number they show, written without leading zeros.
#[verifier::external_body]
fn natural_from_text(text: &str) -> (r: Result<Vec<u8>, ParseBigIntError>)
    requires
        text@.len() >= 1,
        is_digit_text(text@),
    ensures
        r is Ok,
        r matches Ok(v) ==> is_canonical(v@) && digits_value(v@) == digits_value(
            text_digits(text@),
        ),
{
    text.parse::<BigUint>().map(|n| n.to_radix_be(10))
}

/// Tuple representing a decimal number with a repeating block.
#[derive(Clone, Debug, PartialEq, Eq)]
pub struct DecimalTuple {
    pub sign: Sign,
    /// Decimal digits of the integer part, without leading zeros.
    pub int_part: Vec<u8>,
    /// The digits after the decimal point that do not repeat.
    pub frac_once: Vec<u8>,
    /// The repeating block; empty for a terminating decimal.
    pub frac_rep: Vec<u8>,
}

impl View for DecimalTuple {
    type V = DecimalView;

    open spec fn view(&self) -> DecimalView {
        DecimalView {
            sign: self.sign,
            int_part: self.int_part@,
            frac_once: self.frac_once@,
            frac_rep: self.frac_rep@,
        }
    }
}

impl Default for DecimalTuple {
    fn default() -> (r: Self)
        ensures
            r@ == DecimalView::zero(),
            r@.wf(),
    {
        Self::zero()
    }
}

impl DecimalTuple {
    /// The canonical form of zero.
    pub fn zero() -> (r: Self)
        ensures
            r@ == DecimalView::zero(),
            r@.is_digits(),
            r@.wf(),
    {
        proof {
            crate::canonical::lemma_zero_wf();
        }
        let mut whole: Vec<u8> = Vec::new();
        whole.push(0);
        proof {
            assert(whole@ =~= seq![0u8]);
        }
        DecimalTuple {
            sign: Sign::NoSign,
            int_part: whole,
            frac_once: Vec::new(),
            frac_rep: Vec::new(),
        }
    }

    /// The rational number
    /// `± (int + frac_once / 10^m + frac_rep / ((10^l - 1) 10^m))`, where
    /// `m` and `l` count the digits of `frac_once` and `frac_rep`.
    pub fn to_rational(
        sign: Sign,
        int_part: &Vec<u8>,
        frac_once: &Vec<u8>,
        frac_rep: &Vec<u8>,
    ) -> (r: Rational)
        requires
            is_digits(int_part@),
            is_digits(frac_once@),
            is_digits(frac_rep@),
        ensures
            r.wf(),
            r@.eqv(
                DecimalView {
                    sign,
                    int_part: int_part@,
                    frac_once: frac_once@,
                    frac_rep: frac_rep@,
                }.value(),
            ),
    {
        let ghost v = DecimalView {
            sign,
            int_part: int_part@,
            frac_once: frac_once@,
            frac_rep: frac_rep@,
        };
        let scale = power_of_ten_digits(frac_once.len());
        let mut rep_den = nines_digits(frac_rep.len());
        append_zeros(&mut rep_den, frac_once.len());
        proof {
            lemma_pow10_positive(frac_once@.len());
            lemma_pow10_positive(frac_rep@.len());
            crate::digits::lemma_pow10_step(0);
            if frac_rep@.len() > 0 {
                crate::digits::lemma_pow10_step((frac_rep@.len() - 1) as nat);
                lemma_pow10_positive((frac_rep@.len() - 1) as nat);
            }
            let nn = v.nines() as int;
            let sc = pow10(frac_once@.len()) as int;
            assert(nn * sc > 0) by (nonlinear_arith)
                requires
                    nn >= 1,
                    sc >= 1,
            ;
        }
        let whole = Rational::from_integer(Sign::Plus, int_part);
        let once = Rational::new(Sign::Plus, frac_once, &scale);
        let rep = Rational::new(Sign::Plus, frac_rep, &rep_den);
        let sum1 = whole.add(&once);
        let sum2 = sum1.add(&rep);
        proof {
            let f1 = Frac::integer(digits_value(int_part@) as int);
            let f2 = Frac {
                num: digits_value(frac_once@) as int,
                den: pow10(frac_once@.len()) as int,
            };
            let f3 = Frac {
                num: digits_value(frac_rep@) as int,
                den: (v.nines() * pow10(frac_once@.len())) as int,
            };
            assert(whole@ == f1);
            assert(once@.eqv(f2));
            assert(rep@.eqv(f3));
            lemma_plus_congruent(whole@, f1, once@, f2);
            let mid1 = whole@.plus(once@);
            assert(mid1.den != 0) by (nonlinear_arith)
                requires
                    mid1.den == whole@.den * once@.den,
                    whole@.den >= 1,
                    once@.den >= 1,
            ;
            lemma_eqv_transitive(sum1@, mid1, f1.plus(f2));
            lemma_plus_congruent(sum1@, f1.plus(f2), rep@, f3);
            let mid2 = sum1@.plus(rep@);
            assert(mid2.den != 0) by (nonlinear_arith)
                requires
                    mid2.den == sum1@.den * rep@.den,
                    sum1@.den >= 1,
                    rep@.den >= 1,
            ;
            lemma_eqv_transitive(sum2@, mid2, f1.plus(f2).plus(f3));
            assert(v.magnitude() == f1.plus(f2).plus(f3));
            lemma_negated_congruent(sum2@, v.magnitude());
        }
        match sign {
            Sign::Minus => sum2.neg(),
            _ => sum2,
        }
    }

    /// The canonical decimal of the number that the given parts denote.
    pub fn new(sign: Sign, int_part: Vec<u8>, frac_once: Vec<u8>, frac_rep: Vec<u8>) -> (r: Self)
        requires
            is_digits(int_part@),
            is_digits(frac_once@),
            is_digits(frac_rep@),
        ensures
            r@ == decimal_of(
                DecimalView {
                    sign,
                    int_part: int_part@,
                    frac_once: frac_once@,
                    frac_rep: frac_rep@,
                }.value(),
            ),
            r@.is_digits(),
            r@.wf(),
    {
        let ghost v = DecimalView {
            sign,
            int_part: int_part@,
            frac_once: frac_once@,
            frac_rep: frac_rep@,
        };
        let rat = Self::to_rational(sign, &int_part, &frac_once, &frac_rep);
        let once_len = frac_once.len();
        let rep_len = frac_rep.len();
        proof {
            lemma_value_repeats(v, rat@);
            lemma_value_denominator(v);
            let m: nat = frac_once@.len();
            let l: nat = if frac_rep@.len() == 0 {
                1
            } else {
                frac_rep@.len()
            };
            assert(is_repeat::<Remainder>(division_start(rat@), m, l));
            assert(m <= usize::MAX && l <= usize::MAX);
            lemma_decimal_of_eqv(rat@, v.value());
        }
        Self::from_rational(&rat)
    }

    /// Where the long division of the fractional part starts.
    fn division_start(rat: &Rational) -> (r: Remainder)
        requires
            rat.wf(),
        ensures
            r.inv(),
            r.state() == division_start(rat@),
    {
        let ghost a = digits_value(rat.numer@);
        let ghost den = digits_value(rat.denom@);
        let (_, first) = nat_div_rem(&rat.numer, &rat.denom);
        proof {
            assert(a % den < den) by (nonlinear_arith)
                requires
                    den > 0,
            ;
            assert(a == abs_nat(rat@.num));
        }
        Remainder { value: first, modulus: copy_digits(&rat.denom) }
    }

    /// The decimal of a number other than zero, given where its remainders
    /// first repeat.
    fn expansion(rat: &Rational, mu: usize, lambda: usize) -> (r: Self)
        requires
            rat.wf(),
            rat@.num != 0,
            is_least_repeat::<Remainder>(division_start(rat@), mu as nat, lambda as nat),
        ensures
            r@ == decimal_of(rat@),
            r@.is_digits(),
            r@.wf(),
    {
        let ghost a = digits_value(rat.numer@);
        let ghost den = digits_value(rat.denom@);
        let ghost x0 = a % den;
        let ghost s0 = (x0, den);
        proof {
            assert(is_repeat::<Remainder>(division_start(rat@), mu as nat, lambda as nat));
            crate::canonical::lemma_decimal_of_wf(rat@);
        }
        let (whole, _) = nat_div_rem(&rat.numer, &rat.denom);
        let mut x = Self::division_start(rat);
        proof {
            lemma_nat_digits(a / den);
            lemma_canonical_unique(whole@, nat_digits(a / den));
            assert(a == abs_nat(rat@.num));
            assert(division_start(rat@) == s0);
            lemma_least_repeat_unique(x0, den, mu as nat, lambda as nat);
        }
        let mut frac_once: Vec<u8> = Vec::new();
        let mut i: usize = 0;
        while i < mu
            invariant
                i <= mu,
                x.inv(),
                x.state() == iterate::<Remainder>(s0, i as nat),
                s0 == (x0, den),
                frac_once@ == Seq::new(i as nat, |j: int| expansion_digit(x0, den, j as nat)),
                is_digits(frac_once@),
            decreases mu - i,
        {
            let (d, next) = x.divide();
            proof {
                lemma_remainder_modulus(x0, den, i as nat);
                assert(frac_once@.push(d) =~= Seq::new(
                    (i + 1) as nat,
                    |j: int| expansion_digit(x0, den, j as nat),
                ));
            }
            frac_once.push(d);
            x = next;
            i += 1;
        }
        let mut frac_rep: Vec<u8> = Vec::new();
        let mut k: usize = 0;
        while k < lambda
            invariant
                k <= lambda,
                x.inv(),
                x.state() == iterate::<Remainder>(s0, (mu + k) as nat),
                s0 == (x0, den),
                frac_rep@ == Seq::new(
                    k as nat,
                    |j: int| expansion_digit(x0, den, (mu + j) as nat),
                ),
                is_digits(frac_rep@),
            decreases lambda - k,
        {
            let (d, next) = x.divide();
            proof {
                lemma_remainder_modulus(x0, den, (mu + k) as nat);
                assert(frac_rep@.push(d) =~= Seq::new(
                    (k + 1) as nat,
                    |j: int| expansion_digit(x0, den, (mu + j) as nat),
                ));
            }
            frac_rep.push(d);
            x = next;
            k += 1;
        }
        if frac_rep.len() == 1 && frac_rep[0] == 0 {
            proof {
                assert(frac_rep@ =~= seq![0u8]);
            }
            frac_rep = Vec::new();
        } else {
            proof {
                if frac_rep@ == seq![0u8] {
                    assert(frac_rep@.len() == 1 && frac_rep@[0] == 0u8);
                }
            }
        }
        let sign = if rat.is_negative() {
            Sign::Minus
        } else {
            Sign::Plus
        };
        let r = DecimalTuple { sign, int_part: whole, frac_once, frac_rep };
        proof {
            let want = decimal_of(rat@);
            assert(r@.int_part == want.int_part);
            assert(r@.frac_once == want.frac_once);
            assert(r@.frac_rep == want.frac_rep);
            assert(r@.sign == want.sign);
        }
        r
    }

    /// The canonical decimal of a rational number whose remainders repeat
    /// within what `usize` can count.
    pub fn from_rational(rat: &Rational) -> (r: Self)
        requires
            rat.wf(),
            has_expansion(rat@),
        ensures
            r@ == decimal_of(rat@),
            r@.is_digits(),
            r@.wf(),
    {
        if rat.is_zero() {
            return Self::zero();
        }
        let start = Self::division_start(rat);
        proof {
            let (m, l) = choose|m: nat, l: nat|
                l >= 1 && m <= usize::MAX && l <= usize::MAX && #[trigger] is_repeat::<Remainder>(
                    division_start(rat@),
                    m,
                    l,
                );
            assert(is_repeat::<Remainder>(start.state(), m, l));
        }
        let (mu, lambda) = orbit_mu_lambda(start);
        Self::expansion(rat, mu, lambda)
    }

    /// The canonical decimal of a rational number, or `None` where the
    /// search for the repeating block would run beyond what `usize` can
    /// count.
    pub fn try_from_rational(rat: &Rational) -> (r: Option<Self>)
        requires
            rat.wf(),
        ensures
            r is Some <==> can_expand(rat@),
            r matches Some(d) ==> d@ == decimal_of(rat@) && d@.is_digits() && d@.wf(),
    {
        if rat.is_zero() {
            return Some(Self::zero());
        }
        let start = Self::division_start(rat);
        match try_orbit_mu_lambda(start) {
            None => None,
            Some((mu, lambda)) => Some(Self::expansion(rat, mu, lambda)),
        }
    }

    /// The element of the shown sequence at `i`; see [`DecimalView::stream`].
    fn stream_at(&self, i: usize) -> (r: u8)
        ensures
            r == self@.stream(i as nat),
    {
        let k = self.int_part.len();
        if i < k {
            self.int_part[i]
        } else if i == k {
            46
        } else {
            let j = i - k - 1;
            let m = self.frac_once.len();
            if j < m {
                self.frac_once[j]
            } else {
                let l = self.frac_rep.len();
                if l > 0 {
                    self.frac_rep[(j - m) % l]
                } else {
                    0
                }
            }
        }
    }

    /// The length of the longest common prefix of the decimal
    /// representation.
    ///
    /// In other words, the correct length of decimal representation (the
    /// decimal point is also counted). If no difference shows, returns
    /// `None`.
    ///
    /// For example, `(0.9999, 1.0000)` and `(1.0, -1.0)` have 0 common
    /// digits, and so have `(10.0, 1.0)`; `(-1.2, -3.4)` have the minus
    /// sign in common.
    pub fn lcp_len(&self, other: &DecimalTuple) -> (r: Option<usize>)
        requires
            2 * self@.len() <= usize::MAX,
            2 * other@.len() <= usize::MAX,
        ensures
            match r {
                Some(n) => lcp_spec(self@, other@) == Some(n as nat),
                None => lcp_spec(self@, other@) is None,
            },
    {
        if self.sign != other.sign {
            return Some(0);
        }
        let shared: usize = match self.sign {
            Sign::Minus => 1,
            _ => 0,
        };
        if self.int_part.len() != other.int_part.len() {
            return Some(shared);
        }
        match self.int_part.iter_diff_index(&other.int_part) {
            Some(i) => {
                proof {
                    lemma_first_difference_at(self@, other@, 0, i as nat, lcp_bound(self@, other@));
                }
                return Some(i + shared);
            },
            None => {},
        }
        let len_l = self.int_part.len() + 1 + self.frac_once.len() + self.frac_rep.len();
        let len_r = other.int_part.len() + 1 + other.frac_once.len() + other.frac_rep.len();
        let bound = if len_l >= len_r {
            2 * len_l
        } else {
            2 * len_r
        };
        let mut i: usize = 0;
        while i < bound
            invariant
                i <= bound,
                bound == lcp_bound(self@, other@),
                self@.sign == other@.sign,
                self@.int_part.len() == other@.int_part.len(),
                shared == (if self@.sign is Minus {
                    1usize
                } else {
                    0usize
                }),
                first_difference(self@, other@, 0, bound as nat) == first_difference(
                    self@,
                    other@,
                    i as nat,
                    bound as nat,
                ),
            decreases bound - i,
        {
            if self.stream_at(i) != other.stream_at(i) {
                return Some(i + shared);
            }
            i += 1;
        }
        None
    }

    /// Reads a decimal such as `-12.5`, `0.(3)` or `1.2(34...)` and brings
    /// it into canonical form; see [`scan_decimal`] for the grammar.
    ///
    /// Text that is no decimal gives `MatchFailed`.
    pub fn parse(s: &str) -> (r: Result<DecimalTuple, DecimalTupleParseError>)
        ensures
            match scan_decimal(s.spec_bytes()) {
                None => r matches Err(DecimalTupleParseError::MatchFailed),
                Some(t) => r matches Ok(d) && d@ == decimal_of(t.view().value()) && d@.wf(),
            },
    {
        match Self::read_parts(s) {
            Err(e) => Err(e),
            Ok(parts) => Ok(Self::new(parts.sign, parts.int_part, parts.frac_once, parts.frac_rep)),
        }
    }

    /// Reads the parts of a decimal as they are written, the integer part
    /// without its leading zeros; see [`scan_decimal`] for the grammar.
    pub fn read_parts(s: &str) -> (r: Result<DecimalTuple, DecimalTupleParseError>)
        ensures
            match scan_decimal(s.spec_bytes()) {
                None => r matches Err(DecimalTupleParseError::MatchFailed),
                Some(t) => {
                    &&& r matches Ok(d)
                    &&& d@.is_digits()
                    &&& is_canonical(d@.int_part)
                    &&& d@.value() == t.view().value()
                    &&& d@.sign == t.view().sign
                    &&& d@.frac_once == t.frac_once
                    &&& d@.frac_rep == t.frac_rep
                },
            },
    {
        let b = s.as_bytes();
        let ghost bs = b@;
        let n = b.len();
        let mut i: usize = 0;
        let mut negative = false;
        if n > 0 && (b[0] == 43 || b[0] == 45) {
            negative = b[0] == 45;
            i = 1;
        }
        let i2 = i;
        let mut text = String::new();
        while i < n && 48 <= b[i] && b[i] <= 57
            invariant
                i2 <= i <= n,
                n == bs.len(),
                bs == b@,
                digit_run_end(bs, i2 as int) == digit_run_end(bs, i as int),
                forall|j: int| i2 <= j < i ==> is_digit_byte(bs[j]),
                text@ == Seq::new((i - i2) as nat, |k: int| bs[i2 + k] as char),
            decreases n - i,
        {
            text.push(b[i] as char);
            i += 1;
            proof {
                assert(text@ =~= Seq::new((i - i2) as nat, |k: int| bs[i2 + k] as char));
            }
        }
        let i3 = i;
        if i3 == i2 {
            return Err(DecimalTupleParseError::MatchFailed);
        }
        let mut frac_once: Vec<u8> = Vec::new();
        let mut frac_rep: Vec<u8> = Vec::new();
        if i < n {
            if b[i] != 46 {
                return Err(DecimalTupleParseError::MatchFailed);
            }
            i += 1;
            let i4 = i;
            while i < n && 48 <= b[i] && b[i] <= 57
                invariant
                    i4 <= i <= n,
                    n == bs.len(),
                    bs == b@,
                    digit_run_end(bs, i4 as int) == digit_run_end(bs, i as int),
                    frac_once@ == digit_values(bs, i4 as int, i as int),
                    is_digits(frac_once@),
                decreases n - i,
            {
                frac_once.push(b[i] - 48);
                i += 1;
                proof {
                    assert(frac_once@ =~= digit_values(bs, i4 as int, i as int));
                }
            }
            if i < n {
                if b[i] != 40 {
                    return Err(DecimalTupleParseError::MatchFailed);
                }
                i += 1;
                let i6 = i;
                while i < n && 48 <= b[i] && b[i] <= 57
                    invariant
                        i6 <= i <= n,
                        n == bs.len(),
                        bs == b@,
                        digit_run_end(bs, i6 as int) == digit_run_end(bs, i as int),
                        frac_rep@ == digit_values(bs, i6 as int, i as int),
                        is_digits(frac_rep@),
                    decreases n - i,
                {
                    frac_rep.push(b[i] - 48);
                    i += 1;
                    proof {
                        assert(frac_rep@ =~= digit_values(bs, i6 as int, i as int));
                    }
                }
                let i7 = i;
                while i < n && b[i] == 46
                    invariant
                        i7 <= i <= n,
                        n == bs.len(),
                        bs == b@,
                        dot_run_end(bs, i7 as int) == dot_run_end(bs, i as int),
                    decreases n - i,
                {
                    i += 1;
                }
                if !(i7 > i6 && i < n && i + 1 == n && b[i] == 41) {
                    return Err(DecimalTupleParseError::MatchFailed);
                }
            }
        }
        proof {
            assert(is_digit_text(text@));
            assert(text_digits(text@) =~= digit_values(bs, i2 as int, i3 as int));
        }
        match natural_from_text(text.as_str()) {
            Err(e) => Err(DecimalTupleParseError::BigIntError(e)),
            Ok(whole) => {
                let sign = if negative {
                    Sign::Minus
                } else {
                    Sign::Plus
                };
                let ghost t = scan_decimal(bs)->0;
                let ghost v = DecimalView {
                    sign,
                    int_part: whole@,
                    frac_once: frac_once@,
                    frac_rep: frac_rep@,
                };
                proof {
                    assert(v.magnitude() == t.view().magnitude());
                    assert(v.value() == t.view().value());
                }
                Ok(DecimalTuple { sign, int_part: whole, frac_once, frac_rep })
            },
        }
    }

    pub fn is_integer(&self) -> (r: bool)
        ensures
            r == (self@.frac_once.len() == 0 && self@.frac_rep.len() == 0),
    {
        self.frac_once.len() == 0 && self.frac_rep.len() == 0
    }

    pub fn is_repetitive(&self) -> (r: bool)
        ensures
            r == (self@.frac_rep.len() > 0),
    {
        self.frac_rep.len() > 0
    }

    /// The canonical string `[-]int[.frac_once[(frac_rep...)]]`.
    pub fn to_string(&self) -> (r: String)
        requires
            self@.is_digits(),
        ensures
            r@ == self@.text(),
    {
        let mut out = String::new();
        match self.sign {
            Sign::Minus => {
                out.push('-');
            },
            _ => {},
        }
        push_digits(&mut out, &self.int_part);
        if self.frac_once.len() > 0 || self.frac_rep.len() > 0 {
            out.push('.');
            push_digits(&mut out, &self.frac_once);
            if self.frac_rep.len() > 0 {
                out.push('(');
                push_digits(&mut out, &self.frac_rep);
                out.push('.');
                out.push('.');
                out.push('.');
                out.push(')');
            }
        }
        proof {
            assert(out@ =~= self@.text());
        }
        out
    }
}

impl std::str::FromStr for DecimalTuple {
    type Err = DecimalTupleParseError;

    fn from_str(s: &str) -> (r: Result<Self, Self::Err>)
        ensures
            match scan_decimal(s.spec_bytes()) {
                None => r matches Err(DecimalTupleParseError::MatchFailed),
                Some(t) => r matches Ok(d) && d@ == decimal_of(t.view().value()) && d@.wf(),
            },
    {
        DecimalTuple::parse(s)
    }
}

} // verus!
