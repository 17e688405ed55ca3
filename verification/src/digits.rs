//! Natural numbers as decimal digit strings, most significant digit first.
//!
//! Arbitrary-precision arithmetic is done by `num_bigint`; what this module
//! adds is the meaning of a digit string and the facts about it that the
//! rest of the crate relies on.

use num::Integer;
use num_bigint::BigUint;
use vstd::arithmetic::power::{lemma_pow0, lemma_pow_adds, lemma_pow_positive, pow};
use vstd::prelude::*;

verus! {

/// Every element is a decimal digit.
pub open spec fn is_digits(s: Seq<u8>) -> bool {
    forall|i: int| 0 <= i < s.len() ==> s[i] <= 9
}

/// The number a digit string denotes; the empty string denotes zero.
pub open spec fn digits_value(s: Seq<u8>) -> nat
    decreases s.len(),
{
    if s.len() == 0 {
        0
    } else {
        digits_value(s.drop_last()) * 10 + s.last() as nat
    }
}

/// A digit string without superfluous leading zeros: the way a number is
/// written. Zero is written `0`.
pub open spec fn is_canonical(s: Seq<u8>) -> bool {
    &&& is_digits(s)
    &&& s.len() >= 1
    &&& (s.len() > 1 ==> s[0] != 0)
}

/// `10^n`.
pub open spec fn pow10(n: nat) -> nat {
    pow(10, n) as nat
}

pub proof fn lemma_pow10_positive(n: nat)
    ensures
        pow10(n) >= 1,
        pow(10, n) == pow10(n),
{
    lemma_pow_positive(10, n);
}

pub proof fn lemma_pow10_step(n: nat)
    ensures
        pow10(n + 1) == pow10(n) * 10,
        pow10(0) == 1,
{
    lemma_pow10_positive(n);
    lemma_pow10_positive(n + 1);
    reveal(pow);
    lemma_pow0(10);
    assert(pow(10, n + 1) == 10 * pow(10, n));
}

pub proof fn lemma_pow10_adds(a: nat, b: nat)
    ensures
        pow10(a + b) == pow10(a) * pow10(b),
{
    lemma_pow10_positive(a);
    lemma_pow10_positive(b);
    lemma_pow10_positive(a + b);
    lemma_pow_adds(10, a, b);
}

pub proof fn lemma_value_push(s: Seq<u8>, d: u8)
    ensures
        digits_value(s.push(d)) == digits_value(s) * 10 + d,
{
    assert(s.push(d).drop_last() =~= s);
}

pub proof fn lemma_value_single(d: u8)
    ensures
        digits_value(seq![d]) == d,
{
    let s = seq![d];
    assert(s.drop_last() =~= Seq::<u8>::empty());
    assert(digits_value(s.drop_last()) == 0);
    assert(s.last() == d);
}

/// Appending `b` to `a` shifts `a` by as many decimal places as `b` has.
pub proof fn lemma_value_concat(a: Seq<u8>, b: Seq<u8>)
    ensures
        digits_value(a + b) == digits_value(a) * pow10(b.len()) + digits_value(b),
    decreases b.len(),
{
    if b.len() == 0 {
        assert(a + b =~= a);
        lemma_pow10_step(0);
        assert(digits_value(a) * 1 == digits_value(a));
        assert(digits_value(b) == 0);
    } else {
        let b0 = b.drop_last();
        assert((a + b).drop_last() =~= a + b0);
        lemma_value_concat(a, b0);
        lemma_pow10_step(b0.len());
        let va = digits_value(a);
        let p = pow10(b0.len());
        assert(b.len() == b0.len() + 1);
        assert(pow10(b.len()) == p * 10);
        assert((a + b).last() == b.last());
        assert(va * p * 10 == va * (p * 10)) by (nonlinear_arith);
        assert((va * p + digits_value(b0)) * 10 == va * p * 10 + digits_value(b0) * 10);
        assert(digits_value(a + b) == digits_value(a + b0) * 10 + b.last());
        assert(digits_value(b) == digits_value(b0) * 10 + b.last());
        assert(digits_value(a + b) == va * (p * 10) + digits_value(b));
    }
}

/// A string of `n` digits denotes a number below `10^n`.
pub proof fn lemma_value_bound(s: Seq<u8>)
    requires
        is_digits(s),
    ensures
        digits_value(s) < pow10(s.len()),
    decreases s.len(),
{
    if s.len() == 0 {
        lemma_pow10_step(0);
    } else {
        lemma_value_bound(s.drop_last());
        lemma_pow10_step(s.drop_last().len());
    }
}

/// A canonical string with more than one digit denotes at least
/// `10^(n - 1)`; in particular it is not zero.
pub proof fn lemma_value_lower_bound(s: Seq<u8>)
    requires
        is_digits(s),
        s.len() >= 1,
        s[0] != 0,
    ensures
        digits_value(s) >= pow10((s.len() - 1) as nat),
    decreases s.len(),
{
    if s.len() == 1 {
        assert(s =~= seq![s[0]]);
        lemma_value_single(s[0]);
        lemma_pow10_step(0);
    } else {
        lemma_value_lower_bound(s.drop_last());
        lemma_pow10_step((s.len() - 2) as nat);
    }
}

/// Two canonical strings that denote the same number are the same string.
pub proof fn lemma_canonical_unique(a: Seq<u8>, b: Seq<u8>)
    requires
        is_canonical(a),
        is_canonical(b),
        digits_value(a) == digits_value(b),
    ensures
        a == b,
    decreases a.len() + b.len(),
{
    if a.len() == 1 && b.len() == 1 {
        assert(a =~= seq![a[0]]);
        assert(b =~= seq![b[0]]);
        lemma_value_single(a[0]);
        lemma_value_single(b[0]);
    } else if a.len() == 1 {
        assert(a =~= seq![a[0]]);
        lemma_value_single(a[0]);
        lemma_value_lower_bound(b);
        lemma_pow10_step((b.len() - 2) as nat);
        lemma_pow10_positive((b.len() - 2) as nat);
    } else if b.len() == 1 {
        assert(b =~= seq![b[0]]);
        lemma_value_single(b[0]);
        lemma_value_lower_bound(a);
        lemma_pow10_step((a.len() - 2) as nat);
        lemma_pow10_positive((a.len() - 2) as nat);
    } else {
        let a0 = a.drop_last();
        let b0 = b.drop_last();
        assert(digits_value(a0) == digits_value(b0) && a.last() == b.last());
        lemma_canonical_unique(a0, b0);
        assert(a =~= a0.push(a.last()));
        assert(b =~= b0.push(b.last()));
    }
}

/// Two digit strings of the same length that denote the same number are
/// the same string.
pub proof fn lemma_same_length_unique(a: Seq<u8>, b: Seq<u8>)
    requires
        is_digits(a),
        is_digits(b),
        a.len() == b.len(),
        digits_value(a) == digits_value(b),
    ensures
        a == b,
    decreases a.len(),
{
    if a.len() > 0 {
        let a0 = a.drop_last();
        let b0 = b.drop_last();
        assert(digits_value(a0) == digits_value(b0) && a.last() == b.last());
        lemma_same_length_unique(a0, b0);
        assert(a =~= a0.push(a.last()));
        assert(b =~= b0.push(b.last()));
    } else {
        assert(a =~= b);
    }
}

/// A digit string that denotes `10^n - 1` is made of nines.
pub proof fn lemma_value_all_nines(s: Seq<u8>)
    requires
        is_digits(s),
        digits_value(s) + 1 == pow10(s.len()),
    ensures
        forall|i: int| 0 <= i < s.len() ==> s[i] == 9,
    decreases s.len(),
{
    if s.len() > 0 {
        let s0 = s.drop_last();
        lemma_value_bound(s0);
        lemma_pow10_step(s0.len());
        assert(digits_value(s0) + 1 == pow10(s0.len()) && s.last() == 9);
        lemma_value_all_nines(s0);
        assert forall|i: int| 0 <= i < s.len() implies s[i] == 9 by {
            if i < s0.len() {
                assert(s[i] == s0[i]);
            }
        }
    }
}

/// Leading zeros do not change the number.
pub proof fn lemma_value_skip_zeros(s: Seq<u8>, k: int)
    requires
        0 <= k <= s.len(),
        forall|i: int| 0 <= i < k ==> s[i] == 0,
    ensures
        digits_value(s) == digits_value(s.subrange(k, s.len() as int)),
    decreases k,
{
    let zeros = s.subrange(0, k);
    let rest = s.subrange(k, s.len() as int);
    assert(s =~= zeros + rest);
    lemma_value_concat(zeros, rest);
    lemma_value_zeros(zeros);
    assert(0 * pow10(rest.len()) == 0) by (nonlinear_arith);
}

/// A string of zeros denotes zero.
pub proof fn lemma_value_zeros(s: Seq<u8>)
    requires
        forall|i: int| 0 <= i < s.len() ==> s[i] == 0,
    ensures
        digits_value(s) == 0,
    decreases s.len(),
{
    if s.len() > 0 {
        lemma_value_zeros(s.drop_last());
    }
}

/// The digit string of a number, with its leading zeros removed.
pub fn trim_leading_zeros(v: &Vec<u8>) -> (r: Vec<u8>)
    requires
        is_digits(v@),
    ensures
        is_canonical(r@),
        digits_value(r@) == digits_value(v@),
{
    let n = v.len();
    let mut k: usize = 0;
    while k < n && v[k] == 0
        invariant
            k <= n,
            n == v.len(),
            forall|i: int| 0 <= i < k ==> v[i] == 0,
        decreases n - k,
    {
        k += 1;
    }
    proof {
        lemma_value_skip_zeros(v@, k as int);
    }
    let mut r: Vec<u8> = Vec::new();
    if k == n {
        r.push(0);
        proof {
            assert(v@.subrange(k as int, n as int) =~= Seq::<u8>::empty());
            lemma_value_single(0);
        }
        return r;
    }
    let mut i: usize = k;
    while i < n
        invariant
            k <= i <= n,
            n == v.len(),
            r@ == v@.subrange(k as int, i as int),
        decreases n - i,
    {
        r.push(v[i]);
        i += 1;
        proof {
            assert(r@ =~= v@.subrange(k as int, i as int));
        }
    }
    r
}

/// The digits of `10^n`: a one followed by `n` zeros.
pub fn power_of_ten_digits(n: usize) -> (r: Vec<u8>)
    ensures
        is_canonical(r@),
        digits_value(r@) == pow10(n as nat),
{
    let mut r: Vec<u8> = Vec::new();
    r.push(1);
    proof {
        assert(r@ =~= seq![1u8]);
        lemma_value_single(1);
        lemma_pow10_step(0);
    }
    let mut i: usize = 0;
    while i < n
        invariant
            i <= n,
            is_canonical(r@),
            r@[0] == 1,
            digits_value(r@) == pow10(i as nat),
        decreases n - i,
    {
        proof {
            lemma_value_push(r@, 0);
            lemma_pow10_step(i as nat);
        }
        r.push(0);
        i += 1;
    }
    r
}

/// The digits of `10^n - 1`, which are `n` nines; for `n == 0` the digit
/// one.
pub fn nines_digits(n: usize) -> (r: Vec<u8>)
    ensures
        is_digits(r@),
        digits_value(r@) == if n == 0 {
            1
        } else {
            pow10(n as nat) - 1
        },
{
    let mut r: Vec<u8> = Vec::new();
    if n == 0 {
        r.push(1);
        proof {
            assert(r@ =~= seq![1u8]);
            lemma_value_single(1);
        }
        return r;
    }
    proof {
        lemma_pow10_step(0);
    }
    let mut i: usize = 0;
    while i < n
        invariant
            i <= n,
            is_digits(r@),
            digits_value(r@) == pow10(i as nat) - 1,
        decreases n - i,
    {
        proof {
            lemma_value_push(r@, 9);
            lemma_pow10_step(i as nat);
        }
        r.push(9);
        i += 1;
    }
    r
}

/// Appends `n` zeros: the number times `10^n`.
pub fn append_zeros(v: &mut Vec<u8>, n: usize)
    requires
        is_digits(old(v)@),
    ensures
        is_digits(final(v)@),
        digits_value(final(v)@) == digits_value(old(v)@) * pow10(n as nat),
        final(v)@.len() == old(v)@.len() + n,
{
    proof {
        lemma_pow10_step(0);
        assert(digits_value(v@) * 1 == digits_value(v@));
    }
    let mut i: usize = 0;
    while i < n
        invariant
            i <= n,
            is_digits(v@),
            digits_value(v@) == digits_value(old(v)@) * pow10(i as nat),
            v@.len() == old(v)@.len() + i,
        decreases n - i,
    {
        proof {
            lemma_value_push(v@, 0);
            lemma_pow10_step(i as nat);
            let a = digits_value(old(v)@) as int;
            let p = pow10(i as nat) as int;
            assert(a * p * 10 == a * (p * 10)) by (nonlinear_arith);
        }
        v.push(0);
        i += 1;
    }
}

/// Whether two digit strings are the same string.
pub fn same_digits(a: &Vec<u8>, b: &Vec<u8>) -> (r: bool)
    ensures
        r == (a@ == b@),
{
    if a.len() != b.len() {
        return false;
    }
    let mut i: usize = 0;
    while i < a.len()
        invariant
            i <= a.len(),
            a.len() == b.len(),
            forall|j: int| 0 <= j < i ==> a@[j] == b@[j],
        decreases a.len() - i,
    {
        if a[i] != b[i] {
            return false;
        }
        i += 1;
    }
    proof {
        assert(a@ =~= b@);
    }
    true
}

/// A copy of a digit string.
pub fn copy_digits(v: &Vec<u8>) -> (r: Vec<u8>)
    ensures
        r@ == v@,
{
    let mut r: Vec<u8> = Vec::new();
    let mut i: usize = 0;
    while i < v.len()
        invariant
            i <= v.len(),
            r@ == v@.subrange(0, i as int),
        decreases v.len() - i,
    {
        r.push(v[i]);
        i += 1;
        proof {
            assert(r@ =~= v@.subrange(0, i as int));
        }
    }
    proof {
        assert(v@.subrange(0, v.len() as int) =~= v@);
    }
    r
}

/// `k` is the number of times two divides `n`.
pub open spec fn is_two_adic_order(n: nat, k: nat) -> bool {
    &&& n % (pow(2, k) as nat) == 0
    &&& n % (pow(2, k + 1) as nat) != 0
}

/// Quotient and remainder of two natural numbers.
///
/// Trusted: `num::Integer::div_rem` on `BigUint`, with
/// `BigUint::from_radix_be` and `BigUint::to_radix_be` as the conversions.
/// The contract claims truncating division (the quotient times the divisor
/// plus the remainder is the dividend, the remainder below the divisor) and
/// that the results are written without leading zeros.
#[verifier::external_body]
pub(crate) fn nat_div_rem(a: &Vec<u8>, b: &Vec<u8>) -> (r: (Vec<u8>, Vec<u8>))
    requires
        is_digits(a@),
        is_digits(b@),
        digits_value(b@) > 0,
    ensures
        is_canonical(r.0@),
        is_canonical(r.1@),
        digits_value(r.0@) == digits_value(a@) / digits_value(b@),
        digits_value(r.1@) == digits_value(a@) % digits_value(b@),
{
    let x = BigUint::from_radix_be(a, 10).unwrap();
    let y = BigUint::from_radix_be(b, 10).unwrap();
    let (q, r) = x.div_rem(&y);
    (q.to_radix_be(10), r.to_radix_be(10))
}

/// How often two divides a natural number; `None` for zero.
///
/// Trusted: `BigUint::trailing_zeros`, with `BigUint::from_radix_be` as the
/// conversion. The contract claims that the result is the number of
/// least-significant zero bits, which is the exponent of the largest power
/// of two that divides the number.
#[verifier::external_body]
pub(crate) fn nat_trailing_zeros(a: &Vec<u8>) -> (r: Option<u64>)
    requires
        is_digits(a@),
    ensures
        r is None <==> digits_value(a@) == 0,
        r matches Some(k) ==> is_two_adic_order(digits_value(a@), k as nat),
{
    BigUint::from_radix_be(a, 10).unwrap().trailing_zeros()
}

} // verus!
