//! Cycle detection over a successor function, and the first index at which
//! two sequences differ.

use vstd::prelude::*;
use vstd::std_specs::cmp::PartialEqSpec;

verus! {

/// A state that can be advanced by a pure successor function and compared
/// with another state.
///
/// Every state stands for a mathematical value, `state()`, and `successor`
/// says how that value evolves. `step` and `same` are the executable
/// counterparts.
pub trait Orbit: Sized {
    /// The mathematical value a state stands for.
    type State;

    /// What the states of one orbit have in common.
    type Family;

    /// Well-formedness of a state; preserved by `step`.
    spec fn inv(&self) -> bool;

    spec fn state(&self) -> Self::State;

    /// What the state has in common with the other states of its orbit;
    /// only states of one family are compared.
    spec fn family(&self) -> Self::Family;

    /// The successor function on mathematical values.
    spec fn successor(s: Self::State) -> Self::State;

    fn step(&self) -> (next: Self)
        requires
            self.inv(),
        ensures
            next.inv(),
            next.family() == self.family(),
            next.state() == Self::successor(self.state()),
    ;

    fn same(&self, other: &Self) -> (eq: bool)
        requires
            self.inv(),
            other.inv(),
            self.family() == other.family(),
        ensures
            eq == (self.state() == other.state()),
    ;
}

/// The `n`-th element of the orbit `s, f(s), f(f(s)), ...`.
pub open spec fn iterate<T: Orbit>(s: T::State, n: nat) -> T::State
    decreases n,
{
    if n == 0 {
        s
    } else {
        T::successor(iterate::<T>(s, (n - 1) as nat))
    }
}

/// The orbit of `s` takes the same value at `m` and at `m + l`.
pub open spec fn is_repeat<T: Orbit>(s: T::State, m: nat, l: nat) -> bool {
    iterate::<T>(s, m) == iterate::<T>(s, m + l)
}

/// `(mu, lambda)` is the lexicographically least pair with `lambda >= 1`
/// at which the orbit of `s` repeats.
pub open spec fn is_least_repeat<T: Orbit>(s: T::State, mu: nat, lambda: nat) -> bool {
    &&& lambda >= 1
    &&& is_repeat::<T>(s, mu, lambda)
    &&& forall|m: nat, l: nat|
        l >= 1 && #[trigger] is_repeat::<T>(s, m, l) ==> mu < m || (mu == m && lambda <= l)
}

pub proof fn lemma_iterate_add<T: Orbit>(s: T::State, a: nat, b: nat)
    ensures
        iterate::<T>(iterate::<T>(s, a), b) == iterate::<T>(s, a + b),
    decreases b,
{
    if b > 0 {
        lemma_iterate_add::<T>(s, a, (b - 1) as nat);
    }
}

/// A repeat at `a` is a repeat at every later index.
pub proof fn lemma_repeat_shift<T: Orbit>(s: T::State, a: nat, p: nat, k: nat)
    requires
        is_repeat::<T>(s, a, p),
    ensures
        is_repeat::<T>(s, a + k, p),
{
    lemma_iterate_add::<T>(s, a, k);
    lemma_iterate_add::<T>(s, a + p, k);
}

/// A repeat of length `p` is a repeat of every multiple of `p`.
pub proof fn lemma_repeat_multiple<T: Orbit>(s: T::State, a: nat, p: nat, k: nat)
    requires
        is_repeat::<T>(s, a, p),
    ensures
        is_repeat::<T>(s, a, k * p),
    decreases k,
{
    if k > 0 {
        lemma_repeat_multiple::<T>(s, a, p, (k - 1) as nat);
        lemma_repeat_shift::<T>(s, a, p, ((k - 1) * p) as nat);
        assert((k - 1) * p + p == k * p) by (nonlinear_arith);
    } else {
        assert(0 * p == 0) by (nonlinear_arith);
    }
}

/// The length of a repeat found anywhere in the orbit is also the length
/// of a repeat at any index where the orbit repeats at all.
pub proof fn lemma_repeat_transfer<T: Orbit>(s: T::State, a: nat, p: nat, b: nat, q: nat)
    requires
        p >= 1,
        is_repeat::<T>(s, a, p),
        is_repeat::<T>(s, b, q),
    ensures
        is_repeat::<T>(s, a, q),
{
    let far = b * p;
    assert(far >= b) by (nonlinear_arith)
        requires
            p >= 1,
            far == b * p,
    ;
    lemma_repeat_multiple::<T>(s, a, p, b);
    lemma_repeat_shift::<T>(s, b, q, (a + far - b) as nat);
    lemma_repeat_shift::<T>(s, a, p, q);
    lemma_repeat_multiple::<T>(s, a + q, p, b);
    assert(iterate::<T>(s, a) == iterate::<T>(s, a + far));
    assert(iterate::<T>(s, a + far) == iterate::<T>(s, a + far + q));
    assert(iterate::<T>(s, a + q) == iterate::<T>(s, a + q + far));
}

/// The first index from `from` on at which the orbit repeats with length
/// `l`, given that it does so at `m`.
proof fn lemma_first_start<T: Orbit>(s: T::State, m: nat, l: nat, from: nat) -> (mu: nat)
    requires
        from <= m,
        is_repeat::<T>(s, m, l),
        forall|k: nat| k < from ==> !is_repeat::<T>(s, k, l),
    ensures
        mu <= m,
        is_repeat::<T>(s, mu, l),
        forall|k: nat| k < mu ==> !is_repeat::<T>(s, k, l),
    decreases m - from,
{
    if is_repeat::<T>(s, from, l) {
        from
    } else {
        lemma_first_start::<T>(s, m, l, from + 1)
    }
}

/// The shortest repeat at `mu`, given that there is one of length `l`.
proof fn lemma_first_length<T: Orbit>(s: T::State, mu: nat, l: nat, from: nat) -> (lambda: nat)
    requires
        1 <= from <= l,
        is_repeat::<T>(s, mu, l),
        forall|k: nat| 1 <= k < from ==> !is_repeat::<T>(s, mu, k),
    ensures
        1 <= lambda <= l,
        is_repeat::<T>(s, mu, lambda),
        forall|k: nat| 1 <= k < lambda ==> !is_repeat::<T>(s, mu, k),
    decreases l - from,
{
    if is_repeat::<T>(s, mu, from) {
        from
    } else {
        lemma_first_length::<T>(s, mu, l, from + 1)
    }
}

/// An orbit that repeats anywhere has a least repeat, which starts no
/// later and is no longer.
pub proof fn lemma_least_repeat_exists<T: Orbit>(s: T::State, m: nat, l: nat) -> (r: (nat, nat))
    requires
        l >= 1,
        is_repeat::<T>(s, m, l),
    ensures
        is_least_repeat::<T>(s, r.0, r.1),
        r.0 <= m,
        r.1 <= l,
{
    let mu = lemma_first_start::<T>(s, m, l, 0);
    let lambda = lemma_first_length::<T>(s, mu, l, 1);
    assert forall|a: nat, p: nat| p >= 1 && #[trigger] is_repeat::<T>(s, a, p) implies mu < a || (mu
        == a && lambda <= p) by {
        lemma_repeat_transfer::<T>(s, a, p, m, l);
    }
    (mu, lambda)
}

/// What a least repeat is: from `mu` on the orbit comes again every
/// `lambda` steps, no repeat starts before `mu`, and no repeat at `mu` is
/// shorter than `lambda`.
pub proof fn lemma_least_repeat_periodic<T: Orbit>(s: T::State, mu: nat, lambda: nat)
    requires
        is_least_repeat::<T>(s, mu, lambda),
    ensures
        lambda >= 1,
        forall|i: nat| #[trigger] iterate::<T>(s, mu + i) == iterate::<T>(s, mu + lambda + i),
        forall|m: nat, l: nat| l >= 1 && #[trigger] is_repeat::<T>(s, m, l) ==> mu <= m,
        forall|l: nat| 1 <= l < lambda ==> !#[trigger] is_repeat::<T>(s, mu, l),
{
    assert forall|i: nat| #[trigger] iterate::<T>(s, mu + i) == iterate::<T>(s, mu + lambda + i) by {
        lemma_repeat_shift::<T>(s, mu, lambda, i);
        assert(mu + i + lambda == mu + lambda + i);
    }
}

/// Tortoise and hare meet within `bound` steps of the tortoise: for some
/// `nu` from one to `bound` the orbit satisfies `x_nu == x_(2 nu)`.
pub open spec fn meets_within<T: Orbit>(s: T::State, bound: nat) -> bool {
    exists|nu: nat| 1 <= nu <= bound && #[trigger] is_repeat::<T>(s, nu, nu)
}

/// An orbit that repeats at `m` with length `l` lets tortoise and hare
/// meet within `m + l` steps.
pub proof fn lemma_repeat_meets<T: Orbit>(s: T::State, m: nat, l: nat)
    requires
        l >= 1,
        is_repeat::<T>(s, m, l),
    ensures
        meets_within::<T>(s, m + l),
{
    // The multiple of `l` that follows `m`, or `l` itself.
    let k: nat = if m == 0 {
        1
    } else {
        ((m - 1) / (l as int) + 1) as nat
    };
    let nu = k * l;
    assert(1 <= nu <= m + l && nu >= m) by (nonlinear_arith)
        requires
            l >= 1,
            nu == k * l,
            k == if m == 0 {
                1
            } else {
                (m - 1) / (l as int) + 1
            },
    ;
    lemma_repeat_shift::<T>(s, m, l, (nu - m) as nat);
    lemma_repeat_multiple::<T>(s, nu, l, k);
    assert(is_repeat::<T>(s, nu, nu));
}

/// The first phase of Floyd's algorithm: the hare where it meets the
/// tortoise, and the number of steps that the tortoise took.
fn find_meeting<T: Orbit>(x0: &T, Ghost(meet): Ghost<nat>) -> (r: (T, Ghost<nat>))
    requires
        x0.inv(),
        meet >= 1,
        is_repeat::<T>(x0.state(), meet, meet),
    ensures
        r.0.inv(),
        r.0.family() == x0.family(),
        1 <= r.1@ <= meet,
        is_repeat::<T>(x0.state(), r.1@, r.1@),
        r.0.state() == iterate::<T>(x0.state(), 2 * r.1@),
{
    let ghost s = x0.state();
    let mut tor = x0.step();
    let mut har = tor.step();
    let ghost mut nu: nat = 1;
    assert(iterate::<T>(s, 1) == T::successor(iterate::<T>(s, 0)));
    assert(iterate::<T>(s, 2) == T::successor(iterate::<T>(s, 1)));
    while !tor.same(&har)
        invariant
            1 <= nu <= meet,
            is_repeat::<T>(s, meet, meet),
            tor.inv(),
            har.inv(),
            tor.family() == x0.family(),
            har.family() == x0.family(),
            tor.state() == iterate::<T>(s, nu),
            har.state() == iterate::<T>(s, 2 * nu),
        decreases meet - nu,
    {
        tor = tor.step();
        let mid = har.step();
        har = mid.step();
        proof {
            assert(iterate::<T>(s, 2 * nu + 2) == T::successor(iterate::<T>(s, (2 * nu + 1) as nat)));
            nu = nu + 1;
        }
    }
    (har, Ghost(nu))
}

/// The first phase of Floyd's algorithm with the steps counted: `None`
/// where tortoise and hare have not met after `usize::MAX` steps.
fn try_find_meeting<T: Orbit>(x0: &T) -> (r: Option<(T, Ghost<nat>)>)
    requires
        x0.inv(),
    ensures
        r is Some <==> meets_within::<T>(x0.state(), usize::MAX as nat),
        r matches Some(found) ==> {
            &&& found.0.inv()
            &&& found.0.family() == x0.family()
            &&& 1 <= found.1@ <= usize::MAX
            &&& is_repeat::<T>(x0.state(), found.1@, found.1@)
            &&& found.0.state() == iterate::<T>(x0.state(), 2 * found.1@)
        },
{
    let ghost s = x0.state();
    let mut tor = x0.step();
    let mut har = tor.step();
    let mut nu: usize = 1;
    assert(iterate::<T>(s, 1) == T::successor(iterate::<T>(s, 0)));
    assert(iterate::<T>(s, 2) == T::successor(iterate::<T>(s, 1)));
    while !tor.same(&har)
        invariant
            1 <= nu,
            s == x0.state(),
            tor.inv(),
            har.inv(),
            tor.family() == x0.family(),
            har.family() == x0.family(),
            tor.state() == iterate::<T>(s, nu as nat),
            har.state() == iterate::<T>(s, 2 * (nu as nat)),
            forall|k: nat| 1 <= k < nu ==> !#[trigger] is_repeat::<T>(s, k, k),
        decreases usize::MAX - nu,
    {
        if nu == usize::MAX {
            proof {
                assert(!is_repeat::<T>(s, nu as nat, nu as nat));
                assert forall|k: nat| 1 <= k <= usize::MAX implies !#[trigger] is_repeat::<T>(
                    s,
                    k,
                    k,
                ) by {}
            }
            return None;
        }
        tor = tor.step();
        let mid = har.step();
        har = mid.step();
        proof {
            assert(iterate::<T>(s, 2 * (nu as nat) + 2) == T::successor(
                iterate::<T>(s, (2 * (nu as nat) + 1) as nat),
            ));
        }
        nu += 1;
    }
    assert(is_repeat::<T>(s, nu as nat, nu as nat));
    Some((har, Ghost(nu as nat)))
}

/// The second and third phase of Floyd's algorithm: from where the hare
/// met the tortoise to the least repeat.
fn finish<T: Orbit>(
    x0: T,
    har: T,
    Ghost(nu): Ghost<nat>,
    Ghost(big_m): Ghost<nat>,
    Ghost(big_l): Ghost<nat>,
) -> (r: (usize, usize))
    requires
        x0.inv(),
        har.inv(),
        har.family() == x0.family(),
        nu >= 1,
        is_repeat::<T>(x0.state(), nu, nu),
        har.state() == iterate::<T>(x0.state(), 2 * nu),
        big_l >= 1,
        big_m <= usize::MAX,
        big_l <= usize::MAX,
        is_repeat::<T>(x0.state(), big_m, big_l),
    ensures
        is_least_repeat::<T>(x0.state(), r.0 as nat, r.1 as nat),
{
    let ghost s = x0.state();
    let mut har = har;
    let mut tor = x0;
    let mut mu: usize = 0;
    while !tor.same(&har)
        invariant
            nu >= 1,
            is_repeat::<T>(s, nu, nu),
            is_repeat::<T>(s, big_m, big_l),
            big_l >= 1,
            big_m <= usize::MAX,
            mu <= big_m,
            tor.inv(),
            har.inv(),
            tor.family() == har.family(),
            tor.state() == iterate::<T>(s, mu as nat),
            har.state() == iterate::<T>(s, mu as nat + 2 * nu),
            forall|m: nat, l: nat| m < mu && l >= 1 ==> !#[trigger] is_repeat::<T>(s, m, l),
        decreases big_m - mu,
    {
        proof {
            // Were there a repeat at `mu`, tortoise and hare would agree.
            assert forall|l: nat| l >= 1 implies !#[trigger] is_repeat::<T>(s, mu as nat, l) by {
                if is_repeat::<T>(s, mu as nat, l) {
                    lemma_repeat_transfer::<T>(s, mu as nat, l, nu, nu);
                    lemma_repeat_multiple::<T>(s, mu as nat, nu, 2);
                    assert(2 * nu == nu + nu);
                    assert(false);
                }
            }
            assert(mu as nat != big_m);
        }
        tor = tor.step();
        har = har.step();
        mu += 1;
    }

    proof {
        assert(is_repeat::<T>(s, mu as nat, 2 * nu));
        lemma_repeat_transfer::<T>(s, mu as nat, 2 * nu, big_m, big_l);
    }
    let mut lambda: usize = 1;
    let mut har = tor.step();
    while !tor.same(&har)
        invariant
            1 <= lambda <= big_l,
            big_l <= usize::MAX,
            is_repeat::<T>(s, mu as nat, big_l),
            tor.inv(),
            har.inv(),
            tor.family() == har.family(),
            tor.state() == iterate::<T>(s, mu as nat),
            har.state() == iterate::<T>(s, mu as nat + lambda as nat),
            forall|l: nat| 1 <= l < lambda ==> !#[trigger] is_repeat::<T>(s, mu as nat, l),
        decreases big_l - lambda,
    {
        har = har.step();
        lambda += 1;
    }
    assert forall|m: nat, l: nat| l >= 1 && #[trigger] is_repeat::<T>(s, m, l) implies mu < m || (
    mu == m && lambda <= l) by {}
    (mu, lambda)
}

/// Floyd's tortoise and hare: the least `(mu, lambda)`, in lexicographic
/// order, such that the orbit of `x0` satisfies `x_mu == x_(mu + lambda)`.
///
/// The orbit has to repeat somewhere within what `usize` can count.
pub fn orbit_mu_lambda<T: Orbit>(x0: T) -> (r: (usize, usize))
    requires
        x0.inv(),
        exists|m: nat, l: nat|
            l >= 1 && m <= usize::MAX && l <= usize::MAX && #[trigger] is_repeat::<T>(
                x0.state(),
                m,
                l,
            ),
    ensures
        is_least_repeat::<T>(x0.state(), r.0 as nat, r.1 as nat),
{
    let ghost s = x0.state();
    let ghost (big_m, big_l) = choose|m: nat, l: nat|
        l >= 1 && m <= usize::MAX && l <= usize::MAX && #[trigger] is_repeat::<T>(s, m, l);
    proof {
        lemma_repeat_meets::<T>(s, big_m, big_l);
    }
    let ghost meet = choose|nu: nat| 1 <= nu <= big_m + big_l && #[trigger] is_repeat::<T>(s, nu, nu);
    let (har, nu) = find_meeting(&x0, Ghost(meet));
    finish(x0, har, nu, Ghost(big_m), Ghost(big_l))
}

/// As [`orbit_mu_lambda`], for any orbit: `None` where tortoise and hare
/// do not meet within what `usize` can count.
pub fn try_orbit_mu_lambda<T: Orbit>(x0: T) -> (r: Option<(usize, usize)>)
    requires
        x0.inv(),
    ensures
        r is Some <==> meets_within::<T>(x0.state(), usize::MAX as nat),
        r matches Some(p) ==> is_least_repeat::<T>(x0.state(), p.0 as nat, p.1 as nat),
{
    match try_find_meeting(&x0) {
        None => None,
        Some((har, nu)) => Some(finish(x0, har, nu, nu, nu)),
    }
}

/// The function is pure: it can be called with any argument, and its
/// contract leaves no choice of the result.
pub open spec fn is_pure<T, F: Fn(&T) -> T>(f: F) -> bool {
    &&& forall|x: T| #[trigger] call_requires(f, (&x,))
    &&& forall|x: T, y: T, z: T|
        #![trigger call_ensures(f, (&x,), y), call_ensures(f, (&x,), z)]
        call_ensures(f, (&x,), y) && call_ensures(f, (&x,), z) ==> y == z
}

/// `==` on `T` is equality.
pub open spec fn eq_is_equality<T: PartialEq>() -> bool {
    &&& T::obeys_eq_spec()
    &&& forall|a: T, b: T| #[trigger] a.eq_spec(&b) <==> a == b
}

/// A value in the orbit of a pure function.
pub struct Iterated<'a, T, F> {
    pub value: T,
    pub f: &'a F,
}

impl<'a, T: PartialEq, F: Fn(&T) -> T> Orbit for Iterated<'a, T, F> {
    type State = (T, F);

    type Family = F;

    open spec fn inv(&self) -> bool {
        is_pure::<T, F>(*self.f) && eq_is_equality::<T>()
    }

    open spec fn state(&self) -> (T, F) {
        (self.value, *self.f)
    }

    open spec fn family(&self) -> F {
        *self.f
    }

    open spec fn successor(s: (T, F)) -> (T, F) {
        (choose|y: T| call_ensures(s.1, (&s.0,), y), s.1)
    }

    fn step(&self) -> (next: Self) {
        let value = (self.f)(&self.value);
        Iterated { value, f: self.f }
    }

    fn same(&self, other: &Self) -> (eq: bool) {
        self.value == other.value
    }
}

/// Floyd's tortoise and hare for the orbit `x0, f(x0), f(f(x0)), ...` of a
/// pure function: the least `(mu, lambda)`, in lexicographic order, such
/// that `x_mu == x_(mu + lambda)`.
///
/// The orbit has to repeat somewhere within what `usize` can count.
pub fn cycle_mu_lambda<T: PartialEq, F: Fn(&T) -> T>(x0: T, f: F) -> (r: (usize, usize))
    requires
        is_pure::<T, F>(f),
        eq_is_equality::<T>(),
        exists|m: nat, l: nat|
            l >= 1 && m <= usize::MAX && l <= usize::MAX && #[trigger] is_repeat::<Iterated<T, F>>(
                (x0, f),
                m,
                l,
            ),
    ensures
        is_least_repeat::<Iterated<T, F>>((x0, f), r.0 as nat, r.1 as nat),
{
    orbit_mu_lambda(Iterated { value: x0, f: &f })
}

/// What [`IterDiffIndex::iter_diff_index`] gives for two sequences: the
/// first index at which both have an item and the items differ.
pub open spec fn is_diff_index<T>(a: Seq<T>, b: Seq<T>, r: Option<usize>) -> bool {
    match r {
        Some(i) => {
            &&& i < a.len()
            &&& i < b.len()
            &&& a[i as int] != b[i as int]
            &&& forall|j: int| 0 <= j < i ==> a[j] == b[j]
        },
        None => forall|j: int| 0 <= j < a.len() && j < b.len() ==> a[j] == b[j],
    }
}

/// Sequences that can say where they first differ from another one.
pub trait IterDiffIndex<T> {
    /// The items of the sequence.
    spec fn items(&self) -> Seq<T>;

    /// The first index at which the two sequences differ, as far as both
    /// go.
    fn iter_diff_index(&self, other: &Self) -> (r: Option<usize>)
        ensures
            is_diff_index(self.items(), other.items(), r),
    ;
}

impl IterDiffIndex<u8> for Vec<u8> {
    open spec fn items(&self) -> Seq<u8> {
        self@
    }

    fn iter_diff_index(&self, other: &Self) -> (r: Option<usize>) {
        let mut i: usize = 0;
        while i < self.len() && i < other.len()
            invariant
                forall|j: int| 0 <= j < i ==> self@[j] == other@[j],
            decreases self.len() - i,
        {
            if self[i] != other[i] {
                return Some(i);
            }
            i += 1;
        }
        None
    }
}

} // verus!
