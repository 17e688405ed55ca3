use feather_repl::utils::{cycle_mu_lambda, orbit_mu_lambda, try_orbit_mu_lambda, Orbit};

/// The orbit of `x -> (x * x + c) mod m`.
#[derive(Clone, Copy, Debug, PartialEq)]
struct Quadratic {
    x: u64,
    c: u64,
    m: u64,
}

impl Orbit for Quadratic {
    type State = u64;
    type Family = (u64, u64);

    fn inv(&self) -> bool {
        self.m > 0
    }

    fn state(&self) -> u64 {
        self.x
    }

    fn family(&self) -> (u64, u64) {
        (self.c, self.m)
    }

    fn successor(s: u64) -> u64 {
        s
    }

    fn step(&self) -> Self {
        Quadratic { x: (self.x * self.x + self.c) % self.m, ..*self }
    }

    fn same(&self, other: &Self) -> bool {
        self.x == other.x
    }
}

fn brute_force(start: u64, f: impl Fn(&u64) -> u64) -> (usize, usize) {
    let mut seen: Vec<u64> = Vec::new();
    let mut x = start;
    loop {
        if let Some(mu) = seen.iter().position(|&y| y == x) {
            return (mu, seen.len() - mu);
        }
        seen.push(x);
        x = f(&x);
    }
}

#[test]
fn cycle_is_the_least_repeat() {
    for m in 1..60 {
        for c in 0..5 {
            for x in 0..m {
                let f = |x: &u64| (x * x + c) % m;
                let expected = brute_force(x, f);
                assert_eq!(cycle_mu_lambda(x, f), expected);
                let start = Quadratic { x, c, m };
                assert_eq!(orbit_mu_lambda(start), expected);
                assert_eq!(try_orbit_mu_lambda(start), Some(expected));
            }
        }
    }
}

#[test]
fn cycle_of_a_fixed_point_and_of_a_tail() {
    // 0 -> 0
    assert_eq!(cycle_mu_lambda(0u64, |x: &u64| x * x % 7), (0, 1));
    // 2 -> 4 -> 16 -> 0 -> 0 modulo 256
    assert_eq!(cycle_mu_lambda(2u64, |x: &u64| x * x % 256), (3, 1));
    // 3 -> 10 -> 101 -> 2 -> 5 -> 26 -> 167 -> 95 -> 101 modulo 255
    assert_eq!(cycle_mu_lambda(3u64, |x: &u64| (x * x + 1) % 255), (2, 6));
    // the remainders of 1/7
    assert_eq!(cycle_mu_lambda(1u32, |x: &u32| x * 10 % 7), (0, 6));
    // a state that is not a number
    let rotate = |s: &String| format!("{}{}", &s[1..], &s[..1]);
    assert_eq!(cycle_mu_lambda("abcabc".to_string(), rotate), (0, 3));
}
