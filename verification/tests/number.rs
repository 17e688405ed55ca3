use feather_repl::number::{DecimalTuple, DecimalTupleParseError, Sign};
use feather_repl::rational::Rational;
use feather_repl::utils::IterDiffIndex;
use regex::Regex;

use Sign::{Minus, NoSign, Plus};

fn digits(n: u64) -> Vec<u8> {
    n.to_string().bytes().map(|b| b - b'0').collect()
}

fn tuple(sign: Sign, int: u64, frac_once: &[u8], frac_rep: &[u8]) -> DecimalTuple {
    DecimalTuple {
        sign,
        int_part: digits(int),
        frac_once: frac_once.to_vec(),
        frac_rep: frac_rep.to_vec(),
    }
}

fn rational(text: &str) -> Rational {
    let (negative, rest) = match text.strip_prefix('-') {
        Some(rest) => (true, rest),
        None => (false, text),
    };
    let (n, d) = rest.split_once('/').unwrap_or((rest, "1"));
    let num: Vec<u8> = n.bytes().map(|b| b - b'0').collect();
    let den: Vec<u8> = d.bytes().map(|b| b - b'0').collect();
    Rational::new(if negative { Minus } else { Plus }, &num, &den)
}

const TEST_SUITE_OK: &[(&str, (Sign, u64, &[u8], &[u8]))] = &[
    // simple
    ("1.2", (Plus, 1, &[2], &[])),
    ("1.2(3)", (Plus, 1, &[2], &[3])),
    ("12.(3...)", (Plus, 12, &[], &[3])),
    ("2", (Plus, 2, &[], &[])),
    ("1.(001)", (Plus, 1, &[], &[0, 0, 1])),
    // normalization
    ("0.(9)", (Plus, 1, &[], &[])),
    ("0.9(9)", (Plus, 1, &[], &[])),
    ("0.199(9)", (Plus, 0, &[2], &[])),
    ("0.(11)", (Plus, 0, &[], &[1])),
    ("0.1(1)", (Plus, 0, &[], &[1])),
    ("0.11", (Plus, 0, &[1, 1], &[])),
    // sign
    ("0.5", (Plus, 0, &[5], &[])),
    ("+0.5", (Plus, 0, &[5], &[])),
    ("-0.5", (Minus, 0, &[5], &[])),
    ("-0.(9)", (Minus, 1, &[], &[])),
    // zero
    ("0", (NoSign, 0, &[], &[])),
    ("+0", (NoSign, 0, &[], &[])),
    ("-0", (NoSign, 0, &[], &[])),
    ("-0.0", (NoSign, 0, &[], &[])),
    ("-0.0(0)", (NoSign, 0, &[], &[])),
    // leading/trailing zeros
    ("00", (NoSign, 0, &[], &[])),
    ("001.10(0)", (Plus, 1, &[1], &[])),
];

const TEST_SUITE_ERR: &[&str] = &["0.11()", "+-0", "@", "1.2.3", "0.999...", "0.1((1))", " 1 "];

#[test]
fn test_ok() {
    for &(s, (sign, int, frac_once, frac_rep)) in TEST_SUITE_OK {
        let expected = tuple(sign, int, frac_once, frac_rep);
        assert_eq!(s.parse(), Ok(expected));
    }
}

#[test]
fn test_err() {
    for s in TEST_SUITE_ERR {
        assert!(s.parse::<DecimalTuple>().is_err());
    }
}

const TEST_SUITE_LCP: &[((&str, &str), Option<usize>)] = &[
    (("0.9999", "1.0000"), Some(0)),
    (("1.0", "-1.0"), Some(0)),
    (("10.0", "1.0"), Some(0)),
    (("-1.2", "-3.4"), Some(1)),
    (("-1.0", "-10.0"), Some(1)),
    (("12.0", "12.2"), Some(3)),
    (("1.0", "1.(001)"), Some(4)),
    (("-1.0", "-1.5"), Some(3)),
    // decimals of different sign have nothing in common
    (("0.001", "0"), Some(0)),
    (("0", "0.001"), Some(0)),
    (("-0.001", "0"), Some(0)),
    (("-0.001", "0.001"), Some(0)),
    (("1", "1"), None),
    (("-1", "-1"), None),
];

#[test]
fn number_test() {
    for &((lhs, rhs), expected) in TEST_SUITE_LCP {
        let lhs: DecimalTuple = lhs.parse().unwrap();
        let rhs: DecimalTuple = rhs.parse().unwrap();
        assert_eq!(lhs.lcp_len(&rhs), expected);
    }
}

#[test]
fn repeating_nines_are_the_next_number() {
    let one: DecimalTuple = "1".parse().unwrap();
    assert_eq!("0.(9)".parse(), Ok(one.clone()));
    assert_eq!("0.9(9)".parse(), Ok(one.clone()));
    assert_eq!("0.99(99...)".parse(), Ok(one));
    assert_eq!("0.(0)".parse(), Ok(DecimalTuple::zero()));
}

#[test]
fn lcp_len_is_symmetric_and_none_on_itself() {
    let texts = ["0", "1", "-1", "0.5", "0.(3)", "12.25", "12.2(5)", "-0.125", "100", "0.001"];
    for a in texts {
        let a: DecimalTuple = a.parse().unwrap();
        assert_eq!(a.lcp_len(&a), None);
        for b in texts {
            let b: DecimalTuple = b.parse().unwrap();
            assert_eq!(a.lcp_len(&b), b.lcp_len(&a));
        }
    }
}

#[test]
fn parse_tells_the_errors_apart() {
    assert_eq!("".parse::<DecimalTuple>(), Err(DecimalTupleParseError::MatchFailed));
    assert_eq!("1.2.3".parse::<DecimalTuple>(), Err(DecimalTupleParseError::MatchFailed));
    assert_eq!("--5x".parse::<DecimalTuple>(), Err(DecimalTupleParseError::MatchFailed));
    assert_eq!("+-0".parse::<DecimalTuple>(), Err(DecimalTupleParseError::MatchFailed));
    assert_eq!("--12.5".parse::<DecimalTuple>(), Err(DecimalTupleParseError::MatchFailed));
    assert_eq!("--5".parse::<DecimalTuple>(), Err(DecimalTupleParseError::MatchFailed));
    assert_eq!("-+5".parse::<DecimalTuple>(), Err(DecimalTupleParseError::MatchFailed));
    assert_eq!(DecimalTuple::read_parts("+-0"), Err(DecimalTupleParseError::MatchFailed));
}

#[test]
fn parse_accepts_what_the_pattern_accepts() {
    let pattern = Regex::new(r"^([+-])?([0-9]+)(?:\.([0-9]+)?(\([0-9]+\.*\))?)?$").unwrap();
    let alphabet = ['+', '-', '0', '7', '.', '(', ')', ' '];
    let mut texts = vec![String::new()];
    let mut from = 0;
    for _ in 0..6 {
        let upto = texts.len();
        for i in from..upto {
            for c in alphabet {
                let mut t = texts[i].clone();
                t.push(c);
                texts.push(t);
            }
        }
        from = upto;
    }
    for t in &texts {
        let parsed = t.parse::<DecimalTuple>();
        match pattern.captures(t) {
            None => assert_eq!(parsed, Err(DecimalTupleParseError::MatchFailed), "{t:?}"),
            Some(_) => assert!(parsed.is_ok(), "{t:?}"),
        }
    }
}

#[test]
fn new_normalizes_repeating_nines() {
    let d = DecimalTuple::new(Plus, vec![0], vec![1, 9, 9], vec![9]);
    assert_eq!(d, tuple(Plus, 0, &[2], &[]));
    let d = DecimalTuple::new(Minus, vec![0, 0, 7], vec![], vec![0, 0]);
    assert_eq!(d, tuple(Minus, 7, &[], &[]));
}

#[test]
fn from_rational_of_879_over_104() {
    let d = DecimalTuple::from_rational(&rational("879/104"));
    assert_eq!(d, tuple(Plus, 8, &[4, 5, 1], &[9, 2, 3, 0, 7, 6]));
    assert_eq!(d.to_string(), "8.451(923076...)");
    assert!(d.is_repetitive());
    assert!(!d.is_integer());
}

#[test]
fn to_rational_follows_the_formula() {
    // 8 + 451/1000 + 923076/(999999 * 1000) = 879/104
    let r = DecimalTuple::to_rational(Plus, &vec![8], &vec![4, 5, 1], &vec![9, 2, 3, 0, 7, 6]);
    assert_eq!(r.to_string(), "879/104");
    let r = DecimalTuple::to_rational(Minus, &vec![0], &vec![], &vec![9]);
    assert_eq!(r.to_string(), "-1");
    let r = DecimalTuple::to_rational(NoSign, &vec![0], &vec![0, 5], &vec![]);
    assert_eq!(r.to_string(), "1/20");
}

#[test]
fn round_trip_of_canonical_decimals() {
    for &(_, (sign, int, frac_once, frac_rep)) in TEST_SUITE_OK {
        let d = tuple(sign, int, frac_once, frac_rep);
        let r = DecimalTuple::to_rational(d.sign, &d.int_part, &d.frac_once, &d.frac_rep);
        assert_eq!(DecimalTuple::from_rational(&r), d);
        assert_eq!(DecimalTuple::try_from_rational(&r), Some(d));
    }
}

#[test]
fn display_of_decimals() {
    assert_eq!(tuple(NoSign, 0, &[], &[]).to_string(), "0");
    assert_eq!(tuple(Minus, 12, &[0, 5], &[]).to_string(), "-12.05");
    assert_eq!(tuple(Plus, 0, &[], &[3]).to_string(), "0.(3...)");
    assert_eq!(tuple(Plus, 1, &[2], &[3, 4]).to_string(), "1.2(34...)");
    assert_eq!(DecimalTuple::default(), tuple(NoSign, 0, &[], &[]));
}

#[test]
fn rational_arithmetic_reduces() {
    let a = rational("1/6");
    let b = rational("-1/2");
    assert_eq!(a.add(&b).to_string(), "-1/3");
    assert_eq!(b.add(&a).to_string(), "-1/3");
    assert_eq!(a.sub(&b).to_string(), "2/3");
    assert_eq!(b.sub(&a).to_string(), "-2/3");
    assert_eq!(a.mul(&b).to_string(), "-1/12");
    assert_eq!(a.div(&b).to_string(), "-1/3");
    assert_eq!(b.add(&b.neg()).to_string(), "0");
    assert!(b.add(&b.neg()).is_zero());
    assert_eq!(b.abs().to_string(), "1/2");
    assert_eq!(rational("6/4").to_string(), "3/2");
    assert_eq!(rational("12345678901234567890123/3").to_string(), "4115226300411522630041");
    assert!(rational("4/2").is_integer());
    assert!(!rational("1/2").is_integer());
    assert!(rational("5/5").is_one());
    assert!(a.same(&rational("2/12")));
    assert!(!a.same(&b));
    assert!(b.is_negative() && !b.is_positive() && a.is_positive());
    assert_eq!(Rational::zero().to_string(), "0");
    assert_eq!(Rational::from_integer(Minus, &vec![0, 4, 2]).to_string(), "-42");
    assert_eq!(a.duplicate(), a);
}

#[test]
fn powers_of_ten_and_two() {
    assert_eq!(Rational::power_of_ten(-2).to_string(), "1/100");
    assert_eq!(Rational::power_of_ten(0).to_string(), "1");
    assert_eq!(Rational::power_of_ten(3).to_string(), "1000");
    assert_eq!(Rational::power_of_two(10).to_string(), "1024");
    assert_eq!(Rational::power_of_two(-3).to_string(), "1/8");
}

#[test]
fn first_difference_of_two_digit_strings() {
    assert_eq!(vec![1u8, 2, 3].iter_diff_index(&vec![1u8, 2, 4]), Some(2));
    assert_eq!(vec![1u8, 2, 3].iter_diff_index(&vec![1u8, 2, 3]), None);
    assert_eq!(vec![1u8, 2].iter_diff_index(&vec![1u8, 2, 3]), None);
    assert_eq!(vec![9u8].iter_diff_index(&vec![1u8, 2, 3]), Some(0));
    assert_eq!(Vec::<u8>::new().iter_diff_index(&vec![1u8]), None);
}
