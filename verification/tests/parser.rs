use feather_repl::ast::{EvalError, EvalOptions, Expr, FloatOp, LitComponent, Report};
use feather_repl::parser::{parse_line, read_line, Expected, Failure};

fn float(op: FloatOp) -> u64 {
    let value = match op {
        FloatOp::Parse(text) => text.parse::<f64>().unwrap(),
        FloatOp::Mul(a, b) => f64::from_bits(a) * f64::from_bits(b),
        FloatOp::Div(a, b) => f64::from_bits(a) / f64::from_bits(b),
        FloatOp::Add(a, b) => f64::from_bits(a) + f64::from_bits(b),
        FloatOp::Sub(a, b) => f64::from_bits(a) - f64::from_bits(b),
        FloatOp::Neg(a) => -f64::from_bits(a),
    };
    value.to_bits()
}

fn eval(s: &str, opts: &EvalOptions) -> (Result<((String, f64), std::ops::Range<usize>), EvalError>, Vec<Report>) {
    let mut reports = Vec::new();
    let result = parse_line(s).unwrap().eval(s, opts, 0, &float, &mut reports);
    (result.map(|((q, f), r)| ((q.to_string(), f64::from_bits(f)), r)), reports)
}

fn value(s: &str) -> (String, f64) {
    eval(s, &EvalOptions::new()).0.unwrap().0
}

fn failure(s: &str) -> Failure {
    read_line(s).unwrap_err()
}

fn lit(digits: &str, exponent: i32) -> LitComponent {
    LitComponent::new(digits.to_string(), exponent)
}

#[test]
fn parser_test() {
    let s = "1 * (2 - 3 + 4) / 5";
    let actual = parse_line(s);
    assert!(actual.is_ok());

    let mut reports = Vec::new();
    let result = actual.unwrap().eval(s, &Default::default(), 0, &float, &mut reports).ok();
    let ((rational, approx), range) = result.unwrap();
    assert_eq!(rational.to_string(), "3/5");
    assert_eq!(f64::from_bits(approx), 0.6);
    assert_eq!(range, 0..s.len());
}

#[test]
fn tree_with_ranges() {
    let e = parse_line(" -1.5e3 +  ( 2*3 ) ").unwrap();
    let expected = Expr::Add(
        Box::new(Expr::Literal(lit("-1.5", 3), 1..7)),
        Box::new(Expr::Paren(
            Box::new(Expr::Mul(
                Box::new(Expr::Literal(lit("+2", 0), 13..14)),
                Box::new(Expr::Literal(lit("+3", 0), 15..16)),
                14..15,
            )),
            11..18,
        )),
        8..9,
    );
    assert_eq!(e, expected);
}

#[test]
fn operators_chain_to_the_left() {
    let e = parse_line("8-3-2").unwrap();
    let expected = Expr::Sub(
        Box::new(Expr::Sub(
            Box::new(Expr::Literal(lit("+8", 0), 0..1)),
            Box::new(Expr::Literal(lit("+3", 0), 2..3)),
            1..2,
        )),
        Box::new(Expr::Literal(lit("+2", 0), 4..5)),
        3..4,
    );
    assert_eq!(e, expected);
    assert_eq!(value("8-3-2").0, "3");
    assert_eq!(value("8/4/2").0, "1");
    assert_eq!(value("2+3*4").0, "14");
    assert_eq!(value("(2+3)*4").0, "20");
}

#[test]
fn minus_before_a_number_or_a_group() {
    assert_eq!(parse_line("-5").unwrap(), Expr::Literal(lit("-5", 0), 0..2));
    assert_eq!(
        parse_line("- (1)").unwrap(),
        Expr::NegParen(Box::new(Expr::Literal(lit("+1", 0), 3..4)), 0..5)
    );
    assert_eq!(value("-(2 + 3) * 2"), ("-10".to_string(), -10.0));
    assert_eq!(value("1--1").0, "2");
    assert_eq!(failure("- 1"), Failure { position: 2, expected: Expected::OpenParen });
}

#[test]
fn literals_with_exponents() {
    assert_eq!(value("1e3 + 5"), ("1005".to_string(), 1005.0));
    assert_eq!(value("1.5E-2"), ("3/200".to_string(), 0.015));
    assert_eq!(value("1e+2"), ("100".to_string(), 100.0));
    assert_eq!(value("0.1 + 0.2"), ("3/10".to_string(), 0.30000000000000004));
    assert_eq!(value("1/3"), ("1/3".to_string(), 1.0 / 3.0));
    assert_eq!(parse_line("7e2147483647").unwrap(), Expr::Literal(lit("+7", 2147483647), 0..12));
    assert_eq!(parse_line("7e-2147483648").unwrap(), Expr::Literal(lit("+7", -2147483648), 0..13));
    assert_eq!(failure("7e2147483648"), Failure { position: 12, expected: Expected::Exponent });
    assert_eq!(failure("7e-2147483649"), Failure { position: 13, expected: Expected::Exponent });
    assert_eq!(failure("7e99999999999999999999"), Failure { position: 22, expected: Expected::Exponent });
    assert_eq!(lit("-12.5", -3).float_text(), "-12.5E-3");
    assert_eq!(lit("+7", 0).float_text(), "+7E0");
    assert_eq!(lit("-12.5", -3).eval().to_string(), "-1/80");
}

#[test]
fn failures_with_their_positions() {
    assert_eq!(failure("1 +"), Failure { position: 3, expected: Expected::Operand });
    assert_eq!(failure(""), Failure { position: 0, expected: Expected::Operand });
    assert_eq!(failure("  "), Failure { position: 2, expected: Expected::Operand });
    assert_eq!(failure("1 2"), Failure { position: 2, expected: Expected::EndOfInput });
    assert_eq!(failure("1."), Failure { position: 2, expected: Expected::Digit });
    assert_eq!(failure("1.5e"), Failure { position: 4, expected: Expected::Digit });
    assert_eq!(failure("1e+"), Failure { position: 3, expected: Expected::Digit });
    assert_eq!(failure("-"), Failure { position: 1, expected: Expected::OpenParen });
    assert_eq!(failure("-x"), Failure { position: 1, expected: Expected::OpenParen });
    assert_eq!(failure("(1 + 2"), Failure { position: 6, expected: Expected::CloseParen });
    assert_eq!(failure("(1 x)"), Failure { position: 3, expected: Expected::CloseParen });
    assert_eq!(failure("(1.) + 2"), Failure { position: 3, expected: Expected::Digit });
    assert_eq!(failure("1 + * 2"), Failure { position: 4, expected: Expected::Operand });
    assert_eq!(failure("1 + -"), Failure { position: 5, expected: Expected::OpenParen });
    assert_eq!(failure("2 ** 3"), Failure { position: 3, expected: Expected::Operand });
    assert_eq!(failure("é"), Failure { position: 0, expected: Expected::Operand });

    let err = parse_line("1 +").unwrap_err();
    assert_eq!(err.position, 3);
    assert_eq!(err.messages, ["unexpected end of input", "expected a number or `(`"]);
    let err = parse_line("1 ?").unwrap_err();
    assert_eq!(err.position, 2);
    assert_eq!(err.messages, ["unexpected `?`", "expected an operator or the end of the input"]);
    let err = parse_line("1 é").unwrap_err();
    assert_eq!(err.messages[0], "unexpected character");
    let err = parse_line("1e99999999999").unwrap_err();
    assert_eq!(err.messages[0], "exponent out of range");
}

#[test]
fn white_space_is_what_char_calls_white_space() {
    for code in 0..=0x10ffff_u32 {
        let Some(c) = char::from_u32(code) else { continue };
        let text = format!("{c}(1){c}+{c}{c}2");
        assert_eq!(parse_line(&text).is_ok(), c.is_whitespace(), "{c:?}");
    }
    let s = "\u{3000}1\u{a0}+\u{2003}2";
    let (result, _) = eval(s, &EvalOptions::new());
    assert_eq!(result.unwrap(), (("3".to_string(), 3.0), 3..s.len()));
}

#[test]
fn division_by_zero_has_the_range_of_the_quotient() {
    let (result, reports) = eval("1 / 0", &EvalOptions::new());
    assert_eq!(result, Err(EvalError::ZeroDivision(0..5)));
    assert!(reports.is_empty());
    let (result, _) = eval("2 + (3 / (1 - 1)) * 4", &EvalOptions::new());
    assert_eq!(result, Err(EvalError::ZeroDivision(5..16)));
    // the float is not checked
    assert_eq!(value("0 / 5"), ("0".to_string(), 0.0));
    // the left operand fails first
    let (result, _) = eval("(1 / 0) + (2 / 0)", &EvalOptions::new());
    assert_eq!(result, Err(EvalError::ZeroDivision(1..6)));
}

#[test]
fn ranges_span_the_operands() {
    let opts = EvalOptions::new().with_estimate(vec!["lit,par,bin".to_string()]);
    let s = " 1 + (20 - 3)*4 ";
    let (result, reports) = eval(s, &opts);
    assert_eq!(result.unwrap().1, 1..15);
    let ranges: Vec<_> = reports.iter().map(|r| (r.range.clone(), r.context.depth)).collect();
    assert_eq!(
        ranges,
        [(1..2, 1), (6..8, 4), (11..12, 4), (6..12, 3), (5..13, 2), (14..15, 2), (5..15, 1), (1..15, 0)]
    );
    for report in &reports {
        assert!(report.range.start <= report.range.end && report.range.end <= s.len());
    }
}

#[test]
fn integers_are_exact_in_floating_point() {
    for s in ["1 + 2", "7 * 6 - 2", "(1 + 2) * (3 + 4) - 5", "-(2 + 3) * 2", "1e3 + 5", "1024 / 4"] {
        let (exact, approx) = value(s);
        assert_eq!(exact, format!("{approx}"));
    }
}
