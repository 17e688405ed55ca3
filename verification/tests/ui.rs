use feather_repl::ast::{EvalContext, EvalError, EvalOptions, ExprTy, Report};
use feather_repl::constants::{DARK_COLOR, EMPH_COLOR, ERR_COLOR};
use feather_repl::float::{classify, to_rational, FloatClass};
use feather_repl::number::{DecimalTuple, Sign};
use feather_repl::parser::parse_line;
use feather_repl::rational::Rational;
use feather_repl::style::{Color, Content, Line, Span, Style};
use feather_repl::ui::{
    backmatter, error_report, estimate, frontmatter, lined, relative_error, str_approx,
    str_emph_correct, StrPaint,
};

fn bold(text: &str) -> Span {
    text.bold()
}

fn dark(text: &str) -> Span {
    text.fg(DARK_COLOR)
}

fn text_of(line: &Line) -> String {
    line.iter()
        .map(|span| match &span.content {
            Content::Text(t) => t.clone(),
            Content::Float(bits) => format!("{:?}", f64::from_bits(*bits)),
        })
        .collect()
}

fn texts_of(lines: &[Line]) -> Vec<String> {
    lines.iter().map(text_of).collect()
}

fn rational(num: i64, den: u64) -> Rational {
    let digits = |n: u64| n.to_string().bytes().map(|b| b - b'0').collect::<Vec<u8>>();
    let sign = if num < 0 { Sign::Minus } else { Sign::Plus };
    Rational::new(sign, &digits(num.unsigned_abs()), &digits(den))
}

fn report(value: Rational, approx: f64, range: std::ops::Range<usize>) -> Report {
    Report {
        value,
        approx: approx.to_bits(),
        range,
        context: EvalContext { expr_ty: ExprTy::Binary, depth: 0 },
    }
}

const TEST_SUITE: &[((&str, &str), (&str, &str))] = &[
    (("1.23", "1.24"), ("1.2", "3")),
    (("1.2", "1.3"), ("1.", "2")),
    (("-10", "-2"), ("-", "10")),
    (("1", "1.(001)"), ("1.00", "(0...)")),
    (("1.1", "1.(100)"), ("1.100", "(0...)")),
    // zero and a positive number differ in sign and have nothing in common
    (("0", "0.01"), ("", "0")),
    (("0.01", "0"), ("", "0.01")),
];

#[test]
fn ui_test() {
    for &((approx, truth), (bold_part, dark_part)) in TEST_SUITE {
        let approx = approx.parse().unwrap();
        let truth = truth.parse().unwrap();
        let actual = str_emph_correct(&approx, &truth);
        let expected = vec![bold(bold_part), dark(dark_part)];
        assert_eq!(actual, expected, "\nactual:   {actual:?}\nexpected: {expected:?}");
    }
}

#[test]
fn spans_of_text() {
    assert_eq!("x".bold(), Span::of("x", Style::plain().bold()));
    assert_eq!("x".fg(7), Span::of("x", Style::fg(7)));
    assert_eq!(Style::fg(7).bold().color_only(), Style::fg(7));
}

#[test]
fn equal_decimals_are_all_bold() {
    let d: DecimalTuple = "12.5".parse().unwrap();
    assert_eq!(str_emph_correct(&d, &d), vec![bold("12.5")]);
}

#[test]
fn relative_error_forms() {
    let text = |a: &str, t: &str| str_approx(&a.parse().unwrap(), &t.parse().unwrap());
    assert_eq!(text("0.5", "0.5"), "0.5");
    assert_eq!(text("0.(3)", "0.(3)"), "1/3");
    // (2 - 1) / 1 = 1
    assert_eq!(text("2", "1"), "1 * (1 + 1)");
    // (1 - 2) / 2 = -1/2
    assert_eq!(text("1", "2"), "2 * (1 - 2^{-1})");
    // (5 - 1) / 1 = 4
    assert_eq!(text("5", "1"), "1 * (1 + 2^{2})");
    // (4 - 1) / 1 = 3
    assert_eq!(text("4", "1"), "1 * (1 + 3)");
    // (0.25 - 1) / 1 = -3/4
    assert_eq!(text("0.25", "1"), "1 * (1 - 3 * 2^{-2})");
    // (0.5 - 0.(3)) / 0.(3) = 1/2
    assert_eq!(text("0.5", "0.(3)"), "1/3 * (1 + 2^{-1})");
    // (0.3 - 0.5) / 0.5 = -2/5
    assert_eq!(text("0.3", "0.5"), "0.5 * (1 - 1/5 * 2^{1})");
    // (-1 - -2) / -2 = -1/2, and -1 is the larger one
    assert_eq!(text("-1", "-2"), "-2 * (1 + 2^{-1})");

    let (positive, factor, exp) = relative_error(&rational(3, 10), &rational(1, 2));
    assert!(!positive);
    assert_eq!((factor.to_string().as_str(), exp), ("1/5", 1));
}

#[test]
fn floats_are_decoded_exactly() {
    assert_eq!(classify(f64::NAN.to_bits()), FloatClass::Nan);
    assert_eq!(classify(f64::INFINITY.to_bits()), FloatClass::Infinity);
    assert_eq!(classify(f64::NEG_INFINITY.to_bits()), FloatClass::NegInfinity);
    assert_eq!(classify((-0.0f64).to_bits()), FloatClass::NegZero);
    assert_eq!(classify(0.0f64.to_bits()), FloatClass::Finite);
    assert_eq!(classify(f64::MAX.to_bits()), FloatClass::Finite);
    assert_eq!(classify(5e-324f64.to_bits()), FloatClass::Finite);

    assert_eq!(to_rational(0.0f64.to_bits()).to_string(), "0");
    assert_eq!(to_rational((-0.0f64).to_bits()).to_string(), "0");
    assert_eq!(to_rational(1.0f64.to_bits()).to_string(), "1");
    assert_eq!(to_rational((-2.5f64).to_bits()).to_string(), "-5/2");
    assert_eq!(to_rational(0.1f64.to_bits()).to_string(), "3602879701896397/36028797018963968");
    assert_eq!(to_rational(1e22f64.to_bits()).to_string(), "10000000000000000000000");
    assert_eq!(
        to_rational(f64::MIN_POSITIVE.to_bits()),
        Rational::power_of_two(-1022)
    );
    assert_eq!(to_rational(5e-324f64.to_bits()), Rational::power_of_two(-1074));
    let max = to_rational(f64::MAX.to_bits());
    assert_eq!(max, Rational::power_of_two(1024).sub(&Rational::power_of_two(971)));
    let tenth = DecimalTuple::from_rational(&to_rational(0.1f64.to_bits()));
    assert_eq!(tenth.to_string(), "0.1000000000000000055511151231257827021181583404541015625");
}

#[test]
fn painting_a_character() {
    let red = Style::fg(ERR_COLOR).bold();
    let plain = Style::plain();
    assert_eq!(
        "1 + x".paint_at(red, 4),
        vec![Span::of("1 + ", plain), Span::of("x", red), Span::of("", plain)]
    );
    assert_eq!(
        "1 é 2".paint_at(red, 2),
        vec![Span::of("1 ", plain), Span::of("é", red), Span::of(" 2", plain)]
    );
    assert_eq!("1 +".paint_at(red, 3), vec![Span::of("1 +", plain)]);
}

#[test]
fn pointing_at_a_range() {
    let emph = Style::fg(EMPH_COLOR).bold();
    let color = Style::fg(EMPH_COLOR);
    let lines = "1 + 22".paint_range_msg(emph, 4..6, vec![Span::of("msg", Style::plain())]);
    assert_eq!(
        lines,
        vec![
            vec![Span::of("1 + ", Style::plain()), Span::of("22", emph), Span::of("", Style::plain())],
            vec![Span::of("    ┬─", color)],
            vec![Span::of("    ╰──", color), Span::of(" ", Style::plain()), Span::of("msg", Style::plain())],
        ]
    );
    let lines = "(1 + 2)".paint_range_msg(emph, 0..7, vec![]);
    assert_eq!(texts_of(&lines), ["(1 + 2)", "─┬─────", " ╰── "]);
    let lines = "7".paint_range_msg(emph, 0..1, vec![]);
    assert_eq!(texts_of(&lines), ["7", "┬", "╰── "]);
}

#[test]
fn margins_before_lines() {
    let a = Style::fg(1);
    let b = Style::fg(2);
    let c = Style::fg(3).dimmed();
    let bar = |style| vec![Span::of(" ", Style::plain()), Span::of("│", style), Span::of(" ", Style::plain())];
    let lines = lined(vec![vec![], vec![bold("x")], vec![], vec![dark("y")]], a, b, c);
    let mut second = bar(b);
    second.push(bold("x"));
    let mut fourth = bar(c);
    fourth.push(dark("y"));
    assert_eq!(lines, vec![bar(a), second, bar(c), fourth]);
    assert_eq!(c.color, Color::Fixed(3));
}

#[test]
fn frame_of_one_third() {
    let s = "1/3";
    let lines = estimate(&report(rational(1, 3), 1.0 / 3.0, 0..3), s, &EvalOptions::new());
    assert_eq!(
        texts_of(&lines),
        [
            " │ ",
            " │ 1/3",
            " │ ─┬─",
            " │  ╰── {this:?}: 0.3333333333333333",
            " │ ",
            " │ truth: 1/3",
            " │      = 0.(3...)",
            " │ float: 0.333333333333333314829616256247390992939472198486328125",
            " │      = 1/3 * (1 - 2^{-54})",
        ]
    );
    // the float agrees with the truth on `0.` and sixteen digits
    let float = &lines[7];
    assert_eq!(float[4], bold("0.3333333333333333"));
    assert_eq!(float[5], dark("14829616256247390992939472198486328125"));
    assert_eq!(lines[1][1].style, Style::fg(DARK_COLOR));
    assert_eq!(lines[0][1].style, Style::fg(DARK_COLOR).dimmed());
    assert_eq!(lines[1][4].style, Style::fg(EMPH_COLOR).bold());
}

#[test]
fn frames_of_exact_and_special_floats() {
    let opts = EvalOptions::new();
    let lines = estimate(&report(rational(3, 5), 0.6, 0..19), "1 * (2 - 3 + 4) / 5", &opts);
    assert_eq!(
        texts_of(&lines)[5..],
        [
            " │ truth: 3/5",
            " │      = 0.6",
            " │ float: 0.59999999999999997779553950749686919152736663818359375",
            " │      = 0.6 * (1 - 1/3 * 2^{-53})",
        ]
    );
    let lines = estimate(&report(rational(-10, 1), -10.0, 0..12), "-(2 + 3) * 2", &opts);
    assert_eq!(texts_of(&lines)[5..], [" │ truth: -10", " │ float: -10", " │      = -10"]);
    assert_eq!(lines[6][4], bold("-10"));
    let lines = estimate(&report(rational(3, 10), 0.1 + 0.2, 0..9), "0.1 + 0.2", &opts);
    assert_eq!(lines[7][4], bold("0.3000000000000000"));
    assert_eq!(lines[7][5], dark("444089209850062616169452667236328125"));
    assert_eq!(texts_of(&lines)[8], " │      = 0.3 * (1 + 1/3 * 2^{-51})");

    let tail = |approx: f64| {
        let lines = estimate(&report(rational(1, 2), approx, 0..1), "x", &opts);
        texts_of(&lines)[7..].to_vec()
    };
    assert_eq!(tail(f64::NAN), [" │ float: nan"]);
    assert_eq!(tail(f64::INFINITY), [" │ float: infinity"]);
    assert_eq!(tail(f64::NEG_INFINITY), [" │ float: -infinity"]);
    assert_eq!(tail(-0.0), [" │ float: -0", " │      = 0.5 * (1 - 1)"]);
    let lines = estimate(&report(Rational::zero(), -0.0, 0..1), "x", &opts);
    assert_eq!(texts_of(&lines)[5..], [" │ truth: 0", " │ float: -0"]);
    let lines = estimate(&report(Rational::zero(), 0.0, 0..1), "x", &opts);
    assert_eq!(texts_of(&lines)[5..], [" │ truth: 0", " │ float: 0"]);

    let mut below = report(rational(1, 2), 0.5, 0..1);
    below.context.depth = 1;
    assert!(estimate(&below, "x", &opts).is_empty());
}

#[test]
fn opening_and_closing_lines() {
    assert_eq!(
        frontmatter("stdin", 12),
        vec![
            vec![],
            vec![
                dark(" ╭─["),
                Span::of("stdin", Style::plain()),
                Span::of(":", Style::plain()),
                Span::of("12", Style::plain()),
                dark("]"),
            ],
        ]
    );
    let done = Ok(((rational(1, 2), 0.5f64.to_bits()), 0..3));
    assert_eq!(backmatter("1/2", &done), vec![vec![Span::of(" ─╯", Style::fg(DARK_COLOR).dimmed())]]);
    let failed = Err(EvalError::ZeroDivision(0..5));
    let lines = backmatter("1 / 0", &failed);
    assert_eq!(
        texts_of(&lines),
        [" │ ", " │ 1 / 0", " │ ─┬───", " │  ╰── divide by zero", " ─╯"]
    );
    let red = Style::fg(ERR_COLOR);
    assert_eq!(lines[1][1], Span::of("│", red.dimmed()));
    assert_eq!(lines[1][4], Span::of("1 / 0", red.bold()));
    assert_eq!(lines[2][3], Span::of("─┬───", red));
    assert_eq!(lines[4], vec![Span::of(" ─╯", red.dimmed())]);
}

#[test]
fn frame_of_a_parse_error() {
    let s = "1 +";
    let err = parse_line(s).unwrap_err();
    let lines = error_report(&err, s);
    assert_eq!(
        texts_of(&lines),
        [
            " │ ",
            " │ 1 +$",
            " │    ┬",
            " │    ╰── parse error",
            " │ ",
            " │ errors:",
            " │  *  unexpected end of input",
            " │  *  expected a number or `(`",
            " ─╯",
        ]
    );
    let red = Style::fg(ERR_COLOR);
    let gray = Style::fg(DARK_COLOR);
    assert_eq!(lines[0][1].style, gray.dimmed());
    assert_eq!(lines[1][1].style, red);
    assert_eq!(lines[2][1].style, red.dimmed());
    assert_eq!(lines[1][4], Span::of("$", gray.dimmed()));
    assert_eq!(lines[6][4], Span::of("*", gray.dimmed()));
    assert_eq!(lines[6][6], Span::of("unexpected end of input", gray));

    let s = "1 ? 2";
    let lines = error_report(&parse_line(s).unwrap_err(), s);
    assert_eq!(texts_of(&lines)[1..4], [" │ 1 ? 2", " │   ┬", " │   ╰── parse error"]);
    assert_eq!(lines[1][4], Span::of("?", red.bold()));
}
