use feather_repl::ast::{EstimateContext, EvalOptions, FloatOp};
use feather_repl::constants::PROLOGUE;
use feather_repl::options::{Unexpected, UnexpectedKind};
use feather_repl::repl::{eval_line, LineKind, ReplOptions};
use feather_repl::style::{Content, Line};

fn float(op: FloatOp) -> u64 {
    let value = match op {
        FloatOp::Parse(text) => text.parse::<f64>().unwrap(),
        FloatOp::Mul(a, b) => f64::from_bits(a) * f64::from_bits(b),
        FloatOp::Div(a, b) => f64::from_bits(a) / f64::from_bits(b),
        FloatOp::Add(a, b) => f64::from_bits(a) + f64::from_bits(b),
        FloatOp::Sub(a, b) => f64::from_bits(a) - f64::from_bits(b),
        FloatOp::Neg(a) => -f64::from_bits(a),
    };
    value.to_bits()
}

fn texts_of(lines: &[Line]) -> Vec<String> {
    lines
        .iter()
        .map(|line| {
            line.iter()
                .map(|span| match &span.content {
                    Content::Text(t) => t.clone(),
                    Content::Float(bits) => format!("{:?}", f64::from_bits(*bits)),
                })
                .collect()
        })
        .collect()
}

#[test]
fn blank_lines_do_nothing() {
    let mut opts = EvalOptions::new();
    for line in ["", "   ", "\t\u{3000} "] {
        let out = eval_line(line, &ReplOptions::new(), 1, &mut opts, &float);
        assert_eq!(out.kind, LineKind::Blank);
        assert!(out.frames.is_empty() && out.unknown.is_empty());
    }
    assert_eq!(opts, EvalOptions::new());
}

#[test]
fn commands_set_the_options() {
    let mut opts = EvalOptions::new();
    let out = eval_line(":estimate=+lit,bin;verbose=1", &ReplOptions::new(), 1, &mut opts, &float);
    assert_eq!(out.kind, LineKind::Command);
    assert!(out.frames.is_empty());
    assert_eq!(out.unknown, [Unexpected { kind: UnexpectedKind::Key, arg: 0, range: 18..25 }]);
    assert_eq!(opts.estimate, EstimateContext { literal: true, paren: false, binary: true });
    // a command must start the line
    let out = eval_line(" :estimate=par", &ReplOptions::new(), 1, &mut opts, &float);
    assert_eq!(out.kind, LineKind::Expression);
    assert!(!opts.estimate.paren);
}

#[test]
fn expressions_are_framed() {
    let mut opts = EvalOptions::new();
    let out = eval_line("1 / 4", &ReplOptions::new(), 7, &mut opts, &float);
    assert_eq!(out.kind, LineKind::Expression);
    assert_eq!(
        texts_of(&out.frames),
        [
            "",
            " ╭─[stdin:7]",
            " │ ",
            " │ 1 / 4",
            " │ ─┬───",
            " │  ╰── {this:?}: 0.25",
            " │ ",
            " │ truth: 1/4",
            " │      = 0.25",
            " │ float: 0.25",
            " │      = 0.25",
            " ─╯",
        ]
    );
    let out = eval_line("1 / 0", &ReplOptions::new(), 8, &mut opts, &float);
    assert_eq!(
        texts_of(&out.frames),
        ["", " ╭─[stdin:8]", " │ ", " │ 1 / 0", " │ ─┬───", " │  ╰── divide by zero", " ─╯"]
    );
    let out = eval_line("1 +", &ReplOptions::new(), 9, &mut opts, &float);
    assert_eq!(texts_of(&out.frames)[..4], ["", " ╭─[stdin:9]", " │ ", " │ 1 +$"]);
    assert_eq!(texts_of(&out.frames).last().unwrap(), " ─╯");
}

#[test]
fn the_options_of_the_evaluation_say_what_is_reported() {
    let mut opts = EvalOptions::new();
    let frames = |repl: &ReplOptions, opts: &mut EvalOptions| {
        let out = eval_line("(1 + 2)", repl, 1, opts, &float);
        texts_of(&out.frames).iter().filter(|t| t.contains("{this:?}")).count()
    };
    assert_eq!(frames(&ReplOptions::new(), &mut opts), 1);
    assert_eq!(frames(&ReplOptions::default().with_each_expr(true), &mut opts), 1);
    assert_eq!(opts, EvalOptions::new());
    opts.set_estimate(vec!["lit".to_string()]);
    assert_eq!(frames(&ReplOptions::new().with_each_expr(false), &mut opts), 3);
    opts.set_estimate(vec!["par,bin".to_string()]);
    assert_eq!(frames(&ReplOptions::new(), &mut opts), 4);
}

#[test]
fn options_of_the_loop() {
    assert!(!ReplOptions::new().each_expr);
    assert_eq!(ReplOptions::default(), ReplOptions::new());
    assert!(ReplOptions::new().with_each_expr(true).each_expr);
    assert!(!ReplOptions::new().with_each_expr(true).with_each_expr(false).each_expr);
}

#[test]
fn the_greeting() {
    assert_eq!(PROLOGUE, r#"Welcome to feather REPL. Type ":help" for help."#);
}
