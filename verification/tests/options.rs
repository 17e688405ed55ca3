use feather_repl::ast::{EstimateContext, EvalContext, EvalOptions, ExprTy, FloatOp, Report};
use feather_repl::options::{Args, Unexpected, UnexpectedKind};
use feather_repl::parser::parse_line;

fn float(op: FloatOp) -> u64 {
    let value = match op {
        FloatOp::Parse(text) => text.parse::<f64>().unwrap(),
        FloatOp::Mul(a, b) => f64::from_bits(a) * f64::from_bits(b),
        FloatOp::Div(a, b) => f64::from_bits(a) / f64::from_bits(b),
        FloatOp::Add(a, b) => f64::from_bits(a) + f64::from_bits(b),
        FloatOp::Sub(a, b) => f64::from_bits(a) - f64::from_bits(b),
        FloatOp::Neg(a) => -f64::from_bits(a),
    };
    value.to_bits()
}

fn reported(s: &str, opts: &EvalOptions) -> Vec<(ExprTy, usize)> {
    let mut reports: Vec<Report> = Vec::new();
    let _ = parse_line(s).unwrap().eval(s, opts, 0, &float, &mut reports);
    reports.iter().map(|r| (r.context.expr_ty, r.context.depth)).collect()
}

fn flags(literal: bool, paren: bool, binary: bool) -> EstimateContext {
    EstimateContext { literal, paren, binary }
}

#[test]
fn root_is_always_estimated() {
    for literal in [false, true] {
        for paren in [false, true] {
            for binary in [false, true] {
                let opts = EvalOptions { estimate: flags(literal, paren, binary) };
                for expr_ty in [ExprTy::Literal, ExprTy::Paren, ExprTy::Binary] {
                    assert!(opts.do_estimate(&EvalContext { expr_ty, depth: 0 }));
                    let below = EvalContext { expr_ty, depth: 3 };
                    let flag = match expr_ty {
                        ExprTy::Literal => literal,
                        ExprTy::Paren => paren,
                        ExprTy::Binary => binary,
                    };
                    assert_eq!(opts.do_estimate(&below), flag);
                }
            }
        }
    }
}

#[test]
fn estimate_lit_and_bin() {
    let mut opts = EvalOptions::new();
    assert_eq!(opts.update("estimate=+lit,+bin"), []);
    assert_eq!(opts.estimate, flags(true, false, true));
    assert_eq!(
        reported("1+2", &opts),
        [(ExprTy::Literal, 1), (ExprTy::Literal, 1), (ExprTy::Binary, 0)]
    );
    assert_eq!(
        reported("(1+2)", &opts),
        [(ExprTy::Literal, 2), (ExprTy::Literal, 2), (ExprTy::Binary, 1), (ExprTy::Paren, 0)]
    );
    assert_eq!(
        reported("(1+2)*3", &opts),
        [(ExprTy::Literal, 3), (ExprTy::Literal, 3), (ExprTy::Binary, 2), (ExprTy::Literal, 1), (ExprTy::Binary, 0)]
    );
}

#[test]
fn estimate_without_bin() {
    let mut opts = EvalOptions::new();
    assert_eq!(opts.update("estimate=-bin"), []);
    assert_eq!(opts.estimate, flags(false, false, false));
    assert_eq!(reported("1+2", &opts), [(ExprTy::Binary, 0)]);
    let mut opts = EvalOptions { estimate: flags(true, true, true) };
    assert_eq!(opts.update("estimate=-bin"), []);
    assert_eq!(opts.estimate, flags(true, true, false));
}

#[test]
fn values_set_and_clear_flags_from_left_to_right() {
    let mut ctx = flags(false, false, false);
    assert_eq!(ctx.update(vec!["lit".to_string()]), []);
    assert_eq!(ctx, flags(true, false, false));
    assert_eq!(ctx.update(vec![" +par , bin ".to_string(), "-lit".to_string()]), []);
    assert_eq!(ctx, flags(false, true, true));
    assert_eq!(ctx.update(vec!["-par,par,-bin,+bin,-bin".to_string()]), []);
    assert_eq!(ctx, flags(false, true, false));
    assert_eq!(ctx.update(vec![]), []);
    assert_eq!(ctx, flags(false, true, false));

    let opts = EvalOptions::new().with_estimate(vec!["bin,nonsense".to_string(), "lit".to_string()]);
    assert_eq!(opts.estimate, flags(true, false, true));
}

#[test]
fn what_is_not_understood_is_passed_over() {
    let mut opts = EvalOptions::new();
    let unknown = opts.set_estimate(vec!["lit, all ,+bin,".to_string(), "".to_string(), "\u{3000}é ".to_string()]);
    assert_eq!(opts.estimate, flags(true, false, true));
    let value = |arg, range| Unexpected { kind: UnexpectedKind::Value, arg, range };
    assert_eq!(unknown, [value(0, 5..8), value(0, 15..15), value(1, 0..0), value(2, 3..5)]);

    let mut opts = EvalOptions::new();
    let unknown = opts.update(" estimate = par ; depth=3;estimate;estimate=+lit=1 ");
    assert_eq!(opts.estimate, flags(false, true, false));
    assert_eq!(
        unknown,
        [
            Unexpected { kind: UnexpectedKind::Key, arg: 0, range: 18..23 },
            Unexpected { kind: UnexpectedKind::Value, arg: 0, range: 34..34 },
            Unexpected { kind: UnexpectedKind::Value, arg: 0, range: 44..50 },
        ]
    );
}

#[test]
fn flags_as_bits() {
    let mut ctx = flags(false, false, false);
    assert_eq!(ctx.get_bits(), 0);
    ctx.set_bits(5);
    assert_eq!(ctx, flags(true, false, true));
    assert_eq!(ctx.get_bits(), 5);
    ctx.set_bits(!0);
    assert_eq!(ctx, flags(true, true, true));
    assert_eq!(ctx.get_bits(), 7);
    ctx.set_bits(2);
    assert_eq!(ctx, flags(false, true, false));
}

#[test]
fn the_command_line_gives_the_options() {
    let (opts, unknown) = Args { estimate: vec![] }.options();
    assert_eq!(opts, EvalOptions::new());
    assert_eq!(unknown, []);

    let args = Args { estimate: vec!["+lit,par".to_string(), "each".to_string(), "-lit,+bin".to_string()] };
    let (opts, unknown) = args.options();
    assert_eq!(opts.estimate, flags(false, true, true));
    assert_eq!(unknown, [Unexpected { kind: UnexpectedKind::Value, arg: 1, range: 0..4 }]);
}
