//! Expressions with the source ranges of their parts, and the options that
//! say which subexpressions are reported.

use crate::number::{
    integer_text, lemma_value_denominator, push_integer, scan_decimal, DecimalTuple,
};
use crate::rational::{
    lemma_eqv_transitive, lemma_minus_congruent, lemma_negated_congruent, lemma_over_congruent,
    lemma_plus_congruent, lemma_times_congruent, power_frac, Frac, Rational,
};
use std::ops::Range;
use vstd::arithmetic::power::lemma_pow_positive;
use vstd::prelude::*;
use vstd::string::StringSliceAdditionalSpecFns;
use vstd::utf8::encode_utf8;

verus! {

/// Which kinds of subexpression get an estimate frame of their own.
#[derive(Clone, Copy, Debug, Default, PartialEq, Eq, Structural)]
pub struct EstimateContext {
    pub literal: bool,
    pub paren: bool,
    pub binary: bool,
}

pub const CTX_LIT: u32 = 1;

pub const CTX_PAR: u32 = 2;

pub const CTX_BIN: u32 = 4;

impl EstimateContext {
    /// The flags as a bit set of `CTX_LIT`, `CTX_PAR` and `CTX_BIN`.
    pub open spec fn bits(self) -> u32 {
        (if self.literal {
            CTX_LIT
        } else {
            0
        }) | (if self.paren {
            CTX_PAR
        } else {
            0
        }) | (if self.binary {
            CTX_BIN
        } else {
            0
        })
    }

    /// Sets the three flags from a bit set.
    pub fn set_bits(&mut self, bits: u32)
        ensures
            final(self).literal == (bits & CTX_LIT != 0),
            final(self).paren == (bits & CTX_PAR != 0),
            final(self).binary == (bits & CTX_BIN != 0),
    {
        self.literal = bits & CTX_LIT != 0;
        self.paren = bits & CTX_PAR != 0;
        self.binary = bits & CTX_BIN != 0;
    }

    /// The three flags as a bit set.
    pub fn get_bits(&self) -> (r: u32)
        ensures
            r == self.bits(),
            r <= 7,
            (r & CTX_LIT != 0) == self.literal,
            (r & CTX_PAR != 0) == self.paren,
            (r & CTX_BIN != 0) == self.binary,
    {
        let lit: u32 = if self.literal {
            CTX_LIT
        } else {
            0
        };
        let par: u32 = if self.paren {
            CTX_PAR
        } else {
            0
        };
        let bin: u32 = if self.binary {
            CTX_BIN
        } else {
            0
        };
        let r = lit | par | bin;
        assert(r <= 7 && (r & 1 != 0) == (lit == 1) && (r & 2 != 0) == (par == 2) && (r & 4 != 0) == (
        bin == 4)) by (bit_vector)
            requires
                r == lit | par | bin,
                lit == 0 || lit == 1,
                par == 0 || par == 2,
                bin == 0 || bin == 4,
        ;
        r
    }
}

/// The kind of an expression, as far as reporting goes.
#[derive(Clone, Copy, Debug, PartialEq, Eq, Structural)]
pub enum ExprTy {
    Literal,
    Binary,
    Paren,
}

/// Where in the evaluation a node stands.
#[derive(Clone, Copy, Debug, PartialEq, Eq, Structural)]
pub struct EvalContext {
    pub expr_ty: ExprTy,
    /// Zero for the root.
    pub depth: usize,
}

/// Options of the evaluation.
#[derive(Clone, Copy, Debug, Default, PartialEq, Eq, Structural)]
pub struct EvalOptions {
    pub estimate: EstimateContext,
}

impl EvalOptions {
    /// Whether a node in the given context is reported: the root always,
    /// any other node if the flag of its kind is set.
    pub open spec fn estimates(self, ctx: EvalContext) -> bool {
        ctx.depth == 0 || match ctx.expr_ty {
            ExprTy::Literal => self.estimate.literal,
            ExprTy::Paren => self.estimate.paren,
            ExprTy::Binary => self.estimate.binary,
        }
    }

    /// No kind is reported but the root.
    pub fn new() -> (r: Self)
        ensures
            !r.estimate.literal,
            !r.estimate.paren,
            !r.estimate.binary,
    {
        EvalOptions { estimate: EstimateContext { literal: false, paren: false, binary: false } }
    }

    pub fn do_estimate(&self, ctx: &EvalContext) -> (r: bool)
        ensures
            r == self.estimates(*ctx),
    {
        if ctx.depth == 0 {
            return true;
        }
        match ctx.expr_ty {
            ExprTy::Literal => self.estimate.literal,
            ExprTy::Paren => self.estimate.paren,
            ExprTy::Binary => self.estimate.binary,
        }
    }
}

/// The root is reported whatever the options say.
pub proof fn lemma_root_is_estimated(opts: EvalOptions, ctx: EvalContext)
    requires
        ctx.depth == 0,
    ensures
        opts.estimates(ctx),
{
}

/// A literal as it was written: its digits with an explicit sign, and its
/// decimal exponent.
#[derive(Clone, Debug, PartialEq, Eq)]
pub struct LitComponent {
    pub digits: String,
    pub exponent: i32,
}

impl LitComponent {
    pub fn new(digits: String, exponent: i32) -> (r: Self)
        ensures
            r.digits == digits,
            r.exponent == exponent,
    {
        Self { digits, exponent }
    }

    /// The exact value of the literal: what its digits show, times ten to
    /// its exponent.
    pub fn eval(&self) -> (r: Rational)
        requires
            literal_value(self@) is Some,
        ensures
            r.wf(),
            r@.eqv(literal_value(self@)->0),
    {
        match DecimalTuple::read_parts(self.digits.as_str()) {
            Ok(parts) => {
                let base = DecimalTuple::to_rational(
                    parts.sign,
                    &parts.int_part,
                    &parts.frac_once,
                    &parts.frac_rep,
                );
                let scale = Rational::power_of_ten(self.exponent);
                let r = base.mul(&scale);
                proof {
                    let shown = parts@.value();
                    let power = power_frac(10, self.exponent as int);
                    lemma_times_congruent(base@, shown, scale@, power);
                    let mid = base@.times(scale@);
                    assert(mid.den != 0) by (nonlinear_arith)
                        requires
                            mid.den == base@.den * scale@.den,
                            base@.den >= 1,
                            scale@.den >= 1,
                    ;
                    lemma_eqv_transitive(r@, mid, shown.times(power));
                }
                r
            },
            Err(_) => {
                assert(false);
                Rational::zero()
            },
        }
    }

    /// The text `<digits>E<exponent>`, from which the binary approximation
    /// of the literal is read.
    pub fn float_text(&self) -> (r: String)
        ensures
            r@ == float_text(self@),
    {
        let mut out = self.digits.clone();
        out.push('E');
        push_integer(&mut out, self.exponent as i64);
        proof {
            assert(out@ =~= float_text(self@));
        }
        out
    }
}

/// The text `<digits>E<exponent>` of a literal.
pub open spec fn float_text(lit: LitView) -> Seq<char> {
    lit.digits + seq!['E'] + integer_text(lit.exponent as int)
}

/// The exact value of a literal, where its digits are those of a decimal.
pub open spec fn literal_value(lit: LitView) -> Option<Frac> {
    match scan_decimal(encode_utf8(lit.digits)) {
        Some(t) => Some(t.view().value().times(power_frac(10, lit.exponent as int))),
        None => None,
    }
}

/// A binary operator.
#[derive(Clone, Copy, Debug, PartialEq, Eq, Structural)]
pub enum Operator {
    Mul,
    Div,
    Add,
    Sub,
}

impl Operator {
    /// The result of the operator on two fractions.
    pub open spec fn apply(self, a: Frac, b: Frac) -> Frac {
        match self {
            Operator::Mul => a.times(b),
            Operator::Div => a.over(b),
            Operator::Add => a.plus(b),
            Operator::Sub => a.minus(b),
        }
    }

    /// The value of a binary expression with the given span, from what
    /// its operands evaluate to: the first failure of an operand, a
    /// division by zero, or the result of the operator.
    pub open spec fn combine(
        self,
        lhs: Result<Frac, Range<usize>>,
        rhs: Result<Frac, Range<usize>>,
        span: Range<usize>,
    ) -> Result<Frac, Range<usize>> {
        match (lhs, rhs) {
            (Err(r), _) => Err(r),
            (_, Err(r)) => Err(r),
            (Ok(a), Ok(b)) => if self is Div && b.num == 0 {
                Err(span)
            } else {
                Ok(self.apply(a, b))
            },
        }
    }

    /// The floating-point work that stands for the operator on two
    /// approximations.
    pub open spec fn float_op(self, a: u64, b: u64) -> FloatOp {
        match self {
            Operator::Mul => FloatOp::Mul(a, b),
            Operator::Div => FloatOp::Div(a, b),
            Operator::Add => FloatOp::Add(a, b),
            Operator::Sub => FloatOp::Sub(a, b),
        }
    }

    /// Applies the operator exactly; `None` for a division by zero.
    fn exact(self, lq: &Rational, rq: &Rational, Ghost(a): Ghost<Frac>, Ghost(b): Ghost<Frac>) -> (r:
        Option<Rational>)
        requires
            lq.wf(),
            rq.wf(),
            lq@.eqv(a),
            rq@.eqv(b),
            a.den != 0,
            b.den != 0,
        ensures
            r is None <==> self is Div && b.num == 0,
            r matches Some(q) ==> q.wf() && q@.eqv(self.apply(a, b)) && self.apply(a, b).den != 0,
    {
        proof {
            lemma_zero_iff(rq@, b);
            lemma_product_nonzero(lq@.den, rq@.den);
            lemma_product_nonzero(a.den, b.den);
        }
        match self {
            Operator::Mul => {
                let q = lq.mul(rq);
                proof {
                    lemma_times_congruent(lq@, a, rq@, b);
                    lemma_eqv_transitive(q@, lq@.times(rq@), a.times(b));
                }
                Some(q)
            },
            Operator::Div => {
                if rq.is_zero() {
                    return None;
                }
                let q = lq.div(rq);
                proof {
                    lemma_over_congruent(lq@, a, rq@, b);
                    lemma_product_nonzero(lq@.den, rq@.num);
                    lemma_product_nonzero(a.den, b.num);
                    lemma_eqv_transitive(q@, lq@.over(rq@), a.over(b));
                }
                Some(q)
            },
            Operator::Add => {
                let q = lq.add(rq);
                proof {
                    lemma_plus_congruent(lq@, a, rq@, b);
                    lemma_eqv_transitive(q@, lq@.plus(rq@), a.plus(b));
                }
                Some(q)
            },
            Operator::Sub => {
                let q = lq.sub(rq);
                proof {
                    lemma_minus_congruent(lq@, a, rq@, b);
                    lemma_eqv_transitive(q@, lq@.minus(rq@), a.minus(b));
                }
                Some(q)
            },
        }
    }
}

/// A piece of floating-point work that the evaluation asks for. Floats are
/// passed as the bit patterns of their IEEE-754 binary64 encoding.
#[derive(Debug, PartialEq, Eq)]
pub enum FloatOp {
    /// The float nearest to what the text shows.
    Parse(String),
    Mul(u64, u64),
    Div(u64, u64),
    Add(u64, u64),
    Sub(u64, u64),
    Neg(u64),
}

/// The exact value and the approximation of a subexpression that is to be
/// reported.
#[derive(Debug, PartialEq, Eq)]
pub struct Report {
    pub value: Rational,
    /// The bit pattern of the binary64 approximation.
    pub approx: u64,
    pub range: Range<usize>,
    pub context: EvalContext,
}

/// What a report says of a subexpression, without the approximation.
pub struct ReportView {
    /// The subexpression.
    pub node: Syntax,
    pub value: Frac,
    pub range: Range<usize>,
    pub expr_ty: ExprTy,
    pub depth: nat,
}

/// `bits` is what the floating-point work of `float` gives for the
/// expression: for a literal what it reads from the text of the literal,
/// for an operator what it gives for the approximations of the operands.
pub open spec fn approximates<F: Fn(FloatOp) -> u64>(float: F, e: Syntax, bits: u64) -> bool
    decreases e,
{
    match e {
        Syntax::Literal(lit, _) => exists|text: String|
            text@ == float_text(lit) && #[trigger] call_ensures(float, (FloatOp::Parse(text),), bits),
        Syntax::Mul(lhs, rhs, _) => exists|a: u64, b: u64|
            approximates(float, *lhs, a) && approximates(float, *rhs, b) && #[trigger] call_ensures(
                float,
                (FloatOp::Mul(a, b),),
                bits,
            ),
        Syntax::Div(lhs, rhs, _) => exists|a: u64, b: u64|
            approximates(float, *lhs, a) && approximates(float, *rhs, b) && #[trigger] call_ensures(
                float,
                (FloatOp::Div(a, b),),
                bits,
            ),
        Syntax::Add(lhs, rhs, _) => exists|a: u64, b: u64|
            approximates(float, *lhs, a) && approximates(float, *rhs, b) && #[trigger] call_ensures(
                float,
                (FloatOp::Add(a, b),),
                bits,
            ),
        Syntax::Sub(lhs, rhs, _) => exists|a: u64, b: u64|
            approximates(float, *lhs, a) && approximates(float, *rhs, b) && #[trigger] call_ensures(
                float,
                (FloatOp::Sub(a, b),),
                bits,
            ),
        Syntax::Paren(inner, _) => approximates(float, *inner, bits),
        Syntax::NegParen(inner, _) => exists|a: u64|
            approximates(float, *inner, a) && #[trigger] call_ensures(float, (FloatOp::Neg(a),), bits),
    }
}

/// The report shows the value that the view gives, for the same range and
/// context, and the approximation that `float` gives for the
/// subexpression.
pub open spec fn report_matches<F: Fn(FloatOp) -> u64>(r: Report, v: ReportView, float: F) -> bool {
    &&& r.value.wf()
    &&& r.value@.eqv(v.value)
    &&& approximates(float, v.node, r.approx)
    &&& r.range == v.range
    &&& r.context.expr_ty == v.expr_ty
    &&& r.context.depth == v.depth
}

/// `new` is `old` followed by reports that match `views`, one by one.
pub open spec fn reports_extend<F: Fn(FloatOp) -> u64>(
    new: Seq<Report>,
    old: Seq<Report>,
    views: Seq<ReportView>,
    float: F,
) -> bool {
    &&& new.len() == old.len() + views.len()
    &&& forall|i: int| 0 <= i < old.len() ==> new[i] == old[i]
    &&& forall|i: int|
        0 <= i < views.len() ==> report_matches(#[trigger] new[old.len() + i], views[i], float)
}

pub proof fn lemma_reports_extend_twice<F: Fn(FloatOp) -> u64>(
    new: Seq<Report>,
    mid: Seq<Report>,
    old: Seq<Report>,
    a: Seq<ReportView>,
    b: Seq<ReportView>,
    float: F,
)
    requires
        reports_extend(mid, old, a, float),
        reports_extend(new, mid, b, float),
    ensures
        reports_extend(new, old, a + b, float),
{
    assert forall|i: int| 0 <= i < (a + b).len() implies report_matches(
        #[trigger] new[old.len() + i],
        (a + b)[i],
        float,
    ) by {
        if i < a.len() {
            assert(new[old.len() + i] == mid[old.len() + i]);
        } else {
            assert(new[mid.len() + (i - a.len())] == new[old.len() + i]);
        }
    }
}

/// An expression. Every node carries a range of byte offsets into the
/// text it was read from: a literal its own text, a binary node its
/// operator, a parenthesized node everything from the opening to the closing
/// parenthesis (and the minus sign before it, where it is negated).
#[derive(Debug, PartialEq, Eq)]
pub enum Expr {
    Literal(LitComponent, Range<usize>),
    Mul(Box<Expr>, Box<Expr>, Range<usize>),
    Div(Box<Expr>, Box<Expr>, Range<usize>),
    Add(Box<Expr>, Box<Expr>, Range<usize>),
    Sub(Box<Expr>, Box<Expr>, Range<usize>),
    Paren(Box<Expr>, Range<usize>),
    NegParen(Box<Expr>, Range<usize>),
}

/// The mathematical content of a [`LitComponent`].
pub struct LitView {
    pub digits: Seq<char>,
    pub exponent: i32,
}

impl View for LitComponent {
    type V = LitView;

    open spec fn view(&self) -> LitView {
        LitView { digits: self.digits@, exponent: self.exponent }
    }
}

/// The mathematical content of an [`Expr`].
pub enum Syntax {
    Literal(LitView, Range<usize>),
    Mul(Box<Syntax>, Box<Syntax>, Range<usize>),
    Div(Box<Syntax>, Box<Syntax>, Range<usize>),
    Add(Box<Syntax>, Box<Syntax>, Range<usize>),
    Sub(Box<Syntax>, Box<Syntax>, Range<usize>),
    Paren(Box<Syntax>, Range<usize>),
    NegParen(Box<Syntax>, Range<usize>),
}

impl Expr {
    /// The mathematical content of the expression.
    pub open spec fn syntax(self) -> Syntax
        decreases self,
    {
        match self {
            Expr::Literal(lit, range) => Syntax::Literal(lit@, range),
            Expr::Mul(lhs, rhs, range) => Syntax::Mul(
                Box::new((*lhs).syntax()),
                Box::new((*rhs).syntax()),
                range,
            ),
            Expr::Div(lhs, rhs, range) => Syntax::Div(
                Box::new((*lhs).syntax()),
                Box::new((*rhs).syntax()),
                range,
            ),
            Expr::Add(lhs, rhs, range) => Syntax::Add(
                Box::new((*lhs).syntax()),
                Box::new((*rhs).syntax()),
                range,
            ),
            Expr::Sub(lhs, rhs, range) => Syntax::Sub(
                Box::new((*lhs).syntax()),
                Box::new((*rhs).syntax()),
                range,
            ),
            Expr::Paren(inner, range) => Syntax::Paren(Box::new((*inner).syntax()), range),
            Expr::NegParen(inner, range) => Syntax::NegParen(Box::new((*inner).syntax()), range),
        }
    }
}

impl View for Expr {
    type V = Syntax;

    open spec fn view(&self) -> Syntax {
        self.syntax()
    }
}

impl Syntax {
    /// The range of source text that the expression covers: a literal its
    /// text, a binary expression everything from the start of its left
    /// operand to the end of its right one, a parenthesized expression
    /// its outer extent.
    pub open spec fn span(self) -> Range<usize>
        decreases self,
    {
        match self {
            Syntax::Literal(_, range) => range,
            Syntax::Mul(lhs, rhs, _) => Range { start: lhs.span().start, end: rhs.span().end },
            Syntax::Div(lhs, rhs, _) => Range { start: lhs.span().start, end: rhs.span().end },
            Syntax::Add(lhs, rhs, _) => Range { start: lhs.span().start, end: rhs.span().end },
            Syntax::Sub(lhs, rhs, _) => Range { start: lhs.span().start, end: rhs.span().end },
            Syntax::Paren(_, range) => range,
            Syntax::NegParen(_, range) => range,
        }
    }

    /// The ranges are those of an expression read from the text `s`: each
    /// is a token of the text, each part lies inside its whole, and the
    /// parts of a binary expression come in the order operand, operator,
    /// operand.
    pub open spec fn wf(self, s: Seq<u8>) -> bool
        decreases self,
    {
        match self {
            Syntax::Literal(_, range) => is_token(s, range),
            Syntax::Mul(lhs, rhs, op) | Syntax::Div(lhs, rhs, op) | Syntax::Add(lhs, rhs, op)
            | Syntax::Sub(lhs, rhs, op) => {
                &&& lhs.wf(s)
                &&& rhs.wf(s)
                &&& lhs.span().end <= op.start
                &&& is_token(s, op)
                &&& op.end <= rhs.span().start
            },
            Syntax::Paren(inner, range) => {
                &&& inner.wf(s)
                &&& is_token(s, range)
                &&& range.start < inner.span().start
                &&& inner.span().end < range.end
            },
            Syntax::NegParen(inner, range) => {
                &&& inner.wf(s)
                &&& is_token(s, range)
                &&& range.start + 1 < inner.span().start
                &&& inner.span().end < range.end
            },
        }
    }

    /// Every literal shows a decimal.
    pub open spec fn literals_valid(self) -> bool
        decreases self,
    {
        match self {
            Syntax::Literal(lit, _) => literal_value(lit) is Some,
            Syntax::Mul(lhs, rhs, _) | Syntax::Div(lhs, rhs, _) | Syntax::Add(lhs, rhs, _) | Syntax::Sub(
                lhs,
                rhs,
                _,
            ) => lhs.literals_valid() && rhs.literals_valid(),
            Syntax::Paren(inner, _) | Syntax::NegParen(inner, _) => inner.literals_valid(),
        }
    }

    /// The kind of the root.
    pub open spec fn kind(self) -> ExprTy {
        match self {
            Syntax::Literal(_, _) => ExprTy::Literal,
            Syntax::Paren(_, _) | Syntax::NegParen(_, _) => ExprTy::Paren,
            _ => ExprTy::Binary,
        }
    }

    /// The exact value of the expression, or the range of the first
    /// division by zero. Operands are evaluated from left to right, and both
    /// before the operator is applied.
    pub open spec fn value(self) -> Result<Frac, Range<usize>>
        decreases self,
    {
        match self {
            Syntax::Literal(lit, _) => Ok(literal_value(lit)->0),
            Syntax::Mul(lhs, rhs, _) => Operator::Mul.combine(lhs.value(), rhs.value(), self.span()),
            Syntax::Div(lhs, rhs, _) => Operator::Div.combine(lhs.value(), rhs.value(), self.span()),
            Syntax::Add(lhs, rhs, _) => Operator::Add.combine(lhs.value(), rhs.value(), self.span()),
            Syntax::Sub(lhs, rhs, _) => Operator::Sub.combine(lhs.value(), rhs.value(), self.span()),
            Syntax::Paren(inner, _) => inner.value(),
            Syntax::NegParen(inner, _) => match inner.value() {
                Err(r) => Err(r),
                Ok(a) => Ok(a.negated()),
            },
        }
    }

    /// What the evaluation of the operands reports: for a binary
    /// expression the reports of the left operand and then, unless that has
    /// no value, those of the right one.
    pub open spec fn below(self, opts: EvalOptions, depth: nat) -> Seq<ReportView>
        decreases self, 0int,
    {
        match self {
            Syntax::Literal(_, _) => Seq::empty(),
            Syntax::Mul(lhs, rhs, _) | Syntax::Div(lhs, rhs, _) | Syntax::Add(lhs, rhs, _) | Syntax::Sub(
                lhs,
                rhs,
                _,
            ) => if lhs.value() is Err {
                lhs.reports(opts, depth + 1)
            } else {
                lhs.reports(opts, depth + 1) + rhs.reports(opts, depth + 1)
            },
            Syntax::Paren(inner, _) | Syntax::NegParen(inner, _) => inner.reports(opts, depth + 1),
        }
    }

    /// What the evaluation at the given depth reports, in order: the
    /// reports of the operands, then that of the node itself if it has a
    /// value and the options say so. After a division by zero nothing more
    /// is reported.
    pub open spec fn reports(self, opts: EvalOptions, depth: nat) -> Seq<ReportView>
        decreases self, 1int,
    {
        let below = self.below(opts, depth);
        match self.value() {
            Ok(value) => if opts.estimates(EvalContext { expr_ty: self.kind(), depth: depth as usize }) {
                below.push(
                    ReportView { node: self, value, range: self.span(), expr_ty: self.kind(), depth },
                )
            } else {
                below
            },
            Err(_) => below,
        }
    }

    /// The number of nodes on the longest path from the root to a literal.
    pub open spec fn height(self) -> nat
        decreases self,
    {
        match self {
            Syntax::Literal(_, _) => 1,
            Syntax::Mul(lhs, rhs, _) | Syntax::Div(lhs, rhs, _) | Syntax::Add(lhs, rhs, _) | Syntax::Sub(
                lhs,
                rhs,
                _,
            ) => 1 + if lhs.height() >= rhs.height() {
                lhs.height()
            } else {
                rhs.height()
            },
            Syntax::Paren(inner, _) | Syntax::NegParen(inner, _) => 1 + inner.height(),
        }
    }
}

/// The range is not empty, lies within the text, and begins and ends with
/// an ASCII character, as every token of the grammar does.
pub open spec fn is_token(s: Seq<u8>, range: Range<usize>) -> bool {
    &&& range.start < range.end <= s.len()
    &&& s[range.start as int] <= 127
    &&& s[range.end - 1] <= 127
}

/// The range that a well-formed expression covers is not empty, lies
/// within the text, and begins and ends as a token does; that of a binary
/// expression covers the ranges of both operands.
pub proof fn lemma_span_well_formed(e: Syntax, s: Seq<u8>)
    requires
        e.wf(s),
    ensures
        is_token(s, e.span()),
        match e {
            Syntax::Mul(lhs, rhs, _) | Syntax::Div(lhs, rhs, _) | Syntax::Add(lhs, rhs, _) | Syntax::Sub(
                lhs,
                rhs,
                _,
            ) => {
                &&& e.span().start == lhs.span().start
                &&& lhs.span().end <= rhs.span().start
                &&& rhs.span().end == e.span().end
            },
            _ => true,
        },
    decreases e,
{
    match e {
        Syntax::Literal(_, _) => {},
        Syntax::Mul(lhs, rhs, _) | Syntax::Div(lhs, rhs, _) | Syntax::Add(lhs, rhs, _) | Syntax::Sub(
            lhs,
            rhs,
            _,
        ) => {
            lemma_span_well_formed(*lhs, s);
            lemma_span_well_formed(*rhs, s);
        },
        Syntax::Paren(inner, _) => {
            lemma_span_well_formed(*inner, s);
        },
        Syntax::NegParen(inner, _) => {
            lemma_span_well_formed(*inner, s);
        },
    }
}

/// What an evaluation gives: the exact value with its approximation, and
/// the range of source text.
pub open spec fn evaluates_to(
    r: Result<((Rational, u64), Range<usize>), EvalError>,
    value: Result<Frac, Range<usize>>,
    span: Range<usize>,
) -> bool {
    match value {
        Ok(v) => {
            &&& r matches Ok(((q, _), range))
            &&& q.wf()
            &&& q@.eqv(v)
            &&& v.den != 0
            &&& range == span
        },
        Err(range) => r matches Err(EvalError::ZeroDivision(x)) && x == range,
    }
}

impl Expr {
    /// The kind of the root.
    pub fn kind(&self) -> (r: ExprTy)
        ensures
            r == self@.kind(),
    {
        match self {
            Expr::Literal(_, _) => ExprTy::Literal,
            Expr::Paren(_, _) | Expr::NegParen(_, _) => ExprTy::Paren,
            _ => ExprTy::Binary,
        }
    }

    /// Evaluates the expression exactly, and in floating point through
    /// `float`, which does the floating-point work.
    ///
    /// Gives the exact value, the approximation and the range of source
    /// text that the expression covers, or the first division by zero. The
    /// subexpressions that the options select, and the root, are appended
    /// to `reports` in the order in which they get their value. `depth` is
    /// zero for the root.
    ///
    /// The evaluation recurses as deep as the expression is nested, which
    /// is no deeper than the text is long; see [`lemma_height_bound`].
    pub fn eval<F: Fn(FloatOp) -> u64>(
        self,
        s: &str,
        opts: &EvalOptions,
        depth: usize,
        float: &F,
        reports: &mut Vec<Report>,
    ) -> (r: Result<((Rational, u64), Range<usize>), EvalError>)
        requires
            self@.wf(s.spec_bytes()),
            self@.literals_valid(),
            depth + self@.height() <= usize::MAX,
            forall|op: FloatOp| call_requires(*float, (op,)),
        ensures
            evaluates_to(r, self@.value(), self@.span()),
            r matches Ok(((_, bits), _)) ==> approximates(*float, self@, bits),
            match r {
                Ok((_, range)) => is_token(s.spec_bytes(), range),
                Err(EvalError::ZeroDivision(range)) => is_token(s.spec_bytes(), range),
            },
            reports_extend(
                final(reports)@,
                old(reports)@,
                self@.reports(*opts, depth as nat),
                *float,
            ),
        decreases self@.height(), 2int,
    {
        let ghost syntax = self@;
        proof {
            lemma_span_well_formed(syntax, s.spec_bytes());
            lemma_value_range(syntax, s.spec_bytes());
        }
        let ghost before = reports@;
        let context = EvalContext { expr_ty: self.kind(), depth };
        match self.eval_node(s, opts, depth, float, reports) {
            Err(e) => Err(e),
            Ok(((value, approx), range)) => {
                if opts.do_estimate(&context) {
                    let ghost below = reports@;
                    let own = Report {
                        value: value.duplicate(),
                        approx,
                        range: Range { start: range.start, end: range.end },
                        context,
                    };
                    reports.push(own);
                    proof {
                        let views = syntax.reports(*opts, depth as nat);
                        let inner = syntax.below(*opts, depth as nat);
                        assert(views == inner.push(views.last()));
                        assert forall|i: int| 0 <= i < views.len() implies report_matches(
                            #[trigger] reports@[before.len() + i],
                            views[i],
                            *float,
                        ) by {
                            if i < inner.len() {
                                assert(reports@[before.len() + i] == below[before.len() + i]);
                            }
                        }
                    }
                }
                Ok(((value, approx), range))
            },
        }
    }

    /// The evaluation without the report of the root.
    fn eval_node<F: Fn(FloatOp) -> u64>(
        self,
        s: &str,
        opts: &EvalOptions,
        depth: usize,
        float: &F,
        reports: &mut Vec<Report>,
    ) -> (r: Result<((Rational, u64), Range<usize>), EvalError>)
        requires
            self@.wf(s.spec_bytes()),
            self@.literals_valid(),
            depth + self@.height() <= usize::MAX,
            forall|op: FloatOp| call_requires(*float, (op,)),
        ensures
            evaluates_to(r, self@.value(), self@.span()),
            r matches Ok(((_, bits), _)) ==> approximates(*float, self@, bits),
            reports_extend(final(reports)@, old(reports)@, self@.below(*opts, depth as nat), *float),
        decreases self@.height(), 1int,
    {
        match self {
            Expr::Literal(lit, range) => {
                let value = lit.eval();
                let approx = float(FloatOp::Parse(lit.float_text()));
                proof {
                    lemma_literal_denominator(lit@);
                }
                Ok(((value, approx), range))
            },
            Expr::Mul(lhs, rhs, _) => Self::eval_binary(
                Operator::Mul,
                *lhs,
                *rhs,
                s,
                opts,
                depth,
                float,
                reports,
            ),
            Expr::Div(lhs, rhs, _) => Self::eval_binary(
                Operator::Div,
                *lhs,
                *rhs,
                s,
                opts,
                depth,
                float,
                reports,
            ),
            Expr::Add(lhs, rhs, _) => Self::eval_binary(
                Operator::Add,
                *lhs,
                *rhs,
                s,
                opts,
                depth,
                float,
                reports,
            ),
            Expr::Sub(lhs, rhs, _) => Self::eval_binary(
                Operator::Sub,
                *lhs,
                *rhs,
                s,
                opts,
                depth,
                float,
                reports,
            ),
            Expr::Paren(inner, range) => {
                match (*inner).eval(s, opts, depth + 1, float, reports) {
                    Err(e) => Err(e),
                    Ok((value, _)) => Ok((value, range)),
                }
            },
            Expr::NegParen(inner, range) => {
                let ghost i = inner@;
                match (*inner).eval(s, opts, depth + 1, float, reports) {
                    Err(e) => Err(e),
                    Ok(((q, a), _)) => {
                        let value = q.neg();
                        proof {
                            lemma_negated_congruent(q@, i.value()->Ok_0);
                        }
                        Ok(((value, float(FloatOp::Neg(a))), range))
                    },
                }
            },
        }
    }

    /// The evaluation of a binary expression from its operands.
    fn eval_binary<F: Fn(FloatOp) -> u64>(
        op: Operator,
        lhs: Expr,
        rhs: Expr,
        s: &str,
        opts: &EvalOptions,
        depth: usize,
        float: &F,
        reports: &mut Vec<Report>,
    ) -> (r: Result<((Rational, u64), Range<usize>), EvalError>)
        requires
            lhs@.wf(s.spec_bytes()),
            rhs@.wf(s.spec_bytes()),
            lhs@.literals_valid(),
            rhs@.literals_valid(),
            depth + 1 + lhs@.height() <= usize::MAX,
            depth + 1 + rhs@.height() <= usize::MAX,
            forall|op: FloatOp| call_requires(*float, (op,)),
        ensures
            evaluates_to(
                r,
                op.combine(
                    lhs@.value(),
                    rhs@.value(),
                    Range { start: lhs@.span().start, end: rhs@.span().end },
                ),
                Range { start: lhs@.span().start, end: rhs@.span().end },
            ),
            r matches Ok(((_, bits), _)) ==> exists|a: u64, b: u64|
                approximates(*float, lhs@, a) && approximates(*float, rhs@, b) && #[trigger] call_ensures(
                    *float,
                    (op.float_op(a, b),),
                    bits,
                ),
            reports_extend(
                final(reports)@,
                old(reports)@,
                if lhs@.value() is Err {
                    lhs@.reports(*opts, (depth + 1) as nat)
                } else {
                    lhs@.reports(*opts, (depth + 1) as nat) + rhs@.reports(
                        *opts,
                        (depth + 1) as nat,
                    )
                },
                *float,
            ),
        decreases
                1 + if lhs@.height() >= rhs@.height() {
                    lhs@.height()
                } else {
                    rhs@.height()
                },
                0int,
    {
        let ghost (lv, rv) = (lhs@, rhs@);
        let ghost before = reports@;
        let ((lq, la), lr) = match lhs.eval(s, opts, depth + 1, float, reports) {
            Err(e) => {
                return Err(e);
            },
            Ok(x) => x,
        };
        let ghost mid = reports@;
        let right = rhs.eval(s, opts, depth + 1, float, reports);
        proof {
            lemma_reports_extend_twice(
                reports@,
                mid,
                before,
                lv.reports(*opts, (depth + 1) as nat),
                rv.reports(*opts, (depth + 1) as nat),
                *float,
            );
        }
        let ((rq, ra), rr) = match right {
            Err(e) => {
                return Err(e);
            },
            Ok(x) => x,
        };
        let range = Range { start: lr.start, end: rr.end };
        let value = match op.exact(&lq, &rq, Ghost(lv.value()->Ok_0), Ghost(rv.value()->Ok_0)) {
            None => {
                return Err(EvalError::ZeroDivision(range));
            },
            Some(value) => value,
        };
        let approx = match op {
            Operator::Mul => float(FloatOp::Mul(la, ra)),
            Operator::Div => float(FloatOp::Div(la, ra)),
            Operator::Add => float(FloatOp::Add(la, ra)),
            Operator::Sub => float(FloatOp::Sub(la, ra)),
        };
        let out: Result<((Rational, u64), Range<usize>), EvalError> = Ok(((value, approx), range));
        proof {
            assert(call_ensures(*float, (op.float_op(la, ra),), out->Ok_0.0.1));
        }
        out
    }
}

/// The value of a literal is a fraction with a positive denominator.
pub proof fn lemma_literal_denominator(lit: LitView)
    requires
        literal_value(lit) is Some,
    ensures
        literal_value(lit)->0.den > 0,
{
    let t = scan_decimal(encode_utf8(lit.digits))->0;
    lemma_value_denominator(t.view());
    let shown = t.view().value();
    let power = power_frac(10, lit.exponent as int);
    if lit.exponent < 0 {
        lemma_pow_positive(10, (-(lit.exponent as int)) as nat);
    }
    assert(shown.den * power.den > 0) by (nonlinear_arith)
        requires
            shown.den > 0,
            power.den > 0,
    ;
}

pub proof fn lemma_product_nonzero(a: int, b: int)
    requires
        a != 0,
        b != 0,
    ensures
        a * b != 0,
{
    assert(a * b != 0) by (nonlinear_arith)
        requires
            a != 0,
            b != 0,
    ;
}

/// Fractions that denote the same number are zero together.
pub proof fn lemma_zero_iff(a: Frac, b: Frac)
    requires
        a.eqv(b),
        a.den != 0,
        b.den != 0,
    ensures
        a.num == 0 <==> b.num == 0,
{
    assert(a.num == 0 <==> b.num == 0) by (nonlinear_arith)
        requires
            a.num * b.den == b.num * a.den,
            a.den != 0,
            b.den != 0,
    ;
}

/// A well-formed expression is no higher than the text it covers is
/// long.
pub proof fn lemma_height_bound(e: Syntax, s: Seq<u8>)
    requires
        e.wf(s),
    ensures
        e.height() <= e.span().end - e.span().start,
        e.height() <= s.len(),
    decreases e,
{
    lemma_span_well_formed(e, s);
    match e {
        Syntax::Literal(_, _) => {},
        Syntax::Mul(lhs, rhs, _) | Syntax::Div(lhs, rhs, _) | Syntax::Add(lhs, rhs, _) | Syntax::Sub(
            lhs,
            rhs,
            _,
        ) => {
            lemma_height_bound(*lhs, s);
            lemma_height_bound(*rhs, s);
            lemma_span_well_formed(*lhs, s);
            lemma_span_well_formed(*rhs, s);
        },
        Syntax::Paren(inner, _) | Syntax::NegParen(inner, _) => {
            lemma_height_bound(*inner, s);
            lemma_span_well_formed(*inner, s);
        },
    }
}

/// The range of a division by zero is the range of a subexpression, and so
/// a token of the text.
pub proof fn lemma_value_range(e: Syntax, s: Seq<u8>)
    requires
        e.wf(s),
    ensures
        e.value() matches Err(range) ==> is_token(s, range),
    decreases e,
{
    lemma_span_well_formed(e, s);
    match e {
        Syntax::Literal(_, _) => {},
        Syntax::Mul(lhs, rhs, _) | Syntax::Div(lhs, rhs, _) | Syntax::Add(lhs, rhs, _) | Syntax::Sub(
            lhs,
            rhs,
            _,
        ) => {
            lemma_value_range(*lhs, s);
            lemma_value_range(*rhs, s);
        },
        Syntax::Paren(inner, _) | Syntax::NegParen(inner, _) => {
            lemma_value_range(*inner, s);
        },
    }
}

/// What is reported is a well-formed subexpression that the options
/// select, with its value, its kind and its range, which is that of a
/// token of the text.
pub proof fn lemma_reports_sound(e: Syntax, s: Seq<u8>, opts: EvalOptions, depth: nat, i: int)
    requires
        e.wf(s),
        depth + e.height() <= usize::MAX,
        0 <= i < e.reports(opts, depth).len(),
    ensures
        ({
            let v = e.reports(opts, depth)[i];
            &&& v.node.wf(s)
            &&& v.node.value() == Ok::<Frac, Range<usize>>(v.value)
            &&& v.expr_ty == v.node.kind()
            &&& v.range == v.node.span()
            &&& v.depth <= usize::MAX
            &&& opts.estimates(EvalContext { expr_ty: v.expr_ty, depth: v.depth as usize })
            &&& is_token(s, v.range)
        }),
    decreases e,
{
    lemma_span_well_formed(e, s);
    let below = e.below(opts, depth);
    if i < below.len() {
        match e {
            Syntax::Literal(_, _) => {},
            Syntax::Mul(lhs, rhs, _) | Syntax::Div(lhs, rhs, _) | Syntax::Add(lhs, rhs, _)
            | Syntax::Sub(lhs, rhs, _) => {
                let left = lhs.reports(opts, depth + 1);
                if i < left.len() {
                    lemma_reports_sound(*lhs, s, opts, depth + 1, i);
                } else {
                    lemma_reports_sound(*rhs, s, opts, depth + 1, i - left.len());
                }
            },
            Syntax::Paren(inner, _) | Syntax::NegParen(inner, _) => {
                lemma_reports_sound(*inner, s, opts, depth + 1, i);
            },
        }
    }
}

/// Why an expression has no value.
#[derive(Debug, PartialEq, Eq)]
pub enum EvalError {
    /// A division by zero, with the range of the quotient.
    ZeroDivision(Range<usize>),
}

} // verus!
