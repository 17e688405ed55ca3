//! The grammar of expressions.
//!
//! ```text
//! line    := _ expr _ EOF
//! expr    := term   (_ ('+'|'-') _ term)*        -- left associative
//! term    := factor (_ ('*'|'/') _ factor)*      -- left associative
//! factor  := literal
//!          | '(' _ expr _ ')'
//!          | '-' _ '(' _ expr _ ')'
//! literal := '-'? digits ('.' digits)? ([eE] [+-]? digits)?
//! digits  := [0-9]+
//! ```
//!
//! `_` is optional white space. The grammar is read as a parsing
//! expression grammar: a factor is a literal wherever a literal can be
//! read, so `-5` is a negative literal; a literal that has begun a
//! fraction or an exponent must complete it; white space before an
//! operator belongs to the operator. Where no literal can be read, what
//! begins with a parenthesis or a minus sign must be a group, and fails
//! where the group fails.
//!
//! The specification gives each rule as a function from the text and a
//! position to what is read there, or to the position at which reading
//! failed and what was expected there.

use crate::ast::{literal_value, Expr, LitComponent, LitView, Syntax};
use crate::digits::{digits_value, lemma_value_push};
use crate::number::{digit_run_end, digit_values, is_digit_byte, lemma_digit_run_end, scan_decimal};
use std::ops::Range;
use vstd::prelude::*;
use vstd::string::StringSliceAdditionalSpecFns;
use vstd::utf8::{
    encode_utf8, encode_utf8_valid_utf8, is_ascii_chars, is_ascii_chars_encode_utf8,
    is_char_boundary, is_char_boundary_start_end_of_seq, valid_utf8,
};

verus! {

/// What would have let the parser go on.
#[derive(Clone, Copy, Debug, PartialEq, Eq, Structural)]
pub enum Expected {
    /// A digit.
    Digit,
    /// A number or an opening parenthesis.
    Operand,
    /// An opening parenthesis, after a minus sign that no number follows.
    OpenParen,
    /// An operator or a closing parenthesis.
    CloseParen,
    /// An operator or the end of the text.
    EndOfInput,
    /// An exponent that fits in 32 bits.
    Exponent,
}

/// Where reading failed, and what was expected there.
#[derive(Clone, Copy, Debug, PartialEq, Eq, Structural)]
pub struct Failure {
    pub position: usize,
    pub expected: Expected,
}

/// What a rule reads at a position: a value and the number of bytes it
/// takes up, or a failure.
pub enum Outcome<T> {
    Parsed(T, nat),
    Failed(int, Expected),
}

/// The bytes left from `i` on; the measure of what is still to read.
pub open spec fn remaining(s: Seq<u8>, i: int) -> nat {
    if i <= s.len() {
        (s.len() - i) as nat
    } else {
        0
    }
}

/// The length in bytes of the white-space character that starts at `i`,
/// or zero where none starts: the characters with the Unicode property
/// `White_Space`, in UTF-8.
pub open spec fn whitespace_len(s: Seq<u8>, i: int) -> nat {
    if i < 0 || i >= s.len() {
        0
    } else if (9 <= s[i] <= 13) || s[i] == 32 {
        1
    } else if i + 1 < s.len() && s[i] == 0xC2 && (s[i + 1] == 0x85 || s[i + 1] == 0xA0) {
        2
    } else if i + 2 < s.len() && ((s[i] == 0xE1 && s[i + 1] == 0x9A && s[i + 2] == 0x80) || (s[i]
        == 0xE2 && s[i + 1] == 0x80 && (0x80 <= s[i + 2] <= 0x8A || s[i + 2] == 0xA8 || s[i + 2]
        == 0xA9 || s[i + 2] == 0xAF)) || (s[i] == 0xE2 && s[i + 1] == 0x81 && s[i + 2] == 0x9F) || (
    s[i] == 0xE3 && s[i + 1] == 0x80 && s[i + 2] == 0x80)) {
        3
    } else {
        0
    }
}

/// The length in bytes of the white space that starts at `i`.
pub open spec fn spaces_len(s: Seq<u8>, i: int) -> nat
    decreases remaining(s, i),
{
    if 0 <= i < s.len() && whitespace_len(s, i) > 0 {
        whitespace_len(s, i) + spaces_len(s, i + whitespace_len(s, i))
    } else {
        0
    }
}

/// The position after the white space that starts at `i`.
pub open spec fn skip_spaces(s: Seq<u8>, i: int) -> int {
    i + spaces_len(s, i)
}

/// The bytes between `from` and `to` as characters, which holds for ASCII.
pub open spec fn ascii_text(s: Seq<u8>, from: int, to: int) -> Seq<char> {
    Seq::new((to - from) as nat, |k: int| s[from + k] as char)
}

/// Whether `s` has the byte `b` at `i`.
pub open spec fn has_byte(s: Seq<u8>, i: int, b: u8) -> bool {
    0 <= i < s.len() && s[i] == b
}

/// The rule `literal` at `i`.
#[verifier::opaque]
pub open spec fn parse_literal(s: Seq<u8>, i: int) -> Outcome<LitView> {
    let minus = has_byte(s, i, 45);
    let i1 = if minus {
        i + 1
    } else {
        i
    };
    let i2 = digit_run_end(s, i1);
    let dot = has_byte(s, i2, 46);
    let i3 = if dot {
        digit_run_end(s, i2 + 1)
    } else {
        i2
    };
    let exp = has_byte(s, i3, 101) || has_byte(s, i3, 69);
    let exp_minus = has_byte(s, i3 + 1, 45);
    let i5 = if has_byte(s, i3 + 1, 43) || exp_minus {
        i3 + 2
    } else {
        i3 + 1
    };
    let i6 = digit_run_end(s, i5);
    let magnitude = digits_value(digit_values(s, i5, i6)) as int;
    let exponent = if exp_minus {
        -magnitude
    } else {
        magnitude
    };
    let digits = seq![
        if minus {
            '-'
        } else {
            '+'
        },
    ] + ascii_text(s, i1, i3);
    if i2 == i1 {
        Outcome::Failed(i1, Expected::Digit)
    } else if dot && i3 == i2 + 1 {
        Outcome::Failed(i3, Expected::Digit)
    } else if !exp {
        Outcome::Parsed(LitView { digits, exponent: 0 }, (i3 - i) as nat)
    } else if i6 == i5 {
        Outcome::Failed(i5, Expected::Digit)
    } else if i32::MIN <= exponent <= i32::MAX {
        Outcome::Parsed(LitView { digits, exponent: exponent as i32 }, (i6 - i) as nat)
    } else {
        Outcome::Failed(i6, Expected::Exponent)
    }
}

/// The range from `from` to `to`.
pub open spec fn range_of(from: int, to: int) -> Range<usize> {
    Range { start: from as usize, end: to as usize }
}

/// What follows an opening parenthesis at `open`: an expression and the
/// closing parenthesis. `start` is where the factor began.
pub open spec fn parse_group(s: Seq<u8>, start: int, open: int, negated: bool) -> Outcome<Syntax>
    decreases remaining(s, open), 0int,
{
    if !has_byte(s, open, 40) {
        Outcome::Failed(open, Expected::OpenParen)
    } else {
        let j = skip_spaces(s, open + 1);
        match parse_expr(s, j) {
            Outcome::Failed(p, e) => Outcome::Failed(p, e),
            Outcome::Parsed(inner, used) => {
                let close = skip_spaces(s, j + used);
                if has_byte(s, close, 41) {
                    let range = range_of(start, close + 1);
                    Outcome::Parsed(
                        if negated {
                            Syntax::NegParen(Box::new(inner), range)
                        } else {
                            Syntax::Paren(Box::new(inner), range)
                        },
                        (close + 1 - start) as nat,
                    )
                } else {
                    Outcome::Failed(close, Expected::CloseParen)
                }
            },
        }
    }
}

/// The rule `factor` at `i`.
pub open spec fn parse_factor(s: Seq<u8>, i: int) -> Outcome<Syntax>
    decreases remaining(s, i), 1int,
{
    match parse_literal(s, i) {
        Outcome::Parsed(lit, used) => Outcome::Parsed(
            Syntax::Literal(lit, range_of(i, i + used)),
            used,
        ),
        Outcome::Failed(p, e) => {
            if has_byte(s, i, 40) {
                parse_group(s, i, i, false)
            } else if has_byte(s, i, 45) {
                parse_group(s, i, skip_spaces(s, i + 1), true)
            } else if p == i {
                Outcome::Failed(p, Expected::Operand)
            } else {
                Outcome::Failed(p, e)
            }
        },
    }
}

/// The operators that follow a first factor, with their factors.
pub open spec fn parse_term_rest(s: Seq<u8>, left: Syntax, j: int) -> Outcome<Syntax>
    decreases remaining(s, j), 2int,
{
    let k = skip_spaces(s, j);
    if has_byte(s, k, 42) || has_byte(s, k, 47) {
        let next = skip_spaces(s, k + 1);
        match parse_factor(s, next) {
            Outcome::Failed(p, e) => Outcome::Failed(p, e),
            Outcome::Parsed(right, used) => {
                let op = range_of(k, k + 1);
                let node = if s[k] == 42 {
                    Syntax::Mul(Box::new(left), Box::new(right), op)
                } else {
                    Syntax::Div(Box::new(left), Box::new(right), op)
                };
                match parse_term_rest(s, node, next + used) {
                    Outcome::Failed(p, e) => Outcome::Failed(p, e),
                    Outcome::Parsed(all, more) => Outcome::Parsed(
                        all,
                        (next + used - j) as nat + more,
                    ),
                }
            },
        }
    } else {
        Outcome::Parsed(left, 0)
    }
}

/// The rule `term` at `i`.
pub open spec fn parse_term(s: Seq<u8>, i: int) -> Outcome<Syntax>
    decreases remaining(s, i), 3int,
{
    match parse_factor(s, i) {
        Outcome::Failed(p, e) => Outcome::Failed(p, e),
        Outcome::Parsed(first, used) => match parse_term_rest(s, first, i + used) {
            Outcome::Failed(p, e) => Outcome::Failed(p, e),
            Outcome::Parsed(all, more) => Outcome::Parsed(all, used + more),
        },
    }
}

/// The operators that follow a first term, with their terms.
pub open spec fn parse_expr_rest(s: Seq<u8>, left: Syntax, j: int) -> Outcome<Syntax>
    decreases remaining(s, j), 4int,
{
    let k = skip_spaces(s, j);
    if has_byte(s, k, 43) || has_byte(s, k, 45) {
        let next = skip_spaces(s, k + 1);
        match parse_term(s, next) {
            Outcome::Failed(p, e) => Outcome::Failed(p, e),
            Outcome::Parsed(right, used) => {
                let op = range_of(k, k + 1);
                let node = if s[k] == 43 {
                    Syntax::Add(Box::new(left), Box::new(right), op)
                } else {
                    Syntax::Sub(Box::new(left), Box::new(right), op)
                };
                match parse_expr_rest(s, node, next + used) {
                    Outcome::Failed(p, e) => Outcome::Failed(p, e),
                    Outcome::Parsed(all, more) => Outcome::Parsed(
                        all,
                        (next + used - j) as nat + more,
                    ),
                }
            },
        }
    } else {
        Outcome::Parsed(left, 0)
    }
}

/// The rule `expr` at `i`.
pub open spec fn parse_expr(s: Seq<u8>, i: int) -> Outcome<Syntax>
    decreases remaining(s, i), 5int,
{
    match parse_term(s, i) {
        Outcome::Failed(p, e) => Outcome::Failed(p, e),
        Outcome::Parsed(first, used) => match parse_expr_rest(s, first, i + used) {
            Outcome::Failed(p, e) => Outcome::Failed(p, e),
            Outcome::Parsed(all, more) => Outcome::Parsed(all, used + more),
        },
    }
}

/// The rule `line`: the expression that the whole text is, or the failure
/// that keeps it from being one.
pub open spec fn parse_text(s: Seq<u8>) -> Outcome<Syntax> {
    let start = skip_spaces(s, 0);
    match parse_expr(s, start) {
        Outcome::Failed(p, e) => Outcome::Failed(p, e),
        Outcome::Parsed(e, used) => {
            let end = skip_spaces(s, start + used);
            if end == s.len() {
                Outcome::Parsed(e, s.len())
            } else {
                Outcome::Failed(end, Expected::EndOfInput)
            }
        },
    }
}

/// White space ends within the text.
pub proof fn lemma_spaces_len(s: Seq<u8>, i: int)
    requires
        0 <= i <= s.len(),
    ensures
        i <= skip_spaces(s, i) <= s.len(),
        whitespace_len(s, skip_spaces(s, i)) == 0,
    decreases remaining(s, i),
{
    if i < s.len() && whitespace_len(s, i) > 0 {
        lemma_spaces_len(s, i + whitespace_len(s, i));
    }
}

/// White space that starts at a character boundary ends at one.
pub proof fn lemma_spaces_boundary(s: Seq<u8>, i: int)
    requires
        valid_utf8(s),
        0 <= i <= s.len(),
        is_char_boundary(s, i),
    ensures
        is_char_boundary(s, skip_spaces(s, i)),
    decreases remaining(s, i),
{
    if i < s.len() && whitespace_len(s, i) > 0 {
        crate::text::lemma_next_boundary(s, i);
        assert(s.subrange(i, s.len() as int)[0] == s[i]);
        lemma_spaces_len(s, i + whitespace_len(s, i));
        lemma_spaces_boundary(s, i + whitespace_len(s, i));
    }
}

/// A position at an ASCII byte, or after one, or at the end of the text,
/// is a character boundary.
pub proof fn lemma_ascii_boundary(s: Seq<u8>, p: int)
    requires
        valid_utf8(s),
        0 <= p <= s.len(),
        p == s.len() || s[p] <= 127 || (p > 0 && s[p - 1] <= 127),
    ensures
        is_char_boundary(s, p),
{
    is_char_boundary_start_end_of_seq(s);
    if p < s.len() && s[p] <= 127 {
        crate::text::lemma_ascii_edges(s, p, p + 1);
    } else if p > 0 && s[p - 1] <= 127 {
        crate::text::lemma_ascii_edges(s, p - 1, p);
    }
}

/// A literal takes up at least one byte and ends within the text; a failure
/// lies between the start and the end of the text.
pub proof fn lemma_literal_extent(s: Seq<u8>, i: int)
    requires
        0 <= i <= s.len(),
    ensures
        match parse_literal(s, i) {
            Outcome::Parsed(_, used) => 1 <= used && i + used <= s.len() && s[i] <= 127 && s[i
                + used - 1] <= 127,
            Outcome::Failed(p, _) => i <= p <= s.len() && (p == i || s[p - 1] <= 127),
        },
{
    reveal(parse_literal);
    let i1 = if has_byte(s, i, 45) {
        i + 1
    } else {
        i
    };
    lemma_digit_run_end(s, i1);
    let i2 = digit_run_end(s, i1);
    if has_byte(s, i2, 46) {
        lemma_digit_run_end(s, i2 + 1);
    }
    let i3 = if has_byte(s, i2, 46) {
        digit_run_end(s, i2 + 1)
    } else {
        i2
    };
    if has_byte(s, i3, 101) || has_byte(s, i3, 69) {
        let i5 = if has_byte(s, i3 + 1, 43) || has_byte(s, i3 + 1, 45) {
            i3 + 2
        } else {
            i3 + 1
        };
        lemma_digit_run_end(s, i5);
    }
}

/// A run of digits that is followed by something else ends there.
pub proof fn lemma_digit_run_is(t: Seq<u8>, a: int, b: int)
    requires
        0 <= a <= b <= t.len(),
        forall|j: int| a <= j < b ==> is_digit_byte(t[j]),
        b == t.len() || !is_digit_byte(t[b]),
    ensures
        digit_run_end(t, a) == b,
    decreases b - a,
{
    if a < b {
        lemma_digit_run_is(t, a + 1, b);
    }
}

/// The digits of a literal that has been read show a decimal.
pub proof fn lemma_literal_valid(s: Seq<u8>, i: int)
    requires
        0 <= i <= s.len(),
    ensures
        parse_literal(s, i) matches Outcome::Parsed(l, _) ==> literal_value(l) is Some,
{
    reveal(parse_literal);
    let minus = has_byte(s, i, 45);
    let i1 = if minus {
        i + 1
    } else {
        i
    };
    lemma_digit_run_end(s, i1);
    let i2 = digit_run_end(s, i1);
    let dot = has_byte(s, i2, 46);
    if dot {
        lemma_digit_run_end(s, i2 + 1);
    }
    let i3 = if dot {
        digit_run_end(s, i2 + 1)
    } else {
        i2
    };
    if let Outcome::Parsed(l, _) = parse_literal(s, i) {
        let sign = if minus {
            '-'
        } else {
            '+'
        };
        let digits = seq![sign] + ascii_text(s, i1, i3);
        assert(l.digits == digits);
        assert forall|k: int| 0 <= k < digits.len() implies '\0' <= #[trigger] digits[k]
            <= '\u{7f}' by {
            if k > 0 {
                assert(digits[k] == s[i1 + k - 1] as char);
            }
        }
        assert(is_ascii_chars(digits));
        is_ascii_chars_encode_utf8(digits);
        let t = encode_utf8(digits);
        assert(t[0] == digits[0] as u8);
        assert(t[0] == 43 || t[0] == 45);
        assert forall|k: int| 1 <= k < t.len() implies t[k] == s[i1 + k - 1] by {
            assert(t[k] == digits[k] as u8);
            assert(digits[k] == s[i1 + k - 1] as char);
        }
        let run = 1 + (i2 - i1);
        assert(t[1] == s[i1]);
        lemma_digit_run_is(t, 1, run);
        if dot {
            assert(t[run] == 46);
            lemma_digit_run_is(t, run + 1, t.len() as int);
        }
        assert(scan_decimal(t) is Some);
    }
}

/// What a rule has read is a well-formed expression that covers exactly
/// the bytes it took up.
pub open spec fn covers(o: Outcome<Syntax>, s: Seq<u8>, i: int) -> bool {
    match o {
        Outcome::Parsed(e, used) => {
            &&& e.wf(s)
            &&& e.literals_valid()
            &&& e.span() == range_of(i, i + used)
            &&& 1 <= used
            &&& i + used <= s.len()
        },
        Outcome::Failed(p, _) => i <= p <= s.len() && is_char_boundary(s, p),
    }
}

/// What a chain of operators has read, after a first operand that starts
/// at `start` and ends at `j`.
pub open spec fn extends(o: Outcome<Syntax>, s: Seq<u8>, start: int, j: int) -> bool {
    match o {
        Outcome::Parsed(e, more) => {
            &&& e.wf(s)
            &&& e.literals_valid()
            &&& e.span() == range_of(start, j + more)
            &&& j + more <= s.len()
        },
        Outcome::Failed(p, _) => j <= p <= s.len() && is_char_boundary(s, p),
    }
}

#[verifier::rlimit(60)]
pub proof fn lemma_group_covers(s: Seq<u8>, start: int, open: int, negated: bool)
    requires
        0 <= start <= open <= s.len(),
        s.len() <= usize::MAX,
        negated ==> start < open && has_byte(s, start, 45),
        !negated ==> start == open,
        valid_utf8(s),
        is_char_boundary(s, open),
    ensures
        match parse_group(s, start, open, negated) {
            Outcome::Parsed(e, used) => {
                &&& e.wf(s)
                &&& e.literals_valid()
                &&& e.span() == range_of(start, start + used)
                &&& 1 <= used
                &&& start + used <= s.len()
            },
            Outcome::Failed(p, _) => open <= p <= s.len() && is_char_boundary(s, p),
        },
    decreases remaining(s, open), 0int,
{
    if has_byte(s, open, 40) {
        lemma_spaces_len(s, open + 1);
        lemma_ascii_boundary(s, open + 1);
        lemma_spaces_boundary(s, open + 1);
        let j = skip_spaces(s, open + 1);
        lemma_expr_covers(s, j);
        match parse_expr(s, j) {
            Outcome::Failed(p, e) => {},
            Outcome::Parsed(inner, used) => {
                lemma_spaces_len(s, j + used);
                crate::ast::lemma_span_well_formed(inner, s);
                lemma_ascii_boundary(s, j + used);
                lemma_spaces_boundary(s, j + used);
            },
        }
    }
}

pub proof fn lemma_factor_covers(s: Seq<u8>, i: int)
    requires
        0 <= i <= s.len(),
        s.len() <= usize::MAX,
        valid_utf8(s),
        is_char_boundary(s, i),
    ensures
        covers(parse_factor(s, i), s, i),
    decreases remaining(s, i), 1int,
{
    lemma_literal_extent(s, i);
    lemma_literal_valid(s, i);
    match parse_literal(s, i) {
        Outcome::Parsed(lit, used) => {},
        Outcome::Failed(p, e) => {
            if p > i {
                lemma_ascii_boundary(s, p);
            }
            if has_byte(s, i, 40) {
                lemma_group_covers(s, i, i, false);
            } else if has_byte(s, i, 45) {
                lemma_ascii_boundary(s, i + 1);
                lemma_spaces_len(s, i + 1);
                lemma_spaces_boundary(s, i + 1);
                lemma_group_covers(s, i, skip_spaces(s, i + 1), true);
            }
        },
    }
}

/// Two well-formed operands with an operator between them make a
/// well-formed binary expression that covers both.
pub proof fn lemma_join(
    left: Syntax,
    right: Syntax,
    s: Seq<u8>,
    start: int,
    mid: int,
    k: int,
    next: int,
    end: int,
)
    requires
        left.wf(s),
        right.wf(s),
        left.span() == range_of(start, mid),
        right.span() == range_of(next, end),
        0 <= start < mid <= k,
        k + 1 <= next < end <= s.len(),
        s.len() <= usize::MAX,
        s[k] <= 127,
    ensures
        ({
            let op = range_of(k, k + 1);
            let l = Box::new(left);
            let r = Box::new(right);
            &&& Syntax::Mul(l, r, op).wf(s)
            &&& Syntax::Div(l, r, op).wf(s)
            &&& Syntax::Add(l, r, op).wf(s)
            &&& Syntax::Sub(l, r, op).wf(s)
            &&& Syntax::Mul(l, r, op).span() == range_of(start, end)
            &&& Syntax::Div(l, r, op).span() == range_of(start, end)
            &&& Syntax::Add(l, r, op).span() == range_of(start, end)
            &&& Syntax::Sub(l, r, op).span() == range_of(start, end)
        }),
{
}

#[verifier::rlimit(80)]
pub proof fn lemma_term_rest_covers(s: Seq<u8>, left: Syntax, start: int, j: int)
    requires
        0 <= start < j <= s.len(),
        s.len() <= usize::MAX,
        valid_utf8(s),
        left.wf(s),
        left.literals_valid(),
        left.span() == range_of(start, j),
    ensures
        extends(parse_term_rest(s, left, j), s, start, j),
    decreases remaining(s, j), 2int,
{
    lemma_spaces_len(s, j);
    let k = skip_spaces(s, j);
    if has_byte(s, k, 42) || has_byte(s, k, 47) {
        lemma_spaces_len(s, k + 1);
        lemma_ascii_boundary(s, k + 1);
        lemma_spaces_boundary(s, k + 1);
        let next = skip_spaces(s, k + 1);
        lemma_factor_covers(s, next);
        match parse_factor(s, next) {
            Outcome::Failed(p, e) => {},
            Outcome::Parsed(right, used) => {
                let op = range_of(k, k + 1);
                let node = if s[k] == 42 {
                    Syntax::Mul(Box::new(left), Box::new(right), op)
                } else {
                    Syntax::Div(Box::new(left), Box::new(right), op)
                };
                lemma_join(left, right, s, start, j, k, next, next + used);
                lemma_term_rest_covers(s, node, start, next + used);
            },
        }
    }
}

pub proof fn lemma_term_covers(s: Seq<u8>, i: int)
    requires
        0 <= i <= s.len(),
        s.len() <= usize::MAX,
        valid_utf8(s),
        is_char_boundary(s, i),
    ensures
        covers(parse_term(s, i), s, i),
    decreases remaining(s, i), 3int,
{
    lemma_factor_covers(s, i);
    match parse_factor(s, i) {
        Outcome::Failed(p, e) => {},
        Outcome::Parsed(first, used) => {
            lemma_term_rest_covers(s, first, i, i + used);
        },
    }
}

#[verifier::rlimit(80)]
pub proof fn lemma_expr_rest_covers(s: Seq<u8>, left: Syntax, start: int, j: int)
    requires
        0 <= start < j <= s.len(),
        s.len() <= usize::MAX,
        valid_utf8(s),
        left.wf(s),
        left.literals_valid(),
        left.span() == range_of(start, j),
    ensures
        extends(parse_expr_rest(s, left, j), s, start, j),
    decreases remaining(s, j), 4int,
{
    lemma_spaces_len(s, j);
    let k = skip_spaces(s, j);
    if has_byte(s, k, 43) || has_byte(s, k, 45) {
        lemma_spaces_len(s, k + 1);
        lemma_ascii_boundary(s, k + 1);
        lemma_spaces_boundary(s, k + 1);
        let next = skip_spaces(s, k + 1);
        lemma_term_covers(s, next);
        match parse_term(s, next) {
            Outcome::Failed(p, e) => {},
            Outcome::Parsed(right, used) => {
                let op = range_of(k, k + 1);
                let node = if s[k] == 43 {
                    Syntax::Add(Box::new(left), Box::new(right), op)
                } else {
                    Syntax::Sub(Box::new(left), Box::new(right), op)
                };
                lemma_join(left, right, s, start, j, k, next, next + used);
                lemma_expr_rest_covers(s, node, start, next + used);
            },
        }
    }
}

#[verifier::rlimit(80)]
pub proof fn lemma_expr_covers(s: Seq<u8>, i: int)
    requires
        0 <= i <= s.len(),
        s.len() <= usize::MAX,
        valid_utf8(s),
        is_char_boundary(s, i),
    ensures
        covers(parse_expr(s, i), s, i),
    decreases remaining(s, i), 5int,
{
    lemma_term_covers(s, i);
    match parse_term(s, i) {
        Outcome::Failed(p, e) => {},
        Outcome::Parsed(first, used) => {
            lemma_expr_rest_covers(s, first, i, i + used);
        },
    }
}

/// The expression that a text is has ranges that are those of an
/// expression read from this text; a failure lies within the text or at its
/// end.
pub proof fn lemma_text_well_formed(s: Seq<u8>)
    requires
        s.len() <= usize::MAX,
        valid_utf8(s),
    ensures
        match parse_text(s) {
            Outcome::Parsed(e, _) => e.wf(s) && e.literals_valid(),
            Outcome::Failed(p, _) => 0 <= p <= s.len() && is_char_boundary(s, p),
        },
{
    is_char_boundary_start_end_of_seq(s);
    lemma_spaces_len(s, 0);
    lemma_spaces_boundary(s, 0);
    let start = skip_spaces(s, 0);
    lemma_expr_covers(s, start);
    match parse_expr(s, start) {
        Outcome::Failed(p, e) => {},
        Outcome::Parsed(e, used) => {
            lemma_spaces_len(s, start + used);
            crate::ast::lemma_span_well_formed(e, s);
            lemma_ascii_boundary(s, start + used);
            lemma_spaces_boundary(s, start + used);
        },
    }
}

/// What a reading function returned is what the rule reads at `i`.
pub open spec fn reads(r: Result<(Expr, usize), Failure>, o: Outcome<Syntax>, i: int) -> bool {
    match o {
        Outcome::Parsed(e, used) => r matches Ok((x, next)) && x@ == e && next == i + used,
        Outcome::Failed(p, expected) => r matches Err(f) && f.position == p && f.expected
            == expected,
    }
}

/// The length of the white-space character that starts at `i`, or zero.
pub fn whitespace_at(b: &[u8], i: usize) -> (w: usize)
    ensures
        w == whitespace_len(b@, i as int),
{
    let n = b.len();
    if i >= n {
        return 0;
    }
    let b0 = b[i];
    if (9 <= b0 && b0 <= 13) || b0 == 32 {
        return 1;
    }
    if n - i >= 2 && b0 == 0xC2 && (b[i + 1] == 0x85 || b[i + 1] == 0xA0) {
        return 2;
    }
    if n - i >= 3 {
        let b1 = b[i + 1];
        let b2 = b[i + 2];
        if (b0 == 0xE1 && b1 == 0x9A && b2 == 0x80) || (b0 == 0xE2 && b1 == 0x80 && ((0x80 <= b2
            && b2 <= 0x8A) || b2 == 0xA8 || b2 == 0xA9 || b2 == 0xAF)) || (b0 == 0xE2 && b1 == 0x81
            && b2 == 0x9F) || (b0 == 0xE3 && b1 == 0x80 && b2 == 0x80) {
            return 3;
        }
    }
    0
}

fn skip_spaces_at(b: &[u8], i: usize) -> (j: usize)
    requires
        i <= b.len(),
    ensures
        j == skip_spaces(b@, i as int),
        i <= j <= b.len(),
{
    let mut j = i;
    while j < b.len() && whitespace_at(b, j) > 0
        invariant
            i <= j <= b.len(),
            skip_spaces(b@, i as int) == skip_spaces(b@, j as int),
        decreases b.len() - j,
    {
        proof {
            lemma_spaces_len(b@, j as int + whitespace_len(b@, j as int));
        }
        j += whitespace_at(b, j);
    }
    j
}

fn digits_end(b: &[u8], i: usize) -> (j: usize)
    requires
        i <= b.len(),
    ensures
        j == digit_run_end(b@, i as int),
        i <= j <= b.len(),
{
    let mut j = i;
    while j < b.len() && 48 <= b[j] && b[j] <= 57
        invariant
            i <= j <= b.len(),
            digit_run_end(b@, i as int) == digit_run_end(b@, j as int),
        decreases b.len() - j,
    {
        j += 1;
    }
    j
}

fn byte_at(b: &[u8], i: usize, byte: u8) -> (r: bool)
    ensures
        r == has_byte(b@, i as int, byte),
{
    i < b.len() && b[i] == byte
}

/// The largest magnitude that an exponent is read exactly up to.
pub const EXPONENT_CAP: u64 = 2147483649;

/// The number that the digits between `from` and `to` show, or
/// `EXPONENT_CAP` where it is larger.
fn capped_value(b: &[u8], from: usize, to: usize) -> (r: u64)
    requires
        from <= to <= b.len(),
        forall|j: int| from <= j < to ==> is_digit_byte(b@[j]),
    ensures
        r <= EXPONENT_CAP,
        r < EXPONENT_CAP ==> r == digits_value(digit_values(b@, from as int, to as int)),
        r == EXPONENT_CAP ==> digits_value(digit_values(b@, from as int, to as int))
            >= EXPONENT_CAP,
{
    let mut acc: u64 = 0;
    let mut j = from;
    proof {
        assert(digit_values(b@, from as int, from as int) =~= Seq::<u8>::empty());
    }
    while j < to
        invariant
            from <= j <= to <= b.len(),
            forall|k: int| from <= k < to ==> is_digit_byte(b@[k]),
            acc <= EXPONENT_CAP,
            acc < EXPONENT_CAP ==> acc == digits_value(digit_values(b@, from as int, j as int)),
            acc == EXPONENT_CAP ==> digits_value(digit_values(b@, from as int, j as int))
                >= EXPONENT_CAP,
        decreases to - j,
    {
        let d = (b[j] - 48) as u64;
        proof {
            let before = digit_values(b@, from as int, j as int);
            assert(digit_values(b@, from as int, j + 1) =~= before.push((b@[j as int] - 48) as u8));
            lemma_value_push(before, (b@[j as int] - 48) as u8);
        }
        acc = acc * 10 + d;
        if acc > EXPONENT_CAP {
            acc = EXPONENT_CAP;
        }
        j += 1;
    }
    acc
}

fn read_literal(b: &[u8], i: usize) -> (r: Result<(LitComponent, usize), Failure>)
    requires
        i <= b.len(),
    ensures
        match parse_literal(b@, i as int) {
            Outcome::Parsed(l, used) => r matches Ok((lit, next)) && lit@ == l && next == i + used,
            Outcome::Failed(p, expected) => r matches Err(f) && f.position == p && f.expected
                == expected,
        },
{
    reveal(parse_literal);
    let minus = byte_at(b, i, 45);
    let i1 = if minus {
        i + 1
    } else {
        i
    };
    let i2 = digits_end(b, i1);
    if i2 == i1 {
        return Err(Failure { position: i1, expected: Expected::Digit });
    }
    let dot = byte_at(b, i2, 46);
    let i3 = if dot {
        digits_end(b, i2 + 1)
    } else {
        i2
    };
    if dot && i3 == i2 + 1 {
        return Err(Failure { position: i3, expected: Expected::Digit });
    }
    let mut digits = String::new();
    digits.push(
        if minus {
            '-'
        } else {
            '+'
        },
    );
    let ghost sign = digits@;
    let mut k = i1;
    while k < i3
        invariant
            i1 <= k <= i3 <= b.len(),
            digits@ == sign + ascii_text(b@, i1 as int, k as int),
        decreases i3 - k,
    {
        digits.push(b[k] as char);
        k += 1;
        proof {
            assert(digits@ =~= sign + ascii_text(b@, i1 as int, k as int));
        }
    }
    if !(byte_at(b, i3, 101) || byte_at(b, i3, 69)) {
        return Ok((LitComponent::new(digits, 0), i3));
    }
    let exp_minus = byte_at(b, i3 + 1, 45);
    let i5 = if byte_at(b, i3 + 1, 43) || exp_minus {
        i3 + 2
    } else {
        i3 + 1
    };
    let i6 = digits_end(b, i5);
    if i6 == i5 {
        return Err(Failure { position: i5, expected: Expected::Digit });
    }
    proof {
        lemma_digit_run_end(b@, i5 as int);
    }
    let magnitude = capped_value(b, i5, i6);
    if exp_minus {
        if magnitude <= 2147483648 {
            let exponent = (-(magnitude as i64)) as i32;
            Ok((LitComponent::new(digits, exponent), i6))
        } else {
            Err(Failure { position: i6, expected: Expected::Exponent })
        }
    } else {
        if magnitude <= 2147483647 {
            Ok((LitComponent::new(digits, magnitude as i32), i6))
        } else {
            Err(Failure { position: i6, expected: Expected::Exponent })
        }
    }
}

fn read_group(b: &[u8], start: usize, open: usize, negated: bool) -> (r: Result<
    (Expr, usize),
    Failure,
>)
    requires
        start <= open <= b.len(),
        negated ==> start < open,
        valid_utf8(b@),
    ensures
        reads(r, parse_group(b@, start as int, open as int, negated), start as int),
    decreases remaining(b@, open as int), 0int,
{
    if !byte_at(b, open, 40) {
        return Err(Failure { position: open, expected: Expected::OpenParen });
    }
    let j = skip_spaces_at(b, open + 1);
    proof {
        lemma_ascii_boundary(b@, open + 1);
        lemma_spaces_boundary(b@, open + 1);
        lemma_expr_covers(b@, j as int);
    }
    match read_expr(b, j) {
        Err(f) => Err(f),
        Ok((inner, end)) => {
            let close = skip_spaces_at(b, end);
            if byte_at(b, close, 41) {
                let range = Range { start, end: close + 1 };
                if negated {
                    Ok((Expr::NegParen(Box::new(inner), range), close + 1))
                } else {
                    Ok((Expr::Paren(Box::new(inner), range), close + 1))
                }
            } else {
                Err(Failure { position: close, expected: Expected::CloseParen })
            }
        },
    }
}

fn read_factor(b: &[u8], i: usize) -> (r: Result<(Expr, usize), Failure>)
    requires
        i <= b.len(),
        valid_utf8(b@),
        is_char_boundary(b@, i as int),
    ensures
        reads(r, parse_factor(b@, i as int), i as int),
    decreases remaining(b@, i as int), 1int,
{
    proof {
        lemma_literal_extent(b@, i as int);
    }
    match read_literal(b, i) {
        Ok((lit, next)) => Ok((Expr::Literal(lit, Range { start: i, end: next }), next)),
        Err(f) => {
            if byte_at(b, i, 40) {
                read_group(b, i, i, false)
            } else if byte_at(b, i, 45) {
                let open = skip_spaces_at(b, i + 1);
                read_group(b, i, open, true)
            } else if f.position == i {
                Err(Failure { position: i, expected: Expected::Operand })
            } else {
                Err(f)
            }
        },
    }
}

fn read_term_rest(b: &[u8], left: Expr, j: usize, Ghost(start): Ghost<int>) -> (r: Result<
    (Expr, usize),
    Failure,
>)
    requires
        0 <= start < j <= b.len(),
        valid_utf8(b@),
        left@.wf(b@),
        left@.literals_valid(),
        left@.span() == range_of(start, j as int),
    ensures
        reads(r, parse_term_rest(b@, left@, j as int), j as int),
    decreases remaining(b@, j as int), 2int,
{
    let k = skip_spaces_at(b, j);
    if byte_at(b, k, 42) || byte_at(b, k, 47) {
        let next = skip_spaces_at(b, k + 1);
        proof {
            lemma_ascii_boundary(b@, k + 1);
            lemma_spaces_boundary(b@, k + 1);
            lemma_factor_covers(b@, next as int);
        }
        match read_factor(b, next) {
            Err(f) => Err(f),
            Ok((right, end)) => {
                let op = Range { start: k, end: k + 1 };
                proof {
                    lemma_join(left@, right@, b@, start, j as int, k as int, next as int, end as int);
                }
                let node = if b[k] == 42 {
                    Expr::Mul(Box::new(left), Box::new(right), op)
                } else {
                    Expr::Div(Box::new(left), Box::new(right), op)
                };
                read_term_rest(b, node, end, Ghost(start))
            },
        }
    } else {
        Ok((left, j))
    }
}

fn read_term(b: &[u8], i: usize) -> (r: Result<(Expr, usize), Failure>)
    requires
        i <= b.len(),
        valid_utf8(b@),
        is_char_boundary(b@, i as int),
    ensures
        reads(r, parse_term(b@, i as int), i as int),
    decreases remaining(b@, i as int), 3int,
{
    proof {
        lemma_factor_covers(b@, i as int);
    }
    match read_factor(b, i) {
        Err(f) => Err(f),
        Ok((first, next)) => read_term_rest(b, first, next, Ghost(i as int)),
    }
}

fn read_expr_rest(b: &[u8], left: Expr, j: usize, Ghost(start): Ghost<int>) -> (r: Result<
    (Expr, usize),
    Failure,
>)
    requires
        0 <= start < j <= b.len(),
        valid_utf8(b@),
        left@.wf(b@),
        left@.literals_valid(),
        left@.span() == range_of(start, j as int),
    ensures
        reads(r, parse_expr_rest(b@, left@, j as int), j as int),
    decreases remaining(b@, j as int), 4int,
{
    let k = skip_spaces_at(b, j);
    if byte_at(b, k, 43) || byte_at(b, k, 45) {
        let next = skip_spaces_at(b, k + 1);
        proof {
            lemma_ascii_boundary(b@, k + 1);
            lemma_spaces_boundary(b@, k + 1);
            lemma_term_covers(b@, next as int);
        }
        match read_term(b, next) {
            Err(f) => Err(f),
            Ok((right, end)) => {
                let op = Range { start: k, end: k + 1 };
                proof {
                    lemma_join(left@, right@, b@, start, j as int, k as int, next as int, end as int);
                }
                let node = if b[k] == 43 {
                    Expr::Add(Box::new(left), Box::new(right), op)
                } else {
                    Expr::Sub(Box::new(left), Box::new(right), op)
                };
                read_expr_rest(b, node, end, Ghost(start))
            },
        }
    } else {
        Ok((left, j))
    }
}

fn read_expr(b: &[u8], i: usize) -> (r: Result<(Expr, usize), Failure>)
    requires
        i <= b.len(),
        valid_utf8(b@),
        is_char_boundary(b@, i as int),
    ensures
        reads(r, parse_expr(b@, i as int), i as int),
    decreases remaining(b@, i as int), 5int,
{
    proof {
        lemma_term_covers(b@, i as int);
    }
    match read_term(b, i) {
        Err(f) => Err(f),
        Ok((first, next)) => read_expr_rest(b, first, next, Ghost(i as int)),
    }
}

/// Reads a line of input as an expression.
///
/// On success the ranges in the expression are byte offsets into `s`, in
/// the sense of [`Syntax::wf`]. On failure the result says at which byte
/// reading failed and what was expected there.
pub fn read_line(s: &str) -> (r: Result<Expr, Failure>)
    ensures
        match parse_text(s.spec_bytes()) {
            Outcome::Parsed(e, _) => r matches Ok(x) && x@ == e && e.wf(s.spec_bytes())
                && e.literals_valid(),
            Outcome::Failed(p, expected) => r matches Err(f) && f.position == p && f.expected
                == expected && p <= s.spec_bytes().len() && is_char_boundary(s.spec_bytes(), p),
        },
{
    let b = s.as_bytes();
    let n = b.len();
    proof {
        encode_utf8_valid_utf8(s@);
        is_char_boundary_start_end_of_seq(b@);
        lemma_spaces_boundary(b@, 0);
        lemma_text_well_formed(b@);
    }
    let start = skip_spaces_at(b, 0);
    match read_expr(b, start) {
        Err(f) => Err(f),
        Ok((e, next)) => {
            proof {
                lemma_expr_covers(b@, start as int);
            }
            let end = skip_spaces_at(b, next);
            if end == n {
                Ok(e)
            } else {
                Err(Failure { position: end, expected: Expected::EndOfInput })
            }
        },
    }
}

/// Why a line is no expression: where reading failed, as a byte offset
/// into the line, and what can be said about it.
#[derive(Debug, PartialEq, Eq)]
pub struct ParseError {
    pub position: usize,
    pub messages: Vec<String>,
}

/// What stands at `p`, where it was not expected.
pub open spec fn unexpected_message(s: Seq<u8>, p: int) -> Seq<char> {
    if p < 0 || p >= s.len() {
        "unexpected end of input"@
    } else if 33 <= s[p] <= 126 {
        "unexpected `"@ + seq![s[p] as char, '`']
    } else {
        "unexpected character"@
    }
}

/// What was expected.
pub open spec fn expected_message(expected: Expected) -> Seq<char> {
    match expected {
        Expected::Digit => "expected a digit"@,
        Expected::Operand => "expected a number or `(`"@,
        Expected::OpenParen => "expected `(`"@,
        Expected::CloseParen => "expected an operator or `)`"@,
        Expected::EndOfInput => "expected an operator or the end of the input"@,
        Expected::Exponent => "expected an exponent that fits in 32 bits"@,
    }
}

/// What is said about a failure: what was found, and what was expected.
pub open spec fn failure_messages(s: Seq<u8>, p: int, expected: Expected) -> Seq<Seq<char>> {
    seq![
        if expected is Exponent {
            "exponent out of range"@
        } else {
            unexpected_message(s, p)
        },
        expected_message(expected),
    ]
}

/// The texts of the messages.
pub open spec fn messages_view(messages: Seq<String>) -> Seq<Seq<char>> {
    Seq::new(messages.len(), |i: int| messages[i]@)
}

fn describe(b: &[u8], failure: Failure) -> (r: Vec<String>)
    ensures
        messages_view(r@) == failure_messages(b@, failure.position as int, failure.expected),
{
    let p = failure.position;
    let found = match failure.expected {
        Expected::Exponent => "exponent out of range".to_owned(),
        _ => {
            if p >= b.len() {
                "unexpected end of input".to_owned()
            } else if 33 <= b[p] && b[p] <= 126 {
                let mut text = "unexpected `".to_owned();
                text.push(b[p] as char);
                text.push('`');
                proof {
                    assert(text@ =~= "unexpected `"@ + seq![b@[p as int] as char, '`']);
                }
                text
            } else {
                "unexpected character".to_owned()
            }
        },
    };
    let wanted = match failure.expected {
        Expected::Digit => "expected a digit".to_owned(),
        Expected::Operand => "expected a number or `(`".to_owned(),
        Expected::OpenParen => "expected `(`".to_owned(),
        Expected::CloseParen => "expected an operator or `)`".to_owned(),
        Expected::EndOfInput => "expected an operator or the end of the input".to_owned(),
        Expected::Exponent => "expected an exponent that fits in 32 bits".to_owned(),
    };
    let mut r: Vec<String> = Vec::new();
    r.push(found);
    r.push(wanted);
    proof {
        assert(messages_view(r@) =~= failure_messages(
            b@,
            failure.position as int,
            failure.expected,
        ));
    }
    r
}

/// Reads a line of input as an expression; see [`parse_text`].
///
/// On success the ranges in the expression are byte offsets into `s`. On
/// failure the error gives the byte offset at which reading failed, which
/// is a character boundary of `s`, and says what was found and what was
/// expected there.
pub fn parse_line(s: &str) -> (r: Result<Expr, ParseError>)
    ensures
        match parse_text(s.spec_bytes()) {
            Outcome::Parsed(e, _) => r matches Ok(x) && x@ == e && e.wf(s.spec_bytes())
                && e.literals_valid(),
            Outcome::Failed(p, expected) => {
                &&& r matches Err(err)
                &&& err.position == p
                &&& p <= s.spec_bytes().len()
                &&& is_char_boundary(s.spec_bytes(), p)
                &&& messages_view(err.messages@) == failure_messages(s.spec_bytes(), p, expected)
            },
        },
{
    match read_line(s) {
        Ok(e) => Ok(e),
        Err(failure) => Err(
            ParseError { position: failure.position, messages: describe(s.as_bytes(), failure) },
        ),
    }
}

} // verus!
