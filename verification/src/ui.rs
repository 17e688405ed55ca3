//! The frames that are shown for a line of input, as lines of styled text.

use crate::ast::{is_token, lemma_product_nonzero, lemma_zero_iff, EvalError, EvalOptions, Report};
use crate::constants::{DARK_COLOR, EMPH_COLOR, ERR_COLOR};
use crate::digits::{digits_value, is_digits, is_two_adic_order, nat_trailing_zeros};
use crate::float::{classify, float_class, float_value, to_rational, FloatClass};
use crate::number::{
    can_expand, decimal_of, digits_of_u64, integer_text, lcp_spec, lemma_can_expand_eqv,
    lemma_value_denominator, nat_digits, push_integer, DecimalTuple, DecimalView,
};
use crate::parser::{messages_view, ParseError};
use crate::rational::{lemma_eqv_transitive, lemma_over_congruent, power_frac, Frac, Rational};
use crate::style::{
    empty_line, line_view, lines_view, push_line, push_span, text_span, ContentView, Line, Span,
    SpanView, Style,
};
use crate::text::{
    digits_text, lemma_ascii_edges, lemma_next_boundary, push_digits, push_repeat, repeat_char,
    slice, source_text,
};
use std::ops::Range;
use vstd::prelude::*;
use vstd::string::{StrSliceExecFns, StringExecFns, StringSliceAdditionalSpecFns};
use vstd::utf8::{
    encode_utf8_valid_utf8, is_ascii_chars, is_char_boundary, is_char_boundary_start_end_of_seq,
};

verus! {

/// The number of bytes of the character that starts with the given byte.
pub open spec fn char_width(first: u8) -> int {
    if first <= 0x7f {
        1
    } else if 0xc0 <= first <= 0xdf {
        2
    } else if 0xe0 <= first <= 0xef {
        3
    } else {
        4
    }
}

/// The text with the character at byte `i` in the given style; only the
/// text, where `i` is its end.
pub open spec fn paint_at_spec(b: Seq<u8>, style: Style, i: int) -> Seq<SpanView> {
    if i >= b.len() {
        seq![text_span(source_text(b, 0, b.len() as int), Style::plain())]
    } else {
        let end = i + char_width(b[i]);
        seq![
            text_span(source_text(b, 0, i), Style::plain()),
            text_span(source_text(b, i, end), style),
            text_span(source_text(b, end, b.len() as int), Style::plain()),
        ]
    }
}

/// Text that can be made into styled text.
pub trait StrPaint {
    /// The bytes of the text in UTF-8.
    spec fn encoded(&self) -> Seq<u8>;

    /// The characters of the text.
    spec fn chars(&self) -> Seq<char>;

    /// The text in the given color.
    fn fg(&self, color: u8) -> (r: Span)
        ensures
            r@ == text_span(self.chars(), Style::fg_spec(color)),
    ;

    /// The text in bold.
    fn bold(&self) -> (r: Span)
        ensures
            r@ == text_span(self.chars(), Style::plain_spec().bold_spec()),
    ;

    /// The text with the character at byte `i` painted; see
    /// [`paint_at_spec`].
    fn paint_at(&self, style: Style, i: usize) -> (r: Line)
        requires
            i <= self.encoded().len(),
            is_char_boundary(self.encoded(), i as int),
        ensures
            line_view(r@) == paint_at_spec(self.encoded(), style, i as int),
    ;

    /// The lines that point at a range of the text and say `msg` about
    /// it; see [`paint_range_msg_spec`].
    fn paint_range_msg(&self, style: Style, range: Range<usize>, msg: Line) -> (r: Vec<Line>)
        requires
            range.start < range.end <= self.encoded().len(),
            is_char_boundary(self.encoded(), range.start as int),
            is_char_boundary(self.encoded(), range.end as int),
        ensures
            lines_view(r@) == paint_range_msg_spec(self.encoded(), style, range, line_view(msg@)),
    ;
}

impl StrPaint for str {
    open spec fn encoded(&self) -> Seq<u8> {
        self.spec_bytes()
    }

    open spec fn chars(&self) -> Seq<char> {
        self@
    }

    fn fg(&self, color: u8) -> (r: Span) {
        Span::of(self, Style::fg(color))
    }

    fn bold(&self) -> (r: Span) {
        Span::of(self, Style::plain().bold())
    }

    fn paint_at(&self, style: Style, i: usize) -> (r: Line) {
        paint_char(self, style, i)
    }

    fn paint_range_msg(&self, style: Style, range: Range<usize>, msg: Line) -> (r: Vec<Line>) {
        paint_range(self, style, range, msg)
    }
}

/// The text with the character at byte `i` painted.
fn paint_char(s: &str, style: Style, i: usize) -> (r: Line)
    requires
        i <= s.spec_bytes().len(),
        is_char_boundary(s.spec_bytes(), i as int),
    ensures
        line_view(r@) == paint_at_spec(s.spec_bytes(), style, i as int),
{
    let b = s.as_bytes();
    let n = b.len();
    proof {
        encode_utf8_valid_utf8(s@);
        is_char_boundary_start_end_of_seq(b@);
    }
    let mut line = empty_line();
    if i >= n {
        push_span(&mut line, Span::of(slice(s, 0, n), Style::plain()));
        return line;
    }
    let first = b[i];
    let width: usize = if first <= 0x7f {
        1
    } else if 0xc0 <= first && first <= 0xdf {
        2
    } else if 0xe0 <= first && first <= 0xef {
        3
    } else {
        4
    };
    proof {
        lemma_next_boundary(b@, i as int);
        assert(b@.subrange(i as int, n as int)[0] == first);
    }
    push_span(&mut line, Span::of(slice(s, 0, i), Style::plain()));
    push_span(&mut line, Span::of(slice(s, i, i + width), style));
    push_span(&mut line, Span::of(slice(s, i + width, n), Style::plain()));
    line
}

/// How many dashes stand before the branch under a range of the given
/// length.
pub open spec fn dashes_left(len: int) -> nat {
    if len > 2 {
        1
    } else {
        0
    }
}

/// The connector under a range that starts at `start` and has the given
/// length: a branch under its first character, or under its second one
/// where it is longer than two, with dashes under the rest.
pub open spec fn connector(start: nat, len: int) -> Seq<char> {
    repeat_char(' ', start) + repeat_char('─', dashes_left(len)) + seq!['┬'] + repeat_char(
        '─',
        (len - dashes_left(len) - 1) as nat,
    )
}

/// The corner under the branch of the connector, with two dashes.
pub open spec fn corner(start: nat, len: int) -> Seq<char> {
    repeat_char(' ', start) + repeat_char(' ', dashes_left(len)) + seq!['╰', '─', '─']
}

/// The three lines that point at a range of the text and say `msg` about
/// it: the text with the range in `style`, the connector, and the corner
/// with the message, both in the color of `style`.
pub open spec fn paint_range_msg_spec(
    b: Seq<u8>,
    style: Style,
    range: Range<usize>,
    msg: Seq<SpanView>,
) -> Seq<Seq<SpanView>> {
    let len = range.end - range.start;
    seq![
        seq![
            text_span(source_text(b, 0, range.start as int), Style::plain()),
            text_span(source_text(b, range.start as int, range.end as int), style),
            text_span(source_text(b, range.end as int, b.len() as int), Style::plain()),
        ],
        seq![text_span(connector(range.start as nat, len), style.color_only())],
        seq![
            text_span(corner(range.start as nat, len), style.color_only()),
            text_span(seq![' '], Style::plain()),
        ] + msg,
    ]
}

/// Appends the spans of `more` to `line`.
pub fn extend_line(line: &mut Line, more: Line)
    ensures
        line_view(final(line)@) == line_view(old(line)@) + line_view(more@),
{
    let mut more = more;
    let ghost all = more@;
    // Spans are moved from the end of `more`, so they are collected in
    // reverse first.
    let mut reversed: Line = Vec::new();
    while more.len() > 0
        invariant
            more@.len() + reversed@.len() == all.len(),
            forall|i: int| 0 <= i < more@.len() ==> more@[i] == all[i],
            forall|i: int| 0 <= i < reversed@.len() ==> reversed@[i] == all[all.len() - 1 - i],
        decreases more.len(),
    {
        let last = more.pop().unwrap();
        reversed.push(last);
    }
    while reversed.len() > 0
        invariant
            reversed@.len() <= all.len(),
            forall|i: int| 0 <= i < reversed@.len() ==> reversed@[i] == all[all.len() - 1 - i],
            line_view(line@) == line_view(old(line)@) + line_view(
                all.subrange(0, all.len() - reversed@.len()),
            ),
        decreases reversed.len(),
    {
        let ghost k = all.len() - reversed@.len();
        let next = reversed.pop().unwrap();
        push_span(line, next);
        proof {
            assert(line_view(all.subrange(0, k + 1)) =~= line_view(all.subrange(0, k)).push(all[k]@));
            assert(line_view(line@) =~= line_view(old(line)@) + line_view(all.subrange(0, k + 1)));
        }
    }
    proof {
        assert(all.subrange(0, all.len() as int) =~= all);
    }
}

/// The lines that point at a range of the text and say `msg` about it.
fn paint_range(s: &str, style: Style, range: Range<usize>, msg: Line) -> (r: Vec<Line>)
    requires
        range.start < range.end <= s.spec_bytes().len(),
        is_char_boundary(s.spec_bytes(), range.start as int),
        is_char_boundary(s.spec_bytes(), range.end as int),
    ensures
        lines_view(r@) == paint_range_msg_spec(s.spec_bytes(), style, range, line_view(msg@)),
{
    let n = s.as_bytes().len();
    let start = range.start;
    let end = range.end;
    proof {
        encode_utf8_valid_utf8(s@);
        is_char_boundary_start_end_of_seq(s.spec_bytes());
    }
    let mut shown = empty_line();
    push_span(&mut shown, Span::of(slice(s, 0, start), Style::plain()));
    push_span(&mut shown, Span::of(slice(s, start, end), style));
    push_span(&mut shown, Span::of(slice(s, end, n), Style::plain()));

    let left: usize = if end - start > 2 {
        1
    } else {
        0
    };
    let right = end - start - (left + 1);
    let mut text1 = String::new();
    push_repeat(&mut text1, ' ', start);
    push_repeat(&mut text1, '─', left);
    text1.push('┬');
    push_repeat(&mut text1, '─', right);
    proof {
        assert(text1@ =~= connector(start as nat, end - start));
    }
    let mut line1 = empty_line();
    push_span(&mut line1, Span::text(text1, style.color_only()));

    let mut text2 = String::new();
    push_repeat(&mut text2, ' ', start);
    push_repeat(&mut text2, ' ', left);
    text2.push('╰');
    text2.push('─');
    text2.push('─');
    proof {
        assert(text2@ =~= corner(start as nat, end - start));
    }
    let mut line2 = empty_line();
    push_span(&mut line2, Span::text(text2, style.color_only()));
    let mut blank = String::new();
    blank.push(' ');
    proof {
        assert(blank@ =~= seq![' ']);
    }
    push_span(&mut line2, Span::text(blank, Style::plain()));
    extend_line(&mut line2, msg);

    let mut lines: Vec<Line> = Vec::new();
    proof {
        let want = paint_range_msg_spec(s.spec_bytes(), style, range, line_view(msg@));
        assert(lines_view(lines@) =~= Seq::<Seq<SpanView>>::empty());
        assert(line_view(shown@) =~= want[0]);
        assert(line_view(line1@) =~= want[1]);
        assert(line_view(line2@) =~= want[2]);
    }
    push_line(&mut lines, shown);
    push_line(&mut lines, line1);
    push_line(&mut lines, line2);
    proof {
        let want = paint_range_msg_spec(s.spec_bytes(), style, range, line_view(msg@));
        assert(lines_view(lines@) =~= want);
    }
    lines
}

/// The margin before a line of a frame: a bar in the given style between
/// two blanks.
pub open spec fn margin(style: Style) -> Seq<SpanView> {
    seq![
        text_span(seq![' '], Style::plain()),
        text_span(seq!['│'], style),
        text_span(seq![' '], Style::plain()),
    ]
}

/// The lines with a margin before each: in the style `first` before the
/// first line, `second` before the second, `rest` before the others.
pub open spec fn lined_spec(
    lines: Seq<Seq<SpanView>>,
    first: Style,
    second: Style,
    rest: Style,
) -> Seq<Seq<SpanView>> {
    Seq::new(
        lines.len(),
        |i: int|
            margin(
                if i == 0 {
                    first
                } else if i == 1 {
                    second
                } else {
                    rest
                },
            ) + lines[i],
    )
}

/// A line that starts with the margin.
fn margin_line(style: Style) -> (r: Line)
    ensures
        line_view(r@) == margin(style),
{
    let mut line = empty_line();
    let mut blank = String::new();
    blank.push(' ');
    let mut bar = String::new();
    bar.push('│');
    let mut blank2 = String::new();
    blank2.push(' ');
    proof {
        assert(blank@ =~= seq![' ']);
        assert(blank2@ =~= seq![' ']);
        assert(bar@ =~= seq!['│']);
    }
    push_span(&mut line, Span::text(blank, Style::plain()));
    push_span(&mut line, Span::text(bar, style));
    push_span(&mut line, Span::text(blank2, Style::plain()));
    line
}

/// Puts the margin before each line.
pub fn lined(lines: Vec<Line>, first: Style, second: Style, rest: Style) -> (r: Vec<Line>)
    ensures
        lines_view(r@) == lined_spec(lines_view(lines@), first, second, rest),
{
    let mut lines = lines;
    let ghost all = lines@;
    let total = lines.len();
    let mut reversed: Vec<Line> = Vec::new();
    while lines.len() > 0
        invariant
            all.len() == total,
            lines@.len() + reversed@.len() == all.len(),
            forall|i: int| 0 <= i < lines@.len() ==> lines@[i] == all[i],
            forall|i: int| 0 <= i < reversed@.len() ==> reversed@[i] == all[all.len() - 1 - i],
        decreases lines.len(),
    {
        let last = lines.pop().unwrap();
        reversed.push(last);
    }
    let mut out: Vec<Line> = Vec::new();
    let mut i: usize = 0;
    proof {
        assert(lines_view(out@) =~= lined_spec(lines_view(all), first, second, rest).subrange(0, 0));
    }
    while reversed.len() > 0
        invariant
            all.len() == total,
            i + reversed@.len() == all.len(),
            forall|j: int| 0 <= j < reversed@.len() ==> reversed@[j] == all[all.len() - 1 - j],
            lines_view(out@) == lined_spec(lines_view(all), first, second, rest).subrange(
                0,
                i as int,
            ),
        decreases reversed.len(),
    {
        let next = reversed.pop().unwrap();
        let style = if i == 0 {
            first
        } else if i == 1 {
            second
        } else {
            rest
        };
        let mut line = margin_line(style);
        extend_line(&mut line, next);
        push_line(&mut out, line);
        i += 1;
        proof {
            let want = lined_spec(lines_view(all), first, second, rest);
            assert(lines_view(all)[i - 1] == line_view(all[i - 1]@));
            assert(lines_view(out@) =~= want.subrange(0, i as int));
        }
    }
    proof {
        let want = lined_spec(lines_view(all), first, second, rest);
        assert(want.subrange(0, all.len() as int) =~= want);
    }
    out
}

/// A span of unpainted text.
pub open spec fn plain(text: Seq<char>) -> SpanView {
    text_span(text, Style::plain())
}

/// The style of what is right.
pub open spec fn bold_style() -> Style {
    Style::plain().bold()
}

/// The style of what is wrong.
pub open spec fn dark_style() -> Style {
    Style::fg(DARK_COLOR)
}

/// The approximation in bold as far as it agrees with the truth, and dark
/// from there on. Where all of it agrees but the truth goes on, it is
/// filled up with zeros as far as it agrees, after a decimal point if it
/// has none, and followed by a dark `(0...)`.
pub open spec fn emph_spec(approx: DecimalView, truth: DecimalView) -> Seq<SpanView> {
    let s = approx.text();
    match lcp_spec(approx, truth) {
        None => seq![text_span(s, bold_style())],
        Some(len) => if len < s.len() {
            seq![
                text_span(s.subrange(0, len as int), bold_style()),
                text_span(s.subrange(len as int, s.len() as int), dark_style()),
            ]
        } else {
            let base = if approx.frac_once.len() == 0 && approx.frac_rep.len() == 0 {
                s + seq!['.']
            } else {
                s
            };
            let fill: nat = if len > base.len() {
                (len - base.len()) as nat
            } else {
                0
            };
            seq![
                text_span(base + repeat_char('0', fill), bold_style()),
                text_span("(0...)"@, dark_style()),
            ]
        },
    }
}

/// The text of a decimal is made of ASCII characters.
pub proof fn lemma_decimal_text_ascii(v: DecimalView)
    requires
        v.is_digits(),
    ensures
        is_ascii_chars(v.text()),
{
    let t = v.text();
    assert forall|i: int| 0 <= i < t.len() implies '\0' <= #[trigger] t[i] <= '\u{7f}' by {
        let sign: Seq<char> = if v.sign is Minus {
            seq!['-']
        } else {
            Seq::<char>::empty()
        };
        let whole = digits_text(v.int_part);
        let group: Seq<char> = if v.frac_rep.len() == 0 {
            Seq::<char>::empty()
        } else {
            seq!['('] + digits_text(v.frac_rep) + seq!['.', '.', '.', ')']
        };
        let frac = digits_text(v.frac_once) + group;
        let tail = if frac.len() == 0 {
            frac
        } else {
            seq!['.'] + frac
        };
        assert(t == sign + whole + tail);
        assert forall|k: int| 0 <= k < whole.len() implies '\0' <= #[trigger] whole[k]
            <= '\u{7f}' by {}
        assert forall|k: int| 0 <= k < group.len() implies '\0' <= #[trigger] group[k]
            <= '\u{7f}' by {
            if 1 <= k <= v.frac_rep.len() {
                assert(group[k] == digits_text(v.frac_rep)[k - 1]);
            }
        }
        assert forall|k: int| 0 <= k < frac.len() implies '\0' <= #[trigger] frac[k]
            <= '\u{7f}' by {
            if k >= v.frac_once.len() {
                assert(frac[k] == group[k - v.frac_once.len()]);
            }
        }
        assert forall|k: int| 0 <= k < tail.len() implies '\0' <= #[trigger] tail[k]
            <= '\u{7f}' by {
            if frac.len() > 0 && k > 0 {
                assert(tail[k] == frac[k - 1]);
            }
        }
        if i < sign.len() {
        } else if i < sign.len() + whole.len() {
            assert(t[i] == whole[i - sign.len()]);
        } else {
            assert(t[i] == tail[i - sign.len() - whole.len()]);
        }
    }
}

/// The approximation with the part that agrees with the truth in bold and
/// the rest dark; see [`emph_spec`].
pub fn str_emph_correct(approx: &DecimalTuple, truth: &DecimalTuple) -> (r: Line)
    requires
        approx@.is_digits(),
        2 * approx@.len() <= usize::MAX,
        2 * truth@.len() <= usize::MAX,
    ensures
        line_view(r@) == emph_spec(approx@, truth@),
{
    let s = approx.to_string();
    proof {
        lemma_decimal_text_ascii(approx@);
    }
    let mut line = empty_line();
    let len = match approx.lcp_len(truth) {
        Some(len) => len,
        None => {
            push_span(&mut line, Span::text(s, Style::plain().bold()));
            return line;
        },
    };
    let text = s.as_str();
    let total = text.len();
    proof {
        assert(text@ == approx@.text());
        assert(vstd::string::is_ascii(text));
        vstd::string::is_ascii_spec_bytes(text);
    }
    if len < total {
        push_span(&mut line, Span::of(text.substring_ascii(0, len), Style::plain().bold()));
        push_span(&mut line, Span::of(text.substring_ascii(len, total), Style::fg(DARK_COLOR)));
        return line;
    }
    let mut padded = s.clone();
    let mut width = total;
    if approx.is_integer() {
        padded.push('.');
        width = width + 1;
    }
    let fill = if len > width {
        len - width
    } else {
        0
    };
    push_repeat(&mut padded, '0', fill);
    push_span(&mut line, Span::text(padded, Style::plain().bold()));
    push_span(&mut line, Span::of("(0...)", Style::fg(DARK_COLOR)));
    line
}

/// The magnitude of a fraction with a positive denominator.
pub open spec fn abs_frac(f: Frac) -> Frac {
    Frac {
        num: if f.num < 0 {
            -f.num
        } else {
            f.num
        },
        den: f.den,
    }
}

/// `k` is how often two divides `n`, and zero for `n == 0`.
pub open spec fn order_is(n: nat, k: nat) -> bool {
    if n == 0 {
        k == 0
    } else {
        is_two_adic_order(n, k)
    }
}

/// An order as it is counted: no further than `i32::MAX`.
pub open spec fn capped(k: nat) -> int {
    if k > i32::MAX {
        i32::MAX as int
    } else {
        k as int
    }
}

/// `exp` is how often two divides the numerator of `rel`, less how often
/// it divides the denominator.
pub open spec fn dyadic_exponent(rel: Rational, exp: int) -> bool {
    exists|nt: nat, dt: nat|
        #![trigger order_is(digits_value(rel.numer@), nt), order_is(digits_value(rel.denom@), dt)]
        order_is(digits_value(rel.numer@), nt) && order_is(digits_value(rel.denom@), dt) && exp
            == capped(nt) - capped(dt)
}

/// How the truth is written: as a fraction where its decimal repeats,
/// else as the decimal.
pub open spec fn truth_text(truth: DecimalView, q: Rational) -> Seq<char> {
    if truth.frac_rep.len() > 0 {
        q.text()
    } else {
        truth.text()
    }
}

/// The text `2^{exp}`.
pub open spec fn power_text(exp: int) -> Seq<char> {
    "2^{"@ + integer_text(exp) + seq!['}']
}

/// The text `truth * (1 ± factor * 2^{exp})`, without the parts that are
/// one.
pub open spec fn error_text(truth: Seq<char>, positive: bool, factor: Rational, exp: int) -> Seq<
    char,
> {
    let size = if factor@.num == 1 && factor@.den == 1 {
        if exp == 0 {
            seq!['1']
        } else {
            power_text(exp)
        }
    } else {
        factor.text() + if exp == 0 {
            Seq::<char>::empty()
        } else {
            " * "@ + power_text(exp)
        }
    };
    truth + " * (1 "@ + seq![
        if positive {
            '+'
        } else {
            '-'
        },
        ' ',
    ] + size + seq![')']
}

/// `text` says how far `qa` is from `qt`, relative to `qt`: the relative
/// error `rel = (qa - qt) / qt` is written as `± factor * 2^exp`, where
/// `exp` is how often two divides the numerator of `rel` less how often it
/// divides its denominator.
pub open spec fn is_relative_error_text(
    text: Seq<char>,
    head: Seq<char>,
    qa: Rational,
    qt: Rational,
) -> bool {
    exists|rel: Rational, factor: Rational, exp: int|
        #![trigger rel.wf(), factor.wf(), power_text(exp)]
        {
            &&& rel.wf()
            &&& rel@.eqv(qa@.minus(qt@).over(qt@))
            &&& dyadic_exponent(rel, exp)
            &&& factor.wf()
            &&& factor@.eqv(abs_frac(rel@).over(power_frac(2, exp)))
            &&& text == error_text(head, qa@.minus(qt@).num > 0, factor, exp)
        }
}

/// `text` says what the approximation is in terms of the truth: the truth
/// itself where they are equal, and else the truth times one plus or minus
/// the relative error.
pub open spec fn is_error_text(text: Seq<char>, approx: DecimalView, truth: DecimalView) -> bool {
    exists|qa: Rational, qt: Rational|
        #![trigger qa.wf(), qt.wf()]
        {
            &&& qa.wf()
            &&& qt.wf()
            &&& qa@.eqv(approx.value())
            &&& qt@.eqv(truth.value())
            &&& is_error_text_of(text, truth, qa, qt)
        }
}

/// How often two divides a number, counted no further than `i32::MAX`.
fn capped_order(digits: &Vec<u8>) -> (r: i64)
    requires
        is_digits(digits@),
    ensures
        0 <= r <= i32::MAX,
        exists|k: nat| #[trigger] order_is(digits_value(digits@), k) && r == capped(k),
{
    let found = nat_trailing_zeros(digits);
    let ghost k: nat = match found {
        None => 0,
        Some(k) => k as nat,
    };
    let r: i64 = match found {
        None => 0,
        Some(k) => if k > 2147483647 {
            2147483647
        } else {
            k as i64
        },
    };
    assert(order_is(digits_value(digits@), k) && r == capped(k));
    r
}

/// Appends the text `2^{exp}`.
fn push_power(out: &mut String, exp: i32)
    ensures
        final(out)@ == old(out)@ + power_text(exp as int),
{
    out.append("2^{");
    push_integer(out, exp as i64);
    out.push('}');
    proof {
        assert(out@ =~= old(out)@ + power_text(exp as int));
    }
}

/// The text for two numbers that are given as fractions.
pub open spec fn is_error_text_of(
    text: Seq<char>,
    truth: DecimalView,
    qa: Rational,
    qt: Rational,
) -> bool {
    if qa@ == qt@ {
        text == truth_text(truth, qt)
    } else {
        is_relative_error_text(text, truth_text(truth, qt), qa, qt)
    }
}

/// What the approximation is in terms of the truth:
/// `truth * (1 ± r * 2^{e})`, or the truth alone where they are equal. See
/// [`is_error_text`].
pub fn str_approx(approx: &DecimalTuple, truth: &DecimalTuple) -> (r: String)
    requires
        approx@.is_digits(),
        truth@.is_digits(),
        truth@.value().num != 0,
    ensures
        is_error_text(r@, approx@, truth@),
{
    let qa = DecimalTuple::to_rational(
        approx.sign,
        &approx.int_part,
        &approx.frac_once,
        &approx.frac_rep,
    );
    let qt = DecimalTuple::to_rational(truth.sign, &truth.int_part, &truth.frac_once, &truth.frac_rep);
    proof {
        lemma_value_denominator(truth@);
        lemma_zero_iff(qt@, truth@.value());
    }
    let r = approx_text(&qa, &qt, truth);
    proof {
        assert(qa.wf() && qt.wf());
    }
    r
}

/// The relative error `(qa - qt) / qt` as sign, factor and power of two.
pub open spec fn is_relative_error(
    positive: bool,
    factor: Rational,
    exp: int,
    qa: Rational,
    qt: Rational,
) -> bool {
    exists|rel: Rational|
        #![trigger rel.wf()]
        {
            &&& rel.wf()
            &&& rel@.eqv(qa@.minus(qt@).over(qt@))
            &&& dyadic_exponent(rel, exp)
            &&& factor.wf()
            &&& factor@.eqv(abs_frac(rel@).over(power_frac(2, exp)))
            &&& positive == (qa@.minus(qt@).num > 0)
        }
}

/// The relative error of `qa` as an approximation of `qt`: whether `qa`
/// is the larger one, and factor and exponent of
/// `|qa - qt| / |qt| = factor * 2^exp`, where the exponent is how often two
/// divides the numerator of the relative error less how often it divides
/// its denominator.
pub fn relative_error(qa: &Rational, qt: &Rational) -> (r: (bool, Rational, i32))
    requires
        qa.wf(),
        qt.wf(),
        qt@.num != 0,
    ensures
        is_relative_error(r.0, r.1, r.2 as int, *qa, *qt),
{
    let diff = qa.sub(qt);
    let rel = diff.div(qt);
    let positive = diff.is_positive();
    let ghost gap = qa@.minus(qt@);
    proof {
        assert(gap.den > 0) by (nonlinear_arith)
            requires
                gap.den == qa@.den * qt@.den,
                qa@.den >= 1,
                qt@.den >= 1,
        ;
        assert(positive == (gap.num > 0)) by (nonlinear_arith)
            requires
                diff@.num * gap.den == gap.num * diff@.den,
                gap.den > 0,
                diff@.den > 0,
                positive == (diff@.num > 0),
        ;
        lemma_over_congruent(diff@, gap, qt@, qt@);
        lemma_product_nonzero(diff@.den, qt@.num);
        lemma_eqv_transitive(rel@, diff@.over(qt@), gap.over(qt@));
    }
    let nt = capped_order(&rel.numer);
    let dt = capped_order(&rel.denom);
    let exp: i32 = (nt - dt) as i32;
    proof {
        let kn = choose|k: nat| #[trigger] order_is(digits_value(rel.numer@), k) && nt == capped(k);
        let kd = choose|k: nat| #[trigger] order_is(digits_value(rel.denom@), k) && dt == capped(k);
        assert(order_is(digits_value(rel.numer@), kn) && order_is(digits_value(rel.denom@), kd));
        assert(dyadic_exponent(rel, exp as int));
    }
    let size = rel.abs();
    let scale = Rational::power_of_two(exp);
    let factor = size.div(&scale);
    proof {
        assert(size@ == abs_frac(rel@));
        assert(rel.wf());
    }
    (positive, factor, exp)
}

/// What the number `qa` is in terms of `qt`, whose decimal is `truth`.
#[verifier::rlimit(60)]
pub fn approx_text(qa: &Rational, qt: &Rational, truth: &DecimalTuple) -> (r: String)
    requires
        qa.wf(),
        qt.wf(),
        qt@.num != 0,
        truth@.is_digits(),
    ensures
        is_error_text_of(r@, truth@, *qa, *qt),
{
    let head = if truth.is_repetitive() {
        qt.to_string()
    } else {
        truth.to_string()
    };
    if qa.same(qt) {
        return head;
    }
    let (positive, factor, exp) = relative_error(qa, qt);
    let mut out = head;
    out.append(" * (1 ");
    out.push(
        if positive {
            '+'
        } else {
            '-'
        },
    );
    out.push(' ');
    if factor.is_one() {
        if exp == 0 {
            out.push('1');
        } else {
            push_power(&mut out, exp);
        }
    } else {
        let text = factor.to_string();
        out.append(text.as_str());
        if exp != 0 {
            out.append(" * ");
            push_power(&mut out, exp);
        }
    }
    out.push(')');
    proof {
        let head_text = truth_text(truth@, *qt);
        assert(out@ =~= error_text(head_text, positive, factor, exp as int));
        let rel = choose|rel: Rational|
            #![trigger rel.wf()]
            {
                &&& rel.wf()
                &&& rel@.eqv(qa@.minus(qt@).over(qt@))
                &&& dyadic_exponent(rel, exp as int)
                &&& factor.wf()
                &&& factor@.eqv(abs_frac(rel@).over(power_frac(2, exp as int)))
                &&& positive == (qa@.minus(qt@).num > 0)
            };
        assert(rel.wf() && factor.wf());
        assert(power_text(exp as int) == power_text(exp as int));
        assert(is_relative_error_text(out@, head_text, *qa, *qt));
    }
    out
}

/// The decimal of a number as it is shown, where it can be written out:
/// where the search for its repeating block ends within what `usize` can
/// count, and twice its length can be counted too.
pub open spec fn shown(f: Frac) -> Option<DecimalView> {
    if can_expand(f) && 2 * decimal_of(f).len() <= usize::MAX {
        Some(decimal_of(f))
    } else {
        None
    }
}

/// The decimal of a number, where it can be written out; see [`shown`].
pub fn shown_decimal(q: &Rational) -> (r: Option<DecimalTuple>)
    requires
        q.wf(),
    ensures
        match shown(q@) {
            Some(v) => r matches Some(d) && d@ == v && d@.is_digits(),
            None => r is None,
        },
{
    match DecimalTuple::try_from_rational(q) {
        None => None,
        Some(d) => {
            let total: u128 = d.int_part.len() as u128 + 1 + d.frac_once.len() as u128
                + d.frac_rep.len() as u128;
            if 2 * total <= usize::MAX as u128 {
                Some(d)
            } else {
                None
            }
        },
    }
}

/// The decimal of a float that denotes a number, where it can be written
/// out.
pub open spec fn approx_decimal(bits: u64) -> Option<DecimalView> {
    match float_class(bits) {
        FloatClass::Finite | FloatClass::NegZero => shown(float_value(bits)),
        _ => None,
    }
}

/// The style of what a frame is about.
pub open spec fn emph_style() -> Style {
    Style::fg(EMPH_COLOR).bold()
}

/// How the float is shown next to the truth.
pub open spec fn float_spans(truth: Frac, bits: u64) -> Seq<SpanView> {
    match float_class(bits) {
        FloatClass::Nan => seq![plain("nan"@)],
        FloatClass::Infinity => seq![plain("infinity"@)],
        FloatClass::NegInfinity => seq![plain("-infinity"@)],
        FloatClass::NegZero => seq![plain("-0"@)],
        FloatClass::Finite => match (approx_decimal(bits), shown(truth)) {
            (Some(a), Some(t)) => emph_spec(a, t),
            _ => seq![SpanView { content: ContentView::Float(bits), style: Style::plain() }],
        },
    }
}

/// Whether the frame says how far the float is from the truth: where the
/// truth is not zero, the float denotes a number, and both can be written
/// out.
pub open spec fn has_note(truth: Frac, bits: u64) -> bool {
    truth.num != 0 && approx_decimal(bits) is Some && shown(truth) is Some
}

/// The lines of an estimate frame, without their margin: the source with
/// the range of the subexpression painted and the float under it, the
/// truth as a fraction and, unless it is whole, as a decimal, the float
/// with what is right in bold, and `note`, which says how far the float is
/// from the truth.
pub open spec fn estimate_lines(
    b: Seq<u8>,
    truth: Rational,
    bits: u64,
    range: Range<usize>,
    note: Seq<char>,
) -> Seq<Seq<SpanView>> {
    let msg = seq![
        text_span("{this:?}"@, bold_style()),
        plain(": "@),
        SpanView { content: ContentView::Float(bits), style: emph_style() },
    ];
    let head = seq![Seq::<SpanView>::empty()] + paint_range_msg_spec(b, emph_style(), range, msg)
        + seq![Seq::<SpanView>::empty(), seq![plain("truth: "@), plain(truth.text())]];
    let decimal = match shown(truth@) {
        Some(d) => if truth@.den != 1 {
            seq![seq![plain("     = "@), plain(d.text())]]
        } else {
            Seq::<Seq<SpanView>>::empty()
        },
        None => Seq::<Seq<SpanView>>::empty(),
    };
    let float = seq![seq![plain("float: "@)] + float_spans(truth@, bits)];
    let last = if has_note(truth@, bits) {
        seq![seq![plain("     = "@), plain(note)]]
    } else {
        Seq::<Seq<SpanView>>::empty()
    };
    head + decimal + float + last
}

/// The note of an estimate frame says how far the float is from the
/// truth.
pub open spec fn is_note(note: Seq<char>, truth: Rational, bits: u64) -> bool {
    has_note(truth@, bits) ==> exists|qa: Rational|
        #![trigger qa.wf()]
        qa.wf() && qa@.eqv(float_value(bits)) && is_error_text_of(
            note,
            shown(truth@)->0,
            qa,
            truth,
        )
}

/// The estimate frame of a report: what [`estimate_lines`] says, behind a
/// dark margin that is dimmed but for the line of the source.
pub open spec fn estimate_spec(b: Seq<u8>, report: Report, note: Seq<char>) -> Seq<Seq<SpanView>> {
    lined_spec(
        estimate_lines(b, report.value, report.approx, report.range, note),
        Style::fg(DARK_COLOR).dimmed(),
        Style::fg(DARK_COLOR),
        Style::fg(DARK_COLOR).dimmed(),
    )
}

/// A line of one span of unpainted text.
fn text_line(text: &str, style: Style) -> (r: Line)
    ensures
        line_view(r@) == seq![text_span(text@, style)],
{
    let mut line = empty_line();
    push_span(&mut line, Span::of(text, style));
    line
}

/// No lines.
fn no_lines() -> (r: Vec<Line>)
    ensures
        lines_view(r@) == Seq::<Seq<SpanView>>::empty(),
{
    let r: Vec<Line> = Vec::new();
    proof {
        assert(lines_view(r@) =~= Seq::<Seq<SpanView>>::empty());
    }
    r
}

/// Appends the lines of `more` to `lines`.
pub fn extend_lines(lines: &mut Vec<Line>, more: Vec<Line>)
    ensures
        lines_view(final(lines)@) == lines_view(old(lines)@) + lines_view(more@),
{
    let mut more = more;
    let ghost all = more@;
    let mut reversed: Vec<Line> = Vec::new();
    while more.len() > 0
        invariant
            more@.len() + reversed@.len() == all.len(),
            forall|i: int| 0 <= i < more@.len() ==> more@[i] == all[i],
            forall|i: int| 0 <= i < reversed@.len() ==> reversed@[i] == all[all.len() - 1 - i],
        decreases more.len(),
    {
        let last = more.pop().unwrap();
        reversed.push(last);
    }
    while reversed.len() > 0
        invariant
            reversed@.len() <= all.len(),
            forall|i: int| 0 <= i < reversed@.len() ==> reversed@[i] == all[all.len() - 1 - i],
            lines_view(lines@) == lines_view(old(lines)@) + lines_view(
                all.subrange(0, all.len() - reversed@.len()),
            ),
        decreases reversed.len(),
    {
        let ghost k = all.len() - reversed@.len();
        let next = reversed.pop().unwrap();
        push_line(lines, next);
        proof {
            assert(lines_view(all.subrange(0, k + 1)) =~= lines_view(all.subrange(0, k)).push(
                line_view(all[k]@),
            ));
            assert(lines_view(lines@) =~= lines_view(old(lines)@) + lines_view(
                all.subrange(0, k + 1),
            ));
        }
    }
    proof {
        assert(all.subrange(0, all.len() as int) =~= all);
    }
}

/// The estimate frame of a report, or no lines where the options do not
/// ask for it.
pub fn estimate(report: &Report, s: &str, opts: &EvalOptions) -> (r: Vec<Line>)
    requires
        report.value.wf(),
        is_token(s.spec_bytes(), report.range),
    ensures
        opts.estimates(report.context) ==> exists|note: Seq<char>|
            #![trigger estimate_spec(s.spec_bytes(), *report, note)]
            is_note(note, report.value, report.approx) && lines_view(r@) == estimate_spec(
                s.spec_bytes(),
                *report,
                note,
            ),
        !opts.estimates(report.context) ==> r@.len() == 0,
{
    if !opts.do_estimate(&report.context) {
        return Vec::new();
    }
    let ghost b = s.spec_bytes();
    let truth = &report.value;
    let bits = report.approx;
    let emph = Style::fg(EMPH_COLOR).bold();
    proof {
        encode_utf8_valid_utf8(s@);
        lemma_ascii_edges(b, report.range.start as int, report.range.end as int);
    }
    let mut msg = empty_line();
    push_span(&mut msg, Span::of("{this:?}", Style::plain().bold()));
    push_span(&mut msg, Span::of(": ", Style::plain()));
    push_span(&mut msg, Span::float(bits, emph));

    let mut lines = no_lines();
    push_line(&mut lines, empty_line());
    let range = Range { start: report.range.start, end: report.range.end };
    extend_lines(&mut lines, s.paint_range_msg(emph, range, msg));
    push_line(&mut lines, empty_line());
    let mut shown_truth = empty_line();
    push_span(&mut shown_truth, Span::of("truth: ", Style::plain()));
    push_span(&mut shown_truth, Span::text(truth.to_string(), Style::plain()));
    push_line(&mut lines, shown_truth);
    let ghost head = seq![Seq::<SpanView>::empty()] + paint_range_msg_spec(
        b,
        emph_style(),
        report.range,
        seq![
            text_span("{this:?}"@, bold_style()),
            plain(": "@),
            SpanView { content: ContentView::Float(bits), style: emph_style() },
        ],
    ) + seq![Seq::<SpanView>::empty(), seq![plain("truth: "@), plain(truth.text())]];
    proof {
        assert(range == report.range);
        assert(lines_view(lines@) =~~= head);
    }

    let d_rat = shown_decimal(truth);
    match &d_rat {
        Some(d) => {
            if !truth.is_integer() {
                let mut line = empty_line();
                push_span(&mut line, Span::of("     = ", Style::plain()));
                push_span(&mut line, Span::text(d.to_string(), Style::plain()));
                push_line(&mut lines, line);
            }
        },
        None => {},
    }
    let ghost decimal = match shown(truth@) {
        Some(d) => if truth@.den != 1 {
            seq![seq![plain("     = "@), plain(d.text())]]
        } else {
            Seq::<Seq<SpanView>>::empty()
        },
        None => Seq::<Seq<SpanView>>::empty(),
    };
    proof {
        assert(lines_view(lines@) =~~= head + decimal);
    }
    let class = classify(bits);
    let (q_flt, d_flt) = match class {
        FloatClass::Finite | FloatClass::NegZero => {
            let q = to_rational(bits);
            let d = shown_decimal(&q);
            proof {
                lemma_can_expand_eqv(q@, float_value(bits));
                assert(shown(q@) == shown(float_value(bits)));
            }
            (Some(q), d)
        },
        _ => (None, None),
    };
    let mut float_line = text_line("float: ", Style::plain());
    match class {
        FloatClass::Nan => {
            push_span(&mut float_line, Span::of("nan", Style::plain()));
        },
        FloatClass::Infinity => {
            push_span(&mut float_line, Span::of("infinity", Style::plain()));
        },
        FloatClass::NegInfinity => {
            push_span(&mut float_line, Span::of("-infinity", Style::plain()));
        },
        FloatClass::NegZero => {
            push_span(&mut float_line, Span::of("-0", Style::plain()));
        },
        FloatClass::Finite => {
            match (&d_flt, &d_rat) {
                (Some(a), Some(t)) => {
                    extend_line(&mut float_line, str_emph_correct(a, t));
                },
                _ => {
                    push_span(&mut float_line, Span::float(bits, Style::plain()));
                },
            }
        },
    }
    proof {
        assert(line_view(float_line@) =~~= seq![plain("float: "@)] + float_spans(truth@, bits));
    }
    push_line(&mut lines, float_line);
    let ghost float = seq![seq![plain("float: "@)] + float_spans(truth@, bits)];
    proof {
        assert(lines_view(lines@) =~~= head + decimal + float);
    }
    let ghost mut note: Seq<char> = Seq::empty();
    if !truth.is_zero() {
        match (&q_flt, &d_flt, &d_rat) {
            (Some(qa), Some(_), Some(t)) => {
                let text = approx_text(qa, truth, t);
                proof {
                    note = text@;
                    assert(qa.wf());
                }
                let mut line = empty_line();
                push_span(&mut line, Span::of("     = ", Style::plain()));
                push_span(&mut line, Span::text(text, Style::plain()));
                push_line(&mut lines, line);
            },
            _ => {},
        }
    }
    proof {
        assert(lines_view(lines@) =~~= estimate_lines(b, *truth, bits, report.range, note));
    }
    let dark = Style::fg(DARK_COLOR);
    let r = lined(lines, dark.dimmed(), dark, dark.dimmed());
    proof {
        assert(lines_view(r@) == estimate_spec(b, *report, note));
    }
    r
}

/// The line that opens the frames of a line of input:
/// ` ╭─[<filename>:<lineno>]` after an empty line.
pub open spec fn frontmatter_spec(filename: Seq<char>, lineno: nat) -> Seq<Seq<SpanView>> {
    seq![
        Seq::<SpanView>::empty(),
        seq![
            text_span(" ╭─["@, dark_style()),
            plain(filename),
            plain(":"@),
            plain(digits_text(nat_digits(lineno))),
            text_span("]"@, dark_style()),
        ],
    ]
}

/// The line that opens the frames of a line of input.
pub fn frontmatter(filename: &str, lineno: usize) -> (r: Vec<Line>)
    ensures
        lines_view(r@) == frontmatter_spec(filename@, lineno as nat),
{
    let dark = Style::fg(DARK_COLOR);
    let mut line = text_line(" ╭─[", dark);
    push_span(&mut line, Span::of(filename, Style::plain()));
    push_span(&mut line, Span::of(":", Style::plain()));
    let mut number = String::new();
    push_digits(&mut number, &digits_of_u64(lineno as u64));
    proof {
        assert(number@ =~= digits_text(nat_digits(lineno as nat)));
    }
    push_span(&mut line, Span::text(number, Style::plain()));
    push_span(&mut line, Span::of("]", dark));
    let mut lines = no_lines();
    push_line(&mut lines, empty_line());
    push_line(&mut lines, line);
    proof {
        assert(lines_view(lines@) =~~= frontmatter_spec(filename@, lineno as nat));
    }
    lines
}

/// The style of the margin of an error.
pub open spec fn err_dim() -> Style {
    Style::fg(ERR_COLOR).dimmed()
}

/// The lines that close the frames of a line of input: a dimmed corner
/// after a value, and after a division by zero the range of the quotient
/// painted and named, behind a margin, and the corner, all in the color
/// of errors.
pub open spec fn backmatter_spec(b: Seq<u8>, failed: Option<Range<usize>>) -> Seq<Seq<SpanView>> {
    match failed {
        None => seq![seq![text_span(" ─╯"@, dark_style().dimmed())]],
        Some(range) => lined_spec(
            seq![Seq::<SpanView>::empty()] + paint_range_msg_spec(
                b,
                Style::fg(ERR_COLOR).bold(),
                range,
                seq![plain("divide by zero"@)],
            ),
            err_dim(),
            err_dim(),
            err_dim(),
        ) + seq![seq![text_span(" ─╯"@, err_dim())]],
    }
}

/// The range of the failure, where the evaluation failed.
pub open spec fn failed_range(result: Result<((Rational, u64), Range<usize>), EvalError>) -> Option<
    Range<usize>,
> {
    match result {
        Ok(_) => None,
        Err(EvalError::ZeroDivision(range)) => Some(range),
    }
}

/// The lines that close the frames of a line of input.
pub fn backmatter(s: &str, result: &Result<((Rational, u64), Range<usize>), EvalError>) -> (r: Vec<
    Line,
>)
    requires
        failed_range(*result) matches Some(range) ==> is_token(s.spec_bytes(), range),
    ensures
        lines_view(r@) == backmatter_spec(s.spec_bytes(), failed_range(*result)),
{
    let ghost b = s.spec_bytes();
    match result {
        Ok(_) => {
            let mut lines = no_lines();
            push_line(&mut lines, text_line(" ─╯", Style::fg(DARK_COLOR).dimmed()));
            proof {
                assert(lines_view(lines@) =~= backmatter_spec(b, None));
            }
            lines
        },
        Err(EvalError::ZeroDivision(range)) => {
            proof {
                encode_utf8_valid_utf8(s@);
                lemma_ascii_edges(b, range.start as int, range.end as int);
            }
            let red = Style::fg(ERR_COLOR);
            let mut lines = no_lines();
            push_line(&mut lines, empty_line());
            let at = Range { start: range.start, end: range.end };
            let msg = text_line("divide by zero", Style::plain());
            extend_lines(&mut lines, s.paint_range_msg(red.bold(), at, msg));
            proof {
                assert(lines_view(lines@) =~= seq![Seq::<SpanView>::empty()] + paint_range_msg_spec(
                    b,
                    Style::fg(ERR_COLOR).bold(),
                    *range,
                    seq![plain("divide by zero"@)],
                ));
            }
            let mut out = lined(lines, red.dimmed(), red.dimmed(), red.dimmed());
            push_line(&mut out, text_line(" ─╯", red.dimmed()));
            out
        },
    }
}

/// One line for each message: a dimmed star and the message, dark.
pub open spec fn message_lines(messages: Seq<Seq<char>>) -> Seq<Seq<SpanView>> {
    Seq::new(
        messages.len(),
        |i: int|
            seq![
                plain(" "@),
                text_span("*"@, dark_style().dimmed()),
                plain("  "@),
                text_span(messages[i], dark_style()),
            ],
    )
}

/// The frame of a parse error: the source with the character at the
/// position of the error painted (and a dimmed `$` where that is the end),
/// a branch and `╰── parse error` under it, and the messages after
/// `errors:`; behind a margin that is dark for the first line and in the
/// color of errors for the others, dimmed but for the line of the source;
/// and the corner.
pub open spec fn error_report_spec(b: Seq<u8>, position: nat, messages: Seq<Seq<char>>) -> Seq<
    Seq<SpanView>,
> {
    let red = Style::fg(ERR_COLOR);
    let source = paint_at_spec(b, red.bold(), position as int) + if position >= b.len() {
        seq![text_span("$"@, dark_style().dimmed())]
    } else {
        Seq::<SpanView>::empty()
    };
    lined_spec(
        seq![
            Seq::<SpanView>::empty(),
            source,
            seq![text_span(repeat_char(' ', position) + seq!['┬'], red)],
            seq![text_span(repeat_char(' ', position) + "╰── parse error"@, red)],
            Seq::<SpanView>::empty(),
            seq![text_span("errors:"@, dark_style())],
        ] + message_lines(messages),
        dark_style().dimmed(),
        red,
        red.dimmed(),
    ) + seq![seq![text_span(" ─╯"@, red.dimmed())]]
}

/// The frame of a parse error.
pub fn error_report(err: &ParseError, s: &str) -> (r: Vec<Line>)
    requires
        err.position <= s.spec_bytes().len(),
        is_char_boundary(s.spec_bytes(), err.position as int),
    ensures
        lines_view(r@) == error_report_spec(
            s.spec_bytes(),
            err.position as nat,
            messages_view(err.messages@),
        ),
{
    let ghost b = s.spec_bytes();
    let pos = err.position;
    let red = Style::fg(ERR_COLOR);
    let dark = Style::fg(DARK_COLOR);
    let n = s.as_bytes().len();
    let mut source = s.paint_at(red.bold(), pos);
    if pos >= n {
        push_span(&mut source, Span::of("$", dark.dimmed()));
    }
    let mut branch = String::new();
    push_repeat(&mut branch, ' ', pos);
    branch.push('┬');
    let mut label = String::new();
    push_repeat(&mut label, ' ', pos);
    label.append("╰── parse error");
    proof {
        assert(branch@ =~= repeat_char(' ', pos as nat) + seq!['┬']);
        assert(label@ =~= repeat_char(' ', pos as nat) + "╰── parse error"@);
    }
    let mut lines = no_lines();
    push_line(&mut lines, empty_line());
    push_line(&mut lines, source);
    let mut line2 = empty_line();
    push_span(&mut line2, Span::text(branch, red));
    push_line(&mut lines, line2);
    let mut line3 = empty_line();
    push_span(&mut line3, Span::text(label, red));
    push_line(&mut lines, line3);
    push_line(&mut lines, empty_line());
    push_line(&mut lines, text_line("errors:", dark));
    let ghost head = lines_view(lines@);
    let ghost texts = messages_view(err.messages@);
    proof {
        let red = Style::fg(ERR_COLOR);
        let source_view = paint_at_spec(b, red.bold(), pos as int) + if pos >= b.len() {
            seq![text_span("$"@, dark_style().dimmed())]
        } else {
            Seq::<SpanView>::empty()
        };
        assert(head =~~= seq![
            Seq::<SpanView>::empty(),
            source_view,
            seq![text_span(repeat_char(' ', pos as nat) + seq!['┬'], red)],
            seq![text_span(repeat_char(' ', pos as nat) + "╰── parse error"@, red)],
            Seq::<SpanView>::empty(),
            seq![text_span("errors:"@, dark_style())],
        ]);
    }
    let mut i: usize = 0;
    proof {
        assert(lines_view(lines@) =~= head + message_lines(texts).subrange(0, 0));
    }
    while i < err.messages.len()
        invariant
            i <= err.messages.len(),
            dark == dark_style(),
            texts == messages_view(err.messages@),
            lines_view(lines@) == head + message_lines(texts).subrange(0, i as int),
        decreases err.messages.len() - i,
    {
        let mut line = text_line(" ", Style::plain());
        push_span(&mut line, Span::of("*", dark.dimmed()));
        push_span(&mut line, Span::of("  ", Style::plain()));
        push_span(&mut line, Span::of(err.messages[i].as_str(), dark));
        proof {
            assert(texts.len() == err.messages@.len());
            assert(texts[i as int] == err.messages@[i as int]@);
            let want = seq![
                plain(" "@),
                text_span("*"@, dark_style().dimmed()),
                plain("  "@),
                text_span(texts[i as int], dark_style()),
            ];
            assert(line_view(line@) =~~= want);
            assert(message_lines(texts)[i as int] == want);
        }
        push_line(&mut lines, line);
        i += 1;
        proof {
            assert(lines_view(lines@) =~~= head + message_lines(texts).subrange(0, i as int));
        }
    }
    proof {
        assert(message_lines(texts).subrange(0, i as int) =~= message_lines(texts));
    }
    let mut out = lined(lines, dark.dimmed(), red, red.dimmed());
    push_line(&mut out, text_line(" ─╯", red.dimmed()));
    proof {
        assert(lines_view(out@) =~~= error_report_spec(b, pos as nat, texts));
    }
    out
}

} // verus!
