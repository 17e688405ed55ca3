//! What is done with one line of input.

use crate::ast::{
    lemma_height_bound, lemma_reports_sound, report_matches, reports_extend, EvalOptions, FloatOp,
    Report, Syntax,
};
use crate::options::{apply_commands, trim_start, Unexpected};
use crate::parser::{failure_messages, parse_line, parse_text, whitespace_at, Outcome};
use crate::style::{lines_view, Line, SpanView};
use crate::text::{lemma_ascii_edges, slice};
use crate::ui::{
    backmatter, backmatter_spec, error_report, error_report_spec, estimate, estimate_spec,
    extend_lines, frontmatter, frontmatter_spec, is_note,
};
use vstd::prelude::*;
use vstd::string::StringSliceAdditionalSpecFns;
use vstd::utf8::{encode_utf8_valid_utf8, is_char_boundary_start_end_of_seq};

verus! {

/// Options of the read-eval-print loop.
#[derive(Clone, Copy, Debug, PartialEq, Eq, Structural)]
pub struct ReplOptions {
    /// Whether each subexpression is asked for. The flag is kept for the
    /// caller: what a line reports goes by the options of the evaluation.
    pub each_expr: bool,
}

impl Default for ReplOptions {
    fn default() -> (r: Self)
        ensures
            !r.each_expr,
    {
        Self::new()
    }
}

impl ReplOptions {
    pub fn new() -> (r: Self)
        ensures
            !r.each_expr,
    {
        Self { each_expr: false }
    }

    pub fn with_each_expr(self, arg: bool) -> (r: Self)
        ensures
            r.each_expr == arg,
    {
        let mut r = self;
        r.each_expr = arg;
        r
    }
}

/// What a line of input is.
#[derive(Clone, Copy, Debug, PartialEq, Eq, Structural)]
pub enum LineKind {
    /// Nothing but white space.
    Blank,
    /// A command, which starts with a colon.
    Command,
    /// Anything else, which is read as an expression.
    Expression,
}

/// What became of a line of input.
#[derive(Debug, PartialEq, Eq)]
pub struct LineOutput {
    pub kind: LineKind,
    /// What of a command was not understood, with ranges of byte offsets
    /// into the text after the colon.
    pub unknown: Vec<Unexpected>,
    /// The lines to show.
    pub frames: Vec<Line>,
}

/// What kind of line the bytes are.
pub open spec fn line_kind(b: Seq<u8>) -> LineKind {
    if trim_start(b, 0, b.len() as int) == b.len() {
        LineKind::Blank
    } else if b[0] == 58 {
        LineKind::Command
    } else {
        LineKind::Expression
    }
}

/// The estimate frames of the reports from the `k`-th on, one after the
/// other.
pub open spec fn estimate_frames(b: Seq<u8>, reports: Seq<Report>, notes: Seq<Seq<char>>, k: int) -> Seq<
    Seq<SpanView>,
>
    decreases reports.len() - k,
{
    if 0 <= k < reports.len() {
        estimate_spec(b, reports[k], notes[k]) + estimate_frames(b, reports, notes, k + 1)
    } else {
        Seq::empty()
    }
}

/// The frames of a line that is an expression: the opening line, an
/// estimate frame for each report, and the closing lines.
pub open spec fn expression_frames(
    b: Seq<u8>,
    lineno: nat,
    e: Syntax,
    reports: Seq<Report>,
    notes: Seq<Seq<char>>,
) -> Seq<Seq<SpanView>> {
    frontmatter_spec("stdin"@, lineno) + estimate_frames(b, reports, notes, 0) + backmatter_spec(
        b,
        match e.value() {
            Ok(_) => None,
            Err(range) => Some(range),
        },
    )
}

/// The reports are what the evaluation of `e` reports, and each note says
/// how far the float of its report is from the truth.
pub open spec fn reports_of<F: Fn(FloatOp) -> u64>(
    reports: Seq<Report>,
    notes: Seq<Seq<char>>,
    e: Syntax,
    opts: EvalOptions,
    float: F,
) -> bool {
    &&& reports_extend(reports, Seq::empty(), e.reports(opts, 0), float)
    &&& notes.len() == reports.len()
    &&& forall|i: int|
        0 <= i < reports.len() ==> is_note(#[trigger] notes[i], reports[i].value, reports[i].approx)
}

/// Whether the line is nothing but white space.
fn is_blank(b: &[u8]) -> (r: bool)
    ensures
        r == (trim_start(b@, 0, b@.len() as int) == b@.len()),
{
    let n = b.len();
    let mut a: usize = 0;
    while whitespace_at(b, a) > 0 && whitespace_at(b, a) <= n - a
        invariant
            a <= n == b.len(),
            trim_start(b@, 0, n as int) == trim_start(b@, a as int, n as int),
        decreases n - a,
    {
        a += whitespace_at(b, a);
    }
    a == n
}

/// Does what a line of input asks for, and gives the lines to show.
///
/// A blank line does nothing. A line that starts with a colon is a command:
/// what follows the colon sets the options of the evaluation. Any other
/// line is read as an expression and evaluated, with `float` doing the
/// floating-point work: the frames are the opening line for `stdin` and
/// `lineno`, then either an estimate frame for each subexpression that is
/// reported and the closing lines, or the frame of the parse error. The
/// options of the loop do not bear on a single line.
pub fn eval_line<F: Fn(FloatOp) -> u64>(
    line: &str,
    _opt: &ReplOptions,
    lineno: usize,
    eval: &mut EvalOptions,
    float: &F,
) -> (r: LineOutput)
    requires
        forall|op: FloatOp| call_requires(*float, (op,)),
    ensures
        r.kind == line_kind(line.spec_bytes()),
        r.kind is Blank ==> r.unknown@.len() == 0 && r.frames@.len() == 0 && *final(eval) == *old(
            eval,
        ),
        r.kind is Command ==> {
            let b = line.spec_bytes();
            let done = apply_commands(old(eval).estimate, b.subrange(1, b.len() as int), 0, b.len() - 1);
            &&& final(eval).estimate == done.0
            &&& r.unknown@ == done.1
            &&& r.frames@.len() == 0
        },
        r.kind is Expression ==> {
            let b = line.spec_bytes();
            &&& *final(eval) == *old(eval)
            &&& r.unknown@.len() == 0
            &&& match parse_text(b) {
                Outcome::Parsed(e, _) => exists|reports: Seq<Report>, notes: Seq<Seq<char>>|
                    #![trigger expression_frames(b, lineno as nat, e, reports, notes)]
                    reports_of(reports, notes, e, *old(eval), *float) && lines_view(r.frames@)
                        == expression_frames(b, lineno as nat, e, reports, notes),
                Outcome::Failed(p, expected) => lines_view(r.frames@) == frontmatter_spec(
                    "stdin"@,
                    lineno as nat,
                ) + error_report_spec(b, p as nat, failure_messages(b, p, expected)),
            }
        },
{
    let b = line.as_bytes();
    let n = b.len();
    if is_blank(b) {
        return LineOutput { kind: LineKind::Blank, unknown: Vec::new(), frames: Vec::new() };
    }
    proof {
        encode_utf8_valid_utf8(line@);
        is_char_boundary_start_end_of_seq(b@);
    }
    if b[0] == 58 {
        proof {
            lemma_ascii_edges(b@, 0, 1);
        }
        let rest = slice(line, 1, n);
        let unknown = eval.update(rest);
        return LineOutput { kind: LineKind::Command, unknown, frames: Vec::new() };
    }
    let mut frames = frontmatter("stdin", lineno);
    match parse_line(line) {
        Err(err) => {
            extend_lines(&mut frames, error_report(&err, line));
        },
        Ok(expr) => {
            let ghost e = expr@;
            let opts = *eval;
            proof {
                lemma_height_bound(e, b@);
            }
            let mut reports: Vec<Report> = Vec::new();
            let result = expr.eval(line, &opts, 0, float, &mut reports);
            let ghost views = e.reports(opts, 0);
            let ghost head = lines_view(frames@);
            let ghost mut notes: Seq<Seq<char>> = Seq::empty();
            let mut i: usize = 0;
            proof {
                assert(estimate_frames(b@, reports@, notes, reports@.len() as int) =~= Seq::<
                    Seq<SpanView>,
                >::empty());
            }
            while i < reports.len()
                invariant
                    i <= reports.len(),
                    e.wf(b@),
                    b@ == line.spec_bytes(),
                    e.height() <= usize::MAX,
                    views == e.reports(opts, 0),
                    reports_extend(reports@, Seq::empty(), views, *float),
                    notes.len() == i,
                    forall|k: int|
                        0 <= k < i ==> is_note(#[trigger] notes[k], reports@[k].value, reports@[k].approx),
                    lines_view(frames@) == head + frames_upto(b@, reports@, notes, i as int),
                decreases reports.len() - i,
            {
                proof {
                    lemma_reports_sound(e, b@, opts, 0, i as int);
                    assert(report_matches(reports@[0 + i], views[i as int], *float));
                }
                let frame = estimate(&reports[i], line, &opts);
                proof {
                    let note = choose|note: Seq<char>|
                        #![trigger estimate_spec(b@, reports@[i as int], note)]
                        is_note(note, reports@[i as int].value, reports@[i as int].approx)
                            && lines_view(frame@) == estimate_spec(b@, reports@[i as int], note);
                    lemma_frames_upto_step(b@, reports@, notes, note, i as int);
                    notes = notes.push(note);
                }
                extend_lines(&mut frames, frame);
                i += 1;
            }
            proof {
                lemma_frames_upto_all(b@, reports@, notes);
            }
            extend_lines(&mut frames, backmatter(line, &result));
            proof {
                assert(reports_of(reports@, notes, e, opts, *float));
                assert(lines_view(frames@) =~= expression_frames(
                    b@,
                    lineno as nat,
                    e,
                    reports@,
                    notes,
                ));
            }
        },
    }
    LineOutput { kind: LineKind::Expression, unknown: Vec::new(), frames }
}

/// The estimate frames of the first `k` reports.
pub open spec fn frames_upto(b: Seq<u8>, reports: Seq<Report>, notes: Seq<Seq<char>>, k: int) -> Seq<
    Seq<SpanView>,
>
    decreases k,
{
    if 0 < k <= reports.len() {
        frames_upto(b, reports, notes, k - 1) + estimate_spec(b, reports[k - 1], notes[k - 1])
    } else {
        Seq::empty()
    }
}

/// The frames of the first `k` reports do not depend on later notes.
pub proof fn lemma_frames_upto_step(
    b: Seq<u8>,
    reports: Seq<Report>,
    notes: Seq<Seq<char>>,
    note: Seq<char>,
    k: int,
)
    requires
        0 <= k < reports.len(),
        notes.len() == k,
    ensures
        frames_upto(b, reports, notes.push(note), k + 1) == frames_upto(b, reports, notes, k)
            + estimate_spec(b, reports[k], note),
{
    lemma_frames_upto_prefix(b, reports, notes, notes.push(note), k);
}

pub proof fn lemma_frames_upto_prefix(
    b: Seq<u8>,
    reports: Seq<Report>,
    a: Seq<Seq<char>>,
    c: Seq<Seq<char>>,
    k: int,
)
    requires
        0 <= k <= reports.len(),
        k <= a.len(),
        k <= c.len(),
        forall|i: int| 0 <= i < k ==> a[i] == c[i],
    ensures
        frames_upto(b, reports, a, k) == frames_upto(b, reports, c, k),
    decreases k,
{
    if k > 0 {
        lemma_frames_upto_prefix(b, reports, a, c, k - 1);
    }
}

/// Counting the frames from the front or from the back gives the same.
pub proof fn lemma_frames_upto_all(b: Seq<u8>, reports: Seq<Report>, notes: Seq<Seq<char>>)
    requires
        notes.len() == reports.len(),
    ensures
        frames_upto(b, reports, notes, reports.len() as int) == estimate_frames(b, reports, notes, 0),
{
    lemma_frames_split(b, reports, notes, reports.len() as int);
    assert(estimate_frames(b, reports, notes, reports.len() as int) =~= Seq::<Seq<SpanView>>::empty());
}

pub proof fn lemma_frames_split(b: Seq<u8>, reports: Seq<Report>, notes: Seq<Seq<char>>, k: int)
    requires
        0 <= k <= reports.len(),
    ensures
        estimate_frames(b, reports, notes, 0) == frames_upto(b, reports, notes, k) + estimate_frames(
            b,
            reports,
            notes,
            k,
        ),
    decreases k,
{
    if k > 0 {
        lemma_frames_split(b, reports, notes, k - 1);
        assert(estimate_frames(b, reports, notes, k - 1) == estimate_spec(
            b,
            reports[k - 1],
            notes[k - 1],
        ) + estimate_frames(b, reports, notes, k));
        assert(frames_upto(b, reports, notes, k - 1) + (estimate_spec(
            b,
            reports[k - 1],
            notes[k - 1],
        ) + estimate_frames(b, reports, notes, k)) =~= frames_upto(b, reports, notes, k)
            + estimate_frames(b, reports, notes, k));
    } else {
        assert(frames_upto(b, reports, notes, 0) + estimate_frames(b, reports, notes, 0)
            =~= estimate_frames(b, reports, notes, 0));
    }
}

} // verus!
