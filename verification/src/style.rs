//! Styled text: what a frame is made of before it is painted.

use vstd::prelude::*;

verus! {

/// A foreground color.
#[derive(Clone, Copy, Debug, PartialEq, Eq, Structural)]
pub enum Color {
    /// The color of the terminal.
    Unset,
    /// A color of the 256-color palette.
    Fixed(u8),
}

/// How a piece of text is painted.
#[derive(Clone, Copy, Debug, PartialEq, Eq, Structural)]
pub struct Style {
    pub color: Color,
    pub bold: bool,
    pub dimmed: bool,
}

impl Style {
    pub open spec fn plain_spec() -> Style {
        Style { color: Color::Unset, bold: false, dimmed: false }
    }

    pub open spec fn fg_spec(color: u8) -> Style {
        Style { color: Color::Fixed(color), bold: false, dimmed: false }
    }

    pub open spec fn bold_spec(self) -> Style {
        Style { color: self.color, bold: true, dimmed: self.dimmed }
    }

    pub open spec fn dimmed_spec(self) -> Style {
        Style { color: self.color, bold: self.bold, dimmed: true }
    }

    /// The style with the same color and nothing else.
    pub open spec fn color_only_spec(self) -> Style {
        Style { color: self.color, bold: false, dimmed: false }
    }

    /// The style of unpainted text.
    #[verifier::when_used_as_spec(plain_spec)]
    pub fn plain() -> (r: Style)
        ensures
            r == Style::plain_spec(),
    {
        Style { color: Color::Unset, bold: false, dimmed: false }
    }

    /// The style with the given foreground color.
    #[verifier::when_used_as_spec(fg_spec)]
    pub fn fg(color: u8) -> (r: Style)
        ensures
            r == Style::fg_spec(color),
    {
        Style { color: Color::Fixed(color), bold: false, dimmed: false }
    }

    #[verifier::when_used_as_spec(bold_spec)]
    pub fn bold(self) -> (r: Style)
        ensures
            r == self.bold_spec(),
    {
        Style { color: self.color, bold: true, dimmed: self.dimmed }
    }

    #[verifier::when_used_as_spec(dimmed_spec)]
    pub fn dimmed(self) -> (r: Style)
        ensures
            r == self.dimmed_spec(),
    {
        Style { color: self.color, bold: self.bold, dimmed: true }
    }

    #[verifier::when_used_as_spec(color_only_spec)]
    pub fn color_only(self) -> (r: Style)
        ensures
            r == self.color_only_spec(),
    {
        Style { color: self.color, bold: false, dimmed: false }
    }
}

/// What a span shows: text, or a float that is shown as the shortest
/// decimal that reads back as the same float.
#[derive(Debug, PartialEq, Eq)]
pub enum Content {
    Text(String),
    /// The bit pattern of a binary64 float.
    Float(u64),
}

/// A piece of a line with one style.
#[derive(Debug, PartialEq, Eq)]
pub struct Span {
    pub content: Content,
    pub style: Style,
}

/// The mathematical content of a [`Content`].
#[verifier::ext_equal]
pub enum ContentView {
    Text(Seq<char>),
    Float(u64),
}

/// The mathematical content of a [`Span`].
#[verifier::ext_equal]
pub struct SpanView {
    pub content: ContentView,
    pub style: Style,
}

impl View for Span {
    type V = SpanView;

    open spec fn view(&self) -> SpanView {
        SpanView {
            content: match self.content {
                Content::Text(t) => ContentView::Text(t@),
                Content::Float(bits) => ContentView::Float(bits),
            },
            style: self.style,
        }
    }
}

/// A line of a frame.
pub type Line = Vec<Span>;

/// The mathematical content of a line.
pub open spec fn line_view(line: Seq<Span>) -> Seq<SpanView> {
    Seq::new(line.len(), |i: int| line[i]@)
}

/// The mathematical content of a sequence of lines.
pub open spec fn lines_view(lines: Seq<Line>) -> Seq<Seq<SpanView>> {
    Seq::new(lines.len(), |i: int| line_view(lines[i]@))
}

/// A span of text in the given style.
pub open spec fn text_span(text: Seq<char>, style: Style) -> SpanView {
    SpanView { content: ContentView::Text(text), style }
}

impl Span {
    /// A span of text in the given style.
    pub fn text(text: String, style: Style) -> (r: Span)
        ensures
            r@ == text_span(text@, style),
    {
        Span { content: Content::Text(text), style }
    }

    /// A span of the given text in the given style.
    pub fn of(text: &str, style: Style) -> (r: Span)
        ensures
            r@ == text_span(text@, style),
    {
        Span { content: Content::Text(text.to_owned()), style }
    }

    /// A span that shows a float.
    pub fn float(bits: u64, style: Style) -> (r: Span)
        ensures
            r@ == (SpanView { content: ContentView::Float(bits), style }),
    {
        Span { content: Content::Float(bits), style }
    }
}

/// Appends a span to a line.
pub fn push_span(line: &mut Line, span: Span)
    ensures
        line_view(final(line)@) == line_view(old(line)@).push(span@),
{
    line.push(span);
    proof {
        assert(line_view(line@) =~= line_view(old(line)@).push(span@));
    }
}

/// Appends a line to a sequence of lines.
pub fn push_line(lines: &mut Vec<Line>, line: Line)
    ensures
        lines_view(final(lines)@) == lines_view(old(lines)@).push(line_view(line@)),
{
    lines.push(line);
    proof {
        assert(lines_view(lines@) =~= lines_view(old(lines)@).push(line_view(line@)));
    }
}

/// A line without spans.
pub fn empty_line() -> (r: Line)
    ensures
        line_view(r@) == Seq::<SpanView>::empty(),
{
    let r: Line = Vec::new();
    proof {
        assert(line_view(r@) =~= Seq::<SpanView>::empty());
    }
    r
}

} // verus!
