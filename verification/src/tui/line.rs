//! Styled text: a line is spans of text, each with the role it is painted in.

use crate::width::{text_columns, text_columns_of};
use vstd::prelude::*;
use vstd::string::*;

verus! {

/// What a span is painted as. The theme decides the colour of each.
#[derive(Debug, Clone, Copy, PartialEq, Eq, Structural)]
pub enum Role {
    Plain,
    Muted,
    Prompt,
    Input,
    Done,
    Failed,
    Selected,
}

/// The role of a span, and whether the pointer is over it.
#[derive(Debug, Clone, Copy, PartialEq, Eq, Structural)]
pub struct Style {
    pub role: Role,
    pub hovered: bool,
}

/// A run of text painted alike.
#[derive(Debug, Clone, PartialEq, Eq)]
pub struct Span {
    pub content: String,
    pub style: Style,
}

/// A span, with its text as a sequence.
#[verifier::ext_equal]
pub struct SpanView {
    pub content: Seq<char>,
    pub style: Style,
}

impl View for Span {
    type V = SpanView;

    open spec fn view(&self) -> SpanView {
        SpanView { content: self.content@, style: self.style }
    }
}

/// Spans in a row.
#[derive(Debug, Clone, PartialEq, Eq)]
pub struct Line {
    pub spans: Vec<Span>,
}

impl View for Line {
    type V = Seq<SpanView>;

    open spec fn view(&self) -> Seq<SpanView> {
        Seq::new(self.spans@.len(), |i: int| self.spans@[i]@)
    }
}

/// Lines, with their texts as sequences.
pub open spec fn lines_view(v: Seq<Line>) -> Seq<Seq<SpanView>> {
    Seq::new(v.len(), |i: int| v[i]@)
}

/// A plain role without the pointer.
pub open spec fn plain_style(role: Role) -> Style {
    Style { role, hovered: false }
}

impl Style {
    /// A role without the pointer over it.
    pub fn of(role: Role) -> (r: Style)
        ensures
            r == plain_style(role),
    {
        Style { role, hovered: false }
    }
}

impl Span {
    /// A span of one style.
    pub fn styled(content: String, style: Style) -> (r: Span)
        ensures
            r@ == (SpanView { content: content@, style }),
    {
        Span { content, style }
    }

    /// A copy of the span.
    pub fn copy(&self) -> (r: Span)
        ensures
            r@ == self@,
    {
        Span { content: self.content.clone(), style: self.style }
    }
}

/// A line of one span.
pub open spec fn one_span(content: Seq<char>, style: Style) -> Seq<SpanView> {
    seq![SpanView { content, style }]
}

/// The text of a line without its styling.
pub open spec fn plain_text(line: Seq<SpanView>) -> Seq<char>
    decreases line.len(),
{
    if line.len() == 0 {
        Seq::empty()
    } else {
        plain_text(line.drop_last()) + line.last().content
    }
}

/// The columns of a line: those of its spans.
pub open spec fn line_columns(line: Seq<SpanView>) -> int
    decreases line.len(),
{
    if line.len() == 0 {
        0
    } else {
        line_columns(line.drop_last()) + text_columns(line.last().content)
    }
}

impl Line {
    /// A line of one span.
    pub fn of(content: &str, style: Style) -> (r: Line)
        ensures
            r@ == one_span(content@, style),
    {
        let mut spans: Vec<Span> = Vec::new();
        spans.push(Span { content: content.to_owned(), style });
        let r = Line { spans };
        assert(r@ =~= one_span(content@, style));
        r
    }

    /// A line of nothing.
    pub fn empty() -> (r: Line)
        ensures
            r@ == Seq::<SpanView>::empty(),
    {
        let r = Line { spans: Vec::new() };
        assert(r@ =~= Seq::empty());
        r
    }

    /// A copy of the line.
    pub fn copy(&self) -> (r: Line)
        ensures
            r@ == self@,
    {
        let mut spans: Vec<Span> = Vec::new();
        let mut i: usize = 0;
        while i < self.spans.len()
            invariant
                i <= self.spans@.len(),
                spans@.len() == i,
                forall|k: int| 0 <= k < i ==> (#[trigger] spans@[k])@ == self.spans@[k]@,
            decreases self.spans@.len() - i,
        {
            let s = self.spans[i].copy();
            spans.push(s);
            i += 1;
        }
        let r = Line { spans };
        assert(r@ =~= self@);
        r
    }

    /// Put a span at the end.
    pub fn push(&mut self, span: Span)
        ensures
            final(self)@ == old(self)@.push(span@),
    {
        let ghost before = self@;
        let ghost s = span@;
        self.spans.push(span);
        assert(self@ =~= before.push(s));
    }

    /// The line's text without its styling.
    pub fn plain(&self) -> (r: String)
        ensures
            r@ == plain_text(self@),
    {
        let mut r = String::new();
        let mut i: usize = 0;
        assert(self@.take(0) =~= Seq::empty());
        while i < self.spans.len()
            invariant
                i <= self.spans@.len(),
                r@ == plain_text(self@.take(i as int)),
            decreases self.spans@.len() - i,
        {
            assert(self@.take(i + 1).drop_last() =~= self@.take(i as int));
            assert(self@.take(i + 1).last() == self.spans@[i as int]@);
            r.append(self.spans[i].content.as_str());
            i += 1;
        }
        assert(self@.take(i as int) =~= self@);
        r
    }

    /// The columns the line takes, as far as they can be counted.
    pub fn columns(&self) -> (r: usize)
        ensures
            r == if line_columns(self@) <= usize::MAX {
                line_columns(self@)
            } else {
                usize::MAX as int
            },
    {
        let mut n: usize = 0;
        let mut i: usize = 0;
        assert(self@.take(0) =~= Seq::empty());
        while i < self.spans.len()
            invariant
                i <= self.spans@.len(),
                line_columns(self@.take(i as int)) >= 0,
                n == if line_columns(self@.take(i as int)) <= usize::MAX {
                    line_columns(self@.take(i as int))
                } else {
                    usize::MAX as int
                },
            decreases self.spans@.len() - i,
        {
            assert(self@.take(i + 1).drop_last() =~= self@.take(i as int));
            assert(self@.take(i + 1).last() == self.spans@[i as int]@);
            let w = text_columns_of(self.spans[i].content.as_str());
            n = n.saturating_add(w);
            i += 1;
        }
        assert(self@.take(i as int) =~= self@);
        n
    }
}

/// Whether two lines hold the same spans.
pub fn same_line(a: &Line, b: &Line) -> (r: bool)
    ensures
        r == (a@ == b@),
{
    if a.spans.len() != b.spans.len() {
        assert(a@.len() != b@.len());
        return false;
    }
    let mut i: usize = 0;
    while i < a.spans.len()
        invariant
            i <= a.spans@.len() == b.spans@.len(),
            forall|k: int| 0 <= k < i ==> a@[k] == b@[k],
        decreases a.spans@.len() - i,
    {
        let x = &a.spans[i];
        let y = &b.spans[i];
        assert(a@[i as int] == x@ && b@[i as int] == y@);
        if x.style != y.style || x.content != y.content {
            assert(a@[i as int] != b@[i as int]);
            return false;
        }
        assert(x@ =~= y@);
        i += 1;
    }
    assert(a@ =~= b@);
    true
}

} // verus!
