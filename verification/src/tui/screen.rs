//! The rows on screen: breaking lines into rows, and the window of rows that is
//! shown.

use crate::text::chars_of;
use crate::tui::line::{line_columns, lines_view, Line, Span, SpanView, Style};
use crate::width::{columns, columns_of, control, is_control};
use vstd::prelude::*;
use vstd::string::*;

verus! {

// ---------------------------------------------------------------------------
// Escape sequences
// ---------------------------------------------------------------------------

/// How far into an escape sequence a reader is.
#[derive(Debug, Clone, Copy, PartialEq, Eq, Structural)]
pub enum Escape {
    /// Past the escape character.
    Opened,
    /// In a control sequence: parameters up to a final character.
    Control,
    /// In an operating-system command: text up to a bell or a terminator.
    Command,
}

/// What `c` does to an escape sequence: where the reader is then, and whether
/// the sequence is over.
pub open spec fn escape_step(e: Escape, c: char) -> (Escape, bool) {
    let n = c as u32;
    match e {
        Escape::Opened => if c == '[' {
            (Escape::Control, false)
        } else if c == ']' {
            (Escape::Command, false)
        } else {
            (Escape::Opened, true)
        },
        Escape::Control => (Escape::Control, 0x40 <= n <= 0x7e),
        Escape::Command => (Escape::Command, n == 0x07 || c == '\\'),
    }
}

impl Escape {
    /// A sequence just opened.
    pub fn new() -> (r: Escape)
        ensures
            r == Escape::Opened,
    {
        Escape::Opened
    }

    /// Read one character of the sequence; whether it is over with that.
    pub fn closed(&mut self, c: char) -> (r: bool)
        ensures
            (*final(self), r) == escape_step(*old(self), c),
    {
        let n: u32 = c as u32;
        match *self {
            Escape::Opened => {
                if c == '[' {
                    *self = Escape::Control;
                    false
                } else if c == ']' {
                    *self = Escape::Command;
                    false
                } else {
                    true
                }
            },
            Escape::Control => 0x40 <= n && n <= 0x7e,
            Escape::Command => n == 0x07 || c == '\\',
        }
    }
}

/// `s` past an escape sequence a reader is in.
pub open spec fn past_escape(s: Seq<char>, e: Escape) -> Seq<char>
    decreases s.len(),
{
    if s.len() == 0 {
        s
    } else {
        let (next, over) = escape_step(e, s[0]);
        if over {
            s.skip(1)
        } else {
            past_escape(s.skip(1), next)
        }
    }
}

proof fn lemma_past_escape(s: Seq<char>, e: Escape)
    ensures
        past_escape(s, e).len() <= s.len(),
    decreases s.len(),
{
    if s.len() > 0 {
        let (next, over) = escape_step(e, s[0]);
        if !over {
            lemma_past_escape(s.skip(1), next);
        }
    }
}

/// `s` without its escape sequences: outside noise, which takes no columns and
/// no cells.
pub open spec fn seen_chars(s: Seq<char>) -> Seq<char>
    decreases s.len(),
    via seen_chars_decreases
{
    if s.len() == 0 {
        Seq::empty()
    } else if s[0] == '\u{1b}' {
        seen_chars(past_escape(s.skip(1), Escape::Opened))
    } else {
        seq![s[0]] + seen_chars(s.skip(1))
    }
}

#[via_fn]
proof fn seen_chars_decreases(s: Seq<char>) {
    if s.len() > 0 {
        lemma_past_escape(s.skip(1), Escape::Opened);
    }
}

/// A character and the style it is painted in.
pub type Cell = (char, Style);

/// `chars` in one style.
pub open spec fn in_style(chars: Seq<char>, style: Style) -> Seq<Cell> {
    Seq::new(chars.len(), |i: int| (chars[i], style))
}

/// What a line shows, character by character.
pub open spec fn cells(line: Seq<SpanView>) -> Seq<Cell>
    decreases line.len(),
{
    if line.len() == 0 {
        Seq::empty()
    } else {
        cells(line.drop_last()) + in_style(seen_chars(line.last().content), line.last().style)
    }
}

// ---------------------------------------------------------------------------
// Breaking a line into rows
// ---------------------------------------------------------------------------

/// Rows broken off so far, the row being filled, and the columns used on it.
#[verifier::ext_equal]
pub struct Broken {
    pub rows: Seq<Seq<Cell>>,
    pub row: Seq<Cell>,
    pub used: int,
}

/// The rows with the open one closed.
pub open spec fn closed(b: Broken) -> Broken {
    Broken { rows: b.rows.push(b.row), row: Seq::empty(), used: 0 }
}

/// The rows with one more cell on them, at most `width` columns each.
pub open spec fn with_cell(b: Broken, c: Cell, width: int) -> Broken {
    if c.0 == '\n' {
        closed(b)
    } else {
        let room = if b.used + columns(c.0) > width && b.used > 0 {
            closed(b)
        } else {
            b
        };
        Broken { rows: room.rows, row: room.row.push(c), used: room.used + columns(c.0) }
    }
}

/// The rows of the first `n` cells.
pub open spec fn broken(s: Seq<Cell>, width: int, n: int) -> Broken
    decreases n,
{
    if n <= 0 {
        Broken { rows: Seq::empty(), row: Seq::empty(), used: 0 }
    } else {
        with_cell(broken(s, width, n - 1), s[n - 1], width)
    }
}

/// The rows of all the cells.
pub open spec fn broken_rows(s: Seq<Cell>, width: int) -> Seq<Seq<Cell>> {
    let b = broken(s, width, s.len() as int);
    b.rows.push(b.row)
}

/// Cells as spans: a run of one style is one span.
pub open spec fn spans_of(row: Seq<Cell>) -> Seq<SpanView>
    decreases row.len(),
{
    if row.len() == 0 {
        Seq::empty()
    } else {
        let rest = spans_of(row.drop_last());
        let (c, style) = row.last();
        if rest.len() > 0 && rest.last().style == style {
            rest.drop_last().push(SpanView { content: rest.last().content.push(c), style })
        } else {
            rest.push(SpanView { content: seq![c], style })
        }
    }
}

/// At least one column.
pub open spec fn some_width(width: int) -> int {
    if width >= 1 {
        width
    } else {
        1
    }
}

/// A line as rows of at most `width` columns.
pub open spec fn fitted(line: Seq<SpanView>, width: int) -> Seq<Seq<SpanView>> {
    let rows = broken_rows(cells(line), some_width(width));
    Seq::new(rows.len(), |i: int| spans_of(rows[i]))
}

/// The text of a span without its escape sequences.
pub fn strip(s: &[char]) -> (r: Vec<char>)
    ensures
        r@ == seen_chars(s@),
{
    let mut r: Vec<char> = Vec::new();
    let mut i: usize = 0;
    assert(s@.skip(0) =~= s@);
    assert(r@ + seen_chars(s@) =~= seen_chars(s@));
    while i < s.len()
        invariant
            i <= s@.len(),
            r@ + seen_chars(s@.skip(i as int)) == seen_chars(s@),
        decreases s@.len() - i,
    {
        let ghost rest = s@.skip(i as int);
        let ghost before = r@;
        assert(rest[0] == s@[i as int]);
        assert(rest.skip(1) =~= s@.skip(i + 1));
        if s[i] == '\u{1b}' {
            let mut esc = Escape::new();
            let ghost from = i as int;
            i += 1;
            let ghost tail = s@.skip(i as int);
            let mut over = false;
            while i < s.len() && !over
                invariant
                    from < i <= s@.len(),
                    if over {
                        s@.skip(i as int) == past_escape(tail, Escape::Opened)
                    } else {
                        past_escape(s@.skip(i as int), esc) == past_escape(
                            tail,
                            Escape::Opened,
                        )
                    },
                decreases s@.len() - i,
            {
                assert(s@.skip(i as int)[0] == s@[i as int]);
                assert(s@.skip(i as int).skip(1) =~= s@.skip(i + 1));
                over = esc.closed(s[i]);
                i += 1;
            }
            assert(s@.skip(i as int) =~= past_escape(tail, Escape::Opened));
        } else {
            r.push(s[i]);
            assert(r@ + seen_chars(s@.skip(i + 1)) =~= before + (seq![s@[i as int]] + seen_chars(
                s@.skip(i + 1),
            )));
            i += 1;
        }
    }
    assert(s@.skip(i as int) =~= Seq::empty());
    assert(r@ + seen_chars(s@.skip(i as int)) =~= r@);
    r
}

/// What a line shows, character by character.
pub(crate) fn cells_of(line: &Line) -> (r: Vec<Cell>)
    ensures
        r@ == cells(line@),
{
    let mut r: Vec<Cell> = Vec::new();
    let mut i: usize = 0;
    assert(line@.take(0) =~= Seq::empty());
    while i < line.spans.len()
        invariant
            i <= line.spans@.len(),
            r@ == cells(line@.take(i as int)),
        decreases line.spans@.len() - i,
    {
        let ghost t = line@.take(i + 1);
        assert(t.drop_last() =~= line@.take(i as int));
        assert(t.last() == line.spans@[i as int]@);
        let style = line.spans[i].style;
        let whole = chars_of(line.spans[i].content.as_str());
        let seen = strip(whole.as_slice());
        let ghost before = r@;
        let ghost more = in_style(seen@, style);
        let mut k: usize = 0;
        assert(r@ =~= before + more.take(0));
        while k < seen.len()
            invariant
                k <= seen@.len(),
                more == in_style(seen@, style),
                r@ == before + more.take(k as int),
            decreases seen@.len() - k,
        {
            r.push((seen[k], style));
            k += 1;
            assert(r@ =~= before + more.take(k as int));
        }
        assert(more.take(k as int) =~= more);
        i += 1;
    }
    assert(line@.take(i as int) =~= line@);
    r
}

/// Put one cell at the end of a row of spans.
pub(crate) fn put_cell(row: &mut Vec<Span>, c: char, style: Style, Ghost(cells): Ghost<Seq<Cell>>)
    requires
        spans_view(old(row)@) == spans_of(cells),
    ensures
        spans_view(final(row)@) == spans_of(cells.push((c, style))),
        final(row)@.len() > 0,
{
    let ghost before = spans_view(row@);
    assert(cells.push((c, style)).drop_last() =~= cells);
    let n = row.len();
    if n > 0 && row[n - 1].style == style {
        assert(before.last() == row@[n - 1]@);
        if let Some(last) = row.pop() {
            let mut content = last.content;
            let ghost text = content@;
            content.push(c);
            row.push(Span { content, style });
            assert(spans_view(row@) =~= before.drop_last().push(
                SpanView { content: text.push(c), style },
            ));
        }
    } else {
        assert(n > 0 ==> before.last() == row@[n - 1]@);
        let mut content = String::new();
        content.push(c);
        assert(content@ =~= seq![c]);
        row.push(Span { content, style });
        assert(spans_view(row@) =~= before.push(SpanView { content: seq![c], style }));
    }
}

/// Spans, with their texts as sequences.
pub open spec fn spans_view(v: Seq<Span>) -> Seq<SpanView> {
    Seq::new(v.len(), |i: int| v[i]@)
}

/// The spans of each row.
pub open spec fn rows_of_cells(rows: Seq<Seq<Cell>>) -> Seq<Seq<SpanView>> {
    Seq::new(rows.len(), |i: int| spans_of(rows[i]))
}

/// Break a styled line into lines that each occupy exactly one terminal row.
///
/// Repainting works by counting rows, so a line that wraps on its own would
/// throw the count off by however many times it wrapped. Styles ride on the
/// spans, so a wrapped coloured line keeps its colour past the first row.
/// Escape sequences found in the content itself, outside noise a tool's output
/// carried in, take no columns and no cells.
pub fn fit(line: &Line, width: usize) -> (r: Vec<Line>)
    ensures
        lines_view(r@) == fitted(line@, width as int),
        r@.len() >= 1,
{
    let room: usize = if width >= 1 {
        width
    } else {
        1
    };
    let all = cells_of(line);
    let ghost s = all@;
    let mut out: Vec<Line> = Vec::new();
    let mut row: Vec<Span> = Vec::new();
    let ghost mut open: Seq<Cell> = Seq::empty();
    let ghost mut done: Seq<Seq<Cell>> = Seq::empty();
    let mut used: usize = 0;
    let mut i: usize = 0;
    assert(lines_view(out@) =~= rows_of_cells(done));
    assert(spans_view(row@) =~= spans_of(open));
    while i < all.len()
        invariant
            i <= all@.len(),
            s == all@,
            room == some_width(width as int),
            broken(s, room as int, i as int) == (Broken { rows: done, row: open, used: used as int }),
            lines_view(out@) == rows_of_cells(done),
            spans_view(row@) == spans_of(open),
            used <= room || used <= 3,
        decreases all@.len() - i,
    {
        let (c, style) = all[i];
        if c == '\n' {
            let l = Line { spans: row };
            assert(l@ =~= spans_of(open));
            let ghost before = lines_view(out@);
            out.push(l);
            proof {
                assert(lines_view(out@) =~= before.push(spans_of(open)));
                assert(rows_of_cells(done.push(open)) =~= before.push(spans_of(open)));
                done = done.push(open);
                open = Seq::empty();
            }
            row = Vec::new();
            assert(spans_view(row@) =~= spans_of(open));
            used = 0;
            i += 1;
            continue;
        }
        let w = columns_of(c);
        let full = used > 0 && (w > room || used > room - w);
        assert(full == (used + w > room && used > 0));
        if full {
            let l = Line { spans: row };
            assert(l@ =~= spans_of(open));
            let ghost before = lines_view(out@);
            out.push(l);
            proof {
                assert(lines_view(out@) =~= before.push(spans_of(open)));
                assert(rows_of_cells(done.push(open)) =~= before.push(spans_of(open)));
                done = done.push(open);
                open = Seq::empty();
            }
            row = Vec::new();
            assert(spans_view(row@) =~= spans_of(open));
            used = 0;
        }
        put_cell(&mut row, c, style, Ghost(open));
        proof {
            open = open.push((c, style));
        }
        used += w;
        i += 1;
    }
    let l = Line { spans: row };
    assert(l@ =~= spans_of(open));
    let ghost before = lines_view(out@);
    out.push(l);
    assert(lines_view(out@) =~= before.push(spans_of(open)));
    assert(rows_of_cells(done.push(open)) =~= before.push(spans_of(open)));
    assert(lines_view(out@) =~= fitted(line@, width as int));
    out
}

/// One column short of the real width, so nothing ever lands on the last cell.
///
/// Terminals disagree about whether a character written to the last cell has
/// already wrapped, so a row that reaches it may be joined to the next one on
/// resize. Stopping a column short keeps every row a hard break.
pub fn usable(width: u16) -> (r: usize)
    ensures
        r == if width >= 2 {
            width - 1
        } else {
            1
        },
{
    if width >= 2 {
        (width - 1) as usize
    } else {
        1
    }
}

// ---------------------------------------------------------------------------
// Borders
// ---------------------------------------------------------------------------

/// A line as rows, each behind the border where there is one and the frame can
/// spare it: the rule needs its columns and the body needs at least one.
pub open spec fn wrapped(
    border: Option<Seq<SpanView>>,
    line: Seq<SpanView>,
    width: int,
) -> Seq<Seq<SpanView>> {
    match border {
        Some(b) => if line_columns(b) < width {
            let rows = fitted(line, width - line_columns(b));
            Seq::new(rows.len(), |i: int| b + rows[i])
        } else {
            fitted(line, width)
        },
        None => fitted(line, width),
    }
}

/// The optional border of a line, as a sequence.
pub open spec fn border_view(b: Option<&Line>) -> Option<Seq<SpanView>> {
    match b {
        Some(b) => Some(b@),
        None => None,
    }
}

/// Break a line into pieces that each occupy exactly one terminal row. A
/// bordered line repeats its border on every piece, so a said line keeps its
/// rule unbroken down the rows it wraps to instead of cutting it at the first.
pub fn wrap(border: Option<&Line>, line: &Line, width: usize) -> (r: Vec<Line>)
    ensures
        lines_view(r@) == wrapped(border_view(border), line@, width as int),
        r@.len() >= 1,
{
    let b = match border {
        Some(b) => b,
        None => {
            return fit(line, width);
        },
    };
    let taken = b.columns();
    if taken >= width {
        return fit(line, width);
    }
    proof {
        lemma_line_columns(b@);
    }
    let pieces = fit(line, width - taken);
    let ghost inner = fitted(line@, width - taken);
    let mut r: Vec<Line> = Vec::new();
    let mut i: usize = 0;
    while i < pieces.len()
        invariant
            i <= pieces@.len(),
            inner == lines_view(pieces@),
            r@.len() == i,
            forall|k: int| 0 <= k < i ==> (#[trigger] r@[k])@ == b@ + inner[k],
        decreases pieces@.len() - i,
    {
        let mut l = b.copy();
        let mut k: usize = 0;
        assert(inner[i as int] == pieces@[i as int]@);
        assert(l@ =~= b@ + inner[i as int].take(0));
        while k < pieces[i].spans.len()
            invariant
                i < pieces@.len(),
                inner == lines_view(pieces@),
                inner[i as int] == pieces@[i as int]@,
                k <= pieces@[i as int].spans@.len(),
                l@ == b@ + inner[i as int].take(k as int),
            decreases pieces@[i as int].spans@.len() - k,
        {
            let s = pieces[i].spans[k].copy();
            assert(inner[i as int][k as int] == s@);
            l.push(s);
            k += 1;
            assert(l@ =~= b@ + inner[i as int].take(k as int));
        }
        assert(inner[i as int].take(k as int) =~= inner[i as int]);
        r.push(l);
        i += 1;
    }
    assert(lines_view(r@) =~= wrapped(border_view(border), line@, width as int));
    r
}

/// Columns are counted from 0 up.
pub proof fn lemma_line_columns(line: Seq<SpanView>)
    ensures
        line_columns(line) >= 0,
    decreases line.len(),
{
    if line.len() > 0 {
        lemma_line_columns(line.drop_last());
    }
}

// ---------------------------------------------------------------------------
// The window
// ---------------------------------------------------------------------------

/// One line of the view as the window walks it: how many screen rows it takes
/// at the width it was sized for, and the text itself.
///
/// The text is asked for only by the lines the window shows, so a line it
/// passes has to cost its count and nothing else.
pub trait Piece {
    /// The line's screen rows.
    spec fn rows(&self) -> Seq<Seq<SpanView>>;

    /// Whether the line can be built.
    spec fn ready(&self) -> bool;

    /// Screen rows this line takes at the width it was sized for.
    fn height(&self) -> (n: usize)
        requires
            self.ready(),
        ensures
            n == self.rows().len(),
    ;

    /// The line's screen rows, oldest first: one per row it wraps to.
    fn pieces(self) -> (r: Vec<Line>) where Self: Sized
        requires
            self.ready(),
        ensures
            lines_view(r@) == self.rows(),
    ;
}

/// A line in hand, sized by wrapping it at the width it was built for. A live
/// line is not a said one, so there is no border for its wrapped rows to
/// repeat.
pub struct Ready {
    pub line: Line,
    pub width: usize,
}

impl Piece for Ready {
    open spec fn rows(&self) -> Seq<Seq<SpanView>> {
        fitted(self.line@, self.width as int)
    }

    open spec fn ready(&self) -> bool {
        true
    }

    fn height(&self) -> (n: usize) {
        let r = fit(&self.line, self.width);
        assert(lines_view(r@).len() == r@.len());
        r.len()
    }

    fn pieces(self) -> (r: Vec<Line>) {
        fit(&self.line, self.width)
    }
}

/// Whether every line can be built.
pub open spec fn all_ready<T, P: Piece>(lines: Seq<(P, T)>) -> bool {
    forall|i: int| 0 <= i < lines.len() ==> (#[trigger] lines[i]).0.ready()
}

/// Rows, each with the tag of the line it is of.
pub open spec fn tagged<T>(rows: Seq<Seq<SpanView>>, tag: T) -> Seq<(Seq<SpanView>, T)> {
    Seq::new(rows.len(), |i: int| (rows[i], tag))
}

/// Every row of the lines, oldest first, each with the tag of its line.
pub open spec fn all_rows<T, P: Piece>(lines: Seq<(P, T)>) -> Seq<(Seq<SpanView>, T)>
    decreases lines.len(),
{
    if lines.len() == 0 {
        Seq::empty()
    } else {
        all_rows(lines.drop_last()) + tagged(lines.last().0.rows(), lines.last().1)
    }
}

/// How far `total` rows can be scrolled back in a window of `room` rows.
pub open spec fn clamped(total: int, room: int, scroll: int) -> int {
    if scroll + room <= total {
        scroll
    } else if total >= room {
        total - room
    } else {
        0
    }
}

/// The last `room` of the rows, with `scroll` held back from the bottom.
pub open spec fn shown<T>(
    rows: Seq<(Seq<SpanView>, T)>,
    room: int,
    scroll: int,
) -> Seq<(Seq<SpanView>, T)> {
    let end = rows.len() - clamped(rows.len() as int, room, scroll);
    let start = if end >= room {
        end - room
    } else {
        0
    };
    rows.subrange(start, end)
}

/// Rows and their tags, with the texts as sequences.
pub open spec fn tagged_view<T>(v: Seq<(Line, T)>) -> Seq<(Seq<SpanView>, T)> {
    Seq::new(v.len(), |i: int| (v[i].0@, v[i].1))
}

/// The window of rows to show: the last `room` rows of `lines`, with `scroll`
/// rows held back from the bottom. The clamped scroll comes back with them.
///
/// A line is not a row, since anything wider than the terminal wraps, so the
/// window has to be measured after wrapping. The walk starts from the newest
/// line and stops as soon as the window is full; each line says how many rows
/// it takes, so the rows the window scrolls past are counted and dropped,
/// unwrapped and unbuilt.
pub fn window_tagged<T: Copy, P: Piece>(lines: Vec<(P, T)>, room: usize, scroll: usize) -> (r: (
    Vec<(Line, T)>,
    usize,
))
    requires
        room + scroll <= usize::MAX,
        all_ready(lines@),
    ensures
        tagged_view(r.0@) == shown(all_rows(lines@), room as int, scroll as int),
        r.1 == clamped(all_rows(lines@).len() as int, room as int, scroll as int),
{
    let ghost every = all_rows(lines@);
    let want: usize = room + scroll;
    // Backwards on the counts alone: a line the window will not show costs its
    // height here, not the text it would take to build.
    let mut have: usize = 0;
    let mut n: usize = lines.len();
    assert(lines@.take(n as int) =~= lines@);
    while n > 0 && have < want
        invariant
            n <= lines@.len(),
            all_ready(lines@),
            every == all_rows(lines@),
            have < want ==> have + all_rows(lines@.take(n as int)).len() == every.len(),
            have >= want ==> every.len() >= want,
        decreases n,
    {
        let ghost t = lines@.take(n as int);
        assert(t.drop_last() =~= lines@.take(n - 1));
        assert(t.last() == lines@[n - 1]);
        let h = lines[n - 1].0.height();
        have = have.saturating_add(h);
        n -= 1;
    }
    let back: usize = if have >= want {
        scroll
    } else if have >= room {
        have - room
    } else {
        0
    };
    proof {
        if have < want {
            assert(n == 0);
            assert(lines@.take(0) =~= Seq::empty());
        }
        assert(back == clamped(every.len() as int, room as int, scroll as int));
    }
    let ghost end = every.len() - back;
    let mut lines = lines;
    let mut skip: usize = back;
    let mut rev: Vec<(Line, T)> = Vec::new();
    // Newest screen row first, the direction the walk came from.
    while rev.len() < room
        invariant_except_break
            skip > 0 ==> rev@.len() == 0 && all_rows(lines@).len() - skip == end,
            skip == 0 ==> rev@.len() + all_rows(lines@).len() == end,
        invariant
            every.len() >= end >= 0,
            all_ready(lines@),
            all_rows(lines@).len() <= every.len(),
            every.take(all_rows(lines@).len() as int) == all_rows(lines@),
            rev@.len() <= room,
            forall|k: int| 0 <= k < rev@.len() ==> ((#[trigger] rev@[k]).0@, rev@[k].1)
                == every[end - 1 - k],
        ensures
            rev@.len() == if end >= room {
                room as int
            } else {
                end
            },
            forall|k: int| 0 <= k < rev@.len() ==> ((#[trigger] rev@[k]).0@, rev@[k].1)
                == every[end - 1 - k],
        decreases lines@.len(),
    {
        let ghost before = lines@;
        let (line, tag) = match lines.pop() {
            Some(x) => x,
            None => {
                break;
            },
        };
        assert(lines@ =~= before.drop_last());
        assert(before.last() == (line, tag));
        let ghost mine = tagged(line.rows(), tag);
        let ghost older = all_rows(lines@).len();
        assert(all_rows(before) == all_rows(lines@) + mine);
        assert(every.take(older as int) =~= all_rows(before).take(older as int));
        assert(all_rows(before).take(older as int) =~= all_rows(lines@));
        if skip > 0 {
            let h = line.height();
            if skip >= h {
                skip -= h;
                continue;
            }
        }
        let pieces = line.pieces();
        let ghost rows = lines_view(pieces@);
        assert forall|k: int| 0 <= k < rows.len() implies #[trigger] every[older + k] == (
            rows[k],
            tag,
        ) by {
            assert(every.take(all_rows(before).len() as int)[older + k] == all_rows(before)[older
                + k]);
            assert(all_rows(before)[older + k] == mine[k]);
        }
        let mut k: usize = pieces.len() - skip;
        let ghost held = rev@.len();
        let ghost first = k as int;
        assert(end == older + first + held);
        while k > 0 && rev.len() < room
            invariant
                k <= first <= pieces@.len(),
                rev@.len() <= room,
                rev@.len() == held + (first - k),
                end == older + first + held,
                older + pieces@.len() <= every.len(),
                rows == lines_view(pieces@),
                forall|j: int| 0 <= j < rows.len() ==> #[trigger] every[older + j] == (
                    rows[j],
                    tag,
                ),
                forall|j: int| 0 <= j < rev@.len() ==> ((#[trigger] rev@[j]).0@, rev@[j].1)
                    == every[end - 1 - j],
            decreases k,
        {
            let row = pieces[k - 1].copy();
            assert(every[older + (k - 1)] == (rows[k - 1], tag));
            assert(end - 1 - rev@.len() == older + (k - 1));
            rev.push((row, tag));
            k -= 1;
        }
        skip = 0;
        if k > 0 {
            break;
        }
    }
    let mut out: Vec<(Line, T)> = Vec::new();
    let ghost total = rev@.len();
    while rev.len() > 0
        invariant
            rev@.len() + out@.len() == total,
            total <= end <= every.len(),
            forall|k: int| 0 <= k < rev@.len() ==> ((#[trigger] rev@[k]).0@, rev@[k].1)
                == every[end - 1 - k],
            forall|k: int| 0 <= k < out@.len() ==> ((#[trigger] out@[k]).0@, out@[k].1)
                == every[end - total + k],
        decreases rev@.len(),
    {
        let ghost last = rev@.len() - 1;
        if let Some(x) = rev.pop() {
            assert(end - 1 - last == end - total + out@.len());
            out.push(x);
        }
    }
    assert(tagged_view(out@) =~= shown(every, room as int, scroll as int));
    (out, back)
}

/// Every row of the lines at a width, oldest first.
pub open spec fn plain_rows(lines: Seq<Seq<SpanView>>, width: int) -> Seq<Seq<SpanView>>
    decreases lines.len(),
{
    if lines.len() == 0 {
        Seq::empty()
    } else {
        plain_rows(lines.drop_last(), width) + fitted(lines.last(), width)
    }
}

/// The last `room` rows of `lines` at a width, with `scroll` rows held back,
/// and the clamped scroll.
pub fn window(lines: Vec<Line>, width: usize, room: usize, scroll: usize) -> (r: (Vec<Line>, usize))
    requires
        room + scroll <= usize::MAX,
    ensures
        ({
            let rows = plain_rows(lines_view(lines@), width as int);
            let end = rows.len() - r.1;
            &&& r.1 == clamped(rows.len() as int, room as int, scroll as int)
            &&& lines_view(r.0@) == rows.subrange(
                if end >= room {
                    end - room
                } else {
                    0
                },
                end,
            )
        }),
{
    let ghost all = lines_view(lines@);
    let mut tagged: Vec<(Ready, ())> = Vec::new();
    let mut i: usize = 0;
    assert(all.take(0) =~= Seq::empty());
    assert(untagged(all_rows(tagged@)) =~= plain_rows(all.take(0), width as int));
    while i < lines.len()
        invariant
            i <= lines@.len(),
            all == lines_view(lines@),
            tagged@.len() == i,
            untagged(all_rows(tagged@)) == plain_rows(all.take(i as int), width as int),
        decreases lines@.len() - i,
    {
        let ghost before = tagged@;
        let line = lines[i].copy();
        assert(all[i as int] == line@);
        tagged.push((Ready { line, width }, ()));
        assert(tagged@.drop_last() =~= before);
        assert(all.take(i + 1).drop_last() =~= all.take(i as int));
        assert(all.take(i + 1).last() == all[i as int]);
        assert(untagged(all_rows(tagged@)) =~= untagged(all_rows(before)) + fitted(
            all[i as int],
            width as int,
        ));
        i += 1;
    }
    assert(all.take(i as int) =~= all);
    let ghost rows = plain_rows(all, width as int);
    let ghost every = all_rows(tagged@);
    assert(untagged(every) == rows);
    let (shown_rows, back) = window_tagged(tagged, room, scroll);
    assert(every.len() == untagged(every).len());
    let mut out: Vec<Line> = Vec::new();
    let mut k: usize = 0;
    while k < shown_rows.len()
        invariant
            k <= shown_rows@.len(),
            out@.len() == k,
            forall|j: int| 0 <= j < k ==> (#[trigger] out@[j])@ == shown_rows@[j].0@,
        decreases shown_rows@.len() - k,
    {
        let l = shown_rows[k].0.copy();
        out.push(l);
        k += 1;
    }
    proof {
        let end = rows.len() - back;
        let start = if end >= room {
            end - room
        } else {
            0
        };
        assert(tagged_view(shown_rows@) == every.subrange(start, end));
        assert forall|j: int| 0 <= j < out@.len() implies #[trigger] lines_view(out@)[j]
            == rows.subrange(start, end)[j] by {
            assert(tagged_view(shown_rows@)[j] == every[start + j]);
            assert(untagged(every)[start + j] == every[start + j].0);
        }
        assert(tagged_view(shown_rows@).len() == shown_rows@.len());
        assert(lines_view(out@) =~= rows.subrange(start, end));
    }
    (out, back)
}

/// Rows without their tags.
pub open spec fn untagged<T>(rows: Seq<(Seq<SpanView>, T)>) -> Seq<Seq<SpanView>> {
    Seq::new(rows.len(), |i: int| rows[i].0)
}

// ---------------------------------------------------------------------------
// Painting
// ---------------------------------------------------------------------------

/// What one cell of a row shows, and the columns it takes.
#[derive(Debug, Clone, PartialEq, Eq)]
pub struct Placed {
    pub symbol: String,
    pub width: usize,
    pub style: Style,
}

/// A cell's content, with its symbol as a sequence.
#[verifier::ext_equal]
pub struct PlacedView {
    pub symbol: Seq<char>,
    pub width: int,
    pub style: Style,
}

impl View for Placed {
    type V = PlacedView;

    open spec fn view(&self) -> PlacedView {
        PlacedView { symbol: self.symbol@, width: self.width as int, style: self.style }
    }
}

/// Placed cells, with their symbols as sequences.
pub open spec fn placed_view(v: Seq<Placed>) -> Seq<PlacedView> {
    Seq::new(v.len(), |i: int| v[i]@)
}

/// Whether a cell shows nothing.
pub open spec fn is_blank_cell(p: PlacedView) -> bool {
    p.symbol == seq![' ']
}

/// The cells with a combining mark on the last one that shows something.
pub open spec fn decorated(v: Seq<PlacedView>, c: char) -> Seq<PlacedView>
    decreases v.len(),
{
    if v.len() == 0 {
        v
    } else if is_blank_cell(v.last()) {
        decorated(v.drop_last(), c).push(v.last())
    } else {
        v.drop_last().push(PlacedView { symbol: v.last().symbol.push(c), ..v.last() })
    }
}

/// The cells of a row: one for each character that takes columns. A combining
/// mark decorates the cell before it; a control character takes none.
pub open spec fn placed(row: Seq<Cell>) -> Seq<PlacedView>
    decreases row.len(),
{
    if row.len() == 0 {
        Seq::empty()
    } else {
        let rest = placed(row.drop_last());
        let (c, style) = row.last();
        if columns(c) > 0 {
            rest.push(PlacedView { symbol: seq![c], width: columns(c), style })
        } else if is_control(c) {
            rest
        } else {
            decorated(rest, c)
        }
    }
}

/// Put a combining mark on the last cell that shows something.
fn decorate(cells: &mut Vec<Placed>, c: char)
    ensures
        placed_view(final(cells)@) == decorated(placed_view(old(cells)@), c),
{
    let ghost before = placed_view(cells@);
    let mut tail: Vec<Placed> = Vec::new();
    // Blanks come off the end, and go back on after the mark is placed.
    assert(before.skip(before.len() as int) =~= Seq::empty());
    while cells.len() > 0
        invariant_except_break
            decorated(before, c) == decorated(placed_view(cells@), c) + reversed(
                placed_view(tail@),
            ),
        ensures
            decorated(before, c) == placed_view(cells@) + reversed(placed_view(tail@)),
        decreases cells@.len(),
    {
        let ghost now = placed_view(cells@);
        let ghost off = placed_view(tail@);
        let ghost had = cells@;
        if let Some(last) = cells.pop() {
            assert(now.last() == last@);
            assert(placed_view(cells@) =~= now.drop_last());
            let chars = chars_of(last.symbol.as_str());
            let blank = chars.len() == 1 && chars[0] == ' ';
            assert(blank == is_blank_cell(last@)) by {
                if blank {
                    assert(last.symbol@ =~= seq![' ']);
                }
            }
            if blank {
                tail.push(last);
                assert(placed_view(tail@) =~= off.push(now.last()));
                assert(decorated(now.drop_last(), c).push(now.last()) + reversed(off)
                    =~= decorated(now.drop_last(), c) + reversed(off.push(now.last())));
            } else {
                let mut symbol = last.symbol;
                symbol.push(c);
                cells.push(Placed { symbol, width: last.width, style: last.style });
                assert(placed_view(cells@) =~= decorated(now, c));
                break;
            }
        }
    }
    while tail.len() > 0
        invariant
            decorated(before, c) == placed_view(cells@) + reversed(placed_view(tail@)),
        decreases tail@.len(),
    {
        let ghost now = placed_view(cells@);
        let ghost off = placed_view(tail@);
        if let Some(last) = tail.pop() {
            assert(off.last() == last@);
            assert(placed_view(tail@) =~= off.drop_last());
            cells.push(last);
            assert(placed_view(cells@) =~= now.push(off.last()));
            assert(now + reversed(off) =~= now.push(off.last()) + reversed(off.drop_last()));
        }
    }
    assert(placed_view(cells@) + reversed(placed_view(tail@)) =~= placed_view(cells@));
}

/// A sequence from its end to its start.
pub open spec fn reversed<A>(s: Seq<A>) -> Seq<A> {
    Seq::new(s.len(), |i: int| s[s.len() - 1 - i])
}

/// The cells one fitted row fills: one per character, styled by its span, a
/// wide character taking as many columns as it is wide. Combining marks
/// decorate back, skipping blanks; escape sequences and control characters
/// take no cell.
pub fn place(line: &Line) -> (r: Vec<Placed>)
    ensures
        placed_view(r@) == placed(cells(line@)),
{
    let all = cells_of(line);
    let ghost s = all@;
    let mut r: Vec<Placed> = Vec::new();
    let mut i: usize = 0;
    assert(s.take(0) =~= Seq::empty());
    assert(placed_view(r@) =~= placed(s.take(0)));
    while i < all.len()
        invariant
            i <= all@.len(),
            s == all@,
            placed_view(r@) == placed(s.take(i as int)),
        decreases all@.len() - i,
    {
        let ghost before = placed_view(r@);
        assert(s.take(i + 1).drop_last() =~= s.take(i as int));
        assert(s.take(i + 1).last() == s[i as int]);
        let (c, style) = all[i];
        let w = columns_of(c);
        if w > 0 {
            let mut symbol = String::new();
            symbol.push(c);
            assert(symbol@ =~= seq![c]);
            r.push(Placed { symbol, width: w, style });
            assert(placed_view(r@) =~= before.push(
                PlacedView { symbol: seq![c], width: columns(c), style },
            ));
        } else if !control(c) {
            decorate(&mut r, c);
        }
        i += 1;
    }
    assert(s.take(i as int) =~= s);
    r
}

/// The rows an area of `height` rows shows of `lines`: as many as there is
/// room for, from the first.
pub fn rows_within(lines: &[Line], width: usize, height: usize) -> (r: Vec<Line>)
    ensures
        ({
            let rows = plain_rows(lines_view(lines@), width as int);
            lines_view(r@) == if rows.len() <= height {
                rows
            } else {
                rows.take(height as int)
            }
        }),
{
    let ghost all = lines_view(lines@);
    let mut r: Vec<Line> = Vec::new();
    let mut i: usize = 0;
    assert(all.take(0) =~= Seq::empty());
    assert(lines_view(r@) =~= plain_rows(all.take(0), width as int));
    while i < lines.len()
        invariant
            i <= lines@.len(),
            all == lines_view(lines@),
            lines_view(r@) == cut(plain_rows(all.take(i as int), width as int), height as int),
        decreases lines@.len() - i,
    {
        let ghost so_far = plain_rows(all.take(i as int), width as int);
        let ghost more = fitted(all[i as int], width as int);
        assert(all.take(i + 1).drop_last() =~= all.take(i as int));
        assert(all.take(i + 1).last() == all[i as int]);
        let pieces = fit(&lines[i], width);
        assert(lines_view(pieces@) == more);
        let mut k: usize = 0;
        assert(so_far + more.take(0) =~= so_far);
        while k < pieces.len()
            invariant
                k <= pieces@.len(),
                lines_view(pieces@) == more,
                lines_view(r@) == cut(so_far + more.take(k as int), height as int),
            decreases pieces@.len() - k,
        {
            let ghost now = so_far + more.take(k as int);
            let ghost before = lines_view(r@);
            assert(so_far + more.take(k + 1) =~= now.push(more[k as int]));
            assert(lines_view(r@).len() == r@.len());
            assert(more[k as int] == pieces@[k as int]@);
            if r.len() < height {
                let l = pieces[k].copy();
                r.push(l);
                assert(lines_view(r@) =~= before.push(more[k as int]));
                assert(cut(now.push(more[k as int]), height as int) =~= now.push(more[k as int]));
            } else {
                assert(cut(now.push(more[k as int]), height as int) =~= cut(now, height as int));
            }
            k += 1;
        }
        assert(more.take(k as int) =~= more);
        i += 1;
    }
    assert(all.take(i as int) =~= all);
    r
}

/// At most the first `n` of the rows.
pub open spec fn cut<A>(rows: Seq<A>, n: int) -> Seq<A> {
    if rows.len() <= n {
        rows
    } else {
        rows.take(n)
    }
}

// ---------------------------------------------------------------------------
// Laws
// ---------------------------------------------------------------------------

/// The columns of a row of cells.
pub open spec fn cells_columns(row: Seq<Cell>) -> int
    decreases row.len(),
{
    if row.len() == 0 {
        0
    } else {
        cells_columns(row.drop_last()) + columns(row.last().0)
    }
}

/// Whether a row is no wider than `width`, or than one of its characters.
pub open spec fn narrow(row: Seq<Cell>, width: int) -> bool {
    cells_columns(row) <= width || exists|k: int|
        0 <= k < row.len() && cells_columns(row) == columns((#[trigger] row[k]).0)
}

/// The rows one behind the other.
pub open spec fn rejoined(rows: Seq<Seq<Cell>>) -> Seq<Cell>
    decreases rows.len(),
{
    if rows.len() == 0 {
        Seq::empty()
    } else {
        rejoined(rows.drop_last()) + rows.last()
    }
}

/// The cells without line breaks.
pub open spec fn unbroken(s: Seq<Cell>) -> Seq<Cell>
    decreases s.len(),
{
    if s.len() == 0 {
        s
    } else if s.last().0 == '\n' {
        unbroken(s.drop_last())
    } else {
        unbroken(s.drop_last()).push(s.last())
    }
}

/// Whether a row is one that breaking leaves alone.
spec fn settled_row(row: Seq<Cell>, width: int) -> bool {
    broken(row, width, row.len() as int) == (Broken {
        rows: Seq::empty(),
        row,
        used: cells_columns(row),
    })
}

/// The rows of a prefix are those of the cells in it.
proof fn lemma_broken_prefix(s: Seq<Cell>, t: Seq<Cell>, width: int, n: int)
    requires
        0 <= n <= s.len(),
        n <= t.len(),
        forall|k: int| 0 <= k < n ==> s[k] == t[k],
    ensures
        broken(s, width, n) == broken(t, width, n),
    decreases n,
{
    if n > 0 {
        lemma_broken_prefix(s, t, width, n - 1);
    }
}

proof fn lemma_broken(s: Seq<Cell>, width: int, n: int)
    requires
        0 <= n <= s.len(),
        width >= 1,
    ensures
        ({
            let b = broken(s, width, n);
            &&& b.used == cells_columns(b.row) >= 0
            &&& narrow(b.row, width)
            &&& settled_row(b.row, width)
            &&& rejoined(b.rows) + b.row == unbroken(s.take(n))
            &&& forall|i: int|
                0 <= i < b.rows.len() ==> settled_row(#[trigger] b.rows[i], width) && narrow(
                    b.rows[i],
                    width,
                )
        }),
    decreases n,
{
    if n == 0 {
        assert(s.take(0) =~= Seq::empty());
        assert(rejoined(Seq::<Seq<Cell>>::empty()) + Seq::<Cell>::empty() =~= Seq::empty());
    } else {
        lemma_broken(s, width, n - 1);
        let b = broken(s, width, n - 1);
        let c = s[n - 1];
        assert(s.take(n).drop_last() =~= s.take(n - 1));
        assert(s.take(n).last() == c);
        let shut = closed(b);
        assert(shut.rows.drop_last() =~= b.rows);
        assert(rejoined(shut.rows) + shut.row =~= rejoined(b.rows) + b.row);
        if c.0 != '\n' {
            let room = if b.used + columns(c.0) > width && b.used > 0 {
                shut
            } else {
                b
            };
            let row = room.row.push(c);
            assert(row.drop_last() =~= room.row);
            lemma_broken_prefix(row, room.row, width, room.row.len() as int);
            assert(settled_row(room.row, width)) by {
                if room == shut {
                    assert(broken(shut.row, width, 0) == (Broken {
                        rows: Seq::empty(),
                        row: Seq::empty(),
                        used: 0,
                    }));
                }
            }
            assert(settled_row(row, width));
            assert(row[row.len() - 1] == c);
            assert(narrow(row, width));
            assert(rejoined(room.rows) + row =~= (rejoined(room.rows) + room.row).push(c));
        }
    }
}

/// Breaking a line into rows keeps every character it shows, in order: the
/// rows one behind the other are the line without its line breaks.
pub proof fn law_fit_keeps_the_text(line: Seq<SpanView>, width: int)
    ensures
        rejoined(broken_rows(cells(line), some_width(width))) == unbroken(cells(line)),
{
    let s = cells(line);
    let w = some_width(width);
    lemma_broken(s, w, s.len() as int);
    assert(s.take(s.len() as int) =~= s);
    let b = broken(s, w, s.len() as int);
    assert(b.rows.push(b.row).drop_last() =~= b.rows);
}

/// Whether some character of the text opens an escape sequence.
pub open spec fn escapes(row: Seq<Cell>) -> bool {
    exists|i: int| 0 <= i < row.len() && (#[trigger] row[i]).0 == '\u{1b}'
}

proof fn lemma_seen_chars(s: Seq<char>)
    ensures
        !seen_chars(s).contains('\u{1b}'),
    decreases s.len(),
{
    if s.len() > 0 {
        if s[0] == '\u{1b}' {
            lemma_past_escape(s.skip(1), Escape::Opened);
            lemma_seen_chars(past_escape(s.skip(1), Escape::Opened));
        } else {
            lemma_seen_chars(s.skip(1));
            let rest = seen_chars(s.skip(1));
            assert forall|i: int| 0 <= i < seen_chars(s).len() implies seen_chars(s)[i]
                != '\u{1b}' by {
                if i > 0 {
                    assert(seen_chars(s)[i] == rest[i - 1]);
                    assert(rest.contains(rest[i - 1]));
                }
            }
        }
    }
}

/// What a line shows opens no escape sequence.
proof fn lemma_cells_escape_nothing(line: Seq<SpanView>)
    ensures
        !escapes(cells(line)),
    decreases line.len(),
{
    if line.len() > 0 {
        lemma_cells_escape_nothing(line.drop_last());
        lemma_seen_chars(line.last().content);
        let before = cells(line.drop_last());
        let seen = seen_chars(line.last().content);
        assert forall|i: int| 0 <= i < cells(line).len() implies (#[trigger] cells(line)[i]).0
            != '\u{1b}' by {
            if i < before.len() {
                assert(cells(line)[i] == before[i]);
            } else {
                assert(cells(line)[i].0 == seen[i - before.len()]);
                assert(seen.contains(seen[i - before.len()]));
            }
        }
    }
}

/// A text without escapes is shown as it is.
proof fn lemma_seen_plain(s: Seq<char>)
    requires
        forall|i: int| 0 <= i < s.len() ==> s[i] != '\u{1b}',
    ensures
        seen_chars(s) == s,
    decreases s.len(),
{
    if s.len() > 0 {
        lemma_seen_plain(s.skip(1));
        assert(seq![s[0]] + s.skip(1) =~= s);
    }
}

/// The spans of a row show the row.
proof fn lemma_spans_of(row: Seq<Cell>)
    requires
        !escapes(row),
    ensures
        cells(spans_of(row)) == row,
        forall|i: int, k: int|
            0 <= i < spans_of(row).len() && 0 <= k < spans_of(row)[i].content.len() ==> (
            #[trigger] spans_of(row)[i].content[k]) != '\u{1b}',
    decreases row.len(),
{
    if row.len() > 0 {
        let less = row.drop_last();
        assert(!escapes(less)) by {
            assert forall|i: int| 0 <= i < less.len() implies (#[trigger] less[i]).0
                != '\u{1b}' by {
                assert(row[i] == less[i]);
            }
        }
        lemma_spans_of(less);
        let rest = spans_of(less);
        let (c, style) = row.last();
        assert(row[row.len() - 1].0 != '\u{1b}');
        let now = spans_of(row);
        if rest.len() > 0 && rest.last().style == style {
            let text = rest.last().content;
            assert(rest[rest.len() - 1].content == text);
            assert forall|k: int| 0 <= k < text.len() implies text[k] != '\u{1b}' by {
                assert(rest[rest.len() - 1].content[k] != '\u{1b}');
            }
            lemma_seen_plain(text);
            assert forall|k: int| 0 <= k < text.push(c).len() implies text.push(c)[k]
                != '\u{1b}' by {}
            lemma_seen_plain(text.push(c));
            assert(now.drop_last() =~= rest.drop_last());
            assert(in_style(text.push(c), style) =~= in_style(text, style).push((c, style)));
            assert(cells(now) =~= cells(rest).push((c, style)));
        } else {
            assert(now.drop_last() =~= rest);
            lemma_seen_plain(seq![c]);
            assert(in_style(seq![c], style) =~= seq![(c, style)]);
            assert(cells(now) =~= cells(rest).push((c, style)));
        }
        assert(less.push(row.last()) =~= row);
        assert forall|i: int, k: int|
            0 <= i < now.len() && 0 <= k < now[i].content.len() implies (
        #[trigger] now[i].content[k]) != '\u{1b}' by {
            if rest.len() > 0 && rest.last().style == style {
                if i < now.len() - 1 {
                    assert(now[i] == rest[i]);
                    assert(rest[i].content[k] != '\u{1b}');
                } else if k < rest.last().content.len() {
                    assert(rest[rest.len() - 1].content[k] != '\u{1b}');
                }
            } else if i < now.len() - 1 {
                assert(now[i] == rest[i]);
                assert(rest[i].content[k] != '\u{1b}');
            }
        }
    }
}

/// No cell of a row comes from anywhere but the cells that were broken.
proof fn lemma_broken_escapes(s: Seq<Cell>, width: int, n: int)
    requires
        0 <= n <= s.len(),
        !escapes(s),
    ensures
        !escapes(broken(s, width, n).row),
        forall|i: int|
            0 <= i < broken(s, width, n).rows.len() ==> !escapes(
                #[trigger] broken(s, width, n).rows[i],
            ),
    decreases n,
{
    if n > 0 {
        lemma_broken_escapes(s, width, n - 1);
        let b = broken(s, width, n - 1);
        let c = s[n - 1];
        assert(c.0 != '\u{1b}');
        let now = broken(s, width, n);
        assert forall|i: int| 0 <= i < now.row.len() implies (#[trigger] now.row[i]).0
            != '\u{1b}' by {
            if i < now.row.len() - 1 {
                assert(now.row[i] == b.row[i]);
            }
        }
        assert forall|i: int| 0 <= i < now.rows.len() implies !escapes(#[trigger] now.rows[i]) by {
            if i < b.rows.len() {
                assert(now.rows[i] == b.rows[i]);
            } else {
                assert(now.rows[i] == b.row);
            }
        }
    }
}

/// Every row that a line breaks into occupies one terminal row: it is no wider
/// than asked, or than one of its characters, and breaking it again gives it
/// back whole.
pub proof fn law_fitted_rows_fit(line: Seq<SpanView>, width: int, i: int)
    requires
        0 <= i < fitted(line, width).len(),
    ensures
        ({
            let row = fitted(line, width)[i];
            &&& fitted(row, width) == seq![row]
            &&& narrow(cells(row), some_width(width))
        }),
{
    let s = cells(line);
    let w = some_width(width);
    lemma_broken(s, w, s.len() as int);
    lemma_cells_escape_nothing(line);
    lemma_broken_escapes(s, w, s.len() as int);
    let b = broken(s, w, s.len() as int);
    let rows = b.rows.push(b.row);
    let r = rows[i];
    let row = spans_of(r);
    assert(fitted(line, width)[i] == row);
    assert(settled_row(r, w) && narrow(r, w) && !escapes(r)) by {
        if i < b.rows.len() {
            assert(r == b.rows[i]);
        } else {
            assert(r == b.row);
        }
    }
    lemma_spans_of(r);
    assert(broken_rows(r, w) =~= seq![r]);
    assert(fitted(row, width) =~= seq![row]);
}

/// A bordered line keeps its rule unbroken: every row it wraps to starts with
/// the border, and the rows behind it are those of the line alone in what the
/// border leaves.
pub proof fn law_wrap_repeats_the_border(border: Seq<SpanView>, line: Seq<SpanView>, width: int, i: int)
    requires
        line_columns(border) < width,
        0 <= i < wrapped(Some(border), line, width).len(),
    ensures
        wrapped(Some(border), line, width).len() == fitted(line, width - line_columns(border)).len(),
        wrapped(Some(border), line, width)[i] == border + fitted(
            line,
            width - line_columns(border),
        )[i],
{
}

/// The window shows as many rows as there is room for, or all there are.
pub proof fn law_window_is_full<T>(rows: Seq<(Seq<SpanView>, T)>, room: int, scroll: int)
    requires
        room >= 0,
        scroll >= 0,
    ensures
        shown(rows, room, scroll).len() == if rows.len() >= room {
            room
        } else {
            rows.len() as int
        },
        0 <= clamped(rows.len() as int, room, scroll) <= scroll,
{
}

/// Without scroll, the newest row is the last one shown.
pub proof fn law_window_ends_on_the_newest<T>(rows: Seq<(Seq<SpanView>, T)>, room: int)
    requires
        room > 0,
        rows.len() > 0,
    ensures
        shown(rows, room, 0).last() == rows.last(),
{
}

} // verus!
