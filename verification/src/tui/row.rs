//! One row of scrollback, and the only place one can be made.
//!
//! Two producers fill the scrollback: the live stream, which draws content the
//! session does not hold yet, and a rebuild from the transcript. A row is made
//! by calling one of these constructors, or it is not made at all, so the two
//! cannot disagree about what a row of a given kind looks like.

use crate::text::{
    append_number, capped, chars_of, copy_range, decimal, is_white, lines, lines_of, push_all,
    push_text, rows, skip_white_back, starts, starts_with, string_of, trim, trim_end, trim_start,
    trimmed, trimmed_start, white,
};
use crate::tui::line::{
    lines_view, one_span, plain_style, same_line, Line, Role, Span, SpanView, Style,
};
use crate::tui::screen::{wrap, wrapped};
use crate::tui::status::{frame, frame_mark};
use crate::width::{columns_of, row_columns, text_columns, text_columns_of};
use vstd::prelude::*;
use vstd::string::*;

verus! {

/// How many rows of a tool's preview are shown until it is unfolded.
pub const SKETCHED_ROWS: usize = 25;

// ---------------------------------------------------------------------------
// Folded tools
// ---------------------------------------------------------------------------

/// A finished call, as a summary row holds it.
#[derive(Debug, Clone, PartialEq, Eq)]
pub struct FoldedTool {
    pub name: String,
    pub preview: String,
}

/// A finished call, with its texts as sequences.
#[verifier::ext_equal]
pub struct FoldedToolView {
    pub name: Seq<char>,
    pub preview: Seq<char>,
}

impl View for FoldedTool {
    type V = FoldedToolView;

    open spec fn view(&self) -> FoldedToolView {
        FoldedToolView { name: self.name@, preview: self.preview@ }
    }
}

/// The first line of a text, or nothing.
pub open spec fn first_line(s: Seq<char>) -> Seq<char> {
    let all = lines(s);
    if all.len() == 0 {
        Seq::empty()
    } else {
        all[0]
    }
}

/// What a call is described as: its tool and the first line of its preview,
/// with the tool named once.
pub open spec fn described(t: FoldedToolView) -> Seq<char> {
    let head = trim(first_line(t.preview));
    if head.len() == 0 {
        t.name
    } else if starts(head, t.name) && head.len() > t.name.len() && is_white(
        head[t.name.len() as int],
    ) {
        head
    } else {
        t.name + seq![' '] + head
    }
}

impl FoldedTool {
    /// What the call is described as: its tool and the first line of its
    /// preview, with the tool named once.
    pub fn desc(&self) -> (r: String)
        ensures
            r@ == described(self@),
    {
        let p = chars_of(self.preview.as_str());
        let all = lines_of(p.as_slice());
        let none: Vec<char> = Vec::new();
        proof {
            if all@.len() > 0 {
                assert(rows(all@)[0] == all@[0]@);
            }
            assert(rows(all@).len() == all@.len());
            assert(none@ =~= Seq::empty());
        }
        let head = if all.len() == 0 {
            trimmed(none.as_slice())
        } else {
            trimmed(all[0].as_slice())
        };
        assert(head@ == trim(first_line(self.preview@)));
        let name = chars_of(self.name.as_str());
        if head.len() == 0 {
            return self.name.clone();
        }
        if starts_with(head.as_slice(), name.as_slice()) && head.len() > name.len() && white(
            head[name.len()],
        ) {
            return string_of(head.as_slice());
        }
        let mut v = name;
        v.push(' ');
        push_all(&mut v, head.as_slice());
        assert(v@ =~= self.name@ + seq![' '] + head@);
        string_of(v.as_slice())
    }
}

/// The tools folded into one summary row. The tool that opened the row is
/// always in it, so neither the head nor the unfolded body has an empty case to
/// answer.
pub struct FoldedTools {
    tools: Vec<FoldedTool>,
}

/// Calls, with their texts as sequences.
pub open spec fn tools_view(v: Seq<FoldedTool>) -> Seq<FoldedToolView> {
    Seq::new(v.len(), |i: int| v[i]@)
}

impl FoldedTools {
    /// The calls, oldest first.
    pub closed spec fn all(&self) -> Seq<FoldedToolView> {
        tools_view(self.tools@)
    }

    /// There is a call in it.
    pub open spec fn valid(&self) -> bool {
        1 <= self.all().len()
    }

    /// A bundle of one.
    pub fn new(first: FoldedTool) -> (r: FoldedTools)
        ensures
            r.valid(),
            r.all() == seq![first@],
    {
        let mut tools: Vec<FoldedTool> = Vec::new();
        tools.push(first);
        let r = FoldedTools { tools };
        assert(r.all() =~= seq![first@]);
        r
    }

    /// The tool the head describes: the newest one folded in.
    pub fn last(&self) -> (r: &FoldedTool)
        requires
            self.valid(),
        ensures
            r@ == self.all().last(),
    {
        &self.tools[self.tools.len() - 1]
    }

    /// Whether one tool is the whole row. A batch reads as a count instead.
    pub fn is_single(&self) -> (r: bool)
        ensures
            r == (self.all().len() == 1),
    {
        self.tools.len() == 1
    }

    /// How many tools there are.
    pub fn count(&self) -> (r: usize)
        ensures
            r == self.all().len(),
    {
        self.tools.len()
    }

    /// Every tool, oldest first.
    pub fn iter(&self) -> (r: &[FoldedTool])
        ensures
            tools_view(r@) == self.all(),
    {
        self.tools.as_slice()
    }

    /// Fold one more in.
    pub fn push(&mut self, tool: FoldedTool)
        requires
            old(self).valid(),
        ensures
            final(self).valid(),
            final(self).all() == old(self).all().push(tool@),
    {
        let ghost before = self.all();
        self.tools.push(tool);
        assert(self.all() =~= before.push(tool@));
    }
}

// ---------------------------------------------------------------------------
// Rows
// ---------------------------------------------------------------------------

/// What the renderer drew for a row it draws, and the width it drew it at.
#[derive(Debug)]
pub struct Painted {
    pub width: usize,
    pub rows: Vec<Line>,
}

/// What the renderer drew, with the texts as sequences.
#[verifier::ext_equal]
pub struct PaintedView {
    pub width: int,
    pub rows: Seq<Seq<SpanView>>,
}

/// What the renderer drew, as sequences.
pub open spec fn painted_view(p: Option<Painted>) -> Option<PaintedView> {
    match p {
        Some(p) => Some(PaintedView { width: p.width as int, rows: lines_view(p.rows@) }),
        None => None,
    }
}

/// One row of scrollback.
#[verifier::ext_equal]
pub enum RowView {
    /// One logical line of a prompt the user said: the border and the body kept
    /// apart, so wrapping can repeat the border on every row the body spans.
    Said { border: Seq<SpanView>, body: Seq<SpanView> },
    /// A painted line the screen alone knows about: the banner, a command's
    /// output, a warning. `times` counts the same notice landing again with
    /// nothing between it and the last one.
    Notice { text: Seq<SpanView>, times: int },
    /// A tool's result, kept as its parts. Clipping waits for the frame that
    /// needs it.
    Result {
        ok: bool,
        name: Seq<char>,
        preview: Seq<char>,
        expanded: bool,
        hovered: bool,
        painted: Option<PaintedView>,
    },
    /// What a finished run left behind: which run's numbers, spelled out by the
    /// renderer.
    Tally { run: u64, painted: Option<PaintedView> },
    /// A block of reasoning that can be folded or unfolded.
    Reasoning { block: u64, lines: Seq<Seq<SpanView>>, folded: bool },
    /// A bundle of read-only tool results folded together into a summary row.
    ToolsSummary {
        tools: Seq<FoldedToolView>,
        folded: bool,
        running: bool,
        hovered: bool,
        spinner: int,
    },
}

enum Kind {
    Said { border: Line, body: Line },
    Notice { text: Line, times: usize },
    Result {
        ok: bool,
        name: String,
        preview: String,
        // The row count, so that neither expandability nor a toggle walks the
        // preview again.
        preview_lines: usize,
        expanded: bool,
        hovered: bool,
        painted: Option<Painted>,
    },
    Tally { run: u64, painted: Option<Painted> },
    Reasoning { block: u64, lines: Vec<Line>, folded: bool },
    ToolsSummary {
        tools: FoldedTools,
        folded: bool,
        running: bool,
        hovered: bool,
        spinner: usize,
    },
}

/// One row of scrollback.
pub struct Row {
    kind: Kind,
}

impl View for Row {
    type V = RowView;

    closed spec fn view(&self) -> RowView {
        match self.kind {
            Kind::Said { border, body } => RowView::Said { border: border@, body: body@ },
            Kind::Notice { text, times } => RowView::Notice { text: text@, times: times as int },
            Kind::Result { ok, name, preview, preview_lines, expanded, hovered, painted } =>
            RowView::Result {
                ok,
                name: name@,
                preview: preview@,
                expanded,
                hovered,
                painted: painted_view(painted),
            },
            Kind::Tally { run, painted } => RowView::Tally { run, painted: painted_view(painted) },
            Kind::Reasoning { block, lines, folded } => RowView::Reasoning {
                block,
                lines: lines_view(lines@),
                folded,
            },
            Kind::ToolsSummary { tools, folded, running, hovered, spinner } =>
            RowView::ToolsSummary {
                tools: tools.all(),
                folded,
                running,
                hovered,
                spinner: spinner as int,
            },
        }
    }
}

/// Rows, with their texts as sequences.
pub open spec fn rows_view(v: Seq<Row>) -> Seq<RowView> {
    Seq::new(v.len(), |i: int| v[i]@)
}

/// Whether every row is one that a constructor made.
pub open spec fn all_valid(v: Seq<Row>) -> bool {
    forall|i: int| 0 <= i < v.len() ==> (#[trigger] v[i]).valid()
}

/// A notice that came once.
pub open spec fn notice_row(text: Seq<SpanView>) -> RowView {
    RowView::Notice { text, times: 1 }
}

/// Whether a row can be unfolded. One tool is its own summary line, so
/// unfolding would only repeat it.
pub open spec fn expandable(r: RowView) -> bool {
    match r {
        RowView::ToolsSummary { tools, .. } => tools.len() != 1,
        RowView::Result { preview, .. } => lines(preview).len() > SKETCHED_ROWS,
        _ => false,
    }
}

/// The row unfolded, or folded again.
pub open spec fn toggled(r: RowView) -> RowView {
    match r {
        RowView::ToolsSummary { tools, folded, running, hovered, spinner } =>
        RowView::ToolsSummary { tools, folded: !folded, running, hovered, spinner },
        RowView::Result { ok, name, preview, expanded, hovered, painted } => RowView::Result {
            ok,
            name,
            preview,
            expanded: !expanded,
            hovered,
            painted: None,
        },
        _ => r,
    }
}

/// The row with the pointer on it or off it, and the spinner at a frame.
pub open spec fn hover(r: RowView, running: bool, hovered: bool, spin: int) -> RowView {
    match r {
        RowView::ToolsSummary { tools, folded, running: was, hovered: on, spinner } => {
            if was != running || on != hovered || (was && spinner != spin) {
                RowView::ToolsSummary { tools, folded, running, hovered, spinner: spin }
            } else {
                r
            }
        },
        RowView::Result { ok, name, preview, expanded, hovered: on, painted } => {
            if lines(preview).len() > SKETCHED_ROWS && on != hovered {
                RowView::Result { ok, name, preview, expanded, hovered, painted: None }
            } else {
                r
            }
        },
        _ => r,
    }
}

/// How many logical lines a row is made of, as far as they can be counted.
pub open spec fn row_len(r: RowView) -> int {
    match r {
        RowView::Notice { .. } | RowView::Said { .. } | RowView::Tally { .. } => 1,
        RowView::Result { preview, expanded, .. } => {
            let n = lines(preview).len();
            if n <= SKETCHED_ROWS {
                if n >= 1 {
                    n as int
                } else {
                    1
                }
            } else if expanded {
                capped(n as int + 1)
            } else {
                SKETCHED_ROWS + 1
            }
        },
        RowView::Reasoning { lines, folded, .. } => if folded {
            1
        } else {
            lines.len() as int
        },
        RowView::ToolsSummary { tools, folded, .. } => if folded {
            1
        } else {
            capped(1 + tools.len() as int)
        },
    }
}

/// The row with a reasoning block folded or not.
pub open spec fn with_fold(r: RowView, to: bool) -> RowView {
    match r {
        RowView::Reasoning { block, lines, folded } => RowView::Reasoning {
            block,
            lines,
            folded: to,
        },
        _ => r,
    }
}

/// The reasoning block a row belongs to, if it is one.
pub open spec fn block_of(r: RowView) -> Option<u64> {
    match r {
        RowView::Reasoning { block, .. } => Some(block),
        _ => None,
    }
}

/// Whether a reasoning block is folded.
pub open spec fn fold_of(r: RowView) -> Option<bool> {
    match r {
        RowView::Reasoning { folded, .. } => Some(folded),
        _ => None,
    }
}

/// The row with one more line on a reasoning block.
pub open spec fn with_line(r: RowView, line: Seq<SpanView>) -> RowView {
    match r {
        RowView::Reasoning { block, lines, folded } => RowView::Reasoning {
            block,
            lines: lines.push(line),
            folded,
        },
        _ => r,
    }
}

/// The count line a shut thinking block leaves in the scrollback.
pub open spec fn thinking_form(n: nat) -> Seq<char> {
    "thinking"@ + " · "@ + decimal(n) + " line"@ + (if n == 1 {
        Seq::empty()
    } else {
        seq!['s']
    })
}

/// The longest start of a text that takes no more than `max` columns.
pub open spec fn widest(s: Seq<char>, max: int) -> Seq<char>
    decreases s.len(),
{
    if row_columns(s) <= max || s.len() == 0 {
        s
    } else {
        widest(s.drop_last(), max)
    }
}

/// A text cut to `max` columns, without white space at its end.
pub open spec fn clipped(s: Seq<char>, max: int) -> Seq<char> {
    trim_end(widest(s, max))
}

/// What a row of tools has to spare for their names.
pub open spec fn names_room(width: int) -> int {
    if width - 2 >= 10 {
        width - 2
    } else {
        10
    }
}

/// What the head of a folded batch has to spare for the last tool: the columns
/// left by the count, the ellipsis before it and the spaces around them, within
/// limits.
pub open spec fn head_budget(count: nat, width: int) -> int {
    let fixed = 1 + decimal(count).len() + 1 + text_columns("…"@) + 1;
    let room = width - fixed;
    if room < 8 {
        8
    } else if room > 50 {
        50
    } else {
        room
    }
}

/// What the head of a batch says after its mark.
pub open spec fn head_text(tools: Seq<FoldedToolView>, folded: bool, width: int) -> Seq<char> {
    let desc = described(tools.last());
    if folded && tools.len() != 1 {
        let budget = head_budget(tools.len(), width);
        let shown = if text_columns(desc) > budget {
            clipped(desc, budget)
        } else {
            desc
        };
        seq![' '] + shown + seq![' '] + "…"@ + decimal(tools.len())
    } else {
        seq![' '] + clipped(desc, names_room(width))
    }
}

/// The head of a batch: a check once it is finished, a spinner while it runs,
/// and the latest tool, with the count of them while they are folded.
pub open spec fn header_form(
    tools: Seq<FoldedToolView>,
    folded: bool,
    running: bool,
    hovered: bool,
    spinner: int,
    width: int,
) -> Seq<SpanView> {
    let mark = if running {
        SpanView { content: seq![frame_mark(spinner % 10)], style: plain_style(Role::Plain) }
    } else {
        SpanView { content: seq!['✓'], style: Style { role: Role::Done, hovered } }
    };
    seq![
        mark,
        SpanView {
            content: head_text(tools, folded, width),
            style: Style { role: Role::Muted, hovered },
        },
    ]
}

/// The row of one tool under the head of its batch.
pub open spec fn listed_form(t: FoldedToolView, width: int) -> Seq<SpanView> {
    one_span("  "@ + clipped(described(t), names_room(width)), plain_style(Role::Muted))
}

/// The rows of a batch: its head, and every tool under it once it is unfolded.
pub open spec fn summary_rows(
    tools: Seq<FoldedToolView>,
    folded: bool,
    running: bool,
    hovered: bool,
    spinner: int,
    width: int,
) -> Seq<Seq<SpanView>> {
    let head = seq![header_form(tools, folded, running, hovered, spinner, width)];
    if folded {
        head
    } else {
        head + Seq::new(tools.len(), |i: int| listed_form(tools[i], width))
    }
}

/// The `i`th of the rows, or an empty one.
pub open spec fn row_or_empty(rows: Seq<Seq<SpanView>>, i: int) -> Seq<SpanView> {
    if 0 <= i < rows.len() {
        rows[i]
    } else {
        Seq::empty()
    }
}

/// The `i`th row the renderer drew at a width, or an empty one.
pub open spec fn drawn_row(painted: Option<PaintedView>, i: int, width: int) -> Seq<SpanView> {
    match painted {
        Some(p) => if p.width == width {
            row_or_empty(p.rows, i)
        } else {
            Seq::empty()
        },
        None => Seq::empty(),
    }
}

/// Line `i` of a row at a width: the text, and the border its continuation rows
/// must repeat.
pub open spec fn row_line(r: RowView, i: int, width: int) -> (Seq<SpanView>, Option<Seq<SpanView>>) {
    match r {
        RowView::Said { border, body } => (body, Some(border)),
        RowView::Notice { text, times } => if times == 1 {
            (text, None)
        } else {
            (
                text.push(
                    SpanView {
                        content: " ×"@ + decimal(times as nat),
                        style: plain_style(Role::Muted),
                    },
                ),
                None,
            )
        },
        RowView::Tally { painted, .. } | RowView::Result { painted, .. } => (
            drawn_row(painted, i, width),
            None,
        ),
        RowView::Reasoning { lines, folded, .. } => if folded {
            (one_span(thinking_form(lines.len()), plain_style(Role::Muted)), None)
        } else {
            (lines[i], None)
        },
        RowView::ToolsSummary { tools, folded, running, hovered, spinner } => (
            row_or_empty(summary_rows(tools, folded, running, hovered, spinner, width), i),
            None,
        ),
    }
}

/// The screen rows of line `i` of a row.
pub open spec fn line_rows(r: RowView, i: int, width: int) -> Seq<Seq<SpanView>> {
    let (text, border) = row_line(r, i, width);
    wrapped(border, text, width)
}

/// The screen rows of the first `n` lines of a row.
pub open spec fn lines_height(r: RowView, n: int, width: int) -> int
    decreases n,
{
    if n <= 0 {
        0
    } else {
        lines_height(r, n - 1, width) + line_rows(r, n - 1, width).len()
    }
}

/// Whether a row says how it fits once the renderer has drawn it at a width.
pub open spec fn awaits(r: RowView, width: int) -> bool {
    match r {
        RowView::Result { painted, .. } | RowView::Tally { painted, .. } => match painted {
            Some(p) => p.width != width,
            None => true,
        },
        _ => false,
    }
}

/// The row as the renderer drew it.
pub open spec fn drawn(r: RowView, p: PaintedView) -> RowView {
    match r {
        RowView::Result { ok, name, preview, expanded, hovered, painted } => RowView::Result {
            ok,
            name,
            preview,
            expanded,
            hovered,
            painted: Some(p),
        },
        RowView::Tally { run, painted } => RowView::Tally { run, painted: Some(p) },
        _ => r,
    }
}

/// A tool's result, before it is drawn.
pub open spec fn result_row(ok: bool, name: Seq<char>, preview: Seq<char>) -> RowView {
    RowView::Result { ok, name, preview, expanded: false, hovered: false, painted: None }
}

/// What stands for a result that made no sketch of its own: its first line.
pub open spec fn fallback(body: Seq<char>) -> Seq<char> {
    let n = crate::text::index_of(body, '\n');
    if n < body.len() {
        body.take(n)
    } else {
        body
    }
}

/// The texts one behind the other.
pub open spec fn concat(parts: Seq<Seq<char>>) -> Seq<char>
    decreases parts.len(),
{
    if parts.len() == 0 {
        Seq::empty()
    } else {
        concat(parts.drop_last()) + parts.last()
    }
}

/// A tool call named the way every row that shows one names it.
pub open spec fn named_form(name: Seq<char>, summary: Seq<char>) -> Seq<char> {
    if summary.len() == 0 {
        name
    } else {
        name + seq![' '] + summary
    }
}

/// A tool's start line: what an unanswered call keeps in the view.
pub open spec fn start_form(mark: Seq<char>, name: Seq<char>, summary: Seq<char>) -> Seq<char> {
    mark + seq![' '] + named_form(name, summary)
}

/// The rows of a `!` line and of what follows it.
pub open spec fn bang_row(line: Seq<char>, i: int) -> RowView {
    if i == 0 {
        let body = if line.len() > 0 && line[0] == '!' {
            line.skip(1)
        } else {
            line
        };
        notice_row(
            seq![
                SpanView { content: "! "@, style: plain_style(Role::Prompt) },
                SpanView { content: trim_start(body), style: plain_style(Role::Input) },
            ],
        )
    } else {
        notice_row(
            seq![
                SpanView { content: "  "@, style: plain_style(Role::Plain) },
                SpanView { content: line, style: plain_style(Role::Input) },
            ],
        )
    }
}

/// The row of one line that was said.
pub open spec fn said_row(line: Seq<char>) -> RowView {
    RowView::Said {
        border: one_span("▌ "@, plain_style(Role::Prompt)),
        body: one_span(line, plain_style(Role::Input)),
    }
}

/// A prompt's rows: a `!` keeps its own mark and its continuation the plain
/// indent, everything else wears the rule.
pub open spec fn prompt_rows(text: Seq<char>) -> Seq<RowView> {
    let all = lines(text);
    if text.len() > 0 && text[0] == '!' {
        Seq::new(all.len(), |i: int| bang_row(all[i], i))
    } else {
        Seq::new(all.len(), |i: int| said_row(all[i]))
    }
}

/// A muted notice.
pub open spec fn muted_row(text: Seq<char>) -> RowView {
    notice_row(one_span(text, plain_style(Role::Muted)))
}

/// What the screen opens with: the version, and the instruction files this run
/// stands on, if any.
pub open spec fn banner_rows(version: Seq<char>, context: Seq<Seq<char>>) -> Seq<RowView> {
    let head = seq![muted_row("π "@ + version)];
    if context.len() == 0 {
        head
    } else {
        head.push(muted_row("context:"@)) + Seq::new(
            context.len(),
            |i: int| muted_row("- "@ + context[i]),
        )
    }
}

impl Row {
    /// The counts a row keeps are those of what it holds.
    pub closed spec fn valid(&self) -> bool {
        match self.kind {
            Kind::Notice { times, .. } => times >= 1,
            Kind::Result { preview, preview_lines, .. } => preview_lines == lines(preview@).len(),
            Kind::ToolsSummary { tools, .. } => tools.valid(),
            _ => true,
        }
    }

    /// Something only the screen ever knew. Free-form on purpose: no session
    /// entry answers for it, so nothing can drift.
    pub fn notice(line: Line) -> (r: Row)
        ensures
            r.valid(),
            r@ == notice_row(line@),
    {
        Row { kind: Kind::Notice { text: line, times: 1 } }
    }

    /// A notice in the muted style.
    pub fn muted(text: &str) -> (r: Row)
        ensures
            r.valid(),
            r@ == muted_row(text@),
    {
        Row::notice(Line::of(text, Style::of(Role::Muted)))
    }

    /// Fold a repeat into this row, if it is the same notice: the scrollback
    /// then shows `line ×2` where a second row would have gone.
    ///
    /// Compares the spans, which is what makes it safe: two notices that read
    /// alike but are styled differently are different rows, and a row of any
    /// other kind never folds. Nor does one whose count cannot go higher.
    pub fn repeated(&mut self, line: &Line) -> (r: bool)
        requires
            old(self).valid(),
        ensures
            final(self).valid(),
            r == (old(self)@ matches RowView::Notice { text, times } && text == line@ && times
                < usize::MAX),
            r ==> final(self)@ == (RowView::Notice {
                text: line@,
                times: old(self)@->times + 1,
            }),
            !r ==> *final(self) == *old(self),
    {
        match &mut self.kind {
            Kind::Notice { text, times } => {
                if *times < usize::MAX && same_line(text, line) {
                    *times = *times + 1;
                    true
                } else {
                    false
                }
            },
            _ => false,
        }
    }

    /// One reasoning line. A reasoning line lives inside a block's row, not
    /// beside it.
    pub fn reasoning_line(line: &str) -> (r: Line)
        ensures
            r@ == one_span(line@, plain_style(Role::Muted)),
    {
        Line::of(line, Style::of(Role::Muted))
    }

    /// The line a finished run ends on.
    pub fn tally(run: u64) -> (r: Row)
        ensures
            r.valid(),
            r@ == (RowView::Tally { run, painted: None }),
    {
        Row { kind: Kind::Tally { run, painted: None } }
    }

    /// A bundle of read-only tool results folded together into a summary row.
    pub fn tools_summary(tools: FoldedTools) -> (r: Row)
        requires
            tools.valid(),
        ensures
            r.valid(),
            r@ == (RowView::ToolsSummary {
                tools: tools.all(),
                folded: true,
                running: false,
                hovered: false,
                spinner: 0,
            }),
    {
        Row {
            kind: Kind::ToolsSummary {
                tools,
                folded: true,
                running: false,
                hovered: false,
                spinner: 0,
            },
        }
    }

    /// Add a tool to a tools summary row, if it is one.
    pub fn push_tool(&mut self, name: String, preview: String) -> (r: bool)
        requires
            old(self).valid(),
        ensures
            final(self).valid(),
            r == (old(self)@ is ToolsSummary),
            r ==> final(self)@ == (RowView::ToolsSummary {
                tools: old(self)@->tools.push(
                    FoldedToolView { name: name@, preview: preview@ },
                ),
                folded: old(self)@->ToolsSummary_folded,
                running: old(self)@->running,
                hovered: old(self)@->ToolsSummary_hovered,
                spinner: old(self)@->spinner,
            }),
            !r ==> *final(self) == *old(self),
    {
        match &mut self.kind {
            Kind::ToolsSummary { tools, .. } => {
                tools.push(FoldedTool { name, preview });
                true
            },
            _ => false,
        }
    }

    /// Whether this row is a folded tools summary row.
    pub fn is_tools_summary(&self) -> (r: bool)
        ensures
            r == (self@ is ToolsSummary),
    {
        match &self.kind {
            Kind::ToolsSummary { .. } => true,
            _ => false,
        }
    }

    /// Whether this row is an expandable row.
    pub fn is_expandable(&self) -> (r: bool)
        requires
            self.valid(),
        ensures
            r == expandable(self@),
    {
        match &self.kind {
            Kind::ToolsSummary { tools, .. } => !tools.is_single(),
            Kind::Result { preview_lines, .. } => *preview_lines > SKETCHED_ROWS,
            _ => false,
        }
    }

    /// Toggle expand state, returning true if toggled.
    pub fn toggle_expand(&mut self) -> (r: bool)
        requires
            old(self).valid(),
        ensures
            final(self).valid(),
            r == expandable(old(self)@),
            final(self)@ == if r {
                toggled(old(self)@)
            } else {
                old(self)@
            },
    {
        if !self.is_expandable() {
            return false;
        }
        match &mut self.kind {
            Kind::ToolsSummary { folded, .. } => {
                *folded = !*folded;
                true
            },
            Kind::Result { expanded, painted, .. } => {
                *expanded = !*expanded;
                *painted = None;
                true
            },
            _ => false,
        }
    }

    /// Update running, hovered, and spinner state for expandable rows.
    pub fn update_hover_state(&mut self, running: bool, hovered: bool, spin: usize)
        requires
            old(self).valid(),
        ensures
            final(self).valid(),
            final(self)@ == hover(old(self)@, running, hovered, spin as int),
    {
        match &mut self.kind {
            Kind::ToolsSummary { running: r, hovered: h, spinner: s, .. } => {
                if *r != running || *h != hovered || (*r && *s != spin) {
                    *r = running;
                    *h = hovered;
                    *s = spin;
                }
            },
            Kind::Result { hovered: h, preview_lines, painted, .. } => {
                if *preview_lines > SKETCHED_ROWS && *h != hovered {
                    *h = hovered;
                    *painted = None;
                }
            },
            _ => {},
        }
    }

    /// A reasoning block's first row. Later lines go in through `push_line`.
    pub fn reasoning(block: u64, lines: Vec<Line>, folded: bool) -> (r: Row)
        ensures
            r.valid(),
            r@ == (RowView::Reasoning { block, lines: lines_view(lines@), folded }),
    {
        Row { kind: Kind::Reasoning { block, lines, folded } }
    }

    /// A tool result the screen already has in parts.
    pub fn result(ok: bool, name: String, preview: String) -> (r: Row)
        ensures
            r.valid(),
            r@ == result_row(ok, name@, preview@),
    {
        let chars = chars_of(preview.as_str());
        let all = lines_of(chars.as_slice());
        assert(rows(all@).len() == all@.len());
        let preview_lines: usize = all.len();
        Row {
            kind: Kind::Result {
                ok,
                name,
                preview,
                preview_lines,
                expanded: false,
                hovered: false,
                painted: None,
            },
        }
    }

    /// The same row out of a stored result: the tool's own sketch when it made
    /// one, since that is what the stored content does not hold, and otherwise
    /// the first line of that content. `content` is the texts the result holds.
    pub fn stored_result(
        is_error: bool,
        name: String,
        content: &[String],
        preview: Option<&str>,
    ) -> (r: Row)
        ensures
            r.valid(),
            r@ == result_row(
                !is_error,
                name@,
                match preview {
                    Some(p) => p@,
                    None => fallback(concat(crate::text::texts(content@))),
                },
            ),
    {
        match preview {
            Some(p) => Row::result(!is_error, name, p.to_owned()),
            None => {
                let ghost all = crate::text::texts(content@);
                let mut body: Vec<char> = Vec::new();
                let mut i: usize = 0;
                assert(all.take(0) =~= Seq::empty());
                while i < content.len()
                    invariant
                        i <= content@.len(),
                        all == crate::text::texts(content@),
                        body@ == concat(all.take(i as int)),
                    decreases content@.len() - i,
                {
                    assert(all.take(i + 1).drop_last() =~= all.take(i as int));
                    assert(all.take(i + 1).last() == content@[i as int]@);
                    push_text(&mut body, content[i].as_str());
                    i += 1;
                }
                assert(all.take(i as int) =~= all);
                let n = crate::text::position(body.as_slice(), '\n', 0);
                assert(body@.skip(0) =~= body@);
                let head = copy_range(body.as_slice(), 0, n);
                assert(head@ =~= fallback(body@));
                Row::result(!is_error, name, string_of(head.as_slice()))
            },
        }
    }

    /// The tool's name if this row is a tool result.
    pub fn tool_name(&self) -> (r: Option<&str>)
        ensures
            match r {
                Some(n) => self@ is Result && n@ == self@->name,
                None => self@ !is Result,
            },
    {
        match &self.kind {
            Kind::Result { name, .. } => Some(name.as_str()),
            _ => None,
        }
    }

    /// The tool's preview if this row is a tool result.
    pub fn tool_preview(&self) -> (r: Option<&str>)
        ensures
            match r {
                Some(p) => self@ is Result && p@ == self@->preview,
                None => self@ !is Result,
            },
    {
        match &self.kind {
            Kind::Result { preview, .. } => Some(preview.as_str()),
            _ => None,
        }
    }

    /// Whether this tool result succeeded.
    pub fn ok(&self) -> (r: Option<bool>)
        ensures
            match r {
                Some(ok) => self@ is Result && ok == self@->ok,
                None => self@ !is Result,
            },
    {
        match &self.kind {
            Kind::Result { ok, .. } => Some(*ok),
            _ => None,
        }
    }

    /// A tool's start line: what an unanswered call keeps in the view.
    pub fn tool_start(mark: &str, name: &str, summary: &str) -> (r: Row)
        ensures
            r.valid(),
            r@ == muted_row(start_form(mark@, name@, summary@)),
    {
        let line = tool_start_line(mark, name, summary);
        Row::muted(line.as_str())
    }

    /// A prompt's lines as the stream echoed them: a `!` keeps its own mark and
    /// its continuation the plain indent, everything else wears the rule,
    /// unbroken down every line of it.
    pub fn prompt(text: &str) -> (r: Vec<Row>)
        ensures
            all_valid(r@),
            rows_view(r@) == prompt_rows(text@),
    {
        let chars = chars_of(text);
        let all = lines_of(chars.as_slice());
        let ghost every = lines(text@);
        let bang = chars.len() > 0 && chars[0] == '!';
        let mut r: Vec<Row> = Vec::new();
        let mut i: usize = 0;
        while i < all.len()
            invariant
                i <= all@.len(),
                rows(all@) == every,
                every == lines(text@),
                bang == (text@.len() > 0 && text@[0] == '!'),
                r@.len() == i,
                all_valid(r@),
                forall|k: int| 0 <= k < i ==> (#[trigger] r@[k])@ == prompt_rows(text@)[k],
            decreases all@.len() - i,
        {
            assert(every[i as int] == all@[i as int]@);
            assert(every.len() == all@.len());
            let row = if bang {
                bang_line(all[i].as_slice(), i)
            } else {
                said_line(all[i].as_slice())
            };
            r.push(row);
            i += 1;
        }
        assert(rows_view(r@) =~= prompt_rows(text@));
        r
    }

    /// How many logical lines the row is made of: the `i`s `line` answers.
    /// Wraps not counted; `height` is the screen-row count.
    pub fn len(&self) -> (r: usize)
        requires
            self.valid(),
        ensures
            r == row_len(self@),
    {
        match &self.kind {
            Kind::Notice { .. } => 1,
            Kind::Said { .. } => 1,
            Kind::Tally { .. } => 1,
            Kind::Result { preview_lines, expanded, .. } => {
                if *preview_lines <= SKETCHED_ROWS {
                    if *preview_lines >= 1 {
                        *preview_lines
                    } else {
                        1
                    }
                } else if *expanded {
                    preview_lines.saturating_add(1)
                } else {
                    SKETCHED_ROWS + 1
                }
            },
            Kind::Reasoning { lines, folded, .. } => {
                if *folded {
                    1
                } else {
                    assert(lines_view(lines@).len() == lines@.len());
                    lines.len()
                }
            },
            Kind::ToolsSummary { tools, folded, .. } => {
                if *folded {
                    1
                } else {
                    tools.count().saturating_add(1)
                }
            },
        }
    }

    /// Whether the renderer has to draw the row before it can be shown at a
    /// width.
    pub fn awaits_paint(&self, width: usize) -> (r: bool)
        ensures
            r == awaits(self@, width as int),
    {
        match &self.kind {
            Kind::Result { painted, .. } => match painted {
                Some(p) => p.width != width,
                None => true,
            },
            Kind::Tally { painted, .. } => match painted {
                Some(p) => p.width != width,
                None => true,
            },
            _ => false,
        }
    }

    /// Take what the renderer drew for the row at a width. A no-op on a row it
    /// does not draw.
    pub fn paint(&mut self, width: usize, rows: Vec<Line>)
        requires
            old(self).valid(),
        ensures
            final(self).valid(),
            final(self)@ == drawn(
                old(self)@,
                PaintedView { width: width as int, rows: lines_view(rows@) },
            ),
    {
        match &mut self.kind {
            Kind::Result { painted, .. } => {
                *painted = Some(Painted { width, rows });
            },
            Kind::Tally { painted, .. } => {
                *painted = Some(Painted { width, rows });
            },
            _ => {},
        }
    }

    /// Screen rows this row takes at `width`, wraps included. The scrolled-up
    /// view's accounting reads these; a wrap is a row the count has to know
    /// about. `None` where there are more than can be counted.
    pub fn height(&self, width: usize) -> (r: Option<usize>)
        requires
            self.valid(),
        ensures
            match r {
                Some(n) => n == lines_height(self@, row_len(self@), width as int),
                None => lines_height(self@, row_len(self@), width as int) > usize::MAX,
            },
    {
        let n = self.len();
        let mut total: usize = 0;
        let mut i: usize = 0;
        while i < n
            invariant
                i <= n,
                n == row_len(self@),
                self.valid(),
                total == lines_height(self@, i as int, width as int),
            decreases n - i,
        {
            let h = self.line_height(i, width);
            if h > usize::MAX - total {
                proof {
                    lemma_lines_height(self@, i + 1, n as int, width as int);
                }
                return None;
            }
            total += h;
            i += 1;
        }
        Some(total)
    }

    /// Screen rows logical line `i` takes at `width`. The window's walk reads
    /// one of these per line it passes.
    pub fn line_height(&self, i: usize, width: usize) -> (r: usize)
        requires
            self.valid(),
            i < row_len(self@),
        ensures
            r == line_rows(self@, i as int, width as int).len(),
            r >= 1,
    {
        let rows = self.pieces(i, width);
        assert(lines_view(rows@).len() == rows@.len());
        rows.len()
    }

    /// The screen rows of logical line `i` at `width`.
    pub fn pieces(&self, i: usize, width: usize) -> (r: Vec<Line>)
        requires
            self.valid(),
            i < row_len(self@),
        ensures
            lines_view(r@) == line_rows(self@, i as int, width as int),
            r@.len() >= 1,
    {
        let (text, border) = self.line(i, width);
        match &border {
            Some(b) => wrap(Some(b), &text, width),
            None => wrap(None, &text, width),
        }
    }

    /// What the screen renders for line `i` of this row, at this width: the
    /// text, and the border its continuation rows must repeat. A said row keeps
    /// the rule apart from the body so a line wider than the terminal can carry
    /// it to every row it wraps to; anything else is a single text with no
    /// border to keep.
    pub fn line(&self, i: usize, width: usize) -> (r: (Line, Option<Line>))
        requires
            self.valid(),
            i < row_len(self@),
        ensures
            r.0@ == row_line(self@, i as int, width as int).0,
            (match r.1 {
                Some(b) => Some(b@),
                None => None,
            }) == row_line(self@, i as int, width as int).1,
    {
        match &self.kind {
            Kind::Said { border, body } => (body.copy(), Some(border.copy())),
            Kind::Notice { text, times } => {
                let mut line = text.copy();
                if *times != 1 {
                    // The count wears the muted style whatever the line it
                    // trails, so a repeated warning still reads as one warning
                    // and a tally.
                    let mut count = " ×".to_owned();
                    append_number(&mut count, *times);
                    line.push(Span::styled(count, Style::of(Role::Muted)));
                }
                (line, None)
            },
            Kind::Tally { painted, .. } => (drawn_line(painted, i, width), None),
            Kind::Result { painted, .. } => (drawn_line(painted, i, width), None),
            Kind::Reasoning { lines, folded, .. } => {
                assert(lines_view(lines@).len() == lines@.len());
                if *folded {
                    let s = thinking_summary(lines.len());
                    (Line::of(s.as_str(), Style::of(Role::Muted)), None)
                } else {
                    assert(lines_view(lines@)[i as int] == lines@[i as int]@);
                    (lines[i].copy(), None)
                }
            },
            Kind::ToolsSummary { tools, folded, running, hovered, spinner } => {
                let rows = tools_summary_rows(tools, *folded, *running, *hovered, *spinner, width);
                (line_at(rows.as_slice(), i), None)
            },
        }
    }

    /// The reasoning block this row belongs to, if it is one.
    pub fn block(&self) -> (r: Option<u64>)
        ensures
            r == block_of(self@),
    {
        match &self.kind {
            Kind::Reasoning { block, .. } => Some(*block),
            _ => None,
        }
    }

    /// Whether this row is folded.
    pub fn folded(&self) -> (r: Option<bool>)
        ensures
            r == fold_of(self@),
    {
        match &self.kind {
            Kind::Reasoning { folded, .. } => Some(*folded),
            _ => None,
        }
    }

    /// Fold or unfold a reasoning block.
    pub fn set_folded(&mut self, to: bool)
        ensures
            old(self).valid() ==> final(self).valid(),
            final(self)@ == with_fold(old(self)@, to),
    {
        match &mut self.kind {
            Kind::Reasoning { folded, .. } => {
                *folded = to;
            },
            _ => {},
        }
    }

    /// Whether this row is an empty reasoning block.
    pub fn is_empty_reasoning(&self) -> (r: bool)
        ensures
            r == (self@ matches RowView::Reasoning { lines, .. } && lines.len() == 0),
    {
        match &self.kind {
            Kind::Reasoning { lines, .. } => {
                assert(lines_view(lines@).len() == lines@.len());
                lines.len() == 0
            },
            _ => false,
        }
    }

    /// Append a finished line to a reasoning block. A no-op on anything else.
    pub fn push_line(&mut self, line: Line)
        ensures
            old(self).valid() ==> final(self).valid(),
            final(self)@ == with_line(old(self)@, line@),
    {
        match &mut self.kind {
            Kind::Reasoning { lines, .. } => {
                let ghost before = lines_view(lines@);
                let ghost l = line@;
                lines.push(line);
                assert(lines_view(lines@) =~= before.push(l));
            },
            _ => {},
        }
    }

    /// What the screen opens with: the version, and the instruction files this
    /// run stands on. The files are shown here rather than said as a startup
    /// note: they are what the run is standing on, not news.
    pub fn banner(version: &str, context: &[String]) -> (r: Vec<Row>)
        ensures
            all_valid(r@),
            rows_view(r@) == banner_rows(version@, crate::text::texts(context@)),
    {
        let ghost files = crate::text::texts(context@);
        let mut head = "π ".to_owned();
        head.append(version);
        let mut r: Vec<Row> = Vec::new();
        r.push(Row::muted(head.as_str()));
        if context.len() > 0 {
            r.push(Row::muted("context:"));
            let mut i: usize = 0;
            while i < context.len()
                invariant
                    i <= context@.len(),
                    files == crate::text::texts(context@),
                    context@.len() > 0,
                    r@.len() == i + 2,
                    all_valid(r@),
                    r@[0]@ == muted_row("π "@ + version@),
                    r@[1]@ == muted_row("context:"@),
                    forall|k: int|
                        0 <= k < i ==> (#[trigger] r@[k + 2])@ == muted_row("- "@ + files[k]),
                decreases context@.len() - i,
            {
                let mut item = "- ".to_owned();
                item.append(context[i].as_str());
                assert(item@ == "- "@ + files[i as int]);
                let row = Row::muted(item.as_str());
                let ghost before = r@;
                r.push(row);
                assert forall|k: int| 0 <= k < i + 1 implies (#[trigger] r@[k + 2])@ == muted_row(
                    "- "@ + files[k],
                ) by {
                    if k < i {
                        assert(r@[k + 2] == before[k + 2]);
                    }
                }
                i += 1;
            }
            proof {
                let want = banner_rows(version@, files);
                assert forall|k: int| 0 <= k < want.len() implies rows_view(r@)[k] == want[k] by {
                    if k >= 2 {
                        assert(r@[(k - 2) + 2]@ == muted_row("- "@ + files[k - 2]));
                    }
                }
                assert(rows_view(r@) =~= want);
            }
        } else {
            assert(rows_view(r@) =~= banner_rows(version@, files));
        }
        r
    }
}

/// The rows of the first lines are no more than those of all.
proof fn lemma_lines_height(r: RowView, i: int, n: int, width: int)
    requires
        0 <= i <= n,
    ensures
        lines_height(r, i, width) <= lines_height(r, n, width),
    decreases n - i,
{
    if i < n {
        lemma_lines_height(r, i, n - 1, width);
    }
}

fn bang_line(line: &[char], i: usize) -> (r: Row)
    ensures
        r.valid(),
        r@ == bang_row(line@, i as int),
{
    let mut l = Line::empty();
    if i == 0 {
        let body = if line.len() > 0 && line[0] == '!' {
            copy_range(line, 1, line.len())
        } else {
            copy_range(line, 0, line.len())
        };
        assert(body@ =~= if line@.len() > 0 && line@[0] == '!' {
            line@.skip(1)
        } else {
            line@
        });
        let kept = trimmed_start(body.as_slice());
        l.push(Span::styled("! ".to_owned(), Style::of(Role::Prompt)));
        l.push(Span::styled(string_of(kept.as_slice()), Style::of(Role::Input)));
    } else {
        l.push(Span::styled("  ".to_owned(), Style::of(Role::Plain)));
        l.push(Span::styled(string_of(line), Style::of(Role::Input)));
    }
    let r = Row::notice(l);
    assert(r@->text =~= bang_row(line@, i as int)->text);
    r
}

fn said_line(line: &[char]) -> (r: Row)
    ensures
        r.valid(),
        r@ == said_row(line@),
{
    let s = string_of(line);
    Row {
        kind: Kind::Said {
            border: Line::of("▌ ", Style::of(Role::Prompt)),
            body: Line::of(s.as_str(), Style::of(Role::Input)),
        },
    }
}

fn line_at(rows: &[Line], i: usize) -> (r: Line)
    ensures
        r@ == row_or_empty(lines_view(rows@), i as int),
{
    if i < rows.len() {
        rows[i].copy()
    } else {
        Line::empty()
    }
}

fn drawn_line(painted: &Option<Painted>, i: usize, width: usize) -> (r: Line)
    ensures
        r@ == drawn_row(painted_view(*painted), i as int, width as int),
{
    match painted {
        Some(p) => if p.width == width {
            line_at(p.rows.as_slice(), i)
        } else {
            Line::empty()
        },
        None => Line::empty(),
    }
}

/// A tool call named the way every row that shows one names it: the tool, and
/// its leading argument when it has one. The prefix is the caller's, a spinner
/// while it runs, a mark once it is abandoned, and that is the only part that
/// differs.
pub fn named(name: &str, summary: &str) -> (r: String)
    ensures
        r@ == named_form(name@, summary@),
{
    let mut r = name.to_owned();
    if !summary.is_empty() {
        r.push(' ');
        r.append(summary);
        assert(r@ =~= name@ + seq![' '] + summary@);
    }
    r
}

fn tool_start_line(mark: &str, name: &str, summary: &str) -> (r: String)
    ensures
        r@ == start_form(mark@, name@, summary@),
{
    let mut r = mark.to_owned();
    r.push(' ');
    let n = named(name, summary);
    r.append(n.as_str());
    assert(r@ =~= mark@ + seq![' '] + named_form(name@, summary@));
    r
}

fn thinking_summary(n: usize) -> (r: String)
    ensures
        r@ == thinking_form(n as nat),
{
    let mut r = "thinking".to_owned();
    r.append(" · ");
    append_number(&mut r, n);
    r.append(" line");
    if n != 1 {
        r.push('s');
    }
    assert(r@ =~= thinking_form(n as nat));
    r
}

/// A longer start of a text takes no fewer columns.
pub proof fn lemma_row_columns(s: Seq<char>, i: int, j: int)
    requires
        0 <= i <= j <= s.len(),
    ensures
        row_columns(s.take(i)) <= row_columns(s.take(j)),
    decreases j - i,
{
    if i < j {
        lemma_row_columns(s, i, j - 1);
        assert(s.take(j).drop_last() =~= s.take(j - 1));
    }
}

/// The widest start that fits is the one after which nothing more does.
pub proof fn lemma_widest(s: Seq<char>, max: int, n: int)
    requires
        0 <= n <= s.len(),
        n == 0 || row_columns(s.take(n)) <= max,
        n < s.len() ==> row_columns(s.take(n + 1)) > max,
    ensures
        widest(s, max) == s.take(n),
    decreases s.len(),
{
    if n == s.len() {
        assert(s.take(n) =~= s);
    } else {
        lemma_row_columns(s, n + 1, s.len() as int);
        assert(s.take(s.len() as int) =~= s);
        let less = s.drop_last();
        assert(less.take(n) =~= s.take(n));
        if n < less.len() {
            assert(less.take(n + 1) =~= s.take(n + 1));
        }
        lemma_widest(less, max, n);
    }
}

/// A text cut to `max_cols` columns, without white space at its end.
fn clip_to(s: &str, max_cols: usize) -> (r: String)
    ensures
        r@ == clipped(s@, max_cols as int),
{
    let v = chars_of(s);
    let mut used: usize = 0;
    let mut i: usize = 0;
    assert(v@.take(0) =~= Seq::empty());
    while i < v.len()
        invariant_except_break
            true,
        invariant
            i <= v@.len(),
            used == row_columns(v@.take(i as int)),
            used <= max_cols,
        ensures
            i < v@.len() ==> row_columns(v@.take(i + 1)) > max_cols,
        decreases v@.len() - i,
    {
        let w = columns_of(v[i]);
        assert(v@.take(i + 1).drop_last() =~= v@.take(i as int));
        assert(v@.take(i + 1).last() == v@[i as int]);
        if w > max_cols - used {
            break;
        }
        used += w;
        i += 1;
    }
    proof {
        lemma_widest(v@, max_cols as int, i as int);
    }
    let end = skip_white_back(v.as_slice(), i);
    let kept = copy_range(v.as_slice(), 0, end);
    assert(kept@ =~= v@.take(end as int));
    string_of(kept.as_slice())
}

fn room_for_names(width: usize) -> (r: usize)
    ensures
        r == names_room(width as int),
{
    if width >= 12 {
        width - 2
    } else {
        10
    }
}

/// The head of a batch: a finished batch wears a check, an in-flight one spins.
/// Folded, it keeps the latest tool and its count; unfolded, the count would
/// repeat the list.
pub fn tools_summary_header(
    tools: &FoldedTools,
    folded: bool,
    running: bool,
    hovered: bool,
    spinner: usize,
    width: usize,
) -> (r: Line)
    requires
        tools.valid(),
    ensures
        r@ == header_form(tools.all(), folded, running, hovered, spinner as int, width as int),
{
    let desc = tools.last().desc();
    let mut body = String::new();
    body.push(' ');
    if folded && !tools.is_single() {
        let mut digits = String::new();
        append_number(&mut digits, tools.count());
        assert(digits@ =~= decimal(tools.all().len()));
        // The ellipsis is glued to the count, with a space before it and a
        // column of air before the terminal edge.
        let sep: usize = text_columns_of("…").saturating_add(2);
        let fixed: usize = digits.as_str().unicode_len().saturating_add(1).saturating_add(sep);
        let room: usize = width.saturating_sub(fixed);
        let budget: usize = if room < 8 {
            8
        } else if room > 50 {
            50
        } else {
            room
        };
        assert(budget == head_budget(tools.all().len(), width as int));
        if text_columns_of(desc.as_str()) > budget {
            let shown = clip_to(desc.as_str(), budget);
            body.append(shown.as_str());
        } else {
            body.append(desc.as_str());
        }
        body.push(' ');
        body.append("…");
        body.append(digits.as_str());
    } else {
        let shown = clip_to(desc.as_str(), room_for_names(width));
        body.append(shown.as_str());
    }
    assert(body@ =~= head_text(tools.all(), folded, width as int));
    let mut line = Line::empty();
    let mut mark = String::new();
    if running {
        mark.push(frame(spinner));
        assert(mark@ =~= seq![frame_mark(spinner as int % 10)]);
        line.push(Span::styled(mark, Style::of(Role::Plain)));
    } else {
        mark.push('✓');
        assert(mark@ =~= seq!['✓']);
        line.push(Span::styled(mark, Style { role: Role::Done, hovered }));
    }
    line.push(Span::styled(body, Style { role: Role::Muted, hovered }));
    assert(line@ =~= header_form(
        tools.all(),
        folded,
        running,
        hovered,
        spinner as int,
        width as int,
    ));
    line
}

/// The rows of a batch: its head, and every tool under it once it is unfolded.
/// The head already wears the check; the tools it lists need no second one, and
/// the indent keeps them under it.
pub fn tools_summary_rows(
    tools: &FoldedTools,
    folded: bool,
    running: bool,
    hovered: bool,
    spinner: usize,
    width: usize,
) -> (r: Vec<Line>)
    requires
        tools.valid(),
    ensures
        lines_view(r@) == summary_rows(
            tools.all(),
            folded,
            running,
            hovered,
            spinner as int,
            width as int,
        ),
{
    let header = tools_summary_header(tools, folded, running, hovered, spinner, width);
    let ghost h = header@;
    let ghost want = summary_rows(
        tools.all(),
        folded,
        running,
        hovered,
        spinner as int,
        width as int,
    );
    let mut r: Vec<Line> = Vec::new();
    r.push(header);
    if folded {
        assert(lines_view(r@) =~= want);
        return r;
    }
    let room = room_for_names(width);
    let all = tools.iter();
    let mut i: usize = 0;
    while i < all.len()
        invariant
            i <= all@.len(),
            tools_view(all@) == tools.all(),
            room == names_room(width as int),
            r@.len() == i + 1,
            r@[0]@ == h,
            forall|k: int|
                0 <= k < i ==> (#[trigger] r@[k + 1])@ == listed_form(
                    tools.all()[k],
                    width as int,
                ),
        decreases all@.len() - i,
    {
        assert(tools.all()[i as int] == all@[i as int]@);
        let desc = all[i].desc();
        let shown = clip_to(desc.as_str(), room);
        let mut text = "  ".to_owned();
        text.append(shown.as_str());
        let line = Line::of(text.as_str(), Style::of(Role::Muted));
        let ghost before = r@;
        r.push(line);
        assert forall|k: int| 0 <= k < i + 1 implies (#[trigger] r@[k + 1])@ == listed_form(
            tools.all()[k],
            width as int,
        ) by {
            if k < i {
                assert(r@[k + 1] == before[k + 1]);
            }
        }
        i += 1;
    }
    proof {
        assert(tools.all().len() == all@.len());
        assert forall|k: int| 0 <= k < want.len() implies lines_view(r@)[k] == want[k] by {
            if k >= 1 {
                assert(r@[(k - 1) + 1]@ == listed_form(tools.all()[k - 1], width as int));
            }
        }
        assert(lines_view(r@) =~= want);
    }
    r
}

// ---------------------------------------------------------------------------
// Laws
// ---------------------------------------------------------------------------

/// Unfolding a row and folding it again leaves as many lines as before, and
/// folding shows fewer than unfolding.
pub proof fn law_toggling_twice_restores_the_length(r: RowView)
    requires
        expandable(r),
        r matches RowView::ToolsSummary { tools, .. } ==> tools.len() >= 1,
    ensures
        expandable(toggled(r)),
        row_len(toggled(toggled(r))) == row_len(r),
        row_len(toggled(r)) != row_len(r),
{
}

/// A repeated notice is one row and a count: the line it shows is the line
/// itself with the number of times behind it.
pub proof fn law_a_repeat_is_the_line_and_a_count(text: Seq<SpanView>, times: int, width: int)
    requires
        times > 1,
    ensures
        row_line(RowView::Notice { text, times }, 0, width).0.drop_last() == text,
        row_len(RowView::Notice { text, times }) == 1,
{
    let l = row_line(RowView::Notice { text, times }, 0, width).0;
    assert(l.drop_last() =~= text);
}

/// Folding a reasoning block takes its lines out of the view and unfolding
/// brings them back, whatever was shown before.
pub proof fn law_folding_hides_and_unfolding_restores(r: RowView, width: int)
    requires
        r is Reasoning,
    ensures
        row_len(with_fold(r, true)) == 1,
        row_line(with_fold(r, true), 0, width).0 == one_span(
            thinking_form(r->lines.len()),
            plain_style(Role::Muted),
        ),
        with_fold(with_fold(r, true), false) == with_fold(r, false),
        forall|i: int| #![auto]
            0 <= i < r->lines.len() ==> row_line(with_fold(r, false), i, width).0 == r->lines[i],
{
}

} // verus!
