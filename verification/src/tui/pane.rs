//! What one lane looks like on screen: its conversation, the stream filling it,
//! and where it is scrolled.

use crate::text::{
    chars_of, copy_range, index_of, lemma_index_of, position, same_str, string_of, texts,
};
use crate::tui::intent::{intents_view, Intent, IntentView};
use crate::tui::line::{lines_view, one_span, plain_style, Line, Role, SpanView, Style};
use crate::tui::row::{
    all_valid, banner_rows, muted_row, notice_row, prompt_rows, result_row, rows_view, start_form,
    with_line, Row, RowView,
};
use crate::tui::thinking::{find_block, retired, row_of_block, started, Thinking};
use vstd::prelude::*;
use vstd::string::*;

verus! {

/// A tool call still running, shown as one animated row in the live region
/// until its result lands.
#[derive(Debug, Clone, PartialEq, Eq)]
pub struct RunTool {
    pub id: String,
    pub name: String,
    pub summary: String,
}

/// A running call, with its texts as sequences.
#[verifier::ext_equal]
pub struct RunToolView {
    pub id: Seq<char>,
    pub name: Seq<char>,
    pub summary: Seq<char>,
}

impl View for RunTool {
    type V = RunToolView;

    open spec fn view(&self) -> RunToolView {
        RunToolView { id: self.id@, name: self.name@, summary: self.summary@ }
    }
}

/// Running calls, with their texts as sequences.
pub open spec fn run_tools_view(v: Seq<RunTool>) -> Seq<RunToolView> {
    Seq::new(v.len(), |i: int| v[i]@)
}

/// A line of an answer that has landed as it was written: which row it is, and
/// whether what markdown it is in starts with it. The renderer styles it.
#[derive(Debug, Clone, PartialEq, Eq)]
pub struct Unstyled {
    pub row: usize,
    pub text: String,
    pub fresh: bool,
}

/// A line for the renderer, with its text as a sequence.
#[verifier::ext_equal]
pub struct UnstyledView {
    pub row: int,
    pub text: Seq<char>,
    pub fresh: bool,
}

impl View for Unstyled {
    type V = UnstyledView;

    open spec fn view(&self) -> UnstyledView {
        UnstyledView { row: self.row as int, text: self.text@, fresh: self.fresh }
    }
}

/// Lines for the renderer, with their texts as sequences.
pub open spec fn unstyled_view(v: Seq<Unstyled>) -> Seq<UnstyledView> {
    Seq::new(v.len(), |i: int| v[i]@)
}

/// What one lane looks like on screen. Owned by the lane it belongs to;
/// everything around it is the one terminal and the one keyboard.
pub struct Pane {
    /// Model output with no newline after it yet. Kept live because it is still
    /// being written; a completed line goes straight to scrollback.
    pub partial: String,
    /// Whether `partial` is reasoning rather than the answer.
    pub reasoning: bool,
    /// Whether the next line of an answer starts with no markdown open.
    pub fresh: bool,
    pub thinking: Thinking,
    /// The conversation as the screen holds it: finished rows, oldest first.
    pub scrollback: Vec<Row>,
    /// The answer's rows that the renderer has not styled yet.
    pub unstyled: Vec<Unstyled>,
    /// Tool calls still running, one animated row each.
    pub tools: Vec<RunTool>,
    /// What arrived while the run was working, kept as intents rather than
    /// lines: their fate was settled at the door.
    pub queued: Vec<Intent>,
    /// Whether this lane's opening block has been built.
    pub drawn: bool,
    /// How many rows the opening block occupies.
    pub opened: usize,
    /// When the work in flight began, in milliseconds.
    pub started: Option<u64>,
    /// Whether this run has produced anything yet. Once it has, Esc means stop
    /// rather than unsend.
    pub committed: bool,
    pub stopping: bool,
    /// Rows the view is scrolled up by. Zero shows the newest rows.
    pub scroll: usize,
    /// The last measurement of a scrolled-up view: item counts then, and the
    /// rows they wrapped to.
    pub counted: Option<(usize, usize, usize)>,
    /// The model in force.
    pub model: String,
}

/// What one lane looks like, with its texts as sequences.
#[verifier::ext_equal]
pub struct PaneView {
    pub partial: Seq<char>,
    pub reasoning: bool,
    pub fresh: bool,
    pub thinking: Thinking,
    pub rows: Seq<RowView>,
    pub unstyled: Seq<UnstyledView>,
    pub tools: Seq<RunToolView>,
    pub queued: Seq<IntentView>,
    pub drawn: bool,
    pub opened: int,
    pub started: Option<u64>,
    pub committed: bool,
    pub stopping: bool,
    pub scroll: int,
    pub counted: Option<(usize, usize, usize)>,
    pub model: Seq<char>,
}

impl View for Pane {
    type V = PaneView;

    open spec fn view(&self) -> PaneView {
        PaneView {
            partial: self.partial@,
            reasoning: self.reasoning,
            fresh: self.fresh,
            thinking: self.thinking,
            rows: rows_view(self.scrollback@),
            unstyled: unstyled_view(self.unstyled@),
            tools: run_tools_view(self.tools@),
            queued: intents_view(self.queued@),
            drawn: self.drawn,
            opened: self.opened as int,
            started: self.started,
            committed: self.committed,
            stopping: self.stopping,
            scroll: self.scroll as int,
            counted: self.counted,
            model: self.model@,
        }
    }
}

// ---------------------------------------------------------------------------
// The stream
// ---------------------------------------------------------------------------

/// A line of an answer, as it is before the renderer has styled it.
pub open spec fn answer_row(text: Seq<char>) -> RowView {
    notice_row(one_span(text, plain_style(Role::Plain)))
}

/// A reasoning line where it belongs: in the streaming block's entry, which it
/// opens where there is none yet, or on its own where no block is streaming.
pub open spec fn with_thought(rows: Seq<RowView>, t: Thinking, text: Seq<char>) -> Seq<RowView> {
    let line = one_span(text, plain_style(Role::Muted));
    match t.streaming {
        Some(id) => {
            let i = row_of_block(rows, id);
            if i >= 0 {
                rows.update(i, with_line(rows[i], line))
            } else {
                rows.push(RowView::Reasoning { block: id, lines: seq![line], folded: t.last })
            }
        },
        None => rows.push(notice_row(line)),
    }
}

/// A finished line landed: a reasoning line into its block, anything else
/// straight into scrollback, for the renderer to style.
pub open spec fn landed(p: PaneView, text: Seq<char>) -> PaneView {
    if p.reasoning {
        PaneView { rows: with_thought(p.rows, p.thinking, text), ..p }
    } else {
        PaneView {
            rows: p.rows.push(answer_row(text)),
            unstyled: p.unstyled.push(
                UnstyledView { row: p.rows.len() as int, text, fresh: p.fresh },
            ),
            fresh: false,
            ..p
        }
    }
}

/// The open paragraph ended and sent up into scrollback. A reasoning block
/// stops taking lines; a fence the answer left open stays open only within the
/// answer.
pub open spec fn closed(p: PaneView) -> PaneView {
    let q = if p.partial.len() > 0 {
        landed(PaneView { partial: Seq::empty(), ..p }, p.partial)
    } else {
        p
    };
    if p.reasoning {
        PaneView {
            thinking: Thinking { streaming: None, ..q.thinking },
            reasoning: false,
            ..q
        }
    } else {
        PaneView { fresh: true, reasoning: false, ..q }
    }
}

/// The stream turned to reasoning or to the answer. A new reasoning block gets
/// a fresh id and pushes the old last one back to the switch.
pub open spec fn turned(p: PaneView, reasoning: bool) -> PaneView {
    if reasoning == p.reasoning {
        p
    } else {
        let q = closed(p);
        if reasoning {
            PaneView {
                reasoning: true,
                thinking: started(q.thinking),
                rows: retired(q.thinking, q.rows),
                ..q
            }
        } else {
            q
        }
    }
}

/// Every finished line of the partial text landed: a finished line is no longer
/// changing, so it belongs in the scrollback.
pub open spec fn drained(p: PaneView) -> PaneView
    decreases p.partial.len(),
    via drained_decreases
{
    let n = index_of(p.partial, '\n');
    if n >= p.partial.len() {
        p
    } else {
        drained(landed(PaneView { partial: p.partial.skip(n + 1), ..p }, p.partial.take(n)))
    }
}

#[via_fn]
proof fn drained_decreases(p: PaneView) {
    lemma_index_of(p.partial, '\n');
}

/// The lane after the stream wrote `delta`.
pub open spec fn written(p: PaneView, delta: Seq<char>, reasoning: bool) -> PaneView {
    let q = turned(p, reasoning);
    drained(PaneView { partial: q.partial + delta, ..q })
}

/// The lane after a notice: the same one again is counted on the row it already
/// has.
pub open spec fn told(p: PaneView, line: Seq<SpanView>) -> PaneView {
    if p.rows.len() > 0 && (p.rows.last() matches RowView::Notice { text, times } && text == line
        && times < usize::MAX) {
        PaneView {
            rows: p.rows.update(
                p.rows.len() - 1,
                RowView::Notice { text: line, times: p.rows.last()->times + 1 },
            ),
            ..p
        }
    } else {
        PaneView { rows: p.rows.push(notice_row(line)), ..p }
    }
}

/// The lane with one more notice for each line.
pub open spec fn noticed(p: PaneView, lines: Seq<Seq<SpanView>>) -> PaneView {
    PaneView { rows: p.rows + Seq::new(lines.len(), |i: int| notice_row(lines[i])), ..p }
}

/// The calls without the one of an id.
pub open spec fn without_call(tools: Seq<RunToolView>, id: Seq<char>) -> Seq<RunToolView>
    decreases tools.len(),
{
    if tools.len() == 0 {
        Seq::empty()
    } else if tools[0].id == id {
        without_call(tools.skip(1), id)
    } else {
        seq![tools[0]] + without_call(tools.skip(1), id)
    }
}

/// What the run reports.
#[derive(Debug)]
pub enum Event {
    TextDelta(String),
    ReasoningDelta(String),
    ToolStart { id: String, name: String, summary: String },
    ToolEnd { id: String, name: String, is_error: bool, preview: String },
    /// The run is done, and its numbers are kept under this name where they
    /// have anything to say.
    Done { run: Option<u64> },
    /// Counted elsewhere, and draws no row of its own.
    Quiet,
    /// Anything else, as the renderer described it.
    Said(Vec<Line>),
}

/// What the run reports, with its texts as sequences.
#[verifier::ext_equal]
pub enum EventView {
    TextDelta(Seq<char>),
    ReasoningDelta(Seq<char>),
    ToolStart { id: Seq<char>, name: Seq<char>, summary: Seq<char> },
    ToolEnd { id: Seq<char>, name: Seq<char>, is_error: bool, preview: Seq<char> },
    Done { run: Option<u64> },
    Quiet,
    Said(Seq<Seq<SpanView>>),
}

impl View for Event {
    type V = EventView;

    open spec fn view(&self) -> EventView {
        match self {
            Event::TextDelta(s) => EventView::TextDelta(s@),
            Event::ReasoningDelta(s) => EventView::ReasoningDelta(s@),
            Event::ToolStart { id, name, summary } => EventView::ToolStart {
                id: id@,
                name: name@,
                summary: summary@,
            },
            Event::ToolEnd { id, name, is_error, preview } => EventView::ToolEnd {
                id: id@,
                name: name@,
                is_error: *is_error,
                preview: preview@,
            },
            Event::Done { run } => EventView::Done { run: *run },
            Event::Quiet => EventView::Quiet,
            Event::Said(lines) => EventView::Said(lines_view(lines@)),
        }
    }
}

/// Events, with their texts as sequences.
pub open spec fn events_view(v: Seq<Event>) -> Seq<EventView> {
    Seq::new(v.len(), |i: int| v[i]@)
}

/// The lane after an event. Anything the model produces spends the chance to
/// unsend: past this the prompt has been answered, not merely sent.
pub open spec fn after_event(p: PaneView, e: EventView) -> PaneView {
    match e {
        EventView::TextDelta(d) => written(PaneView { committed: true, ..p }, d, false),
        EventView::ReasoningDelta(d) => written(PaneView { committed: true, ..p }, d, true),
        EventView::Quiet => p,
        EventView::Done { run } => {
            let q = closed(p);
            match run {
                Some(run) => PaneView {
                    rows: q.rows.push(RowView::Tally { run, painted: None }),
                    ..q
                },
                None => q,
            }
        },
        EventView::ToolStart { id, name, summary } => {
            let q = closed(p);
            PaneView {
                committed: true,
                tools: q.tools.push(RunToolView { id, name, summary }),
                ..q
            }
        },
        EventView::ToolEnd { id, name, is_error, preview } => {
            let q = closed(p);
            PaneView {
                tools: without_call(q.tools, id),
                rows: q.rows.push(result_row(!is_error, name, preview)),
                ..q
            }
        },
        EventView::Said(lines) => noticed(closed(p), lines),
    }
}

/// A call that was never answered, as its start line.
pub open spec fn abandoned_rows(tools: Seq<RunToolView>, mark: Seq<char>) -> Seq<RowView> {
    Seq::new(
        tools.len(),
        |i: int| muted_row(start_form(mark, tools[i].name, tools[i].summary)),
    )
}

/// A lane nobody has drawn yet.
pub open spec fn undrawn() -> PaneView {
    PaneView {
        partial: Seq::empty(),
        reasoning: false,
        fresh: true,
        thinking: Thinking { next: 1, streaming: None, folded: true, last: true },
        rows: Seq::empty(),
        unstyled: Seq::empty(),
        tools: Seq::empty(),
        queued: Seq::empty(),
        drawn: false,
        opened: 0,
        started: None,
        committed: false,
        stopping: false,
        scroll: 0,
        counted: None,
        model: Seq::empty(),
    }
}

/// A lane that shows what it stands on, and nothing else yet.
pub open spec fn opening_pane(version: Seq<char>, context: Seq<Seq<char>>) -> PaneView {
    PaneView {
        rows: banner_rows(version, context),
        drawn: true,
        opened: banner_rows(version, context).len() as int,
        ..undrawn()
    }
}

impl Pane {
    /// Every row is one that a constructor made.
    pub open spec fn valid(&self) -> bool {
        all_valid(self.scrollback@)
    }

    /// A lane nobody has drawn yet.
    pub fn new() -> (r: Pane)
        ensures
            r.valid(),
            r@ == undrawn(),
    {
        let r = Pane {
            partial: String::new(),
            reasoning: false,
            fresh: true,
            thinking: Thinking::default(),
            scrollback: Vec::new(),
            unstyled: Vec::new(),
            tools: Vec::new(),
            queued: Vec::new(),
            drawn: false,
            opened: 0,
            started: None,
            committed: false,
            stopping: false,
            scroll: 0,
            counted: None,
            model: String::new(),
        };
        assert(r@.rows =~= Seq::empty());
        assert(r@.unstyled =~= Seq::empty());
        assert(r@.tools =~= Seq::empty());
        assert(r@.queued =~= Seq::empty());
        r
    }

    /// A lane nobody has said anything in yet: the banner naming what it stands
    /// on, and everything else empty.
    pub fn opening(version: &str, context: &[String]) -> (r: Pane)
        ensures
            r.valid(),
            r@ == opening_pane(version@, texts(context@)),
    {
        let rows = Row::banner(version, context);
        let mut r = Pane::new();
        assert(rows_view(rows@).len() == rows@.len());
        r.drawn = true;
        r.opened = rows.len();
        r.scrollback = rows;
        r
    }

    /// Put a row at the end of the scrollback.
    pub fn push_row(&mut self, row: Row)
        requires
            old(self).valid(),
            row.valid(),
        ensures
            final(self).valid(),
            final(self)@ == (PaneView { rows: old(self)@.rows.push(row@), ..old(self)@ }),
    {
        let ghost before = self@;
        self.scrollback.push(row);
        assert(self@.rows =~= before.rows.push(row@));
    }

    /// Put rows at the end of the scrollback.
    pub fn push_rows(&mut self, rows: Vec<Row>)
        requires
            old(self).valid(),
            all_valid(rows@),
        ensures
            final(self).valid(),
            final(self)@ == (PaneView {
                rows: old(self)@.rows + rows_view(rows@),
                ..old(self)@
            }),
    {
        let ghost before = self@;
        let ghost all = rows_view(rows@);
        let ghost mine = self.scrollback@;
        let mut rows = rows;
        self.scrollback.append(&mut rows);
        assert(rows_view(self.scrollback@) =~= before.rows + all);
        assert forall|i: int| 0 <= i < self.scrollback@.len() implies (
        #[trigger] self.scrollback@[i]).valid() by {
            if i < mine.len() {
                assert(self.scrollback@[i] == mine[i]);
            }
        }
    }

    /// Say something on the screen. The same notice again is a count on the row
    /// it already has: a screenful of identical lines says no more than one.
    pub fn say(&mut self, line: Line)
        requires
            old(self).valid(),
        ensures
            final(self).valid(),
            final(self)@ == told(old(self)@, line@),
    {
        let ghost before = self@;
        let ghost had = self.scrollback@;
        let n = self.scrollback.len();
        if n > 0 {
            assert(before.rows.last() == self.scrollback@[n - 1]@);
            if self.scrollback[n - 1].repeated(&line) {
                assert(self@.rows =~= told(before, line@).rows);
                return;
            }
            assert(self.scrollback@ =~= had);
        }
        self.push_row(Row::notice(line));
    }

    /// Put a finished line where it belongs: a reasoning line into the
    /// streaming block's foldable entry, anything else straight into
    /// scrollback.
    fn land(&mut self, text: &str)
        requires
            old(self).valid(),
        ensures
            final(self).valid(),
            final(self)@ == landed(old(self)@, text@),
    {
        let ghost before = self@;
        if self.reasoning {
            let line = Row::reasoning_line(text);
            if let Some(id) = self.thinking.streaming {
                if let Some(i) = find_block(&self.scrollback, id) {
                    assert(before.rows[i as int] == self.scrollback@[i as int]@);
                    self.scrollback[i].push_line(line);
                    assert(self@.rows =~= landed(before, text@).rows);
                    return;
                }
                // The block's first line: born the way the last block was left.
                let mut lines: Vec<Line> = Vec::new();
                lines.push(line);
                assert(lines_view(lines@) =~= seq![line@]);
                let fold = self.thinking.birth_fold();
                self.push_row(Row::reasoning(id, lines, fold));
                return;
            }
            self.push_row(Row::notice(line));
        } else {
            let row: usize = self.scrollback.len();
            let fresh = self.fresh;
            self.push_row(Row::notice(Line::of(text, Style::of(Role::Plain))));
            self.unstyled.push(Unstyled { row, text: text.to_owned(), fresh });
            self.fresh = false;
            assert(self@.unstyled =~= landed(before, text@).unstyled);
        }
    }

    /// End the open paragraph and send it up into scrollback.
    pub fn close(&mut self)
        requires
            old(self).valid(),
        ensures
            final(self).valid(),
            final(self)@ == closed(old(self)@),
    {
        let ghost before = self@;
        if !self.partial.as_str().is_empty() {
            let mut text = String::new();
            std::mem::swap(&mut text, &mut self.partial);
            assert(self@ =~= PaneView { partial: Seq::empty(), ..before });
            self.land(text.as_str());
        }
        if self.reasoning {
            self.thinking.close_block();
        } else {
            self.fresh = true;
        }
        self.reasoning = false;
    }

    /// Take what the stream wrote: reasoning, or the answer. A finished line is
    /// no longer changing, so it goes to the scrollback; the rest stays live.
    pub fn write(&mut self, delta: &str, reasoning: bool)
        requires
            old(self).valid(),
            old(self).thinking.next < u64::MAX,
        ensures
            final(self).valid(),
            final(self)@ == written(old(self)@, delta@, reasoning),
    {
        let ghost start = self@;
        if reasoning != self.reasoning {
            self.close();
            self.reasoning = reasoning;
            if reasoning {
                self.thinking.start(&mut self.scrollback);
            }
        }
        assert(self@ =~= turned(start, reasoning));
        self.partial.append(delta);
        let ghost goal = drained(self@);
        assert(goal == written(start, delta@, reasoning));
        let mut more = true;
        while more
            invariant
                self.valid(),
                drained(self@) == goal,
                !more ==> index_of(self@.partial, '\n') >= self@.partial.len(),
            decreases
                    self@.partial.len(),
                    if more {
                        1int
                    } else {
                        0int
                    },
        {
            let ghost now = self@;
            let v = chars_of(self.partial.as_str());
            let n = position(v.as_slice(), '\n', 0);
            assert(v@.skip(0) =~= v@);
            if n >= v.len() {
                more = false;
            } else {
                let head = copy_range(v.as_slice(), 0, n);
                let tail = copy_range(v.as_slice(), n + 1, v.len());
                assert(head@ =~= now.partial.take(n as int));
                assert(tail@ =~= now.partial.skip(n + 1));
                self.partial = string_of(tail.as_slice());
                assert(self@ =~= PaneView { partial: now.partial.skip(n + 1), ..now });
                let line = string_of(head.as_slice());
                self.land(line.as_str());
            }
        }
    }

    /// Give a row of an answer the style the renderer found for it.
    pub fn restyle(&mut self, row: usize, line: Line)
        requires
            old(self).valid(),
        ensures
            final(self).valid(),
            final(self)@ == (PaneView {
                rows: if row < old(self)@.rows.len() {
                    old(self)@.rows.update(row as int, notice_row(line@))
                } else {
                    old(self)@.rows
                },
                ..old(self)@
            }),
    {
        let ghost before = self@;
        if row < self.scrollback.len() {
            let made = Row::notice(line);
            self.scrollback.set(row, made);
            assert(self@.rows =~= before.rows.update(row as int, notice_row(line@)));
        }
    }

    /// Hand over the rows that the renderer has not styled yet.
    pub fn take_unstyled(&mut self) -> (r: Vec<Unstyled>)
        ensures
            old(self).valid() ==> final(self).valid(),
            unstyled_view(r@) == old(self)@.unstyled,
            final(self)@ == (PaneView { unstyled: Seq::empty(), ..old(self)@ }),
    {
        let mut r: Vec<Unstyled> = Vec::new();
        std::mem::swap(&mut r, &mut self.unstyled);
        assert(self@.unstyled =~= Seq::empty());
        r
    }

    fn drop_tool(&mut self, id: &str)
        requires
            old(self).valid(),
        ensures
            final(self).valid(),
            final(self)@ == (PaneView {
                tools: without_call(old(self)@.tools, id@),
                ..old(self)@
            }),
    {
        let ghost before = self@;
        let ghost all = before.tools;
        let mut i: usize = 0;
        assert(all.take(0) + without_call(all.skip(0), id@) =~= without_call(all, id@)) by {
            assert(all.skip(0) =~= all);
        }
        while i < self.tools.len()
            invariant
                i <= self.tools@.len(),
                self.valid(),
                all == before.tools,
                self@ == (PaneView { tools: self@.tools, ..before }),
                self@.tools.take(i as int) + without_call(self@.tools.skip(i as int), id@)
                    == without_call(all, id@),
            decreases self.tools@.len() - i,
        {
            let ghost now = self@.tools;
            assert(now.skip(i as int)[0] == self.tools@[i as int]@);
            assert(now.skip(i as int).skip(1) =~= now.skip(i + 1));
            if same_str(self.tools[i].id.as_str(), id) {
                let _ = self.tools.remove(i);
                assert(self@.tools =~= now.remove(i as int));
                assert(self@.tools.skip(i as int) =~= now.skip(i + 1));
                assert(self@.tools.take(i as int) =~= now.take(i as int));
            } else {
                assert(now.take(i + 1) + without_call(now.skip(i + 1), id@) =~= now.take(i as int)
                    + (seq![now[i as int]] + without_call(now.skip(i + 1), id@)));
                i += 1;
            }
        }
        assert(self@.tools.skip(i as int) =~= Seq::empty());
        assert(self@.tools.take(i as int) + without_call(self@.tools.skip(i as int), id@)
            =~= self@.tools);
    }

    /// Put a notice in the scrollback for each line.
    pub fn notices(&mut self, lines: Vec<Line>)
        requires
            old(self).valid(),
        ensures
            final(self).valid(),
            final(self)@ == noticed(old(self)@, lines_view(lines@)),
    {
        let ghost before = self@;
        let ghost all = lines_view(lines@);
        let mut i: usize = 0;
        assert(before.rows + Seq::new(0, |k: int| notice_row(all[k])) =~= before.rows);
        while i < lines.len()
            invariant
                i <= lines@.len(),
                self.valid(),
                all == lines_view(lines@),
                self@ == (PaneView {
                    rows: before.rows + Seq::new(i as nat, |k: int| notice_row(all[k])),
                    ..before
                }),
            decreases lines@.len() - i,
        {
            let line = lines[i].copy();
            assert(all[i as int] == line@);
            self.push_row(Row::notice(line));
            assert(self@.rows =~= before.rows + Seq::new(
                (i + 1) as nat,
                |k: int| notice_row(all[k]),
            ));
            i += 1;
        }
        assert(self@.rows =~= noticed(before, all).rows);
    }

    /// Draw one event of the run. A call's two events are one line: the start
    /// takes a row in the live region, and the end scrolls that row up as its
    /// result. Parallel calls each hold a row, matched back by id because they
    /// end out of order.
    pub fn on_event(&mut self, event: Event)
        requires
            old(self).valid(),
            old(self).thinking.next < u64::MAX,
        ensures
            final(self).valid(),
            final(self)@ == after_event(old(self)@, event@),
    {
        let ghost start = self@;
        match event {
            Event::TextDelta(d) => {
                self.committed = true;
                assert(self@ =~= PaneView { committed: true, ..start });
                self.write(d.as_str(), false);
            },
            Event::ReasoningDelta(d) => {
                self.committed = true;
                assert(self@ =~= PaneView { committed: true, ..start });
                self.write(d.as_str(), true);
            },
            Event::Quiet => {},
            Event::Done { run } => {
                self.close();
                if let Some(run) = run {
                    self.push_row(Row::tally(run));
                }
            },
            Event::ToolStart { id, name, summary } => {
                self.close();
                let ghost now = self@;
                self.committed = true;
                self.tools.push(RunTool { id, name, summary });
                assert(self@.tools =~= now.tools.push(
                    RunToolView { id: id@, name: name@, summary: summary@ },
                ));
            },
            Event::ToolEnd { id, name, is_error, preview } => {
                self.close();
                self.drop_tool(id.as_str());
                // The same row the rebuild produces, from the same parts.
                self.push_row(Row::result(!is_error, name, preview));
            },
            Event::Said(lines) => {
                self.close();
                self.notices(lines);
            },
        }
    }

    /// A run that ended without answering a call leaves its animated row
    /// dangling: give the scrollback the start line the row stood for and clear
    /// the row.
    pub fn abandon_tools(&mut self, mark: &str)
        requires
            old(self).valid(),
        ensures
            final(self).valid(),
            final(self)@ == (PaneView {
                rows: old(self)@.rows + abandoned_rows(old(self)@.tools, mark@),
                tools: Seq::empty(),
                ..old(self)@
            }),
    {
        let ghost before = self@;
        let mut tools: Vec<RunTool> = Vec::new();
        std::mem::swap(&mut tools, &mut self.tools);
        let ghost all = run_tools_view(tools@);
        assert(self@.tools =~= Seq::empty());
        let mut i: usize = 0;
        assert(before.rows + abandoned_rows(all, mark@).take(0) =~= before.rows);
        while i < tools.len()
            invariant
                i <= tools@.len(),
                self.valid(),
                all == run_tools_view(tools@),
                self@ == (PaneView {
                    rows: before.rows + abandoned_rows(all, mark@).take(i as int),
                    tools: Seq::empty(),
                    ..before
                }),
            decreases tools@.len() - i,
        {
            assert(all[i as int] == tools@[i as int]@);
            let row = Row::tool_start(mark, tools[i].name.as_str(), tools[i].summary.as_str());
            self.push_row(row);
            assert(self@.rows =~= before.rows + abandoned_rows(all, mark@).take(i + 1));
            i += 1;
        }
        assert(abandoned_rows(all, mark@).take(i as int) =~= abandoned_rows(all, mark@));
    }

    /// Accept a submitted input: echo it so the prompt survives the editor
    /// being cleared, then fold the block that was current back to the switch.
    pub fn submit(&mut self, line: &str)
        requires
            old(self).valid(),
        ensures
            final(self).valid(),
            final(self)@ == (PaneView {
                rows: retired(old(self)@.thinking, old(self)@.rows + prompt_rows(line@)),
                ..old(self)@
            }),
    {
        let rows = Row::prompt(line);
        self.push_rows(rows);
        self.thinking.fold_previous(&mut self.scrollback);
    }
}

// ---------------------------------------------------------------------------
// The backlog of a lane out of sight
// ---------------------------------------------------------------------------

/// The backlog with one more event: a run of deltas of one kind is one delta.
pub open spec fn held_back(held: Seq<EventView>, e: EventView) -> Seq<EventView> {
    if held.len() == 0 {
        held.push(e)
    } else {
        match (held.last(), e) {
            (EventView::TextDelta(a), EventView::TextDelta(b)) => held.drop_last().push(
                EventView::TextDelta(a + b),
            ),
            (EventView::ReasoningDelta(a), EventView::ReasoningDelta(b)) => held.drop_last().push(
                EventView::ReasoningDelta(a + b),
            ),
            _ => held.push(e),
        }
    }
}

/// The lane after every event of a backlog.
pub open spec fn replayed(p: PaneView, held: Seq<EventView>) -> PaneView
    decreases held.len(),
{
    if held.len() == 0 {
        p
    } else {
        after_event(replayed(p, held.drop_last()), held.last())
    }
}

/// Keep an event for a lane that is not drawn. Deltas arrive thousands at a
/// time and the backlog is replayed in one go: a run of them folded into one
/// keeps it the size of what was written.
pub fn hold_back(held: &mut Vec<Event>, event: Event)
    ensures
        events_view(final(held)@) == held_back(events_view(old(held)@), event@),
{
    let ghost before = events_view(held@);
    let n = held.len();
    if n > 0 {
        assert(before.last() == held@[n - 1]@);
    }
    if let Some(last) = held.pop() {
        assert(events_view(held@) =~= before.drop_last());
        match last {
            Event::TextDelta(a) => {
                match event {
                    Event::TextDelta(b) => {
                        let mut a = a;
                        a.append(b.as_str());
                        held.push(Event::TextDelta(a));
                    },
                    other => {
                        held.push(Event::TextDelta(a));
                        held.push(other);
                    },
                }
            },
            Event::ReasoningDelta(a) => {
                match event {
                    Event::ReasoningDelta(b) => {
                        let mut a = a;
                        a.append(b.as_str());
                        held.push(Event::ReasoningDelta(a));
                    },
                    other => {
                        held.push(Event::ReasoningDelta(a));
                        held.push(other);
                    },
                }
            },
            last => {
                held.push(last);
                held.push(event);
            },
        }
    } else {
        held.push(event);
    }
    assert(events_view(held@) =~= held_back(before, event@));
}

// ---------------------------------------------------------------------------
// Laws
// ---------------------------------------------------------------------------

/// What has been drained is drained again with more behind it.
proof fn lemma_drained_again(p: PaneView, more: Seq<char>)
    ensures
        ({
            let d = drained(p);
            drained(PaneView { partial: d.partial + more, ..d }) == drained(
                PaneView { partial: p.partial + more, ..p },
            )
        }),
    decreases p.partial.len(),
{
    let n = index_of(p.partial, '\n');
    lemma_index_of(p.partial, '\n');
    if n < p.partial.len() {
        let q = landed(PaneView { partial: p.partial.skip(n + 1), ..p }, p.partial.take(n));
        assert(q.partial == p.partial.skip(n + 1));
        lemma_drained_again(q, more);
        let whole = p.partial + more;
        let pm = PaneView { partial: whole, ..p };
        lemma_index_of(whole, '\n');
        crate::text::lemma_index_of_is(whole, '\n', n);
        assert(whole.take(n) =~= p.partial.take(n));
        assert(whole.skip(n + 1) =~= p.partial.skip(n + 1) + more);
        let qm = landed(PaneView { partial: whole.skip(n + 1), ..pm }, whole.take(n));
        assert(qm =~= PaneView { partial: q.partial + more, ..q });
        assert(drained(pm) == drained(qm));
    }
}

proof fn lemma_drained_reasoning(p: PaneView)
    ensures
        drained(p).reasoning == p.reasoning,
    decreases p.partial.len(),
{
    let n = index_of(p.partial, '\n');
    lemma_index_of(p.partial, '\n');
    if n < p.partial.len() {
        lemma_drained_reasoning(
            landed(PaneView { partial: p.partial.skip(n + 1), ..p }, p.partial.take(n)),
        );
    }
}

/// The view cannot tell two deltas from the one they make: writing them one
/// after the other leaves what writing them joined leaves.
pub proof fn law_deltas_join(p: PaneView, a: Seq<char>, b: Seq<char>, reasoning: bool)
    ensures
        written(written(p, a, reasoning), b, reasoning) == written(p, a + b, reasoning),
{
    let q = turned(p, reasoning);
    let first = PaneView { partial: q.partial + a, ..q };
    lemma_drained_reasoning(first);
    assert(q.reasoning == reasoning);
    let w = written(p, a, reasoning);
    assert(turned(w, reasoning) == w);
    lemma_drained_again(first, b);
    assert(first.partial + b =~= q.partial + (a + b));
    assert(PaneView { partial: first.partial + b, ..first } =~= PaneView {
        partial: q.partial + (a + b),
        ..q
    });
}

/// A backlog replayed is the events it was given: folding a run of deltas into
/// one changes nothing of what the lane shows.
pub proof fn law_a_backlog_replays_as_it_arrived(p: PaneView, held: Seq<EventView>, e: EventView)
    ensures
        replayed(p, held_back(held, e)) == after_event(replayed(p, held), e),
{
    assert(held.push(e).drop_last() =~= held);
    if held.len() > 0 {
        let less = held.drop_last();
        let q = replayed(p, less);
        match (held.last(), e) {
            (EventView::TextDelta(a), EventView::TextDelta(b)) => {
                let c = PaneView { committed: true, ..q };
                law_deltas_join(c, a, b, false);
                assert(less.push(EventView::TextDelta(a + b)).drop_last() =~= less);
                lemma_written_committed(c, a, false);
                let w = written(c, a, false);
                assert(PaneView { committed: true, ..w } =~= w);
            },
            (EventView::ReasoningDelta(a), EventView::ReasoningDelta(b)) => {
                let c = PaneView { committed: true, ..q };
                law_deltas_join(c, a, b, true);
                assert(less.push(EventView::ReasoningDelta(a + b)).drop_last() =~= less);
                lemma_written_committed(c, a, true);
                let w = written(c, a, true);
                assert(PaneView { committed: true, ..w } =~= w);
            },
            _ => {},
        }
    }
}

proof fn lemma_drained_committed(p: PaneView)
    ensures
        drained(p).committed == p.committed,
    decreases p.partial.len(),
{
    let n = index_of(p.partial, '\n');
    lemma_index_of(p.partial, '\n');
    if n < p.partial.len() {
        lemma_drained_committed(
            landed(PaneView { partial: p.partial.skip(n + 1), ..p }, p.partial.take(n)),
        );
    }
}

proof fn lemma_written_committed(p: PaneView, delta: Seq<char>, reasoning: bool)
    ensures
        written(p, delta, reasoning).committed == p.committed,
{
    let q = turned(p, reasoning);
    lemma_drained_committed(PaneView { partial: q.partial + delta, ..q });
}

/// No call outlives its end: once a call has ended, no row of it spins.
pub proof fn law_an_ended_call_leaves_no_running_row(tools: Seq<RunToolView>, id: Seq<char>, i: int)
    requires
        0 <= i < without_call(tools, id).len(),
    ensures
        without_call(tools, id)[i].id != id,
    decreases tools.len(),
{
    if tools.len() > 0 {
        if tools[0].id == id {
            law_an_ended_call_leaves_no_running_row(tools.skip(1), id, i);
        } else if i > 0 {
            law_an_ended_call_leaves_no_running_row(tools.skip(1), id, i - 1);
        }
    }
}

} // verus!
