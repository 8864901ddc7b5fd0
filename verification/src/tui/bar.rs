//! The rows around the history: the lane bar, the running tools, the stream
//! still being written, and the status line.

use crate::syntax::lang::{file_name, name_of_path};
use crate::text::{chars_of, join, same_str, string_of, texts};
use crate::tui::line::{lines_view, one_span, plain_style, Line, Role, Span, SpanView, Style};
use crate::tui::pane::{Pane, PaneView, RunToolView};
use crate::tui::row::{named, named_form, widest, Row};
use crate::tui::screen::{
    cells, cells_columns, cells_of, fit, fitted, spans_of, spans_view, Cell,
};
use crate::tui::status::{frame, frame_mark, lemma_join_push};
use crate::tui::thinking::{find_block, row_of_block, stream_fold_of, Thinking};
use crate::width::{columns, columns_of, row_columns};
use vstd::prelude::*;
use vstd::string::*;

verus! {

// ---------------------------------------------------------------------------
// Clipping
// ---------------------------------------------------------------------------

/// The longest start of a row that takes no more than `max` columns.
pub open spec fn widest_cells(row: Seq<Cell>, max: int) -> Seq<Cell>
    decreases row.len(),
{
    if cells_columns(row) <= max || row.len() == 0 {
        row
    } else {
        widest_cells(row.drop_last(), max)
    }
}

/// A row cut to `width` columns, with an ellipsis where something went.
pub open spec fn cropped_cells(row: Seq<Cell>, width: int) -> Seq<Cell> {
    if cells_columns(row) <= width {
        row
    } else {
        widest_cells(row, width - 1).push(('…', plain_style(Role::Plain)))
    }
}

proof fn lemma_cells_columns(s: Seq<Cell>, i: int, j: int)
    requires
        0 <= i <= j <= s.len(),
    ensures
        cells_columns(s.take(i)) <= cells_columns(s.take(j)),
    decreases j - i,
{
    if i < j {
        lemma_cells_columns(s, i, j - 1);
        assert(s.take(j).drop_last() =~= s.take(j - 1));
    }
}

proof fn lemma_widest_cells(s: Seq<Cell>, max: int, n: int)
    requires
        0 <= n <= s.len(),
        n > 0 ==> cells_columns(s.take(n)) <= max,
        n < s.len() ==> cells_columns(s.take(n + 1)) > max,
    ensures
        widest_cells(s, max) == s.take(n),
    decreases s.len(),
{
    if n == s.len() {
        assert(s.take(n) =~= s);
    } else {
        lemma_cells_columns(s, n + 1, s.len() as int);
        assert(s.take(s.len() as int) =~= s);
        let less = s.drop_last();
        assert(less.take(n) =~= s.take(n));
        if n < less.len() {
            assert(less.take(n + 1) =~= s.take(n + 1));
        }
        lemma_widest_cells(less, max, n);
    }
}

/// A row cut to `width` columns, with an ellipsis where something went.
/// Escape sequences and styling take no columns.
pub fn clip(line: &Line, width: usize) -> (r: Line)
    ensures
        r@ == spans_of(cropped_cells(cells(line@), width as int)),
{
    let all = cells_of(line);
    let ghost s = all@;
    let mut used: usize = 0;
    let mut i: usize = 0;
    // The most that fits with room for the ellipsis behind it.
    let mut keep: usize = 0;
    assert(s.take(0) =~= Seq::empty());
    while i < all.len()
        invariant_except_break
            keep < i ==> cells_columns(s.take(keep + 1)) > width - 1,
        invariant
            i <= all@.len(),
            s == all@,
            keep <= i,
            used == cells_columns(s.take(i as int)),
            used <= width,
            keep > 0 ==> cells_columns(s.take(keep as int)) <= width - 1,
        ensures
            i == all@.len() || cells_columns(s.take(i + 1)) > width,
            i < all@.len() ==> cells_columns(s.take(keep + 1)) > width - 1,
        decreases all@.len() - i,
    {
        let w = columns_of(all[i].0);
        assert(s.take(i + 1).drop_last() =~= s.take(i as int));
        assert(s.take(i + 1).last() == s[i as int]);
        if w > width - used {
            break;
        }
        used += w;
        if used < width && keep == i {
            keep = i + 1;
        }
        i += 1;
    }
    let mut row: Vec<Span> = Vec::new();
    let n: usize = if i == all.len() {
        i
    } else {
        keep
    };
    proof {
        if i == all@.len() {
            assert(s.take(i as int) =~= s);
        } else {
            lemma_cells_columns(s, i + 1, s.len() as int);
            assert(s.take(s.len() as int) =~= s);
            lemma_widest_cells(s, width - 1, keep as int);
        }
    }
    let mut k: usize = 0;
    assert(spans_view(row@) =~= spans_of(s.take(0)));
    while k < n
        invariant
            k <= n <= all@.len(),
            s == all@,
            spans_view(row@) == spans_of(s.take(k as int)),
        decreases n - k,
    {
        let (c, style) = all[k];
        crate::tui::screen::put_cell(&mut row, c, style, Ghost(s.take(k as int)));
        assert(s.take(k as int).push((c, style)) =~= s.take(k + 1));
        k += 1;
    }
    if i < all.len() {
        crate::tui::screen::put_cell(
            &mut row,
            '…',
            Style::of(Role::Plain),
            Ghost(s.take(n as int)),
        );
    }
    let r = Line { spans: row };
    assert(r@ =~= spans_view(row@));
    r
}

/// A text cut to `width` columns, with an ellipsis where something went.
pub open spec fn cropped_text(s: Seq<char>, width: int) -> Seq<char> {
    if row_columns(s) <= width {
        s
    } else {
        widest(s, width - 1).push('…')
    }
}

// ---------------------------------------------------------------------------
// The lane bar
// ---------------------------------------------------------------------------

/// How a lane shows in the bottom bar.
///
/// `Done` and `Failed` are unread marks, not history: they go the moment you
/// look at the lane they belong to.
#[derive(Debug, Clone, Copy, PartialEq, Eq, Structural)]
pub enum Mark {
    Front,
    Running,
    Done,
    Failed,
    Idle,
}

/// One lane as the bar shows it.
#[derive(Debug, Clone, PartialEq, Eq)]
pub struct Tab {
    pub mark: Mark,
    pub name: String,
}

/// One lane as the bar shows it, with its name as a sequence.
#[verifier::ext_equal]
pub struct TabView {
    pub mark: Mark,
    pub name: Seq<char>,
}

impl View for Tab {
    type V = TabView;

    open spec fn view(&self) -> TabView {
        TabView { mark: self.mark, name: self.name@ }
    }
}

/// Lanes, with their names as sequences.
pub open spec fn tabs_view(v: Seq<Tab>) -> Seq<TabView> {
    Seq::new(v.len(), |i: int| v[i]@)
}

/// What is going on in a lane.
#[derive(Debug, Clone, Copy, PartialEq, Eq, Structural)]
pub enum Turn {
    Idle,
    Running,
    /// A run that ended out of sight, and whether it went well.
    Ended { ok: bool },
}

/// The mark of a lane. In front is in front, whatever it is doing.
pub open spec fn mark_of(front: bool, turn: Turn) -> Mark {
    if front {
        Mark::Front
    } else {
        match turn {
            Turn::Running => Mark::Running,
            Turn::Ended { ok: true } => Mark::Done,
            Turn::Ended { ok: false } => Mark::Failed,
            Turn::Idle => Mark::Idle,
        }
    }
}

/// A lane: what it is called, and what is going on in it.
#[derive(Debug, Clone, PartialEq, Eq)]
pub struct LaneState {
    pub name: String,
    pub turn: Turn,
}

/// The bar's lanes, rebuilt before every draw: a run that ended out of sight
/// has to reach the screen without anyone asking.
pub fn refresh_tabs(lanes: &[LaneState], current: usize) -> (r: Vec<Tab>)
    ensures
        tabs_view(r@) == Seq::new(
            lanes@.len(),
            |i: int|
                TabView { mark: mark_of(i == current, lanes@[i].turn), name: lanes@[i].name@ },
        ),
{
    let mut r: Vec<Tab> = Vec::new();
    let mut i: usize = 0;
    while i < lanes.len()
        invariant
            i <= lanes@.len(),
            r@.len() == i,
            forall|k: int|
                0 <= k < i ==> (#[trigger] r@[k])@ == (TabView {
                    mark: mark_of(k == current, lanes@[k].turn),
                    name: lanes@[k].name@,
                }),
        decreases lanes@.len() - i,
    {
        let mark = if i == current {
            Mark::Front
        } else {
            match lanes[i].turn {
                Turn::Running => Mark::Running,
                Turn::Ended { ok } => if ok {
                    Mark::Done
                } else {
                    Mark::Failed
                },
                Turn::Idle => Mark::Idle,
            }
        };
        r.push(Tab { mark, name: lanes[i].name.clone() });
        i += 1;
    }
    assert(tabs_view(r@) =~= Seq::new(
        lanes@.len(),
        |i: int|
            TabView { mark: mark_of(i == current, lanes@[i].turn), name: lanes@[i].name@ },
    ));
    r
}

/// A lane's label. The sign says what a lane is doing; being in front is not
/// that. Plain against dim is all it takes.
pub open spec fn label(tab: TabView, spinner: int) -> SpanView {
    match tab.mark {
        Mark::Front => SpanView { content: tab.name, style: plain_style(Role::Input) },
        Mark::Running => SpanView {
            content: seq![frame_mark(spinner % 10), ' '] + tab.name,
            style: plain_style(Role::Muted),
        },
        Mark::Done => SpanView {
            content: seq!['✓', ' '] + tab.name,
            style: plain_style(Role::Done),
        },
        Mark::Failed => SpanView {
            content: seq!['✗', ' '] + tab.name,
            style: plain_style(Role::Failed),
        },
        Mark::Idle => SpanView { content: tab.name, style: plain_style(Role::Muted) },
    }
}

/// The labels of the first `n` lanes, with a separator between each two.
pub open spec fn labels(tabs: Seq<TabView>, spinner: int, n: int) -> Seq<SpanView>
    decreases n,
{
    if n <= 0 {
        Seq::empty()
    } else if n == 1 {
        seq![label(tabs[0], spinner)]
    } else {
        labels(tabs, spinner, n - 1).push(
            SpanView { content: " · "@, style: plain_style(Role::Muted) },
        ).push(label(tabs[n - 1], spinner))
    }
}

/// The bottom bar, or nothing when there is nothing it could say. One lane is
/// the whole surface, and a bar naming it is a row spent on nothing.
pub fn lane_bar(tabs: &[Tab], spinner: usize, width: usize) -> (r: Option<Line>)
    ensures
        match r {
            Some(line) => tabs@.len() >= 2 && line@ == spans_of(
                cropped_cells(
                    cells(labels(tabs_view(tabs@), spinner as int, tabs@.len() as int)),
                    width as int,
                ),
            ),
            None => tabs@.len() < 2,
        },
{
    if tabs.len() < 2 {
        return None;
    }
    let ghost all = tabs_view(tabs@);
    let mut line = Line::empty();
    let mut i: usize = 0;
    while i < tabs.len()
        invariant
            i <= tabs@.len(),
            all == tabs_view(tabs@),
            line@ == labels(all, spinner as int, i as int),
        decreases tabs@.len() - i,
    {
        let ghost before = line@;
        if i > 0 {
            line.push(Span::styled(" · ".to_owned(), Style::of(Role::Muted)));
        }
        assert(all[i as int] == tabs@[i as int]@);
        let mut text = String::new();
        let role = match tabs[i].mark {
            Mark::Front => Role::Input,
            Mark::Running => {
                text.push(frame(spinner));
                text.push(' ');
                Role::Muted
            },
            Mark::Done => {
                text.push('✓');
                text.push(' ');
                Role::Done
            },
            Mark::Failed => {
                text.push('✗');
                text.push(' ');
                Role::Failed
            },
            Mark::Idle => Role::Muted,
        };
        text.append(tabs[i].name.as_str());
        let span = Span::styled(text, Style::of(role));
        assert(span@ =~= label(all[i as int], spinner as int));
        line.push(span);
        assert(line@ =~= labels(all, spinner as int, i + 1));
        i += 1;
    }
    Some(clip(&line, width))
}

/// What to call a checkout: by its worktree, or, where it is the main one, by
/// its directory.
pub open spec fn lane_name_of(worktree: Option<Seq<char>>, root: Seq<char>) -> Seq<char> {
    match worktree {
        Some(name) => name,
        None => match file_name(root) {
            Some(name) => name,
            None => Seq::empty(),
        },
    }
}

/// What to call a checkout. The root answers to its directory name: a fixed
/// word would collide with a checkout that happens to be called that.
pub fn lane_name(worktree: Option<&str>, root: &str) -> (r: String)
    ensures
        r@ == lane_name_of(opt_view(worktree), root@),
{
    match worktree {
        Some(name) => name.to_owned(),
        None => {
            let v = chars_of(root);
            match name_of_path(v.as_slice()) {
                Some(name) => string_of(name.as_slice()),
                None => String::new(),
            }
        },
    }
}

/// Where a name stands in a list, or 0.
pub open spec fn place_in(names: Seq<Seq<char>>, name: Seq<char>, from: int) -> int
    decreases names.len() - from,
{
    if from < 0 || from >= names.len() {
        0
    } else if names[from] == name {
        from
    } else {
        place_in(names, name, from + 1)
    }
}

/// The checkout after this one, wrapping at the end.
pub open spec fn next_of(trees: Seq<Seq<char>>, worktree: Option<Seq<char>>) -> Option<Seq<char>> {
    if trees.len() < 2 {
        None
    } else {
        let at = match worktree {
            Some(name) => place_in(trees, name, 0),
            None => 0,
        };
        Some(
            if at + 1 < trees.len() {
                trees[at + 1]
            } else {
                trees[0]
            },
        )
    }
}

/// An optional string as a sequence.
pub open spec fn opt_view(s: Option<&str>) -> Option<Seq<char>> {
    match s {
        Some(s) => Some(s@),
        None => None,
    }
}

/// The checkout after this one, wrapping at the end. Every checkout on disk is
/// in the ring, the main one first; a lane in the main one carries no name.
///
/// None when there is nowhere else to go.
pub fn next_checkout(trees: &[String], worktree: Option<&str>) -> (r: Option<String>)
    ensures
        (match r {
            Some(s) => Some(s@),
            None => None,
        }) == next_of(texts(trees@), opt_view(worktree)),
{
    if trees.len() < 2 {
        return None;
    }
    let ghost all = texts(trees@);
    let mut at: usize = 0;
    if let Some(name) = worktree {
        let mut i: usize = 0;
        while i < trees.len()
            invariant_except_break
                at == 0,
                place_in(all, name@, i as int) == place_in(all, name@, 0),
            invariant
                i <= trees@.len(),
                all == texts(trees@),
                trees@.len() >= 2,
            ensures
                at == place_in(all, name@, 0),
                at < trees@.len(),
            decreases trees@.len() - i,
        {
            assert(all[i as int] == trees@[i as int]@);
            if same_str(trees[i].as_str(), name) {
                at = i;
                break;
            }
            i += 1;
        }
    }
    let next: usize = if at < trees.len() - 1 {
        at + 1
    } else {
        0
    };
    assert(all[next as int] == trees@[next as int]@);
    Some(trees[next].clone())
}

// ---------------------------------------------------------------------------
// The live region
// ---------------------------------------------------------------------------

/// The one row a still-running tool occupies.
pub open spec fn tool_form(spinner: int, name: Seq<char>, summary: Seq<char>) -> Seq<char> {
    seq![frame_mark(spinner % 10), ' '] + named_form(name, summary)
}

/// The one row a still-running tool occupies. The frame is the animation.
pub fn tool_row(spinner: usize, name: &str, summary: &str) -> (r: String)
    ensures
        r@ == tool_form(spinner as int, name@, summary@),
{
    let mut r = String::new();
    r.push(frame(spinner));
    r.push(' ');
    let n = named(name, summary);
    r.append(n.as_str());
    assert(r@ =~= tool_form(spinner as int, name@, summary@));
    r
}

/// At most the last `n` of the rows.
pub open spec fn tail<A>(rows: Seq<A>, n: int) -> Seq<A> {
    if rows.len() <= n {
        rows
    } else {
        rows.skip(rows.len() - n)
    }
}

/// The rows of the stream still being written. Folded reasoning is a
/// placeholder until the block's count row in the scrollback stands for it.
pub open spec fn body_form(
    t: Thinking,
    rows: Seq<crate::tui::row::RowView>,
    reasoning: bool,
    partial: Seq<char>,
    answer: Seq<SpanView>,
    width: int,
    room: int,
) -> Seq<Seq<SpanView>> {
    if reasoning && stream_fold_of(t, rows) {
        let counted = t.streaming matches Some(id) && row_of_block(rows, id) >= 0;
        if counted {
            Seq::empty()
        } else {
            seq![one_span("thinking..."@, plain_style(Role::Muted))]
        }
    } else if partial.len() == 0 {
        Seq::empty()
    } else {
        tail(
            fitted(
                if reasoning {
                    one_span(partial, plain_style(Role::Muted))
                } else {
                    answer
                },
                width,
            ),
            room,
        )
    }
}

/// The rows between the scrollback and the status line: the reasoning window,
/// and the paragraph still being written. `answer` is the partial text as the
/// renderer styles it.
///
/// A paragraph can outgrow the screen; the tail is the part still being
/// written, and the rest reaches scrollback when it closes.
pub fn body(
    thinking: &Thinking,
    scrollback: &Vec<Row>,
    reasoning: bool,
    partial: &str,
    answer: &Line,
    width: usize,
    room: usize,
) -> (r: Vec<Line>)
    ensures
        lines_view(r@) == body_form(
            *thinking,
            crate::tui::row::rows_view(scrollback@),
            reasoning,
            partial@,
            answer@,
            width as int,
            room as int,
        ),
{
    let mut r: Vec<Line> = Vec::new();
    assert(lines_view(r@) =~= Seq::empty());
    if thinking.holds(reasoning, scrollback) {
        let counted = match thinking.streaming {
            Some(id) => find_block(scrollback, id).is_some(),
            None => false,
        };
        if !counted {
            r.push(Line::of("thinking...", Style::of(Role::Muted)));
            assert(lines_view(r@) =~= seq![one_span("thinking..."@, plain_style(Role::Muted))]);
        }
        return r;
    }
    if partial.is_empty() {
        return r;
    }
    let rows = if reasoning {
        fit(&Line::of(partial, Style::of(Role::Muted)), width)
    } else {
        fit(answer, width)
    };
    let ghost all = lines_view(rows@);
    assert(all.len() == rows@.len());
    let from: usize = if rows.len() > room {
        rows.len() - room
    } else {
        0
    };
    let mut i: usize = from;
    while i < rows.len()
        invariant
            from <= i <= rows@.len(),
            all == lines_view(rows@),
            lines_view(r@) == all.subrange(from as int, i as int),
        decreases rows@.len() - i,
    {
        let ghost before = lines_view(r@);
        let l = rows[i].copy();
        assert(all[i as int] == l@);
        r.push(l);
        assert(lines_view(r@) =~= before.push(l@));
        assert(lines_view(r@) =~= all.subrange(from as int, i + 1));
        i += 1;
    }
    assert(all.subrange(from as int, all.len() as int) =~= tail(all, room as int));
    r
}

/// The rows of the first `n` running tools.
pub open spec fn tools_form(tools: Seq<RunToolView>, spinner: int, width: int, n: int) -> Seq<
    Seq<SpanView>,
>
    decreases n,
{
    if n <= 0 {
        Seq::empty()
    } else {
        tools_form(tools, spinner, width, n - 1) + fitted(
            one_span(
                tool_form(spinner, tools[n - 1].name, tools[n - 1].summary),
                plain_style(Role::Muted),
            ),
            width,
        )
    }
}

/// The status line of a run: what its segments say, and that it can be stopped.
pub open spec fn run_form(parts: Seq<Seq<char>>, spinner: int, stopping: bool) -> Seq<char> {
    let mark = if stopping {
        '·'
    } else {
        frame_mark(spinner % 10)
    };
    seq![mark, ' '] + join(
        parts.push(
            if stopping {
                "stopping…"@
            } else {
                "esc to stop"@
            },
        ),
        " · "@,
    )
}

/// The live region of a lane: running tools, the open stream, and the status
/// line while the lane runs.
pub open spec fn live_form(
    p: PaneView,
    running: bool,
    parts: Seq<Seq<char>>,
    answer: Seq<SpanView>,
    spinner: int,
    width: int,
    room: int,
) -> Seq<Seq<SpanView>> {
    tools_form(p.tools, spinner, width, p.tools.len() as int) + body_form(
        p.thinking,
        p.rows,
        p.reasoning,
        p.partial,
        answer,
        width,
        room,
    ) + (if running {
        fitted(
            one_span(run_form(parts, spinner, p.stopping), plain_style(Role::Muted)),
            width,
        )
    } else {
        Seq::empty()
    })
}

fn append(out: &mut Vec<Line>, more: Vec<Line>)
    ensures
        lines_view(final(out)@) == lines_view(old(out)@) + lines_view(more@),
{
    let ghost before = lines_view(out@);
    let ghost all = lines_view(more@);
    let mut more = more;
    out.append(&mut more);
    assert(lines_view(out@) =~= before + all);
}

/// The status line of a run: what its segments say, and that it can be stopped.
/// That is not a segment: a config that left it out would strand the user
/// mid-turn.
pub fn run_line(parts: &[String], spinner: usize, stopping: bool) -> (r: String)
    ensures
        r@ == run_form(texts(parts@), spinner as int, stopping),
{
    let mut r = String::new();
    if stopping {
        r.push('·');
    } else {
        r.push(frame(spinner));
    }
    r.push(' ');
    let ghost head = r@;
    let ghost all = texts(parts@);
    let mut i: usize = 0;
    assert(all.take(0) =~= Seq::empty());
    assert(r@ =~= head + join(all.take(0), " · "@));
    while i < parts.len()
        invariant
            i <= parts@.len(),
            all == texts(parts@),
            r@ == head + join(all.take(i as int), " · "@),
        decreases parts@.len() - i,
    {
        assert(all.take(i + 1) =~= all.take(i as int).push(parts@[i as int]@));
        if i > 0 {
            r.append(" · ");
            proof {
                lemma_join_push(all.take(i as int), " · "@, parts@[i as int]@);
            }
        } else {
            assert(all.take(1) =~= seq![parts@[0]@]);
        }
        r.append(parts[i].as_str());
        assert(r@ =~= head + join(all.take(i + 1), " · "@));
        i += 1;
    }
    assert(all.take(i as int) =~= all);
    let ghost end = if stopping {
        "stopping…"@
    } else {
        "esc to stop"@
    };
    if parts.len() > 0 {
        r.append(" · ");
        proof {
            lemma_join_push(all, " · "@, end);
        }
    } else {
        assert(all.push(end) =~= seq![end]);
    }
    r.append(
        if stopping {
            "stopping…"
        } else {
            "esc to stop"
        },
    );
    assert(r@ =~= run_form(all, spinner as int, stopping));
    r
}

/// The rows above the input line: running tools, the open stream, and the
/// status line while the lane runs. `parts` is what the status line's segments
/// say. The live region follows the lane's turn, not the clock beside it.
pub fn live(
    pane: &Pane,
    running: bool,
    parts: &[String],
    answer: &Line,
    spinner: usize,
    width: usize,
    room: usize,
) -> (r: Vec<Line>)
    ensures
        lines_view(r@) == live_form(
            pane@,
            running,
            texts(parts@),
            answer@,
            spinner as int,
            width as int,
            room as int,
        ),
{
    let ghost tools = pane@.tools;
    let mut r: Vec<Line> = Vec::new();
    assert(lines_view(r@) =~= Seq::empty());
    let mut i: usize = 0;
    while i < pane.tools.len()
        invariant
            i <= pane.tools@.len(),
            tools == pane@.tools,
            lines_view(r@) == tools_form(tools, spinner as int, width as int, i as int),
        decreases pane.tools@.len() - i,
    {
        assert(tools[i as int] == pane.tools@[i as int]@);
        let text = tool_row(spinner, pane.tools[i].name.as_str(), pane.tools[i].summary.as_str());
        let rows = fit(&Line::of(text.as_str(), Style::of(Role::Muted)), width);
        append(&mut r, rows);
        i += 1;
    }
    assert(tools.len() == pane.tools@.len());
    let rows = body(
        &pane.thinking,
        &pane.scrollback,
        pane.reasoning,
        pane.partial.as_str(),
        answer,
        width,
        room,
    );
    append(&mut r, rows);
    if running {
        let text = run_line(parts, spinner, pane.stopping);
        let rows = fit(&Line::of(text.as_str(), Style::of(Role::Muted)), width);
        append(&mut r, rows);
    } else {
        assert(lines_view(r@) + Seq::<Seq<SpanView>>::empty() =~= lines_view(r@));
    }
    r
}

// ---------------------------------------------------------------------------
// Laws
// ---------------------------------------------------------------------------

/// The ring closes: from the last checkout the next is the main one, and from
/// any other it is the one behind it.
pub proof fn law_the_checkouts_are_a_ring(trees: Seq<Seq<char>>, i: int)
    requires
        trees.len() >= 2,
        0 <= i < trees.len(),
        forall|j: int| 0 <= j < i ==> trees[j] != trees[i],
    ensures
        next_of(trees, Some(trees[i])) == Some(trees[(i + 1) % (trees.len() as int)]),
        next_of(trees, None) == Some(trees[1]),
{
    lemma_place_in(trees, trees[i], i, 0);
    if i + 1 < trees.len() {
        assert((i + 1) % (trees.len() as int) == i + 1) by (nonlinear_arith)
            requires
                0 <= i + 1 < trees.len(),
        ;
    } else {
        assert((i + 1) % (trees.len() as int) == 0) by (nonlinear_arith)
            requires
                i + 1 == trees.len(),
                trees.len() > 0,
        ;
    }
}

proof fn lemma_place_in(names: Seq<Seq<char>>, name: Seq<char>, i: int, from: int)
    requires
        0 <= from <= i < names.len(),
        names[i] == name,
        forall|j: int| from <= j < i ==> names[j] != name,
    ensures
        place_in(names, name, from) == i,
    decreases i - from,
{
    if from < i {
        lemma_place_in(names, name, i, from + 1);
    }
}

/// A clipped row is never wider than asked, as far as the ellipsis takes one
/// column and there is one for it.
pub proof fn law_a_clipped_row_fits(row: Seq<Cell>, width: int)
    requires
        width >= 1,
        columns('…') == 1,
    ensures
        cells_columns(cropped_cells(row, width)) <= width,
{
    if cells_columns(row) > width {
        lemma_widest_fits(row, width - 1);
        let kept = widest_cells(row, width - 1);
        let c: Cell = ('…', plain_style(Role::Plain));
        assert(kept.push(c).drop_last() =~= kept);
    }
}

proof fn lemma_widest_fits(row: Seq<Cell>, max: int)
    requires
        max >= 0,
    ensures
        cells_columns(widest_cells(row, max)) <= max,
    decreases row.len(),
{
    if cells_columns(row) > max && row.len() > 0 {
        lemma_widest_fits(row.drop_last(), max);
    }
}

/// A run that can be stopped always says so, whatever its segments say.
pub proof fn law_a_run_says_how_to_stop_it(parts: Seq<Seq<char>>, spinner: int)
    ensures
        crate::text::ends(run_form(parts, spinner, false), "esc to stop"@),
{
    let end = "esc to stop"@;
    let whole = run_form(parts, spinner, false);
    if parts.len() > 0 {
        lemma_join_push(parts, " · "@, end);
    } else {
        assert(parts.push(end) =~= seq![end]);
    }
    assert(whole.skip(whole.len() - end.len()) =~= end);
}

} // verus!
