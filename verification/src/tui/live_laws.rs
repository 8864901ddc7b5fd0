//! What is shown of a run while it goes on, stated on the rows.

use crate::text::join;
use crate::tui::bar::{body_form, live_form, tools_form};
use crate::tui::line::{one_span, plain_style, Role, SpanView};
use crate::tui::pane::PaneView;
use crate::tui::row::{block_of, hover, RowView};
use crate::tui::screen::fitted;
use crate::tui::scroll::{measured, rows_content};
use crate::tui::status::frame_mark;
use crate::tui::thinking::{row_of_block, stream_fold_of, Thinking};
use vstd::prelude::*;

verus! {

// ---------------------------------------------------------------------------
// The window
// ---------------------------------------------------------------------------

/// A window that is scrolled back keeps showing the same rows while the lane
/// grows: as many rows stand above its end as did before. Measuring again a lane
/// that has not grown moves nothing, and a window at the end stays there.
pub proof fn law_a_window_keeps_its_place(
    p: PaneView,
    live: int,
    width: int,
    counted: (usize, usize, usize),
)
    requires
        p.counted == Some(counted),
        0 <= live <= usize::MAX,
        p.rows.len() <= usize::MAX,
        p.rows.len() != counted.0 || live != counted.1,
        rows_content(p.rows, p.rows.len() as int, width).len() + live <= usize::MAX,
    ensures
        ({
            let m = measured(p, live, width);
            let total = rows_content(p.rows, p.rows.len() as int, width).len() + live;
            let above = counted.2 - p.scroll;
            &&& 0 < p.scroll && 0 <= above <= total ==> total - m.scroll == above
            &&& 0 < p.scroll ==> m.counted is Some && m.counted->Some_0.2 == total
            &&& 0 < p.scroll && 0 < m.scroll ==> measured(m, live, width) == m
            &&& p.scroll == 0 ==> m.scroll == 0 && m.counted is None
            &&& m == (PaneView { scroll: m.scroll, counted: m.counted, ..p })
        }),
{
}

// ---------------------------------------------------------------------------
// What streams in
// ---------------------------------------------------------------------------

proof fn lemma_row_of_block(rows: Seq<RowView>, id: u64)
    ensures
        ({
            let i = row_of_block(rows, id);
            &&& -1 <= i < rows.len()
            &&& i >= 0 ==> block_of(rows[i]) == Some(id)
            &&& forall|k: int| i < k < rows.len() ==> block_of(#[trigger] rows[k]) != Some(id)
        }),
    decreases rows.len(),
{
    if rows.len() > 0 && block_of(rows.last()) != Some(id) {
        lemma_row_of_block(rows.drop_last(), id);
        let i = row_of_block(rows, id);
        assert forall|k: int| i < k < rows.len() implies block_of(#[trigger] rows[k]) != Some(
            id,
        ) by {
            if k < rows.len() - 1 {
                assert(rows.drop_last()[k] == rows[k]);
            }
        }
    }
}

/// The block that streams is folded as its row is; before it has one, and where
/// none streams, as the last block was left.
pub proof fn law_a_streaming_block_is_folded_as_its_row(
    t: Thinking,
    rows: Seq<RowView>,
    k: int,
    block: u64,
    lines: Seq<Seq<SpanView>>,
    folded: bool,
)
    requires
        0 <= k < rows.len(),
        rows[k] == (RowView::Reasoning { block, lines, folded }),
        forall|j: int| k < j < rows.len() ==> block_of(#[trigger] rows[j]) != Some(block),
    ensures
        t.streaming == Some(block) ==> stream_fold_of(t, rows) == folded,
        t.streaming is None ==> stream_fold_of(t, rows) == t.last,
        t.streaming is Some && (forall|j: int|
            0 <= j < rows.len() ==> block_of(#[trigger] rows[j]) != t.streaming)
            ==> stream_fold_of(t, rows) == t.last,
{
    lemma_row_of_block(rows, block);
    assert(block_of(rows[k]) == Some(block));
    if t.streaming is Some {
        lemma_row_of_block(rows, t.streaming->Some_0);
    }
}

/// Folded reasoning shows nothing of what it says: one word at most stands for
/// it. What is answered is shown however reasoning is folded. No more rows are
/// shown than there is room for, and they are the last ones.
pub proof fn law_folded_reasoning_is_not_shown(
    t: Thinking,
    u: Thinking,
    rows: Seq<RowView>,
    others: Seq<RowView>,
    partial: Seq<char>,
    said: Seq<char>,
    answer: Seq<SpanView>,
    width: int,
    room: int,
)
    requires
        1 <= room,
    ensures
        ({
            let thought = body_form(t, rows, true, partial, answer, width, room);
            let shown = body_form(t, rows, false, partial, answer, width, room);
            &&& stream_fold_of(t, rows) ==> thought == body_form(
                t,
                rows,
                true,
                said,
                answer,
                width,
                room,
            ) && thought.len() <= 1
            &&& stream_fold_of(t, rows) && t.streaming is None ==> thought == seq![
                one_span("thinking..."@, plain_style(Role::Muted)),
            ]
            &&& shown == body_form(u, others, false, partial, answer, width, room)
            &&& shown.len() <= room
            &&& partial.len() == 0 ==> shown.len() == 0
            &&& partial.len() > 0 ==> shown.len() <= fitted(answer, width).len() && shown
                == fitted(answer, width).skip(fitted(answer, width).len() - shown.len())
            &&& partial.len() > 0 && fitted(answer, width).len() <= room ==> shown == fitted(
                answer,
                width,
            )
            &&& partial.len() > 0 && !stream_fold_of(t, rows) ==> {
                let all = fitted(one_span(partial, plain_style(Role::Muted)), width);
                &&& thought.len() <= room
                &&& thought.len() <= all.len()
                &&& thought == all.skip(all.len() - thought.len())
                &&& all.len() <= room ==> thought == all
            }
        }),
{
    let all = fitted(one_span(partial, plain_style(Role::Muted)), width);
    assert(all.skip(0) =~= all);
    assert(fitted(answer, width).skip(0) =~= fitted(answer, width));
}

proof fn lemma_tools_lead(
    p: PaneView,
    spinner: int,
    width: int,
    k: int,
    n: int,
)
    requires
        0 <= k <= n,
    ensures
        tools_form(p.tools, spinner, width, k).len() <= tools_form(
            p.tools,
            spinner,
            width,
            n,
        ).len(),
        tools_form(p.tools, spinner, width, n).take(
            tools_form(p.tools, spinner, width, k).len() as int,
        ) == tools_form(p.tools, spinner, width, k),
    decreases n,
{
    let a = tools_form(p.tools, spinner, width, k);
    let b = tools_form(p.tools, spinner, width, n);
    if k < n {
        lemma_tools_lead(p, spinner, width, k, n - 1);
        let c = tools_form(p.tools, spinner, width, n - 1);
        assert(b.take(a.len() as int) =~= c.take(a.len() as int));
    } else {
        assert(b.take(a.len() as int) =~= a);
    }
}

/// Every call that runs has rows of its own, in the order they started, with its
/// name and what it is about; what streams in stands under them. The last row of
/// a run says how it stands and how to stop it, and there is none without one.
pub proof fn law_a_run_is_shown_call_by_call(
    p: PaneView,
    parts: Seq<Seq<char>>,
    answer: Seq<SpanView>,
    spinner: int,
    width: int,
    room: int,
    k: int,
)
    requires
        0 <= k < p.tools.len(),
    ensures
        ({
            let idle = live_form(p, false, parts, answer, spinner, width, room);
            let busy = live_form(p, true, parts, answer, spinner, width, room);
            let n = p.tools.len() as int;
            let top = tools_form(p.tools, spinner, width, k).len() as int;
            let below = tools_form(p.tools, spinner, width, k + 1).len() as int;
            let end = tools_form(p.tools, spinner, width, n).len() as int;
            let about = if p.tools[k].summary.len() == 0 {
                Seq::empty()
            } else {
                seq![' '] + p.tools[k].summary
            };
            let text = seq![frame_mark(spinner % 10), ' '] + p.tools[k].name + about;
            let status = if p.stopping {
                seq!['·', ' '] + join(parts.push("stopping…"@), " · "@)
            } else {
                seq![frame_mark(spinner % 10), ' '] + join(parts.push("esc to stop"@), " · "@)
            };
            &&& tools_form(p.tools, spinner, width, 0).len() == 0
            &&& 0 <= top <= below <= end <= idle.len()
            &&& idle.subrange(top, below) == fitted(
                one_span(text, plain_style(Role::Muted)),
                width,
            )
            &&& idle.skip(end) == body_form(
                p.thinking,
                p.rows,
                p.reasoning,
                p.partial,
                answer,
                width,
                room,
            )
            &&& busy == idle + fitted(one_span(status, plain_style(Role::Muted)), width)
        }),
{
    let idle = live_form(p, false, parts, answer, spinner, width, room);
    let busy = live_form(p, true, parts, answer, spinner, width, room);
    let n = p.tools.len() as int;
    let all = tools_form(p.tools, spinner, width, n);
    let upto = tools_form(p.tools, spinner, width, k + 1);
    let top = tools_form(p.tools, spinner, width, k).len() as int;
    let below = upto.len() as int;
    let end = all.len() as int;
    lemma_tools_lead(p, spinner, width, k, k + 1);
    lemma_tools_lead(p, spinner, width, k + 1, n);
    let about = if p.tools[k].summary.len() == 0 {
        Seq::empty()
    } else {
        seq![' '] + p.tools[k].summary
    };
    let text = seq![frame_mark(spinner % 10), ' '] + p.tools[k].name + about;
    assert(crate::tui::bar::tool_form(spinner, p.tools[k].name, p.tools[k].summary) =~= text);
    assert forall|i: int| top <= i < below implies idle[i] == upto[i] by {
        assert(all.take(below)[i] == upto[i]);
    }
    assert(idle.subrange(top, below) =~= upto.subrange(top, below));
    assert(upto.subrange(top, below) =~= fitted(one_span(text, plain_style(Role::Muted)), width));
    assert(idle.skip(end) =~= body_form(
        p.thinking,
        p.rows,
        p.reasoning,
        p.partial,
        answer,
        width,
        room,
    ));
    assert(idle + Seq::<Seq<SpanView>>::empty() =~= idle);
}

// ---------------------------------------------------------------------------
// The pointer
// ---------------------------------------------------------------------------

/// Hovering a row changes nothing of what it says, and hovering it again in the
/// same way nothing at all; a row with nothing folded away is not touched.
pub proof fn law_hovering_leaves_what_a_row_says(
    r: RowView,
    running: bool,
    hovered: bool,
    spin: int,
)
    ensures
        ({
            let h = hover(r, running, hovered, spin);
            &&& hover(h, running, hovered, spin) == h
            &&& match r {
                RowView::ToolsSummary { tools, folded, .. } => h matches RowView::ToolsSummary {
                    tools: t,
                    folded: f,
                    running: was,
                    hovered: on,
                    spinner: s,
                } && t == tools && f == folded && was == running && on == hovered && (running ==> s
                    == spin),
                RowView::Result { ok, name, preview, expanded, painted, hovered: before } => {
                    h matches RowView::Result {
                        ok: o,
                        name: n,
                        preview: p,
                        expanded: e,
                        painted: kept,
                        hovered: on,
                    } && o == ok && n == name && p == preview && e == expanded && (on == before
                        ==> kept == painted) && (on != before ==> on == hovered && kept is None)
                },
                _ => h == r,
            }
        }),
{
}

} // verus!
