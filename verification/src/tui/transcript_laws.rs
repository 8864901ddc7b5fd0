//! What a conversation looks like once it is drawn again, stated entry by entry.

use crate::text::lines;
use crate::tui::line::{one_span, plain_style, Role};
use crate::tui::pane::{answer_row, UnstyledView};
use crate::tui::row::{muted_row, prompt_rows, result_row, RowView};
use crate::tui::thinking::Thinking;
use crate::tui::transcript::{
    answered, compacted_form, flat_lines, marked, rebuilt, with_block, with_blocks, BlockView,
    BodyView, EntryView, Rebuilt,
};
use vstd::prelude::*;

verus! {

/// Whether `a` leads `b`.
pub open spec fn leads_rows(a: Seq<RowView>, b: Seq<RowView>) -> bool {
    a.len() <= b.len() && forall|i: int| 0 <= i < a.len() ==> #[trigger] b[i] == a[i]
}

proof fn lemma_blocks_lead(
    r: Rebuilt,
    blocks: Seq<BlockView>,
    n: int,
    history: Seq<EntryView>,
    mark: Seq<char>,
)
    requires
        0 <= n <= blocks.len(),
    ensures
        leads_rows(r.rows, with_blocks(r, blocks, n, history, mark).rows),
        with_blocks(r, blocks, n, history, mark).hidden == r.hidden,
    decreases n,
{
    if n > 0 {
        lemma_blocks_lead(r, blocks, n - 1, history, mark);
        let q = with_blocks(r, blocks, n - 1, history, mark);
        let b = blocks[n - 1];
        let now = with_block(q, b, history, mark);
        assert(leads_rows(q.rows, now.rows));
        assert forall|i: int| 0 <= i < r.rows.len() implies #[trigger] now.rows[i] == r.rows[i] by {
            assert(q.rows[i] == r.rows[i]);
        }
    }
}

/// The rows of a conversation stand in the order it was held in: those of the
/// first entries lead those of all of them.
pub proof fn law_entries_are_drawn_in_order(
    history: Seq<EntryView>,
    n: int,
    m: int,
    unseen: Seq<u64>,
    mark: Seq<char>,
    thinking: Thinking,
)
    requires
        0 <= n <= m <= history.len(),
    ensures
        leads_rows(
            rebuilt(history, n, unseen, mark, thinking).rows,
            rebuilt(history, m, unseen, mark, thinking).rows,
        ),
    decreases m - n,
{
    if n < m {
        law_entries_are_drawn_in_order(history, n, m - 1, unseen, mark, thinking);
        let a = rebuilt(history, n, unseen, mark, thinking).rows;
        let r = rebuilt(history, m - 1, unseen, mark, thinking);
        let e = history[m - 1];
        let q = marked(r, e, unseen);
        if let EntryView::Assistant { blocks, .. } = e {
            lemma_blocks_lead(q, blocks, blocks.len() as int, history, mark);
        }
        let b = rebuilt(history, m, unseen, mark, thinking).rows;
        assert(leads_rows(q.rows, b));
        assert forall|i: int| 0 <= i < a.len() implies #[trigger] b[i] == a[i] by {
            assert(r.rows[i] == a[i]);
            assert(q.rows[i] == r.rows[i]);
        }
    }
}

/// Whether the model no longer sees the last entry among the first `n`,
/// compactions aside.
pub open spec fn last_unseen(history: Seq<EntryView>, n: int, unseen: Seq<u64>) -> bool
    decreases n,
{
    if n <= 0 {
        false
    } else {
        match history[n - 1] {
            EntryView::Compaction { .. } => last_unseen(history, n - 1, unseen),
            EntryView::User { id, .. } => unseen.contains(id),
            EntryView::Assistant { id, .. } => unseen.contains(id),
        }
    }
}

proof fn lemma_hidden(
    history: Seq<EntryView>,
    n: int,
    unseen: Seq<u64>,
    mark: Seq<char>,
    thinking: Thinking,
)
    requires
        0 <= n <= history.len(),
    ensures
        rebuilt(history, n, unseen, mark, thinking).hidden == last_unseen(history, n, unseen),
    decreases n,
{
    if n > 0 {
        lemma_hidden(history, n - 1, unseen, mark, thinking);
        let r = rebuilt(history, n - 1, unseen, mark, thinking);
        let q = marked(r, history[n - 1], unseen);
        if let EntryView::Assistant { blocks, .. } = history[n - 1] {
            lemma_blocks_lead(q, blocks, blocks.len() as int, history, mark);
        }
    }
}

/// What a user's entry adds to the rows: what was said, a note line by line, or
/// the result with the preview it was kept with; in front of it one line where
/// the entries the model no longer sees begin.
pub proof fn law_what_a_users_entry_is_drawn_as(
    history: Seq<EntryView>,
    n: int,
    unseen: Seq<u64>,
    mark: Seq<char>,
    thinking: Thinking,
)
    requires
        0 < n <= history.len(),
        history[n - 1] is User,
    ensures
        ({
            let before = rebuilt(history, n - 1, unseen, mark, thinking).rows;
            let now = rebuilt(history, n, unseen, mark, thinking).rows;
            let id = history[n - 1]->User_id;
            let body = history[n - 1]->body;
            let line = if unseen.contains(id) && !last_unseen(history, n - 1, unseen) {
                seq![muted_row(compacted_form())]
            } else {
                Seq::empty()
            };
            &&& body is Image ==> now == before + line
            &&& body matches BodyView::Prompt(t) ==> now == before + line + prompt_rows(t)
            &&& body matches BodyView::Aside(t) ==> now == before + line + prompt_rows(t)
            &&& body matches BodyView::Note(t) ==> now.len() == before.len() + line.len() + lines(
                t,
            ).len() && forall|i: int|
                0 <= i < lines(t).len() ==> now[before.len() + line.len() + i] == muted_row(
                    #[trigger] lines(t)[i],
                )
            &&& body matches BodyView::Result { is_error, name, preview: Some(p), .. } ==> now == before
                + line + seq![result_row(!is_error, name, p)]
        }),
{
    lemma_hidden(history, n - 1, unseen, mark, thinking);
    let r = rebuilt(history, n - 1, unseen, mark, thinking);
    let now = rebuilt(history, n, unseen, mark, thinking).rows;
    let id = history[n - 1]->User_id;
    let line = if unseen.contains(id) && !last_unseen(history, n - 1, unseen) {
        seq![muted_row(compacted_form())]
    } else {
        Seq::empty()
    };
    let q = marked(r, history[n - 1], unseen);
    assert(q.rows =~= r.rows + line);
    let body = history[n - 1]->body;
    match body {
        BodyView::Image => {
            assert(now =~= r.rows + line);
        },
        BodyView::Prompt(t) => {
            assert(now =~= r.rows + line + prompt_rows(t));
        },
        BodyView::Aside(t) => {
            assert(now =~= r.rows + line + prompt_rows(t));
        },
        _ => {},
    }
}

/// What a block of an answer adds: a row for each line of text, the first of them
/// waiting to be styled as one that opens an answer; one foldable row for
/// reasoning, with all its lines and an id of its own; and a row for a call that
/// was never answered.
pub proof fn law_what_a_block_is_drawn_as(
    r: Rebuilt,
    b: BlockView,
    history: Seq<EntryView>,
    mark: Seq<char>,
)
    ensures
        ({
            let now = with_block(r, b, history, mark);
            let at = r.rows.len();
            &&& b matches BlockView::Text(t) ==> {
                let all = lines(t);
                &&& now.rows.len() == at + all.len()
                &&& now.unstyled.len() == r.unstyled.len() + all.len()
                &&& forall|i: int|
                    0 <= i < all.len() ==> now.rows[at + i] == answer_row(#[trigger] all[i])
                        && now.unstyled[r.unstyled.len() + i] == (UnstyledView {
                        row: at + i,
                        text: all[i],
                        fresh: i == 0,
                    })
            }
            &&& b matches BlockView::Reasoning(parts) ==> {
                let all = flat_lines(parts);
                &&& now.rows.len() == at + 1 && now.rows.last() is Reasoning
                &&& now.rows.last()->block == r.thinking.next
                &&& now.rows.last()->Reasoning_folded == r.thinking.folded
                &&& now.rows.last()->lines.len() == all.len()
                &&& forall|i: int|
                    0 <= i < all.len() ==> now.rows.last()->lines[i] == one_span(
                        #[trigger] all[i],
                        plain_style(Role::Muted),
                    )
                &&& r.thinking.next < u64::MAX ==> now.thinking.next == r.thinking.next + 1
            }
            &&& b matches BlockView::ToolCall { id, .. } ==> now.rows.len() == if answered(history, id) {
                at
            } else {
                at + 1
            }
            &&& leads_rows(r.rows, now.rows)
        }),
{
}

} // verus!
