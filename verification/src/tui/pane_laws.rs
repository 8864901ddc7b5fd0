//! How what arrives becomes rows, stated on the texts.

use crate::text::{index_of, lemma_index_of, split};
use crate::text_laws::law_split_pieces_make_the_text_again;
use crate::tui::line::SpanView;
use crate::tui::pane::{
    after_event, answer_row, closed, drained, landed, told, without_call, EventView, PaneView,
    RunToolView, UnstyledView,
};
use crate::tui::row::RowView;
use vstd::prelude::*;

verus! {

/// The rows of an answer's lines, all but the last piece.
pub open spec fn answer_rows(pieces: Seq<Seq<char>>) -> Seq<RowView> {
    Seq::new((pieces.len() - 1) as nat, |k: int| answer_row(pieces[k]))
}

/// What of an answer waits to be styled: each line with the row it is on, the
/// first as one that opens an answer where it does.
pub open spec fn waiting_rows(pieces: Seq<Seq<char>>, from: int, fresh: bool) -> Seq<UnstyledView> {
    Seq::new(
        (pieces.len() - 1) as nat,
        |k: int| UnstyledView { row: from + k, text: pieces[k], fresh: fresh && k == 0 },
    )
}

proof fn lemma_drained(p: PaneView)
    requires
        !p.reasoning,
    ensures
        ({
            let pieces = split(p.partial, '\n');
            let q = drained(p);
            &&& pieces.len() > 0
            &&& q == (PaneView {
                partial: pieces.last(),
                rows: p.rows + answer_rows(pieces),
                unstyled: p.unstyled + waiting_rows(pieces, p.rows.len() as int, p.fresh),
                fresh: p.fresh && pieces.len() == 1,
                ..p
            })
        }),
    decreases p.partial.len(),
{
    law_split_pieces_make_the_text_again(p.partial, '\n');
    lemma_index_of(p.partial, '\n');
    let n = index_of(p.partial, '\n');
    let pieces = split(p.partial, '\n');
    let q = drained(p);
    if n < p.partial.len() {
        let first = p.partial.take(n);
        let rest = p.partial.skip(n + 1);
        let next = landed(PaneView { partial: rest, ..p }, first);
        lemma_drained(next);
        let less = split(rest, '\n');
        assert(pieces == seq![first] + less);
        assert(pieces.last() == less.last());
        assert(p.rows + answer_rows(pieces) =~= p.rows.push(answer_row(first)) + answer_rows(less));
        assert(p.unstyled + waiting_rows(pieces, p.rows.len() as int, p.fresh)
            =~= next.unstyled + waiting_rows(less, next.rows.len() as int, next.fresh));
        assert(q == drained(next));
    } else {
        assert(pieces =~= seq![p.partial]);
        assert(p.rows + answer_rows(pieces) =~= p.rows);
        assert(p.unstyled + waiting_rows(pieces, p.rows.len() as int, p.fresh) =~= p.unstyled);
    }
}

/// An answer lands line by line: of all the text so far, each line that was
/// ended is a row of its own, in order, and waits to be styled on that row; the
/// rest stays live until it is ended too.
pub proof fn law_an_answer_lands_line_by_line(p: PaneView, delta: Seq<char>)
    requires
        !p.reasoning,
    ensures
        ({
            let pieces = split(p.partial + delta, '\n');
            let q = after_event(p, EventView::TextDelta(delta));
            &&& q.rows == p.rows + answer_rows(pieces)
            &&& q.partial == pieces.last()
            &&& q.unstyled == p.unstyled + waiting_rows(pieces, p.rows.len() as int, p.fresh)
            &&& q.committed
            &&& q.tools == p.tools && q.queued == p.queued && q.scroll == p.scroll
        }),
{
    let q = PaneView { committed: true, ..p };
    lemma_drained(PaneView { partial: q.partial + delta, ..q });
}

/// Whatever ends an answer lands what is left of it: the live text is a row where
/// there is any, and none of it stays live.
pub proof fn law_the_rest_lands_when_the_answer_ends(p: PaneView, run: Option<u64>)
    requires
        !p.reasoning,
    ensures
        ({
            let rest = if p.partial.len() > 0 {
                seq![answer_row(p.partial)]
            } else {
                Seq::empty()
            };
            let q = after_event(p, EventView::Done { run });
            &&& q.partial.len() == 0
            &&& q.rows == p.rows + rest + (match run {
                Some(r) => seq![RowView::Tally { run: r, painted: None }],
                None => Seq::empty(),
            })
            &&& q.fresh && !q.reasoning
        }),
{
    let q = after_event(p, EventView::Done { run });
    let rest = if p.partial.len() > 0 {
        seq![answer_row(p.partial)]
    } else {
        Seq::empty()
    };
    assert(closed(p).rows =~= p.rows + rest);
    match run {
        Some(r) => {
            assert(q.rows =~= p.rows + rest + seq![RowView::Tally { run: r, painted: None }]);
        },
        None => {
            assert(q.rows =~= p.rows + rest + Seq::empty());
        },
    }
}

/// How many of the calls have another id.
pub open spec fn others(tools: Seq<RunToolView>, id: Seq<char>) -> int
    decreases tools.len(),
{
    if tools.len() == 0 {
        0
    } else {
        others(tools.drop_last(), id) + if tools.last().id != id {
            1int
        } else {
            0
        }
    }
}

proof fn lemma_without_call_last(tools: Seq<RunToolView>, id: Seq<char>)
    requires
        tools.len() > 0,
    ensures
        without_call(tools, id) == without_call(tools.drop_last(), id) + if tools.last().id != id {
            seq![tools.last()]
        } else {
            Seq::empty()
        },
    decreases tools.len(),
{
    let tail = if tools.last().id != id {
        seq![tools.last()]
    } else {
        Seq::empty()
    };
    if tools.len() == 1 {
        assert(tools.skip(1) =~= Seq::empty());
        assert(tools.drop_last() =~= Seq::empty());
        assert(without_call(Seq::empty(), id) =~= Seq::empty());
        assert(without_call(tools, id) =~= without_call(tools.drop_last(), id) + tail);
    } else {
        let t = tools.skip(1);
        lemma_without_call_last(t, id);
        assert(t.drop_last() =~= tools.drop_last().skip(1));
        assert(tools.drop_last()[0] == tools[0]);
        assert(without_call(tools, id) =~= without_call(tools.drop_last(), id) + tail);
    }
}

/// A call that ended leaves the others running, each of them and in order.
pub proof fn law_the_other_calls_go_on(tools: Seq<RunToolView>, id: Seq<char>)
    ensures
        without_call(tools, id).len() == others(tools, id),
        forall|k: int|
            0 <= k < tools.len() && (#[trigger] tools[k]).id != id ==> without_call(tools, id)[others(
                tools.take(k),
                id,
            )] == tools[k],
    decreases tools.len(),
{
    if tools.len() > 0 {
        let less = tools.drop_last();
        law_the_other_calls_go_on(less, id);
        lemma_without_call_last(tools, id);
        assert forall|k: int| 0 <= k < tools.len() && (#[trigger] tools[k]).id != id implies without_call(
            tools,
            id,
        )[others(tools.take(k), id)] == tools[k] by {
            assert(tools.take(k) =~= less.take(k));
            if k < less.len() {
                assert(less[k].id != id);
                lemma_others(less, id, k);
            } else {
                assert(less.take(k) =~= less);
            }
        }
    } else {
        assert(without_call(tools, id) =~= Seq::empty());
    }
}

proof fn lemma_others(tools: Seq<RunToolView>, id: Seq<char>, k: int)
    requires
        0 <= k < tools.len(),
        tools[k].id != id,
    ensures
        0 <= others(tools.take(k), id) < others(tools, id),
    decreases tools.len(),
{
    let less = tools.drop_last();
    if k < less.len() {
        lemma_others(less, id, k);
        assert(less.take(k) =~= tools.take(k));
    } else {
        assert(tools.take(k) =~= less);
        lemma_some(less, id);
    }
}

proof fn lemma_some(tools: Seq<RunToolView>, id: Seq<char>)
    ensures
        others(tools, id) >= 0,
    decreases tools.len(),
{
    if tools.len() > 0 {
        lemma_some(tools.drop_last(), id);
    }
}

/// A notice told again right behind itself is counted, not repeated; any other is
/// a row of its own.
pub proof fn law_a_notice_told_again_is_counted(p: PaneView, line: Seq<SpanView>)
    ensures
        ({
            let once = told(p, line);
            let twice = told(once, line);
            &&& once.rows.len() > 0 && once.rows.last() is Notice
            &&& once.rows.last()->text == line
            &&& once.rows.last()->times < usize::MAX ==> twice.rows.len() == once.rows.len()
                && twice.rows.last() == (RowView::Notice {
                text: line,
                times: once.rows.last()->times + 1,
            }) && twice.rows.drop_last() == once.rows.drop_last()
        }),
        p.rows.len() == 0 || !(p.rows.last() matches RowView::Notice { text, .. } && text == line)
            ==> told(p, line).rows == p.rows.push(RowView::Notice { text: line, times: 1 }),
{
    let once = told(p, line);
    let twice = told(once, line);
    assert(once.rows.last() is Notice);
    if once.rows.last()->times < usize::MAX {
        assert(twice.rows.drop_last() =~= once.rows.drop_last());
    }
}

} // verus!
