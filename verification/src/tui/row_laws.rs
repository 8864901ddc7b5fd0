//! What a row tells of a call and how much of it, stated on its texts.

use crate::text::{
    index_of, is_white, lemma_index_of, lemma_trim_end, lines, starts, trim_end, trim_start,
    without_cr,
};
use crate::tui::line::{one_span, plain_style, Role, SpanView};
use crate::tui::row::{
    clipped, described, first_line, prompt_rows, row_len, widest, FoldedToolView, RowView,
};
use crate::width::{columns, row_columns};
use vstd::prelude::*;
use vstd::string::*;

verus! {

proof fn lemma_columns(c: char)
    ensures
        columns(c) >= 0,
{
}

proof fn lemma_narrower(s: Seq<char>, n: int)
    requires
        0 <= n <= s.len(),
    ensures
        row_columns(s.take(n)) <= row_columns(s),
        0 <= row_columns(s.take(n)),
    decreases s.len(),
{
    if n < s.len() {
        lemma_narrower(s.drop_last(), n);
        assert(s.drop_last().take(n) =~= s.take(n));
        lemma_columns(s.last());
    } else {
        assert(s.take(n) =~= s);
        lemma_wide(s);
    }
}

proof fn lemma_wide(s: Seq<char>)
    ensures
        row_columns(s) >= 0,
    decreases s.len(),
{
    if s.len() > 0 {
        lemma_wide(s.drop_last());
        lemma_columns(s.last());
    }
}

proof fn lemma_widest(s: Seq<char>, max: int)
    requires
        max >= 0,
    ensures
        ({
            let w = widest(s, max);
            &&& w.len() <= s.len()
            &&& w == s.take(w.len() as int)
            &&& row_columns(w) <= max
            &&& w.len() < s.len() ==> row_columns(s.take(w.len() + 1int)) > max
        }),
    decreases s.len(),
{
    assert(row_columns(Seq::<char>::empty()) == 0);
    if row_columns(s) <= max || s.len() == 0 {
        assert(s.take(s.len() as int) =~= s);
    } else {
        let t = s.drop_last();
        lemma_widest(t, max);
        let w = widest(t, max);
        assert(t.take(w.len() as int) =~= s.take(w.len() as int));
        if w.len() < t.len() {
            assert(t.take(w.len() + 1int) =~= s.take(w.len() + 1int));
        } else {
            assert(s.take(w.len() + 1int) =~= s);
        }
    }
}

/// A clipped text is as much of the front as fits the columns, without white at
/// the end: what is left off is white, or does not fit.
pub proof fn law_a_clipped_text_is_all_that_fits(s: Seq<char>, max: int)
    requires
        max >= 0,
    ensures
        ({
            let c = clipped(s, max);
            &&& c.len() <= s.len()
            &&& c == s.take(c.len() as int)
            &&& row_columns(c) <= max
            &&& c.len() > 0 ==> !is_white(c.last())
            &&& forall|i: int|
                c.len() <= i < s.len() && row_columns(s.take(i + 1)) <= max ==> is_white(
                    #[trigger] s[i],
                )
        }),
{
    lemma_widest(s, max);
    let w = widest(s, max);
    lemma_trim_end(w);
    let c = trim_end(w);
    assert(c =~= s.take(c.len() as int));
    lemma_narrower(w, c.len() as int);
    assert(w.take(c.len() as int) =~= c);
    assert forall|i: int|
        c.len() <= i < s.len() && row_columns(s.take(i + 1)) <= max implies is_white(
        #[trigger] s[i],
    ) by {
        if i >= w.len() {
            lemma_narrower(s.take(i + 1), w.len() + 1int);
            assert(s.take(i + 1).take(w.len() + 1int) =~= s.take(w.len() + 1int));
        } else {
            assert(w[i] == s[i]);
        }
    }
}

/// A call is told by its tool and the first line of what it was about, the tool
/// once: a line that already opens with the tool's name stands alone.
pub proof fn law_a_call_names_its_tool_once(t: FoldedToolView)
    ensures
        ({
            let head = crate::text::trim(first_line(t.preview));
            let named = head.len() > t.name.len() && head.take(t.name.len() as int) == t.name
                && is_white(head[t.name.len() as int]);
            &&& starts(described(t), t.name)
            &&& head.len() == 0 ==> described(t) == t.name
            &&& named ==> described(t) == head
            &&& head.len() > 0 && !named ==> described(t).len() == t.name.len() + 1 + head.len()
                && described(t)[t.name.len() as int] == ' ' && described(t).skip(
                t.name.len() + 1int,
            ) == head
        }),
{
    let head = crate::text::trim(first_line(t.preview));
    let d = described(t);
    assert(t.name.take(t.name.len() as int) =~= t.name);
    let long = t.name + seq![' '] + head;
    assert(long.take(t.name.len() as int) =~= t.name);
    assert(long.skip(t.name.len() + 1int) =~= head);
}

/// A result shows all of its lines, and one row where it has none; one of more
/// than twenty-five shows twenty-five and a row for the rest until it is
/// expanded. A bundle is one row, and one more for each call once unfolded.
pub proof fn law_how_many_rows_a_row_takes(r: RowView)
    ensures
        r matches RowView::Result { preview, expanded, .. } ==> {
            let n = crate::text::lines(preview).len();
            &&& n == 0 ==> row_len(r) == 1
            &&& 1 <= n <= 25 ==> row_len(r) == n
            &&& 25 < n < usize::MAX && expanded ==> row_len(r) == n + 1
            &&& 25 < n && !expanded ==> row_len(r) == 26
        },
        r matches RowView::ToolsSummary { tools, folded, .. } ==> (folded ==> row_len(r) == 1) && (
        !folded && tools.len() < usize::MAX ==> row_len(r) == tools.len() + 1),
        r matches RowView::Reasoning { lines, folded, .. } ==> (folded ==> row_len(r) == 1) && (
        !folded ==> row_len(r) == lines.len()),
        r is Said || r is Notice || r is Tally ==> row_len(r) == 1,
{
}

/// A prompt is shown line by line, each behind a bar; one that opens with an
/// exclamation mark is a command, shown behind that mark instead, with the lines
/// under its first set in.
pub proof fn law_a_prompt_is_shown_line_by_line(text: Seq<char>, k: int)
    requires
        0 <= k < lines(text).len(),
    ensures
        ({
            let rows = prompt_rows(text);
            let line = lines(text)[k];
            &&& rows.len() == lines(text).len()
            &&& text[0] != '!' ==> rows[k] == (RowView::Said {
                border: one_span("▌ "@, plain_style(Role::Prompt)),
                body: one_span(line, plain_style(Role::Input)),
            })
            &&& text[0] == '!' && k > 0 ==> rows[k] == (RowView::Notice {
                text: seq![
                    SpanView { content: seq![' ', ' '], style: plain_style(Role::Plain) },
                    SpanView { content: line, style: plain_style(Role::Input) },
                ],
                times: 1,
            })
            &&& text[0] == '!' && k == 0 ==> rows[k] == (RowView::Notice {
                text: seq![
                    SpanView { content: seq!['!', ' '], style: plain_style(Role::Prompt) },
                    SpanView {
                        content: trim_start(line.skip(1)),
                        style: plain_style(Role::Input),
                    },
                ],
                times: 1,
            })
        }),
{
    reveal_strlit("! ");
    reveal_strlit("  ");
    assert("! "@ =~= seq!['!', ' ']);
    assert("  "@ =~= seq![' ', ' ']);
    lemma_index_of(text, '\n');
    let n = index_of(text, '\n');
    assert(text.len() > 0);
    if text[0] == '!' {
        if n < text.len() {
            assert(n > 0);
            let cut = text.take(n);
            assert(cut[0] == '!');
            assert(without_cr(cut)[0] == '!');
            assert(lines(text)[0] == without_cr(cut));
        } else {
            assert(lines(text)[0] == text);
        }
    }
}

} // verus!
