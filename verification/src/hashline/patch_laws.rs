//! What each operation of a patch does to the rows of a file, stated row by row.

use crate::hashline::apply::{
    lemma_file_rows, lemma_none_buried, lemma_spans_apart, lemma_spans_fit, ops_fit,
};
use crate::hashline::edit_laws::{lemma_block_hits, lemma_shows, shows};
use crate::hashline::landing::{block_hits, has_crlf, opens_on};
use crate::hashline::patch::{star_at, starred, Mark, RowView, SectionView};
use crate::hashline::plan::{
    all_marked, built, burial, buried_line, core_texts, file_rows, fits, fitting, group_ops,
    holding, in_file, inserted, inside_span, leading, match_ops, named, new_rows, rejoined,
    replaced, row_text, row_texts, run_ops, scope_count, span_at, span_clash, span_slotted,
    spans_of, stands, sweep_ops, swept, trailing, window, within, OpView, SpanView,
};
use crate::hashline::stacking::{lemma_buried_none, lemma_none_inserted, lemma_span_found};
use crate::hashline::Blocks;
use crate::text::{lines, starts, trim};
use vstd::prelude::*;

verus! {

// ---------------------------------------------------------------------------
// The rows of an operation
// ---------------------------------------------------------------------------

/// Whether an operation is `n` scopes and marked rows behind them.
pub open spec fn shaped(g: Seq<RowView>, n: int) -> bool {
    &&& 0 <= n <= g.len()
    &&& forall|i: int| 0 <= i < n ==> #[trigger] g[i] is At
    &&& forall|i: int| n <= i < g.len() ==> #[trigger] g[i] is Mark
}

/// Whether a row stands for one of the file: a `=` or a `-` row.
pub open spec fn of_file(r: RowView) -> bool {
    r matches RowView::Mark(m, _) && (m == Mark::Keep || m == Mark::Del)
}

/// Whether a row stands in the result: a `=` or a `+` row.
pub open spec fn comes_out(r: RowView) -> bool {
    r matches RowView::Mark(m, _) && (m == Mark::Keep || m == Mark::Add)
}

/// How many of the first `i` rows stand for rows of the file.
pub open spec fn stood(g: Seq<RowView>, i: int) -> int
    decreases i,
{
    if i <= 0 {
        0
    } else {
        stood(g, i - 1) + if of_file(g[i - 1]) {
            1int
        } else {
            0
        }
    }
}

/// How many of the first `i` rows stand in the result.
pub open spec fn out_before(g: Seq<RowView>, i: int) -> int
    decreases i,
{
    if i <= 0 {
        0
    } else {
        out_before(g, i - 1) + if comes_out(g[i - 1]) {
            1int
        } else {
            0
        }
    }
}

/// Whether the rows from line `first` on read as the `=` and `-` rows of `g`,
/// white around them aside.
pub open spec fn reads(rows: Seq<Seq<char>>, g: Seq<RowView>, first: int) -> bool {
    forall|i: int|
        0 <= i < g.len() && of_file(#[trigger] g[i]) ==> trim(rows[first - 1 + stood(g, i)])
            == trim(g[i]->Mark_1)
}

/// Whether `out` is what the rows from line `first` on become: each `=` row as
/// the file has it, character for character, each `+` row its own text, in the
/// order of the operation and nothing else.
pub open spec fn becomes(
    rows: Seq<Seq<char>>,
    g: Seq<RowView>,
    first: int,
    out: Seq<Seq<char>>,
) -> bool {
    &&& out.len() == out_before(g, g.len() as int)
    &&& forall|i: int|
        0 <= i < g.len() && comes_out(#[trigger] g[i]) ==> out[out_before(g, i)] == if of_file(
            g[i],
        ) {
            rows[first - 1 + stood(g, i)]
        } else {
            g[i]->Mark_1
        }
}

proof fn lemma_counts(g: Seq<RowView>, i: int)
    requires
        0 <= i <= g.len(),
    ensures
        0 <= stood(g, i) <= i,
        0 <= out_before(g, i) <= i,
    decreases i,
{
    if i > 0 {
        lemma_counts(g, i - 1);
    }
}

proof fn lemma_counts_order(g: Seq<RowView>, i: int, j: int)
    requires
        0 <= i <= j <= g.len(),
    ensures
        stood(g, i) <= stood(g, j),
        out_before(g, i) <= out_before(g, j),
        i < j && of_file(g[i]) ==> stood(g, i) < stood(g, j),
        i < j && comes_out(g[i]) ==> out_before(g, i) < out_before(g, j),
    decreases j - i,
{
    if i < j {
        lemma_counts_order(g, i + 1, j);
    }
}

/// The texts that stand for rows of the file, in terms of the counts.
proof fn lemma_core(g: Seq<RowView>, n: int)
    requires
        0 <= n <= g.len(),
    ensures
        core_texts(g.take(n)).len() == stood(g, n),
        forall|i: int|
            0 <= i < n && of_file(#[trigger] g[i]) ==> core_texts(g.take(n))[stood(g, i)]
                == g[i]->Mark_1,
    decreases n,
{
    if n > 0 {
        let p = g.take(n);
        assert(p.drop_last() =~= g.take(n - 1));
        assert(p.last() == g[n - 1]);
        lemma_core(g, n - 1);
        lemma_counts(g, n - 1);
        assert forall|i: int| 0 <= i < n && of_file(#[trigger] g[i]) implies core_texts(
            p,
        )[stood(g, i)] == g[i]->Mark_1 by {
            lemma_counts_order(g, i, n - 1);
            lemma_counts(g, i);
        }
    } else {
        assert(g.take(0) =~= Seq::empty());
    }
}

/// What the rows of the file become, in terms of the counts.
proof fn lemma_out(g: Seq<RowView>, rows: Seq<Seq<char>>, first: int, n: int)
    requires
        0 <= n <= g.len(),
    ensures
        ({
            let p = g.take(n);
            let out = leading(p) + replaced(p, rows, first);
            &&& stood(g, n) == 0 ==> replaced(p, rows, first).len() == 0
            &&& out.len() == out_before(g, n)
            &&& forall|i: int|
                0 <= i < n && comes_out(#[trigger] g[i]) ==> out[out_before(g, i)] == if of_file(
                    g[i],
                ) {
                    rows[first - 1 + stood(g, i)]
                } else {
                    g[i]->Mark_1
                }
        }),
    decreases n,
{
    if n > 0 {
        let p = g.take(n);
        let q = g.take(n - 1);
        assert(p.drop_last() =~= q);
        assert(p.last() == g[n - 1]);
        lemma_out(g, rows, first, n - 1);
        lemma_core(g, n - 1);
        lemma_counts(g, n - 1);
        let before = leading(q) + replaced(q, rows, first);
        let out = leading(p) + replaced(p, rows, first);
        if comes_out(g[n - 1]) {
            let x = if of_file(g[n - 1]) {
                rows[first - 1 + stood(g, n - 1)]
            } else {
                g[n - 1]->Mark_1
            };
            assert(out =~= before.push(x));
        } else {
            assert(out =~= before);
        }
        assert forall|i: int| 0 <= i < n && comes_out(#[trigger] g[i]) implies out[out_before(g, i)]
            == if of_file(g[i]) {
            rows[first - 1 + stood(g, i)]
        } else {
            g[i]->Mark_1
        } by {
            lemma_counts_order(g, i, n - 1);
            lemma_counts(g, i);
        }
    } else {
        assert(g.take(0) =~= Seq::empty());
        assert(leading(g.take(0)) =~= Seq::empty());
        assert(replaced(g.take(0), rows, first) =~= Seq::empty());
    }
}

proof fn lemma_reads(rows: Seq<Seq<char>>, g: Seq<RowView>, s: int)
    ensures
        fits(rows, core_texts(g), s) == reads(rows, g, s),
{
    let n = g.len() as int;
    assert(g.take(n) =~= g);
    lemma_core(g, n);
    let seq = core_texts(g);
    if fits(rows, seq, s) {
        assert forall|i: int| 0 <= i < g.len() && of_file(#[trigger] g[i]) implies trim(
            rows[s - 1 + stood(g, i)],
        ) == trim(g[i]->Mark_1) by {
            lemma_counts_order(g, i, n);
            lemma_counts(g, i);
            assert(seq[stood(g, i)] == g[i]->Mark_1);
        }
    }
    if reads(rows, g, s) {
        assert forall|k: int| 0 <= k < seq.len() implies trim(rows[s - 1 + k]) == trim(
            #[trigger] seq[k],
        ) by {
            lemma_standing(g, n, k);
            let i = choose|i: int| 0 <= i < n && of_file(#[trigger] g[i]) && stood(g, i) == k;
            assert(of_file(g[i]));
        }
    }
}

/// Each row of the file that is meant has a row of the operation.
proof fn lemma_standing(g: Seq<RowView>, n: int, k: int)
    requires
        0 <= n <= g.len(),
        0 <= k < stood(g, n),
    ensures
        exists|i: int| 0 <= i < n && of_file(#[trigger] g[i]) && stood(g, i) == k,
    decreases n,
{
    if k < stood(g, n - 1) {
        lemma_standing(g, n - 1, k);
        let i = choose|i: int| 0 <= i < n - 1 && of_file(#[trigger] g[i]) && stood(g, i) == k;
        assert(of_file(g[i]));
    } else {
        assert(of_file(g[n - 1]));
    }
}

proof fn lemma_fitting(rows: Seq<Seq<char>>, seq: Seq<Seq<char>>, lo: int, last: int)
    ensures
        forall|i: int|
            0 <= i < fitting(rows, seq, lo, last).len() ==> lo <= #[trigger] fitting(
                rows,
                seq,
                lo,
                last,
            )[i] <= last && fits(rows, seq, fitting(rows, seq, lo, last)[i]),
        forall|s: int|
            lo <= s <= last && #[trigger] fits(rows, seq, s) ==> fitting(
                rows,
                seq,
                lo,
                last,
            ).contains(s),
    decreases last - lo + 1,
{
    if last >= lo {
        let before = fitting(rows, seq, lo, last - 1);
        let now = fitting(rows, seq, lo, last);
        lemma_fitting(rows, seq, lo, last - 1);
        assert forall|s: int| lo <= s <= last && #[trigger] fits(rows, seq, s) implies now.contains(
            s,
        ) by {
            if s < last {
                let i = choose|i: int| 0 <= i < before.len() && before[i] == s;
                assert(now[i] == s);
            } else {
                assert(now[now.len() - 1] == s);
            }
        }
    }
}

// ---------------------------------------------------------------------------
// Sweeping over the rows of a file
// ---------------------------------------------------------------------------

proof fn lemma_swept_plain(rows: Seq<Seq<char>>, ops: Seq<OpView>, a: int, b: int)
    requires
        0 <= a <= b <= rows.len(),
        forall|l: int|
            a < l <= b ==> #[trigger] inserted(ops, l) == Seq::<Seq<char>>::empty() && stands(
                rows,
                spans_of(ops),
                l,
            ) == seq![rows[l - 1]],
    ensures
        swept(rows, ops, b) == swept(rows, ops, a) + rows.subrange(a, b),
    decreases b - a,
{
    if a < b {
        lemma_swept_plain(rows, ops, a, b - 1);
        assert(inserted(ops, b) == Seq::<Seq<char>>::empty());
        assert(rows.subrange(a, b) =~= rows.subrange(a, b - 1).push(rows[b - 1]));
        assert(swept(rows, ops, b) =~= swept(rows, ops, a) + rows.subrange(a, b));
    } else {
        assert(swept(rows, ops, b) =~= swept(rows, ops, a) + rows.subrange(a, b));
    }
}

/// Whether nothing stands for line `l`, nor in front of it.
spec fn gone(rows: Seq<Seq<char>>, ops: Seq<OpView>, l: int) -> bool {
    inserted(ops, l).len() == 0 && stands(rows, spans_of(ops), l).len() == 0
}

proof fn lemma_swept_gone(rows: Seq<Seq<char>>, ops: Seq<OpView>, a: int, b: int)
    requires
        0 <= a <= b,
        forall|l: int| a < l <= b ==> #[trigger] gone(rows, ops, l),
    ensures
        swept(rows, ops, b) == swept(rows, ops, a),
    decreases b - a,
{
    if a < b {
        lemma_swept_gone(rows, ops, a, b - 1);
        assert(gone(rows, ops, b));
        assert(swept(rows, ops, b) =~= swept(rows, ops, b - 1));
    }
}

/// One range replaced, with rows put in front of it: what is above and below
/// stays.
proof fn lemma_one_range<B: Blocks>(
    path: Seq<char>,
    content: Seq<char>,
    ops: Seq<OpView>,
    lead: Seq<Seq<char>>,
    body: Seq<Seq<char>>,
    s: int,
    e: int,
    blocks: &B,
)
    requires
        1 <= s <= e <= file_rows(content).len(),
        ops == if lead.len() > 0 {
            seq![
                OpView::InsertBefore { line: s, body: lead },
                OpView::Replace { start: s, end: e, body },
            ]
        } else {
            seq![OpView::Replace { start: s, end: e, body }]
        },
    ensures
        ({
            let rows = file_rows(content);
            let new = rows.take(s - 1) + (lead + body) + rows.skip(e);
            &&& new_rows(rows, ops) == new
            &&& built(path, ops, content, blocks) is Ok
            &&& built(path, ops, content, blocks)->Ok_0.content == rejoined(
                new,
                trailing(content),
                has_crlf(content),
            )
        }),
{
    let rows = file_rows(content);
    let span = SpanView { start: s, end: e, body };
    let only = seq![OpView::Replace { start: s, end: e, body }];
    let spans = spans_of(ops);
    assert(ops.last() == OpView::Replace { start: s, end: e, body });
    if lead.len() > 0 {
        let first = ops.drop_last();
        assert(first =~= seq![OpView::InsertBefore { line: s, body: lead }]);
        assert(first.drop_last() =~= Seq::empty());
        assert(spans_of(first.drop_last()) =~= Seq::empty());
        assert(spans_of(first) =~= Seq::empty());
    } else {
        assert(ops.drop_last() =~= Seq::empty());
        assert(spans_of(ops.drop_last()) =~= Seq::empty());
    }
    assert(span_slotted(Seq::<SpanView>::empty(), span) =~= seq![span]);
    assert(spans =~= seq![span]);
    assert forall|l: int| l != s implies #[trigger] inserted(ops, l)
        == Seq::<Seq<char>>::empty() by {
        lemma_none_inserted(ops, l);
    }
    assert(inserted(ops, s) =~= lead) by {
        if lead.len() > 0 {
            let first = ops.drop_last();
            assert(first =~= seq![OpView::InsertBefore { line: s, body: lead }]);
            assert(first.drop_last() =~= Seq::empty());
            assert(inserted(first.drop_last(), s) =~= Seq::empty());
            assert(inserted(first, s) =~= lead);
        } else {
            lemma_none_inserted(ops, s);
            assert(lead =~= Seq::empty());
        }
    }
    assert(spans.skip(1) =~= Seq::empty());
    assert forall|l: int| true implies #[trigger] span_at(spans, l) == if l == s {
        Some(span)
    } else {
        None
    } by {
        assert(span_at(spans.skip(1), l) is None);
    }
    assert forall|l: int| true implies #[trigger] inside_span(spans, l) == (s < l <= e) by {
        assert(spans[0] == span);
    }
    let n = rows.len() as int;
    lemma_swept_plain(rows, ops, 0, s - 1);
    assert(swept(rows, ops, 0) =~= Seq::empty());
    assert(swept(rows, ops, s - 1) =~= rows.take(s - 1));
    assert(swept(rows, ops, s) =~= rows.take(s - 1) + (lead + body));
    lemma_swept_gone(rows, ops, s, e);
    lemma_swept_plain(rows, ops, e, n);
    assert(rows.subrange(e, n) =~= rows.skip(e));
    assert(inserted(ops, n + 1) == Seq::<Seq<char>>::empty());
    assert(new_rows(rows, ops) =~= rows.take(s - 1) + (lead + body) + rows.skip(e));
    assert(span_clash(path, spans, 0, content, blocks) is None);
    assert(buried_line(ops, s, e) is None) by {
        if lead.len() > 0 {
            assert(ops[0] == OpView::InsertBefore { line: s, body: lead });
            assert(ops.skip(1) =~= only);
            assert(only.skip(1) =~= Seq::empty());
            assert(buried_line(only.skip(1), s, e) is None);
            assert(buried_line(only, s, e) is None);
        } else {
            assert(ops.skip(1) =~= Seq::empty());
            assert(buried_line(ops.skip(1), s, e) is None);
        }
    }
    assert(burial(path, spans, 1, ops, content, blocks) is None);
    assert(burial(path, spans, 0, ops, content, blocks) is None);
}

// ---------------------------------------------------------------------------
// Scopes and windows
// ---------------------------------------------------------------------------

proof fn lemma_shaped(g: Seq<RowView>, n: int)
    requires
        shaped(g, n),
    ensures
        scope_count(g) == n,
        !starred(g),
    decreases g.len(),
{
    if n > 0 {
        assert(g[0] is At);
        let t = g.skip(1);
        assert(shaped(t, n - 1)) by {
            assert forall|i: int| 0 <= i < n - 1 implies #[trigger] t[i] is At by {
                assert(t[i] == g[i + 1]);
            }
            assert forall|i: int| n - 1 <= i < t.len() implies #[trigger] t[i] is Mark by {
                assert(t[i] == g[i + 1]);
            }
        }
        lemma_shaped(t, n - 1);
    } else if g.len() > 0 {
        assert(g[0] is Mark);
    }
    assert forall|i: int| 0 <= i < g.len() implies !(#[trigger] g[i] is Star) by {
        if i < n {
            assert(g[i] is At);
        } else {
            assert(g[i] is Mark);
        }
    }
}

proof fn lemma_within(opens: Seq<usize>, lo: int, hi: int)
    ensures
        forall|x: usize|
            #[trigger] within(opens, lo, hi).contains(x) <==> opens.contains(x) && lo <= x <= hi,
    decreases opens.len(),
{
    let now = within(opens, lo, hi);
    if opens.len() > 0 {
        let less = opens.drop_last();
        let before = within(less, lo, hi);
        lemma_within(less, lo, hi);
        assert forall|x: usize| #[trigger] now.contains(x) <==> opens.contains(x) && lo <= x <= hi by {
            if now.contains(x) {
                let i = choose|i: int| 0 <= i < now.len() && now[i] == x;
                if i < before.len() {
                    assert(before[i] == x);
                    assert(before.contains(x));
                    let k = choose|k: int| 0 <= k < less.len() && less[k] == x;
                    assert(opens[k] == x);
                } else {
                    assert(opens[opens.len() - 1] == x);
                }
            }
            if opens.contains(x) && lo <= x <= hi {
                let k = choose|k: int| 0 <= k < opens.len() && opens[k] == x;
                if k < less.len() {
                    assert(less[k] == x);
                    assert(before.contains(x));
                    let i = choose|i: int| 0 <= i < before.len() && before[i] == x;
                    assert(now[i] == x);
                } else {
                    assert(now[now.len() - 1] == x);
                }
            }
        }
    }
}

/// Whether `line` is the one opening row in `lo..=hi` whose line opens with
/// `word`, white around both aside.
pub open spec fn only_opening<B: Blocks>(
    blocks: &B,
    path: Seq<char>,
    content: Seq<char>,
    word: Seq<char>,
    lo: int,
    hi: int,
    line: usize,
) -> bool {
    let opens = blocks.opening_rows(path, content);
    let rows = lines(content);
    &&& opens.contains(line) && lo <= line <= hi && 1 <= line <= rows.len()
    &&& starts(trim(rows[line - 1]), trim(word))
    &&& forall|k: int|
        0 <= k < opens.len() && lo <= (#[trigger] opens[k]) <= hi && 1 <= opens[k] <= rows.len()
            && starts(trim(rows[opens[k] - 1]), trim(word)) ==> opens[k] == line
}

/// A word names a construct where exactly one row of the window opens one with
/// it, and the construct is the one that opens there.
pub proof fn law_a_word_names_the_one_construct_that_opens_with_it<B: Blocks>(
    path: Seq<char>,
    word: Seq<char>,
    lo: int,
    hi: int,
    content: Seq<char>,
    blocks: &B,
)
    requires
        named(path, word, lo, hi, content, blocks) is Ok,
    ensures
        exists|line: usize|
            #[trigger] only_opening(blocks, path, content, word, lo, hi, line)
                && blocks.extent_at(path, content, line) is Some && named(
                path,
                word,
                lo,
                hi,
                content,
                blocks,
            )->Ok_0 == (
                blocks.extent_at(path, content, line)->Some_0.0 as int,
                blocks.extent_at(path, content, line)->Some_0.1 as int,
            ),
{
    let rows = lines(content);
    let opens = blocks.opening_rows(path, content);
    let here = within(opens, lo, hi);
    let cands = block_hits(here, rows, trim(word));
    lemma_block_hits(here, rows, trim(word));
    lemma_within(opens, lo, hi);
    let line = cands[0];
    assert(here.contains(line));
    assert(opens_on(rows, line, trim(word)));
    assert forall|k: int|
        0 <= k < opens.len() && lo <= (#[trigger] opens[k]) <= hi && 1 <= opens[k] <= rows.len()
            && starts(trim(rows[opens[k] - 1]), trim(word)) implies opens[k] == line by {
        assert(opens.contains(opens[k]));
        assert(here.contains(opens[k]));
        let j = choose|j: int| 0 <= j < here.len() && here[j] == opens[k];
        assert(opens_on(rows, here[j], trim(word)));
        assert(cands.contains(here[j]));
    }
    assert(only_opening(blocks, path, content, word, lo, hi, line));
}

proof fn lemma_window<B: Blocks>(
    path: Seq<char>,
    scopes: Seq<RowView>,
    n: int,
    content: Seq<char>,
    blocks: &B,
)
    requires
        0 <= n,
        in_file(blocks, path, content),
    ensures
        window(path, scopes, n, content, blocks) matches Ok((lo, hi)) ==> 1 <= lo && hi <= lines(
            content,
        ).len(),
{
    if n > 0 {
        if let Ok((lo, hi)) = window(path, scopes, n - 1, content, blocks) {
            let word = row_text(scopes[n - 1]);
            if named(path, word, lo, hi, content, blocks) is Ok {
                law_a_word_names_the_one_construct_that_opens_with_it(
                    path,
                    word,
                    lo,
                    hi,
                    content,
                    blocks,
                );
            }
        }
    }
}

// ---------------------------------------------------------------------------
// The operations
// ---------------------------------------------------------------------------

/// Whether the rows of an operation are not all of one kind that means something
/// else: some `=` or `-` row, not only `=` rows, and not a lone `-`.
pub open spec fn mixed(marks: Seq<RowView>) -> bool {
    &&& exists|i: int| 0 <= i < marks.len() && of_file(#[trigger] marks[i])
    &&& exists|i: int|
        0 <= i < marks.len() && (#[trigger] marks[i] matches RowView::Mark(m, _) && m != Mark::Keep)
    &&& marks.len() > 1
}

/// Whether line `first` is the one place of `lo..=hi` that reads as the
/// operation does.
pub open spec fn only_place(
    rows: Seq<Seq<char>>,
    marks: Seq<RowView>,
    lo: int,
    hi: int,
    first: int,
) -> bool {
    let k = stood(marks, marks.len() as int);
    &&& lo <= first && first + k - 1 <= hi
    &&& reads(rows, marks, first)
    &&& forall|s: int| lo <= s && s + k - 1 <= hi && #[trigger] reads(rows, marks, s) ==> s == first
}

/// An operation with rows of the file replaces the one place that reads as they
/// do: a row it keeps stands in the result as the file has it, character for
/// character, a row it deletes is gone, a row it adds stands where it was
/// written; and every row above and below is the file's own.
pub proof fn law_matched_rows_are_rewritten_in_place<B: Blocks>(
    section: SectionView,
    g: Seq<RowView>,
    n: int,
    content: Seq<char>,
    blocks: &B,
)
    requires
        shaped(g, n),
        mixed(g.skip(n)),
        in_file(blocks, section.path, content),
        group_ops(section, g, content, blocks) is Ok,
    ensures
        ({
            let marks = g.skip(n);
            let ops = group_ops(section, g, content, blocks)->Ok_0;
            let scope = window(section.path, g.take(n), n, content, blocks)->Ok_0;
            let k = stood(marks, marks.len() as int);
            let rows = file_rows(content);
            &&& n == 0 ==> scope == (1int, lines(content).len() as int)
            &&& exists|first: int, out: Seq<Seq<char>>|
                {
                    &&& only_place(lines(content), marks, scope.0, scope.1, first)
                    &&& #[trigger] becomes(lines(content), marks, first, out)
                    &&& new_rows(rows, ops) == rows.take(first - 1) + out + rows.skip(first - 1 + k)
                    &&& built(section.path, ops, content, blocks) is Ok
                    &&& built(section.path, ops, content, blocks)->Ok_0.content == rejoined(
                        rows.take(first - 1) + out + rows.skip(first - 1 + k),
                        trailing(content),
                        has_crlf(content),
                    )
                }
        }),
{
    lemma_shaped(g, n);
    let scopes = g.take(n);
    let marks = g.skip(n);
    let m = marks.len() as int;
    let i = choose|i: int| 0 <= i < marks.len() && of_file(#[trigger] marks[i]);
    let j = choose|i: int|
        0 <= i < marks.len() && (#[trigger] marks[i] matches RowView::Mark(m, _) && m != Mark::Keep);
    assert(!all_marked(marks, Mark::Add)) by {
        assert(marks[i] is Mark);
    }
    assert(!all_marked(marks, Mark::Keep)) by {
        assert(marks[j] is Mark);
    }
    assert(window(section.path, scopes, n, content, blocks) is Ok);
    let (lo, hi) = window(section.path, scopes, n, content, blocks)->Ok_0;
    lemma_window(section.path, scopes, n, content, blocks);
    assert(group_ops(section, g, content, blocks) == match_ops(
        section,
        marks,
        lo,
        hi,
        content,
        blocks,
    ));
    lemma_counts_order(marks, i, m);
    lemma_counts(marks, i);
    let first = lemma_matched(section, marks, lo, hi, content, blocks);
    assert(becomes(
        lines(content),
        marks,
        first,
        leading(marks) + replaced(marks, lines(content), first),
    ));
}

/// Where an operation matched, and what it made of the file.
proof fn lemma_matched<B: Blocks>(
    section: SectionView,
    marks: Seq<RowView>,
    lo: int,
    hi: int,
    content: Seq<char>,
    blocks: &B,
) -> (first: int)
    requires
        1 <= lo,
        hi <= lines(content).len(),
        stood(marks, marks.len() as int) > 0,
        match_ops(section, marks, lo, hi, content, blocks) is Ok,
    ensures
        ({
            let ops = match_ops(section, marks, lo, hi, content, blocks)->Ok_0;
            let k = stood(marks, marks.len() as int);
            let rows = file_rows(content);
            let out = leading(marks) + replaced(marks, lines(content), first);
            &&& only_place(lines(content), marks, lo, hi, first)
            &&& becomes(lines(content), marks, first, out)
            &&& new_rows(rows, ops) == rows.take(first - 1) + out + rows.skip(first - 1 + k)
            &&& built(section.path, ops, content, blocks) is Ok
            &&& built(section.path, ops, content, blocks)->Ok_0.content == rejoined(
                rows.take(first - 1) + out + rows.skip(first - 1 + k),
                trailing(content),
                has_crlf(content),
            )
        }),
{
    let m = marks.len() as int;
    let rows = lines(content);
    let wanted = core_texts(marks);
    assert(marks.take(m) =~= marks);
    lemma_core(marks, m);
    let k = wanted.len() as int;
    let places = fitting(rows, wanted, lo, hi + 1 - k);
    let first = places[0];
    assert(only_place(rows, marks, lo, hi, first)) by {
        lemma_fitting(rows, wanted, lo, hi + 1 - k);
        lemma_reads(rows, marks, first);
        assert forall|s: int|
            lo <= s && s + k - 1 <= hi && #[trigger] reads(rows, marks, s) implies s == first by {
            lemma_reads(rows, marks, s);
            assert(fits(rows, wanted, s));
            assert(places.contains(s));
        }
    }
    lemma_out(marks, rows, first, m);
    let lead = leading(marks);
    let body = replaced(marks, rows, first);
    lemma_file_rows(content);
    let ops = match_ops(section, marks, lo, hi, content, blocks)->Ok_0;
    if lead.len() > 0 {
        assert(ops =~= seq![
            OpView::InsertBefore { line: first, body: lead },
            OpView::Replace { start: first, end: first + k - 1, body },
        ]);
    } else {
        assert(ops =~= seq![OpView::Replace { start: first, end: first + k - 1, body }]);
    }
    lemma_one_range(section.path, content, ops, lead, body, first, first + k - 1, blocks);
    first
}

/// Only `+` rows under one scope replace the construct the scope names.
pub proof fn law_added_rows_alone_replace_the_construct<B: Blocks>(
    section: SectionView,
    g: Seq<RowView>,
    content: Seq<char>,
    blocks: &B,
)
    requires
        shaped(g, 1),
        forall|i: int|
            1 <= i < g.len() ==> (#[trigger] g[i] matches RowView::Mark(m, _) && m == Mark::Add),
        in_file(blocks, section.path, content),
        group_ops(section, g, content, blocks) is Ok,
    ensures
        ({
            let rows = file_rows(content);
            let ops = group_ops(section, g, content, blocks)->Ok_0;
            let texts = Seq::new((g.len() - 1) as nat, |i: int| g[i + 1]->Mark_1);
            exists|line: usize|
                {
                    &&& #[trigger] only_opening(
                        blocks,
                        section.path,
                        content,
                        g[0]->At_0,
                        1,
                        lines(content).len() as int,
                        line,
                    )
                    &&& blocks.extent_at(section.path, content, line) is Some
                    &&& new_rows(rows, ops) == rows.take(
                        blocks.extent_at(section.path, content, line)->Some_0.0 - 1,
                    ) + texts + rows.skip(
                        blocks.extent_at(section.path, content, line)->Some_0.1 as int,
                    )
                }
        }),
{
    lemma_shaped(g, 1);
    let scopes = g.take(1);
    let marks = g.skip(1);
    assert(all_marked(marks, Mark::Add)) by {
        assert forall|i: int| 0 <= i < marks.len() implies (#[trigger] marks[i] matches RowView::Mark(k, _)
            && k == Mark::Add) by {
            assert(marks[i] == g[i + 1]);
        }
    }
    assert(scopes[0] == g[0] && g[0] is At);
    let n = lines(content).len() as int;
    law_a_word_names_the_one_construct_that_opens_with_it(
        section.path,
        g[0]->At_0,
        1,
        n,
        content,
        blocks,
    );
    let (s, e) = named(section.path, g[0]->At_0, 1, n, content, blocks)->Ok_0;
    let line = choose|line: usize|
        #[trigger] only_opening(blocks, section.path, content, g[0]->At_0, 1, n, line)
            && blocks.extent_at(section.path, content, line) is Some && (s, e) == (
            blocks.extent_at(section.path, content, line)->Some_0.0 as int,
            blocks.extent_at(section.path, content, line)->Some_0.1 as int,
        );
    let texts = Seq::new((g.len() - 1) as nat, |i: int| g[i + 1]->Mark_1);
    let ops = group_ops(section, g, content, blocks)->Ok_0;
    assert(row_texts(marks) =~= texts) by {
        assert forall|i: int| 0 <= i < marks.len() implies row_texts(marks)[i] == texts[i] by {
            assert(marks[i] == g[i + 1]);
            assert(g[i + 1] is Mark);
        }
    }
    lemma_file_rows(content);
    lemma_one_range(section.path, content, ops, Seq::empty(), texts, s, e, blocks);
    assert(Seq::<Seq<char>>::empty() + texts =~= texts);
    assert(only_opening(blocks, section.path, content, g[0]->At_0, 1, n, line));
}

pub(crate) proof fn lemma_star_at(g: Seq<RowView>)
    requires
        starred(g),
    ensures
        0 <= star_at(g) < g.len(),
        g[star_at(g)] is Star,
        forall|i: int| 0 <= i < star_at(g) ==> !(#[trigger] g[i] is Star),
    decreases g.len(),
{
    if !(g[0] is Star) {
        let t = g.skip(1);
        let k = choose|i: int| 0 <= i < g.len() && #[trigger] g[i] is Star;
        assert(t[k - 1] is Star);
        lemma_star_at(t);
        assert forall|i: int| 0 <= i < star_at(g) implies !(#[trigger] g[i] is Star) by {
            if i > 0 {
                assert(t[i - 1] == g[i]);
            }
        }
    }
}

/// Whether an operation is a `*` row at `ix` with `+` rows around it.
pub open spec fn around_star(g: Seq<RowView>, ix: int) -> bool {
    &&& 0 <= ix < g.len()
    &&& g[ix] is Star
    &&& forall|i: int|
        0 <= i < g.len() && i != ix ==> (#[trigger] g[i] matches RowView::Mark(m, _) && m
            == Mark::Add)
}

/// `+` rows around a `*` row are put above and below the construct it names, the
/// rows of which stay.
pub proof fn law_rows_around_a_star_are_put_around_the_construct<B: Blocks>(
    section: SectionView,
    g: Seq<RowView>,
    ix: int,
    content: Seq<char>,
    blocks: &B,
)
    requires
        around_star(g, ix),
        in_file(blocks, section.path, content),
        group_ops(section, g, content, blocks) is Ok,
    ensures
        ({
            let rows = file_rows(content);
            let ops = group_ops(section, g, content, blocks)->Ok_0;
            let above = Seq::new(ix as nat, |i: int| g[i]->Mark_1);
            let below = Seq::new((g.len() - ix - 1) as nat, |i: int| g[ix + 1 + i]->Mark_1);
            exists|line: usize|
                {
                    &&& #[trigger] only_opening(
                        blocks,
                        section.path,
                        content,
                        g[ix]->Star_0,
                        1,
                        lines(content).len() as int,
                        line,
                    )
                    &&& blocks.extent_at(section.path, content, line) matches Some((s, e))
                    &&& new_rows(rows, ops) == rows.take(s - 1) + above + rows.subrange(
                        s - 1,
                        e as int,
                    ) + below + rows.skip(e as int)
                }
        }),
{
    assert(g[ix] is Star);
    lemma_star_at(g);
    assert(star_at(g) == ix) by {
        assert(g[star_at(g)] is Star);
    }
    let n = lines(content).len() as int;
    let word = g[ix]->Star_0;
    law_a_word_names_the_one_construct_that_opens_with_it(
        section.path,
        word,
        1,
        n,
        content,
        blocks,
    );
    let (s, e) = named(section.path, word, 1, n, content, blocks)->Ok_0;
    let line = choose|line: usize|
        #[trigger] only_opening(blocks, section.path, content, word, 1, n, line)
            && blocks.extent_at(section.path, content, line) is Some && (s, e) == (
            blocks.extent_at(section.path, content, line)->Some_0.0 as int,
            blocks.extent_at(section.path, content, line)->Some_0.1 as int,
        );
    let above = Seq::new(ix as nat, |i: int| g[i]->Mark_1);
    let below = Seq::new((g.len() - ix - 1) as nat, |i: int| g[ix + 1 + i]->Mark_1);
    assert(row_texts(g.take(ix)) =~= above) by {
        assert forall|i: int| 0 <= i < ix implies row_texts(g.take(ix))[i] == above[i] by {
            assert(g[i] is Mark);
        }
    }
    assert(row_texts(g.skip(ix + 1)) =~= below) by {
        assert forall|i: int| 0 <= i < below.len() implies row_texts(g.skip(ix + 1))[i]
            == below[i] by {
            assert(g[ix + 1 + i] is Mark);
        }
    }
    let ops = group_ops(section, g, content, blocks)->Ok_0;
    let rows = file_rows(content);
    lemma_file_rows(content);
    lemma_two_inserts(rows, ops, above, below, s, e);
    assert(only_opening(blocks, section.path, content, word, 1, n, line));
}

/// Rows put in front of line `s` and behind line `e`.
proof fn lemma_two_inserts(
    rows: Seq<Seq<char>>,
    ops: Seq<OpView>,
    above: Seq<Seq<char>>,
    below: Seq<Seq<char>>,
    s: int,
    e: int,
)
    requires
        1 <= s <= e <= rows.len(),
        ops == (if above.len() > 0 {
            seq![OpView::InsertBefore { line: s, body: above }]
        } else {
            Seq::empty()
        }) + (if below.len() > 0 {
            seq![OpView::InsertBefore { line: e + 1, body: below }]
        } else {
            Seq::empty()
        }),
    ensures
        new_rows(rows, ops) == rows.take(s - 1) + above + rows.subrange(s - 1, e) + below
            + rows.skip(e),
{
    let a = if above.len() > 0 {
        seq![OpView::InsertBefore { line: s, body: above }]
    } else {
        Seq::empty()
    };
    let one = OpView::InsertBefore { line: e + 1, body: below };
    assert(spans_of(Seq::<OpView>::empty()) =~= Seq::empty());
    assert(inserted(Seq::<OpView>::empty(), s) =~= Seq::empty());
    assert(inserted(Seq::<OpView>::empty(), e + 1) =~= Seq::empty());
    if above.len() > 0 {
        assert(a.drop_last() =~= Seq::empty());
    } else {
        assert(above =~= Seq::empty());
    }
    assert(spans_of(a) =~= Seq::empty());
    assert(inserted(a, s) =~= above);
    assert(inserted(a, e + 1) =~= Seq::empty());
    if below.len() > 0 {
        assert(ops =~= a.push(one));
        assert(ops.drop_last() =~= a);
        assert(ops.last() == one);
    } else {
        assert(ops =~= a);
        assert(below =~= Seq::empty());
    }
    assert(spans_of(ops) =~= Seq::empty());
    assert(inserted(ops, s) =~= above);
    assert(inserted(ops, e + 1) =~= below);
    assert forall|l: int| l != s && l != e + 1 implies #[trigger] inserted(ops, l)
        == Seq::<Seq<char>>::empty() by {
        lemma_none_inserted(ops, l);
    }
    let spans = spans_of(ops);
    assert forall|l: int| true implies #[trigger] span_at(spans, l) is None by {}
    let n = rows.len() as int;
    lemma_swept_plain(rows, ops, 0, s - 1);
    assert(swept(rows, ops, 0) =~= Seq::empty());
    assert(swept(rows, ops, s - 1) =~= rows.take(s - 1));
    assert(stands(rows, spans, s) == seq![rows[s - 1]]);
    assert(swept(rows, ops, s) =~= rows.take(s - 1) + above + seq![rows[s - 1]]);
    lemma_swept_plain(rows, ops, s, e);
    assert(rows.subrange(s - 1, e) =~= seq![rows[s - 1]] + rows.subrange(s, e));
    let upto = rows.take(s - 1) + above + rows.subrange(s - 1, e);
    assert(swept(rows, ops, e) =~= upto);
    if e < n {
        assert(stands(rows, spans, e + 1) == seq![rows[e]]);
        assert(swept(rows, ops, e + 1) =~= upto + below + seq![rows[e]]);
        lemma_swept_plain(rows, ops, e + 1, n);
        assert(rows.skip(e) =~= seq![rows[e]] + rows.subrange(e + 1, n));
        assert(inserted(ops, n + 1) == Seq::<Seq<char>>::empty());
        assert(new_rows(rows, ops) =~= upto + below + rows.skip(e));
    } else {
        assert(rows.skip(e) =~= Seq::empty());
        assert(new_rows(rows, ops) =~= upto + below + rows.skip(e));
    }
}

// ---------------------------------------------------------------------------
// A lone deletion
// ---------------------------------------------------------------------------

/// Whether line `l` is one that a deletion of `text` in `lo..=hi` leaves.
pub open spec fn left(
    rows: Seq<Seq<char>>,
    text: Seq<char>,
    lo: int,
    hi: int,
    l: int,
) -> bool {
    !(lo <= l <= hi && shows(rows[l - 1], text))
}

/// How many of the first `n` lines a deletion leaves.
pub open spec fn left_upto(
    rows: Seq<Seq<char>>,
    text: Seq<char>,
    lo: int,
    hi: int,
    n: int,
) -> int
    decreases n,
{
    if n <= 0 {
        0
    } else {
        left_upto(rows, text, lo, hi, n - 1) + if left(rows, text, lo, hi, n) {
            1int
        } else {
            0
        }
    }
}

proof fn lemma_holding(rows: Seq<Seq<char>>, text: Seq<char>, lo: int, hi: int)
    requires
        1 <= lo,
        hi <= rows.len(),
    ensures
        ({
            let hits = holding(rows, text, lo, hi);
            &&& forall|l: int|
                #[trigger] hits.contains(l) <==> lo <= l <= hi && shows(rows[l - 1], text)
            &&& forall|i: int, j: int| 0 <= i < j < hits.len() ==> hits[i] < hits[j]
        }),
    decreases hi - lo + 1,
{
    let hits = holding(rows, text, lo, hi);
    if hi >= lo {
        let before = holding(rows, text, lo, hi - 1);
        lemma_holding(rows, text, lo, hi - 1);
        lemma_shows(rows[hi - 1], text);
        assert forall|l: int|
            #[trigger] hits.contains(l) <==> lo <= l <= hi && shows(rows[l - 1], text) by {
            if hits.contains(l) {
                let i = choose|i: int| 0 <= i < hits.len() && hits[i] == l;
                if i < before.len() {
                    assert(before[i] == l);
                    assert(before.contains(l));
                }
            }
            if lo <= l <= hi && shows(rows[l - 1], text) {
                if l < hi {
                    assert(before.contains(l));
                    let i = choose|i: int| 0 <= i < before.len() && before[i] == l;
                    assert(hits[i] == l);
                } else {
                    assert(hits[hits.len() - 1] == l);
                }
            }
        }
        assert forall|i: int, j: int| 0 <= i < j < hits.len() implies hits[i] < hits[j] by {
            assert(i < before.len());
            assert(before.contains(before[i]));
            if j < before.len() {
                assert(before[i] < before[j]);
            }
        }
    }
}

/// Whether a range of an operation takes line `l` and puts nothing there.
spec fn drops(op: OpView, l: int) -> bool {
    op matches OpView::Replace { start, end, body } && start <= l <= end && body.len() == 0
}

proof fn lemma_runs(hits: Seq<int>)
    requires
        forall|i: int, j: int| 0 <= i < j < hits.len() ==> hits[i] < hits[j],
    ensures
        ({
            let ops = run_ops(hits);
            &&& (ops.len() == 0) == (hits.len() == 0)
            &&& forall|j: int|
                0 <= j < ops.len() ==> (#[trigger] ops[j] matches OpView::Replace { start, end, body }
                    && start <= end && body.len() == 0)
            &&& ops.len() > 0 ==> ops.last()->Replace_end == hits.last()
            &&& forall|l: int|
                #[trigger] hits.contains(l) <==> exists|j: int|
                    0 <= j < ops.len() && drops(#[trigger] ops[j], l)
        }),
    decreases hits.len(),
{
    let ops = run_ops(hits);
    if hits.len() > 0 {
        let less = hits.drop_last();
        let rest = run_ops(less);
        let n = hits.last();
        lemma_runs(less);
        let grown = rest.len() > 0 && rest.last()->Replace_end + 1 == n;
        if rest.len() > 0 {
            assert(rest[rest.len() - 1] is Replace);
        }
        assert forall|l: int|
            #[trigger] hits.contains(l) <==> exists|j: int|
                0 <= j < ops.len() && drops(#[trigger] ops[j], l) by {
            if hits.contains(l) {
                let i = choose|i: int| 0 <= i < hits.len() && hits[i] == l;
                if i < less.len() {
                    assert(less[i] == l);
                    assert(less.contains(l));
                    let j = choose|j: int| 0 <= j < rest.len() && drops(#[trigger] rest[j], l);
                    assert(drops(ops[j], l));
                } else {
                    assert(drops(ops[ops.len() - 1], l));
                }
            }
            if exists|j: int| 0 <= j < ops.len() && drops(#[trigger] ops[j], l) {
                let j = choose|j: int| 0 <= j < ops.len() && drops(#[trigger] ops[j], l);
                if l == n {
                    assert(hits[hits.len() - 1] == l);
                } else {
                    if j < rest.len() {
                        assert(drops(rest[j], l));
                        assert(less.contains(l));
                    }
                    let i = choose|i: int| 0 <= i < less.len() && less[i] == l;
                    assert(hits[i] == l);
                }
            }
        }
    } else {
        assert(ops =~= Seq::empty());
    }
}

proof fn lemma_slotted_spans(sorted: Seq<SpanView>, s: SpanView)
    ensures
        forall|x: SpanView|
            #[trigger] span_slotted(sorted, s).contains(x) <==> sorted.contains(x) || x == s,
    decreases sorted.len(),
{
    let now = span_slotted(sorted, s);
    if sorted.len() > 0 && s.start < sorted.last().start {
        let less = sorted.drop_last();
        let inner = span_slotted(less, s);
        lemma_slotted_spans(less, s);
        assert forall|x: SpanView|
            #[trigger] now.contains(x) <==> sorted.contains(x) || x == s by {
            if now.contains(x) {
                let i = choose|i: int| 0 <= i < now.len() && now[i] == x;
                if i < inner.len() {
                    assert(inner[i] == x);
                    assert(inner.contains(x));
                    if less.contains(x) {
                        let k = choose|k: int| 0 <= k < less.len() && less[k] == x;
                        assert(sorted[k] == x);
                    }
                } else {
                    assert(sorted[sorted.len() - 1] == x);
                }
            }
            if sorted.contains(x) || x == s {
                if sorted.contains(x) {
                    let k = choose|k: int| 0 <= k < sorted.len() && sorted[k] == x;
                    if k < less.len() {
                        assert(less[k] == x);
                        assert(less.contains(x));
                        assert(inner.contains(x));
                        let i = choose|i: int| 0 <= i < inner.len() && inner[i] == x;
                        assert(now[i] == x);
                    } else {
                        assert(now[now.len() - 1] == x);
                    }
                } else {
                    assert(inner.contains(x));
                    let i = choose|i: int| 0 <= i < inner.len() && inner[i] == x;
                    assert(now[i] == x);
                }
            }
        }
    } else {
        assert forall|x: SpanView|
            #[trigger] now.contains(x) <==> sorted.contains(x) || x == s by {
            if sorted.contains(x) {
                let k = choose|k: int| 0 <= k < sorted.len() && sorted[k] == x;
                assert(now[k] == x);
            }
            if x == s {
                assert(now[now.len() - 1] == x);
            }
        }
    }
}

/// The ranges of the operations are the spans, and the spans are those.
proof fn lemma_spans(ops: Seq<OpView>)
    ensures
        forall|x: SpanView|
            #[trigger] spans_of(ops).contains(x) <==> exists|j: int|
                0 <= j < ops.len() && #[trigger] ops[j] == (OpView::Replace {
                    start: x.start,
                    end: x.end,
                    body: x.body,
                }),
    decreases ops.len(),
{
    let spans = spans_of(ops);
    if ops.len() > 0 {
        let less = ops.drop_last();
        lemma_spans(less);
        let last = ops.last();
        if let OpView::Replace { start, end, body } = last {
            lemma_slotted_spans(spans_of(less), SpanView { start, end, body });
        }
        assert forall|x: SpanView|
            #[trigger] spans.contains(x) <==> exists|j: int|
                0 <= j < ops.len() && #[trigger] ops[j] == (OpView::Replace {
                    start: x.start,
                    end: x.end,
                    body: x.body,
                }) by {
            let r = OpView::Replace { start: x.start, end: x.end, body: x.body };
            if spans.contains(x) {
                if spans_of(less).contains(x) {
                    let j = choose|j: int| 0 <= j < less.len() && #[trigger] less[j] == r;
                    assert(ops[j] == r);
                } else {
                    assert(ops[ops.len() - 1] == r);
                }
            }
            if exists|j: int| 0 <= j < ops.len() && #[trigger] ops[j] == r {
                let j = choose|j: int| 0 <= j < ops.len() && #[trigger] ops[j] == r;
                if j < less.len() {
                    assert(less[j] == r);
                    assert(spans_of(less).contains(x));
                }
            }
        }
    }
}

/// What stands for a line among the runs of a deletion.
proof fn lemma_run_stands(rows: Seq<Seq<char>>, hits: Seq<int>, l: int)
    requires
        forall|i: int, j: int| 0 <= i < j < hits.len() ==> hits[i] < hits[j],
        1 <= l <= rows.len(),
    ensures
        inserted(run_ops(hits), l).len() == 0,
        stands(rows, spans_of(run_ops(hits)), l) == if hits.contains(l) {
            Seq::<Seq<char>>::empty()
        } else {
            seq![rows[l - 1]]
        },
{
    let ops = run_ops(hits);
    let spans = spans_of(ops);
    lemma_runs(hits);
    lemma_spans(ops);
    lemma_none_inserted(ops, l);
    lemma_span_found(spans, l);
    assert forall|k: int| 0 <= k < spans.len() implies (#[trigger] spans[k]).start <= spans[k].end
        && spans[k].body.len() == 0 && (spans[k].start <= l <= spans[k].end ==> hits.contains(l)) by {
        assert(spans.contains(spans[k]));
        let j = choose|j: int|
            0 <= j < ops.len() && #[trigger] ops[j] == (OpView::Replace {
                start: spans[k].start,
                end: spans[k].end,
                body: spans[k].body,
            });
        assert(ops[j] is Replace);
        if spans[k].start <= l <= spans[k].end {
            assert(drops(ops[j], l));
        }
    }
    if hits.contains(l) {
        let j = choose|j: int| 0 <= j < ops.len() && drops(#[trigger] ops[j], l);
        let x = SpanView {
            start: ops[j]->Replace_start,
            end: ops[j]->Replace_end,
            body: ops[j]->Replace_body,
        };
        assert(spans.contains(x));
        let k = choose|k: int| 0 <= k < spans.len() && spans[k] == x;
        assert(spans[k].start <= l <= spans[k].end);
        if spans[k].start < l {
            assert(inside_span(spans, l));
        }
        assert(stands(rows, spans, l) =~= Seq::empty());
    }
}

/// A lone `-` row takes every row of the window that shows its text, and no
/// other: each of the others stands in the result, in the order of the file.
pub proof fn law_a_lone_deletion_takes_every_row_that_shows_it(
    section: SectionView,
    scoped: bool,
    pattern: Seq<char>,
    lo: int,
    hi: int,
    rows: Seq<Seq<char>>,
    file: Seq<Seq<char>>,
)
    requires
        1 <= lo,
        hi <= rows.len(),
        file.len() == rows.len(),
        trim(pattern).len() > 0,
        sweep_ops(section, scoped, pattern, lo, hi, rows) is Ok,
    ensures
        ({
            let new = new_rows(file, sweep_ops(section, scoped, pattern, lo, hi, rows)->Ok_0);
            let text = trim(pattern);
            &&& new.len() == left_upto(rows, text, lo, hi, rows.len() as int) < rows.len()
            &&& forall|l: int|
                1 <= l <= rows.len() && #[trigger] left(rows, text, lo, hi, l)
                    ==> new[left_upto(rows, text, lo, hi, l - 1)] == file[l - 1]
        }),
{
    let text = trim(pattern);
    let hits = holding(rows, text, lo, hi);
    let ops = run_ops(hits);
    let n = rows.len() as int;
    lemma_holding(rows, text, lo, hi);
    lemma_left(rows, file, text, lo, hi, n);
    lemma_runs(hits);
    lemma_none_inserted(ops, n + 1);
    assert(new_rows(file, ops) =~= swept(file, ops, n));
    assert(hits.contains(hits[0]));
    lemma_fewer(rows, text, lo, hi, hits[0], n);
}

proof fn lemma_fewer(rows: Seq<Seq<char>>, text: Seq<char>, lo: int, hi: int, l: int, n: int)
    requires
        1 <= l,
        !left(rows, text, lo, hi, l),
        0 <= n,
    ensures
        left_upto(rows, text, lo, hi, n) <= n,
        l <= n ==> left_upto(rows, text, lo, hi, n) < n,
    decreases n,
{
    if n > 0 {
        lemma_fewer(rows, text, lo, hi, l, n - 1);
    }
}

proof fn lemma_left(
    rows: Seq<Seq<char>>,
    file: Seq<Seq<char>>,
    text: Seq<char>,
    lo: int,
    hi: int,
    n: int,
)
    requires
        1 <= lo,
        hi <= rows.len(),
        0 <= n <= rows.len(),
        file.len() == rows.len(),
    ensures
        ({
            let some = swept(file, run_ops(holding(rows, text, lo, hi)), n);
            &&& some.len() == left_upto(rows, text, lo, hi, n)
            &&& forall|l: int|
                1 <= l <= n && #[trigger] left(rows, text, lo, hi, l) ==> 0 <= left_upto(
                    rows,
                    text,
                    lo,
                    hi,
                    l - 1,
                ) < some.len() && some[left_upto(rows, text, lo, hi, l - 1)] == file[l - 1]
        }),
    decreases n,
{
    if n > 0 {
        let hits = holding(rows, text, lo, hi);
        lemma_left(rows, file, text, lo, hi, n - 1);
        lemma_holding(rows, text, lo, hi);
        lemma_run_stands(file, hits, n);
        assert(hits.contains(n) == !left(rows, text, lo, hi, n));
    }
}

/// A bare `-` under a scope takes the whole construct.
pub proof fn law_a_bare_deletion_takes_the_construct<B: Blocks>(
    section: SectionView,
    pattern: Seq<char>,
    lo: int,
    hi: int,
    content: Seq<char>,
    blocks: &B,
)
    requires
        1 <= lo <= hi <= lines(content).len(),
        trim(pattern).len() == 0,
    ensures
        ({
            let done = sweep_ops(section, true, pattern, lo, hi, lines(content));
            let file = file_rows(content);
            &&& done is Ok
            &&& new_rows(file, done->Ok_0) == file.take(lo - 1) + file.skip(hi)
            &&& sweep_ops(section, false, pattern, lo, hi, lines(content)) is Err
        }),
{
    lemma_file_rows(content);
    let done = sweep_ops(section, true, pattern, lo, hi, lines(content));
    let none = Seq::<Seq<char>>::empty();
    let file = file_rows(content);
    lemma_one_range(section.path, content, done->Ok_0, none, none, lo, hi, blocks);
    assert(none + none =~= none);
    assert(file.take(lo - 1) + none =~= file.take(lo - 1));
}

// ---------------------------------------------------------------------------
// Scopes and ranges
// ---------------------------------------------------------------------------

/// Scopes narrow the window one after another: each names the one construct that
/// opens with it in the window of those before, and its rows are the window of
/// those behind.
pub proof fn law_scopes_narrow_the_window<B: Blocks>(
    path: Seq<char>,
    scopes: Seq<RowView>,
    n: int,
    content: Seq<char>,
    blocks: &B,
)
    requires
        0 <= n <= scopes.len(),
        window(path, scopes, n, content, blocks) is Ok,
    ensures
        n == 0 ==> window(path, scopes, n, content, blocks)->Ok_0 == (
            1int,
            lines(content).len() as int,
        ),
        n > 0 ==> window(path, scopes, n - 1, content, blocks) is Ok,
        n > 0 && scopes[n - 1] is At ==> exists|line: usize|
            {
                let (lo, hi) = window(path, scopes, n - 1, content, blocks)->Ok_0;
                &&& #[trigger] only_opening(
                    blocks,
                    path,
                    content,
                    scopes[n - 1]->At_0,
                    window(path, scopes, n - 1, content, blocks)->Ok_0.0,
                    window(path, scopes, n - 1, content, blocks)->Ok_0.1,
                    line,
                )
                &&& blocks.extent_at(path, content, line) is Some
                &&& window(path, scopes, n, content, blocks)->Ok_0.0 == blocks.extent_at(
                    path,
                    content,
                    line,
                )->Some_0.0
                &&& window(path, scopes, n, content, blocks)->Ok_0.1 == blocks.extent_at(
                    path,
                    content,
                    line,
                )->Some_0.1
            },
{
    if n > 0 {
        let (lo, hi) = window(path, scopes, n - 1, content, blocks)->Ok_0;
        law_a_word_names_the_one_construct_that_opens_with_it(
            path,
            row_text(scopes[n - 1]),
            lo,
            hi,
            content,
            blocks,
        );
    }
}

/// Ranges that are replaced together are apart, and nothing is put inside one of
/// them: a patch whose operations act on the same rows is refused whole.
pub proof fn law_ranges_that_stand_are_apart<B: Blocks>(
    path: Seq<char>,
    ops: Seq<OpView>,
    content: Seq<char>,
    blocks: &B,
)
    requires
        ops_fit(ops, lines(content).len() as int),
        built(path, ops, content, blocks) is Ok,
    ensures
        forall|a: int, b: int|
            0 <= a < b < spans_of(ops).len() ==> (#[trigger] spans_of(ops)[a]).end < (
            #[trigger] spans_of(ops)[b]).start,
        forall|x: SpanView| #[trigger]
            spans_of(ops).contains(x) <==> exists|j: int|
                0 <= j < ops.len() && #[trigger] ops[j] == (OpView::Replace {
                    start: x.start,
                    end: x.end,
                    body: x.body,
                }),
        forall|k: int, j: int|
            0 <= k < spans_of(ops).len() && 0 <= j < ops.len() && (
            #[trigger] ops[j] matches OpView::InsertBefore { line, .. } && (
            #[trigger] spans_of(ops)[k]).start < line <= spans_of(ops)[k].end) ==> false,
{
    let spans = spans_of(ops);
    lemma_spans(ops);
    lemma_spans_fit(ops, lines(content).len() as int);
    lemma_spans_apart(path, spans, 0, content, blocks);
    lemma_none_buried(path, spans, 0, ops, content, blocks);
    assert forall|k: int, j: int|
        0 <= k < spans.len() && 0 <= j < ops.len() && (
        #[trigger] ops[j] matches OpView::InsertBefore { line, .. } && (#[trigger] spans[k]).start
            < line <= spans[k].end) implies false by {
        lemma_buried_none(ops, spans[k].start, spans[k].end, j);
    }
}

} // verus!
