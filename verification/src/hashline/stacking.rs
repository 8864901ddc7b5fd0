//! Stacking the sections of one file: where every hunk stands once the later
//! sections have moved it, and which rows of the original it took.

use crate::hashline::apply::{landed_view, rows_taken, Landed};
use crate::hashline::landing::LandedView;
use crate::hashline::plan::{
    all_records, buried_line, file_rows, held_rows, inserted, inside_span, new_rows, recorded,
    records, rejoined, span_at, spans_of, swept, ChangeView, OpView, SpanView,
};
use crate::text::{rows, same};
use vstd::prelude::*;

verus! {

/// How many rows of the old text stand up to behind the first `k` hunks.
pub open spec fn old_upto(list: Seq<LandedView>, k: int) -> int {
    if k <= 0 {
        0
    } else {
        list[k - 1].took_at - 1 + list[k - 1].took.len()
    }
}

/// How many rows of the new text stand up to behind the first `k` hunks.
pub open spec fn new_upto(list: Seq<LandedView>, k: int) -> int {
    if k <= 0 {
        0
    } else {
        list[k - 1].end
    }
}

/// Whether hunk `k` stands behind the one before it, as far in the new text as
/// in the old one, and took the rows of the old text that it names.
pub open spec fn hunk_stands(list: Seq<LandedView>, k: int, old: Seq<Seq<char>>) -> bool {
    let l = list[k];
    &&& new_upto(list, k) < l.start <= l.end + 1
    &&& l.took_at - old_upto(list, k) == l.start - new_upto(list, k)
    &&& old_upto(list, k + 1) <= old.len()
    &&& l.took == old.subrange(l.took_at - 1, old_upto(list, k + 1))
}

/// Where the rows in front of hunk `k` end in the new text; for the last of
/// them, where the text ends.
pub open spec fn gap_end(list: Seq<LandedView>, k: int, new: Seq<Seq<char>>) -> int {
    if k < list.len() {
        list[k].start - 1
    } else {
        new.len() as int
    }
}

/// Whether the rows between hunk `k` and the one before it are the same in both
/// texts, and so are those behind the last hunk.
pub open spec fn gap_kept(
    list: Seq<LandedView>,
    k: int,
    old: Seq<Seq<char>>,
    new: Seq<Seq<char>>,
) -> bool {
    let from = new_upto(list, k);
    let to = gap_end(list, k, new);
    let shift = old_upto(list, k) - from;
    &&& 0 <= from <= to <= new.len()
    &&& 0 <= from + shift
    &&& to + shift <= old.len()
    &&& k == list.len() ==> to + shift == old.len()
    &&& forall|r: int| from <= r < to ==> #[trigger] new[r] == old[r + shift]
}

/// Whether the hunks lead from one text to the other: each took the rows it
/// names and stands where the rows it gave are, and every other row is kept.
pub open spec fn traces(
    list: Seq<LandedView>,
    old: Seq<Seq<char>>,
    new: Seq<Seq<char>>,
) -> bool {
    &&& forall|k: int| 0 <= k < list.len() ==> #[trigger] hunk_stands(list, k, old)
    &&& forall|k: int| 0 <= k <= list.len() ==> #[trigger] gap_kept(list, k, old, new)
}

// ---------------------------------------------------------------------------
// One hunk more
// ---------------------------------------------------------------------------

/// The first hunk from `i` on that does not end above row `s`.
pub open spec fn passed(list: Seq<LandedView>, i: int, s: int) -> int
    decreases list.len() - i,
{
    if i < list.len() && list[i].end + 1 <= s {
        passed(list, i + 1, s)
    } else {
        i
    }
}

/// The first hunk from `j` on that starts at row `to` or below it.
pub open spec fn met(list: Seq<LandedView>, j: int, to: int) -> int
    decreases list.len() - j,
{
    if j < list.len() && list[j].start < to {
        met(list, j + 1, to)
    } else {
        j
    }
}

/// The hunks that `l` acts on: from the first of them to before the second
/// number.
pub open spec fn touched(list: Seq<LandedView>, l: LandedView) -> (int, int) {
    let i = passed(list, 0, l.start);
    (i, met(list, i, l.start + l.took.len()))
}

/// The rows that `l` and the hunks it acts on cover, before `l` is done: from
/// the first of them to before the second number.
pub open spec fn covered(list: Seq<LandedView>, l: LandedView) -> (int, int) {
    let (i, j) = touched(list, l);
    let to = l.start + l.took.len();
    if i < j {
        (
            if list[i].start < l.start {
                list[i].start
            } else {
                l.start
            },
            if list[j - 1].end + 1 > to {
                list[j - 1].end + 1
            } else {
                to
            },
        )
    } else {
        (l.start, to)
    }
}

/// How many rows a hunk gave.
pub open spec fn gave(l: LandedView) -> int {
    l.end + 1 - l.start
}

/// `l` and the hunks it acts on as one hunk on the old text.
pub open spec fn fused(
    list: Seq<LandedView>,
    l: LandedView,
    old: Seq<Seq<char>>,
) -> LandedView {
    let (i, j) = touched(list, l);
    let (from, to) = covered(list, l);
    let took_at = from - new_upto(list, i) + old_upto(list, i);
    let took_to = to - new_upto(list, j) + old_upto(list, j);
    LandedView {
        start: from,
        end: to - 1 - l.took.len() + gave(l),
        took: old.subrange(took_at - 1, took_to - 1),
        took_at,
    }
}

/// A hunk `by` rows further down.
pub open spec fn lowered_by(l: LandedView, by: int) -> LandedView {
    LandedView { start: l.start + by, end: l.end + by, ..l }
}

/// The hunks once `l` is done to what they left: those above it stand, those it
/// acts on are one with it, and those below it move by what it adds.
pub open spec fn absorbed(
    list: Seq<LandedView>,
    l: LandedView,
    old: Seq<Seq<char>>,
) -> Seq<LandedView> {
    let (i, j) = touched(list, l);
    let by = gave(l) - l.took.len();
    list.take(i).push(fused(list, l, old)) + Seq::new(
        (list.len() - j) as nat,
        |k: int| lowered_by(list[j + k], by),
    )
}

/// The hunks once the first `n` of `more` are done, from the top down.
pub open spec fn absorbed_all(
    list: Seq<LandedView>,
    more: Seq<LandedView>,
    n: int,
    old: Seq<Seq<char>>,
) -> Seq<LandedView>
    decreases n,
{
    if n <= 0 {
        list
    } else {
        absorbed(absorbed_all(list, more, n - 1, old), more[n - 1], old)
    }
}

/// One hunk for the whole of a file.
pub open spec fn whole(old: Seq<Seq<char>>, n: int) -> Seq<LandedView> {
    seq![LandedView { start: 1, end: n, took: old, took_at: 1 }]
}

/// The hunks of a section on the original file, given those of the sections
/// before it. `old` is the original, `mid` what those sections left and `n` how
/// many rows there are in the end. Where the text they left does not read as the
/// rows they wrote, no row can be followed, and the file is one hunk.
pub open spec fn restacked(
    kept: Seq<LandedView>,
    more: Seq<LandedView>,
    old: Seq<Seq<char>>,
    mid: Seq<Seq<char>>,
    n: int,
) -> Seq<LandedView> {
    if traces(kept, old, mid) {
        absorbed_all(kept, more, more.len() as int, old)
    } else {
        whole(old, n)
    }
}

/// Whether a text was written from these rows, or reads as them.
pub open spec fn made_of(content: Seq<char>, rows: Seq<Seq<char>>) -> bool {
    ||| rows == file_rows(content)
    ||| exists|closed: bool, crlf_file: bool|
        content == #[trigger] rejoined(rows, closed, crlf_file)
}

/// Whether the hunks of a change lead from the file handed over to the rows of
/// the change.
pub open spec fn told(c: ChangeView, files: Seq<(Seq<char>, Seq<char>)>) -> bool {
    exists|rows: Seq<Seq<char>>|
        made_of(c.content, rows) && #[trigger] traces(c.landed, held_rows(files, c.path), rows)
}

/// Whether the hunks of every change do.
pub open spec fn all_told(
    changes: Seq<ChangeView>,
    files: Seq<(Seq<char>, Seq<char>)>,
) -> bool {
    forall|i: int| 0 <= i < changes.len() ==> told(#[trigger] changes[i], files)
}

// ---------------------------------------------------------------------------
// What the hunks of one section lead to
// ---------------------------------------------------------------------------

/// A hunk at the end of both texts.
pub proof fn lemma_trace_put(
    list: Seq<LandedView>,
    old: Seq<Seq<char>>,
    new: Seq<Seq<char>>,
    took: Seq<Seq<char>>,
    body: Seq<Seq<char>>,
)
    requires
        traces(list, old, new),
    ensures
        traces(
            list.push(
                LandedView {
                    start: new.len() as int + 1,
                    end: (new.len() + body.len()) as int,
                    took,
                    took_at: old.len() as int + 1,
                },
            ),
            old + took,
            new + body,
        ),
{
    let n = list.len() as int;
    let l = LandedView {
        start: new.len() as int + 1,
        end: (new.len() + body.len()) as int,
        took,
        took_at: old.len() as int + 1,
    };
    let all = list.push(l);
    let o = old + took;
    let w = new + body;
    assert forall|k: int| 0 <= k < all.len() implies #[trigger] hunk_stands(all, k, o) by {
        if k < n {
            assert(hunk_stands(list, k, old));
            assert(all[k] == list[k]);
            assert(k > 0 ==> all[k - 1] == list[k - 1]);
            assert(gap_kept(list, k, old, new));
            assert(list[k].took =~= o.subrange(list[k].took_at - 1, old_upto(list, k + 1)));
        } else {
            assert(gap_kept(list, n, old, new));
            assert(k > 0 ==> all[k - 1] == list[k - 1]);
            assert(took =~= o.subrange(old.len() as int, (old.len() + took.len()) as int));
        }
    }
    assert forall|k: int| 0 <= k <= all.len() implies #[trigger] gap_kept(all, k, o, w) by {
        if k <= n {
            assert(gap_kept(list, k, old, new));
            assert(k > 0 ==> all[k - 1] == list[k - 1]);
            assert(k < n ==> all[k] == list[k]);
        }
    }
}

/// A row kept at the end of both texts.
pub proof fn lemma_trace_keep(
    list: Seq<LandedView>,
    old: Seq<Seq<char>>,
    new: Seq<Seq<char>>,
    row: Seq<char>,
)
    requires
        traces(list, old, new),
    ensures
        traces(list, old.push(row), new.push(row)),
{
    let n = list.len() as int;
    let o = old.push(row);
    let w = new.push(row);
    assert forall|k: int| 0 <= k < n implies #[trigger] hunk_stands(list, k, o) by {
        assert(hunk_stands(list, k, old));
        assert(gap_kept(list, k, old, new));
        assert(list[k].took =~= o.subrange(list[k].took_at - 1, old_upto(list, k + 1)));
    }
    assert forall|k: int| 0 <= k <= n implies #[trigger] gap_kept(list, k, o, w) by {
        assert(gap_kept(list, k, old, new));
    }
}

/// One hunk for the whole of a file leads to any text.
pub proof fn lemma_whole_traces(old: Seq<Seq<char>>, new: Seq<Seq<char>>)
    ensures
        traces(whole(old, new.len() as int), old, new),
{
    let list = whole(old, new.len() as int);
    assert(old.subrange(0, old.len() as int) =~= old);
    assert(hunk_stands(list, 0, old));
    assert(gap_kept(list, 0, old, new));
    assert(gap_kept(list, 1, old, new));
}

/// Whether the replaced spans are rows of a file of `n` rows, stand apart, and
/// have no insertion buried in them.
pub open spec fn clear(ops: Seq<OpView>, n: int) -> bool {
    let spans = spans_of(ops);
    &&& forall|k: int|
        0 <= k < spans.len() ==> 1 <= (#[trigger] spans[k]).start <= spans[k].end <= n
    &&& forall|a: int, b: int|
        0 <= a < b < spans.len() ==> (#[trigger] spans[a]).end < (#[trigger] spans[b]).start
    &&& forall|k: int|
        0 <= k < spans.len() ==> buried_line(ops, (#[trigger] spans[k]).start, spans[k].end) is None
}

pub(crate) proof fn lemma_span_found(spans: Seq<SpanView>, line: int)
    ensures
        match span_at(spans, line) {
            Some(s) => exists|k: int|
                0 <= k < spans.len() && s == #[trigger] spans[k] && s.start == line,
            None => forall|k: int| 0 <= k < spans.len() ==> (#[trigger] spans[k]).start != line,
        },
    decreases spans.len(),
{
    if spans.len() > 0 && spans[0].start != line {
        let rest = spans.skip(1);
        lemma_span_found(rest, line);
        match span_at(rest, line) {
            Some(s) => {
                let k = choose|k: int|
                    0 <= k < rest.len() && s == #[trigger] rest[k] && s.start == line;
                assert(spans[k + 1] == s);
            },
            None => {
                assert forall|k: int| 0 <= k < spans.len() implies (#[trigger] spans[k]).start
                    != line by {
                    if k > 0 {
                        assert(rest[k - 1] == spans[k]);
                    }
                }
            },
        }
    } else if spans.len() > 0 {
        assert(spans[0] == span_at(spans, line)->Some_0);
    }
}

pub(crate) proof fn lemma_buried_none(ops: Seq<OpView>, start: int, end: int, i: int)
    requires
        buried_line(ops, start, end) is None,
        0 <= i < ops.len(),
    ensures
        ops[i] matches OpView::InsertBefore { line, .. } ==> !(start < line <= end),
    decreases ops.len(),
{
    if i > 0 {
        lemma_buried_none(ops.skip(1), start, end, i - 1);
        assert(ops.skip(1)[i - 1] == ops[i]);
    }
}

pub(crate) proof fn lemma_none_inserted(ops: Seq<OpView>, at: int)
    requires
        forall|i: int|
            0 <= i < ops.len() ==> ((#[trigger] ops[i]) matches OpView::InsertBefore { line, .. }
                ==> line != at),
    ensures
        inserted(ops, at) == Seq::<Seq<char>>::empty(),
    decreases ops.len(),
{
    if ops.len() > 0 {
        let rest = ops.drop_last();
        assert forall|i: int| 0 <= i < rest.len() implies ((
        #[trigger] rest[i]) matches OpView::InsertBefore { line, .. } ==> line != at) by {
            assert(rest[i] == ops[i]);
        }
        lemma_none_inserted(rest, at);
        assert(ops[ops.len() - 1] == ops.last());
    }
}

/// What is recorded of the lines up to `n` leads from those lines to the rows
/// they became; inside a span, from the lines up to its end.
proof fn lemma_records_trace(old: Seq<Seq<char>>, ops: Seq<OpView>, n: int)
    requires
        clear(ops, old.len() as int),
        0 <= n <= old.len(),
    ensures
        !inside_span(spans_of(ops), n + 1) ==> traces(
            records(old, ops, n),
            old.take(n),
            swept(old, ops, n),
        ),
        forall|k: int|
            0 <= k < spans_of(ops).len() && (#[trigger] spans_of(ops)[k]).start <= n
                < spans_of(ops)[k].end ==> traces(
                records(old, ops, n),
                old.take(spans_of(ops)[k].end),
                swept(old, ops, n),
            ),
    decreases n,
{
    let spans = spans_of(ops);
    if n == 0 {
        let none = records(old, ops, 0);
        assert(gap_kept(none, 0, old.take(0), swept(old, ops, 0)));
    } else {
        lemma_records_trace(old, ops, n - 1);
        lemma_span_found(spans, n);
        let list = records(old, ops, n - 1);
        let sw = swept(old, ops, n - 1);
        let put = inserted(ops, n);
        if inside_span(spans, n) {
            let k = choose|k: int|
                0 <= k < spans.len() && (#[trigger] spans[k]).start < n && n <= spans[k].end;
            assert forall|i: int| 0 <= i < ops.len() implies ((
            #[trigger] ops[i]) matches OpView::InsertBefore { line, .. } ==> line != n) by {
                lemma_buried_none(ops, spans[k].start, spans[k].end, i);
            }
            lemma_none_inserted(ops, n);
            assert(span_at(spans, n) is None) by {
                if span_at(spans, n) is Some {
                    let s = span_at(spans, n)->Some_0;
                    let m = choose|m: int|
                        0 <= m < spans.len() && s == #[trigger] spans[m] && s.start == n;
                    if m < k {
                        assert(spans[m].end < spans[k].start);
                    } else if k < m {
                        assert(spans[k].end < spans[m].start);
                    }
                }
            }
            assert(swept(old, ops, n) =~= sw);
            assert(records(old, ops, n) =~= list);
            assert(traces(list, old.take(spans[k].end), sw));
            assert(!inside_span(spans, n + 1) ==> spans[k].end == n);
            assert forall|m: int|
                0 <= m < spans.len() && (#[trigger] spans[m]).start <= n < spans[m].end implies m
                == k by {
                if m < k {
                    assert(spans[m].end < spans[k].start);
                } else if k < m {
                    assert(spans[k].end < spans[m].start);
                }
            }
        } else {
            let o = old.take(n - 1);
            assert(traces(list, o, sw));
            let first = recorded(sw.len() as int, put, Seq::empty(), n);
            let l1 = list + first;
            let w1 = sw + put;
            if put.len() > 0 {
                lemma_trace_put(list, o, sw, Seq::empty(), put);
                assert(o + Seq::<Seq<char>>::empty() =~= o);
                assert(l1 =~= list.push(first[0]));
            } else {
                assert(l1 =~= list);
                assert(w1 =~= sw);
            }
            assert(traces(l1, o, w1));
            match span_at(spans, n) {
                Some(s) => {
                    let k = choose|k: int|
                        0 <= k < spans.len() && s == #[trigger] spans[k] && s.start == n;
                    let took = old.subrange(n - 1, s.end);
                    lemma_trace_put(l1, o, w1, took, s.body);
                    assert(o + took =~= old.take(s.end));
                    let second = recorded(w1.len() as int, s.body, took, n);
                    assert(records(old, ops, n) =~= l1.push(second[0]));
                    assert(swept(old, ops, n) =~= w1 + s.body);
                    assert(!inside_span(spans, n + 1) ==> s.end == n) by {
                        if s.end > n {
                            assert(spans[k].start < n + 1 && n + 1 <= spans[k].end);
                        }
                    }
                    assert forall|m: int|
                        0 <= m < spans.len() && (#[trigger] spans[m]).start <= n
                            < spans[m].end implies m == k by {
                        if m < k {
                            assert(spans[m].end < spans[k].start);
                        } else if k < m {
                            assert(spans[k].end < spans[m].start);
                        }
                    }
                },
                None => {
                    lemma_trace_keep(l1, o, w1, old[n - 1]);
                    assert(o.push(old[n - 1]) =~= old.take(n));
                    assert(swept(old, ops, n) =~= w1.push(old[n - 1]));
                    assert(records(old, ops, n) =~= l1);
                    assert forall|m: int|
                        0 <= m < spans.len() && (#[trigger] spans[m]).start <= n
                            < spans[m].end implies false by {
                        assert(spans[m].start != n);
                        assert(inside_span(spans, n));
                    }
                },
            }
        }
    }
}

/// What is recorded of a section leads from the rows it found to the rows it
/// left: each hunk took the rows it names and stands where the rows it gave are,
/// and every other row is kept.
pub proof fn law_the_records_of_a_section_lead_to_its_rows(old: Seq<Seq<char>>, ops: Seq<OpView>)
    requires
        clear(ops, old.len() as int),
    ensures
        traces(all_records(old, ops), old, new_rows(old, ops)),
{
    let n = old.len() as int;
    let spans = spans_of(ops);
    lemma_records_trace(old, ops, n);
    assert(!inside_span(spans, n + 1));
    assert(old.take(n) =~= old);
    let list = records(old, ops, n);
    let sw = swept(old, ops, n);
    let put = inserted(ops, n + 1);
    if put.len() > 0 {
        lemma_trace_put(list, old, sw, Seq::empty(), put);
        assert(old + Seq::<Seq<char>>::empty() =~= old);
        let last = recorded(sw.len() as int, put, Seq::empty(), n + 1);
        assert(all_records(old, ops) =~= list.push(last[0]));
    } else {
        assert(all_records(old, ops) =~= list);
        assert(new_rows(old, ops) =~= sw);
    }
}

// ---------------------------------------------------------------------------
// What a hunk more leads to
// ---------------------------------------------------------------------------

proof fn lemma_upto_rises(
    list: Seq<LandedView>,
    old: Seq<Seq<char>>,
    new: Seq<Seq<char>>,
    a: int,
    b: int,
)
    requires
        traces(list, old, new),
        0 <= a <= b <= list.len(),
    ensures
        0 <= old_upto(list, a) <= old_upto(list, b) <= old.len(),
        0 <= new_upto(list, a) <= new_upto(list, b) <= new.len(),
    decreases b - a,
{
    assert(gap_kept(list, a, old, new));
    assert(gap_kept(list, b, old, new));
    if a < b {
        lemma_upto_rises(list, old, new, a, b - 1);
        assert(hunk_stands(list, b - 1, old));
        assert(gap_kept(list, b - 1, old, new));
    }
}

proof fn lemma_passed(list: Seq<LandedView>, i: int, s: int)
    requires
        0 <= i <= list.len(),
    ensures
        i <= passed(list, i, s) <= list.len(),
        forall|k: int| i <= k < passed(list, i, s) ==> (#[trigger] list[k]).end + 1 <= s,
        passed(list, i, s) < list.len() ==> list[passed(list, i, s)].end + 1 > s,
    decreases list.len() - i,
{
    if i < list.len() && list[i].end + 1 <= s {
        lemma_passed(list, i + 1, s);
    }
}

proof fn lemma_met(list: Seq<LandedView>, j: int, to: int)
    requires
        0 <= j <= list.len(),
    ensures
        j <= met(list, j, to) <= list.len(),
        forall|k: int| j <= k < met(list, j, to) ==> (#[trigger] list[k]).start < to,
        met(list, j, to) < list.len() ==> list[met(list, j, to)].start >= to,
    decreases list.len() - j,
{
    if j < list.len() && list[j].start < to {
        lemma_met(list, j + 1, to);
    }
}

/// Whether `l` can be done to a text of `n` rows.
pub open spec fn can_act(l: LandedView, n: int) -> bool {
    1 <= l.start <= l.end + 1 && l.start - 1 + l.took.len() <= n
}

/// The rows that `l` and the hunks it acts on cover are rows of both texts.
proof fn lemma_covered(
    list: Seq<LandedView>,
    l: LandedView,
    old: Seq<Seq<char>>,
    cur: Seq<Seq<char>>,
)
    requires
        traces(list, old, cur),
        can_act(l, cur.len() as int),
    ensures
        ({
            let (i, j) = touched(list, l);
            let (from, to) = covered(list, l);
            let took_at = from - new_upto(list, i) + old_upto(list, i);
            let took_to = to - new_upto(list, j) + old_upto(list, j);
            &&& 0 <= i <= j <= list.len()
            &&& 0 <= new_upto(list, i) < from <= l.start
            &&& l.start + l.took.len() <= to <= cur.len() + 1
            &&& 0 <= new_upto(list, j) < to
            &&& 0 <= old_upto(list, i) <= old.len()
            &&& 0 <= old_upto(list, j) <= old.len()
            &&& from <= gap_end(list, i, cur) + 1
            &&& to <= gap_end(list, j, cur) + 1
            &&& 1 <= took_at <= took_to <= old.len() + 1
            &&& forall|k: int| 0 <= k < i ==> (#[trigger] list[k]).end + 1 <= l.start
        }),
{
    let s = l.start;
    let e = l.start + l.took.len();
    let n = list.len() as int;
    lemma_passed(list, 0, s);
    let i = passed(list, 0, s);
    lemma_met(list, i, e);
    let j = met(list, i, e);
    lemma_upto_rises(list, old, cur, i, j);
    lemma_upto_rises(list, old, cur, j, n);
    assert(gap_kept(list, i, old, cur));
    assert(gap_kept(list, j, old, cur));
    if i > 0 {
        assert(list[i - 1].end + 1 <= s);
    }
    if i < n {
        assert(hunk_stands(list, i, old));
    }
    if i < j {
        assert(hunk_stands(list, j - 1, old));
        lemma_upto_rises(list, old, cur, i + 1, j);
        assert(list[j - 1].start < e);
    }
    if j < n {
        assert(hunk_stands(list, j, old));
    }
}

/// Whether `next` is `cur` with `l` done to it, whatever rows `l` gave.
pub open spec fn done_to(l: LandedView, cur: Seq<Seq<char>>, next: Seq<Seq<char>>) -> bool {
    let by = gave(l) - l.took.len();
    &&& next.len() == cur.len() + by
    &&& forall|r: int| 0 <= r < l.start - 1 ==> #[trigger] next[r] == cur[r]
    &&& forall|r: int|
        l.end <= r < next.len() ==> #[trigger] next[r] == cur[r - by]
}

/// The hunks with one more done lead from the old text to the text after it.
proof fn lemma_absorbed_traces(
    list: Seq<LandedView>,
    l: LandedView,
    old: Seq<Seq<char>>,
    cur: Seq<Seq<char>>,
    next: Seq<Seq<char>>,
)
    requires
        traces(list, old, cur),
        can_act(l, cur.len() as int),
        done_to(l, cur, next),
    ensures
        traces(absorbed(list, l, old), old, next),
{
    lemma_covered(list, l, old, cur);
    let n = list.len() as int;
    let (i, j) = touched(list, l);
    let (from, to) = covered(list, l);
    let f = fused(list, l, old);
    let by = gave(l) - l.took.len();
    let all = absorbed(list, l, old);
    assert(all.len() == i + 1 + (n - j));
    assert forall|k: int| 0 <= k < i implies #[trigger] all[k] == list[k] by {}
    assert(all[i] == f);
    assert forall|k: int| i < k < all.len() implies #[trigger] all[k] == lowered_by(
        list[j + (k - i - 1)],
        by,
    ) by {}
    assert(f.took.len() == (to - new_upto(list, j) + old_upto(list, j)) - f.took_at);
    assert forall|k: int| 0 <= k <= i implies #[trigger] old_upto(all, k) == old_upto(list, k)
        && new_upto(all, k) == new_upto(list, k) by {
        if k > 0 {
            assert(all[k - 1] == list[k - 1]);
        }
    }
    assert(old_upto(all, i + 1) == to - 1 - new_upto(list, j) + old_upto(list, j));
    assert(new_upto(all, i + 1) == to - 1 + by);
    assert forall|k: int| i + 1 < k <= all.len() implies #[trigger] old_upto(all, k) == old_upto(
        list,
        j + (k - i - 1),
    ) && new_upto(all, k) == new_upto(list, j + (k - i - 1)) + by by {
        assert(all[k - 1] == lowered_by(list[j + (k - 1 - i - 1)], by));
    }
    assert forall|k: int| 0 <= k < all.len() implies #[trigger] hunk_stands(all, k, old) by {
        if k < i {
            assert(hunk_stands(list, k, old));
            assert(all[k] == list[k]);
            assert(old_upto(all, k) == old_upto(list, k));
            assert(old_upto(all, k + 1) == old_upto(list, k + 1));
        } else if k == i {
            assert(old_upto(all, i) == old_upto(list, i));
            assert(old_upto(all, k + 1) == old_upto(all, i + 1));
        } else {
            let m = j + (k - i - 1);
            assert(hunk_stands(list, m, old));
            assert(gap_kept(list, m, old, cur));
            assert(all[k] == lowered_by(list[m], by));
            if k > i + 1 {
                assert(old_upto(all, k) == old_upto(list, m));
            } else {
                assert(gap_end(list, j, cur) == list[j].start - 1);
            }
            assert(old_upto(all, k + 1) == old_upto(list, m + 1)) by {
                assert(all[(k + 1) - 1] == lowered_by(list[m], by));
            }
        }
    }
    assert forall|k: int| 0 <= k <= all.len() implies #[trigger] gap_kept(all, k, old, next) by {
        if k < i {
            assert(gap_kept(list, k, old, cur));
            assert(hunk_stands(list, k, old));
            assert(all[k] == list[k]);
            assert(old_upto(all, k) == old_upto(list, k));
            assert(list[k].end + 1 <= l.start);
            let shift = old_upto(list, k) - new_upto(list, k);
            assert forall|r: int| new_upto(all, k) <= r < gap_end(all, k, next) implies
                #[trigger] next[r] == old[r + shift] by {
                assert(next[r] == cur[r]);
            }
        } else if k == i {
            assert(gap_kept(list, i, old, cur));
            assert(old_upto(all, k) == old_upto(list, k));
            assert(gap_end(all, k, next) == from - 1);
            let shift = old_upto(list, k) - new_upto(list, k);
            assert forall|r: int| new_upto(all, k) <= r < gap_end(all, k, next) implies
                #[trigger] next[r] == old[r + shift] by {
                assert(next[r] == cur[r]);
            }
        } else {
            let m = j + (k - i - 1);
            assert(gap_kept(list, m, old, cur));
            if k < all.len() {
                assert(all[k] == lowered_by(list[m], by));
            }
            if k > i + 1 {
                assert(old_upto(all, k) == old_upto(list, m));
                lemma_upto_rises(list, old, cur, j, m);
                lemma_behind(list, l, old, cur, m);
            }
            let shift = old_upto(list, m) - new_upto(list, m);
            assert(gap_end(all, k, next) == gap_end(list, m, cur) + by);
            assert(old_upto(all, k) - new_upto(all, k) == shift - by);
            assert(new_upto(all, k) >= l.end);
            assert forall|r: int| new_upto(all, k) <= r < gap_end(all, k, next) implies
                #[trigger] next[r] == old[r + (shift - by)] by {
                assert(next[r] == cur[r - by]);
                assert(cur[r - by] == old[(r - by) + shift]);
            }
        }
    }
}

/// A hunk that `l` does not reach ends below the rows `l` took.
proof fn lemma_behind(
    list: Seq<LandedView>,
    l: LandedView,
    old: Seq<Seq<char>>,
    cur: Seq<Seq<char>>,
    m: int,
)
    requires
        traces(list, old, cur),
        can_act(l, cur.len() as int),
        touched(list, l).1 < m <= list.len(),
    ensures
        new_upto(list, m) >= l.start - 1 + l.took.len(),
{
    lemma_covered(list, l, old, cur);
    let j = touched(list, l).1;
    assert(hunk_stands(list, j, old));
    assert(gap_kept(list, j, old, cur));
    lemma_upto_rises(list, old, cur, j + 1, m);
}

/// The text once the first `n` hunks of `more` are done.
pub open spec fn midway(
    more: Seq<LandedView>,
    n: int,
    mid: Seq<Seq<char>>,
    new: Seq<Seq<char>>,
) -> Seq<Seq<char>> {
    new.take(new_upto(more, n)) + mid.skip(old_upto(more, n))
}

/// The next hunk of `more` can be done to what the ones before it left, and
/// leaves what the ones up to it do.
proof fn lemma_midway(
    more: Seq<LandedView>,
    n: int,
    mid: Seq<Seq<char>>,
    new: Seq<Seq<char>>,
)
    requires
        traces(more, mid, new),
        0 <= n < more.len(),
    ensures
        can_act(more[n], midway(more, n, mid, new).len() as int),
        done_to(more[n], midway(more, n, mid, new), midway(more, n + 1, mid, new)),
        midway(more, n, mid, new).len() <= mid.len() + new.len(),
{
    let l = more[n];
    let cur = midway(more, n, mid, new);
    let next = midway(more, n + 1, mid, new);
    let a = new_upto(more, n);
    let b = old_upto(more, n);
    assert(hunk_stands(more, n, mid));
    assert(gap_kept(more, n, mid, new));
    assert(gap_kept(more, n + 1, mid, new));
    let by = gave(l) - l.took.len();
    assert forall|r: int| 0 <= r < l.start - 1 implies #[trigger] next[r] == cur[r] by {
        assert(next[r] == new[r]);
        if r >= a {
            assert(cur[r] == mid[b + (r - a)]);
            assert(new[r] == mid[r + (b - a)]);
        }
    }
    assert forall|r: int| l.end <= r < next.len() implies #[trigger] next[r] == cur[r - by] by {
        assert(next[r] == mid[old_upto(more, n + 1) + (r - l.end)]);
        assert(cur[r - by] == mid[b + (r - by - a)]);
    }
}

/// The hunks with some of a later section's done lead from the old text to what
/// those left.
proof fn lemma_absorbed_all(
    list: Seq<LandedView>,
    more: Seq<LandedView>,
    n: int,
    old: Seq<Seq<char>>,
    mid: Seq<Seq<char>>,
    new: Seq<Seq<char>>,
)
    requires
        traces(list, old, mid),
        traces(more, mid, new),
        0 <= n <= more.len(),
    ensures
        traces(absorbed_all(list, more, n, old), old, midway(more, n, mid, new)),
    decreases n,
{
    if n == 0 {
        assert(midway(more, 0, mid, new) =~= mid);
    } else {
        lemma_absorbed_all(list, more, n - 1, old, mid, new);
        lemma_midway(more, n - 1, mid, new);
        lemma_absorbed_traces(
            absorbed_all(list, more, n - 1, old),
            more[n - 1],
            old,
            midway(more, n - 1, mid, new),
            midway(more, n, mid, new),
        );
    }
}

/// Two sections stack: hunks that lead from one text to a second, and hunks that
/// lead from there to a third, make hunks that lead from the first to the third.
pub proof fn law_stacked_hunks_lead_all_the_way(
    kept: Seq<LandedView>,
    more: Seq<LandedView>,
    old: Seq<Seq<char>>,
    mid: Seq<Seq<char>>,
    new: Seq<Seq<char>>,
)
    requires
        traces(kept, old, mid),
        traces(more, mid, new),
    ensures
        traces(restacked(kept, more, old, mid, new.len() as int), old, new),
{
    let n = more.len() as int;
    lemma_absorbed_all(kept, more, n, old, mid, new);
    assert(gap_kept(more, n, mid, new));
    let end = midway(more, n, mid, new);
    let a = new_upto(more, n);
    let b = old_upto(more, n);
    assert forall|r: int| 0 <= r < new.len() implies #[trigger] end[r] == new[r] by {
        if r >= a {
            assert(end[r] == mid[b + (r - a)]);
            assert(new[r] == mid[r + (b - a)]);
        }
    }
    assert(end =~= new);
}

// ---------------------------------------------------------------------------
// Stacking them
// ---------------------------------------------------------------------------

/// Whether rows of the new text from `from` to before `to` are the rows of the
/// old one from `at` on.
fn same_rows(
    old: &[Vec<char>],
    at: usize,
    new: &[Vec<char>],
    from: usize,
    to: usize,
) -> (r: bool)
    requires
        from <= to <= new@.len(),
        at + (to - from) <= old@.len(),
    ensures
        r == forall|i: int|
            from <= i < to ==> #[trigger] rows(new@)[i] == rows(old@)[i + (at - from)],
{
    let size = old.len();
    let mut i: usize = from;
    while i < to
        invariant
            from <= i <= to <= new@.len(),
            at + (to - from) <= old@.len(),
            size == old@.len(),
            forall|k: int|
                from <= k < i ==> #[trigger] rows(new@)[k] == rows(old@)[k + (at - from)],
        decreases to - i,
    {
        if !same(new[i].as_slice(), old[at + (i - from)].as_slice()) {
            assert(rows(new@)[i as int] != rows(old@)[i + (at - from)]);
            return false;
        }
        assert(rows(new@)[i as int] == rows(old@)[i + (at - from)]);
        i += 1;
    }
    true
}

/// Whether the hunks, which took rows of `old`, lead to `new`.
fn leads(list: &[Landed], old: &[Vec<char>], new: &[Vec<char>]) -> (r: bool)
    requires
        forall|k: int|
            0 <= k < list@.len() ==> #[trigger] hunk_stands(landed_view(list@), k, rows(old@)),
    ensures
        r == traces(landed_view(list@), rows(old@), rows(new@)),
{
    let ghost v = landed_view(list@);
    let ghost o = rows(old@);
    let ghost w = rows(new@);
    let size = old.len();
    let mut from: usize = 0;
    let mut at: usize = 0;
    let mut k: usize = 0;
    assert(o.len() == old@.len() && w.len() == new@.len());
    while k < list.len()
        invariant
            k <= list@.len(),
            v == landed_view(list@),
            o == rows(old@),
            w == rows(new@),
            forall|i: int| 0 <= i < list@.len() ==> #[trigger] hunk_stands(v, i, o),
            forall|i: int| 0 <= i < k ==> #[trigger] gap_kept(v, i, o, w),
            from == new_upto(v, k as int),
            at == old_upto(v, k as int),
            at <= old@.len(),
            size == old@.len(),
        decreases list@.len() - k,
    {
        assert(hunk_stands(v, k as int, o));
        let l = &list[k];
        assert(v[k as int] == l@);
        let to = l.start - 1;
        if to > new.len() {
            assert(!gap_kept(v, k as int, o, w));
            return false;
        }
        assert(at + (to - from) == l.took_at - 1);
        if !same_rows(old, at, new, from, to) {
            assert(!gap_kept(v, k as int, o, w));
            return false;
        }
        assert(gap_kept(v, k as int, o, w));
        from = l.end;
        at = l.took_at - 1 + l.took.len();
        k += 1;
    }
    let n = new.len();
    if from > n || size - at != n - from {
        assert(!gap_kept(v, k as int, o, w));
        return false;
    }
    if !same_rows(old, at, new, from, n) {
        assert(!gap_kept(v, k as int, o, w));
        return false;
    }
    assert(gap_kept(v, k as int, o, w));
    true
}

/// A hunk while the later ones are done: the rows of the old text it takes, from
/// the first to before the second number, and where it stands so far. A text
/// halfway can be longer than either end.
#[derive(Clone, Copy)]
struct Hunk {
    start: u128,
    end: u128,
    took_at: usize,
    took_to: usize,
}

spec fn hunk_seen(h: Hunk, old: Seq<Seq<char>>) -> LandedView {
    LandedView {
        start: h.start as int,
        end: h.end as int,
        took: old.subrange(h.took_at - 1, h.took_to - 1),
        took_at: h.took_at as int,
    }
}

spec fn hunks_seen(v: Seq<Hunk>, old: Seq<Seq<char>>) -> Seq<LandedView> {
    Seq::new(v.len(), |i: int| hunk_seen(v[i], old))
}

spec fn in_old(v: Seq<Hunk>, n: int) -> bool {
    forall|i: int|
        0 <= i < v.len() ==> 1 <= (#[trigger] v[i]).took_at <= v[i].took_to <= n + 1
}

/// The landings as hunks that later ones can be done to.
fn opened(
    list: &[Landed],
    Ghost(old): Ghost<Seq<Seq<char>>>,
    Ghost(new): Ghost<Seq<Seq<char>>>,
) -> (r: Vec<Hunk>)
    requires
        traces(landed_view(list@), old, new),
        old.len() < usize::MAX,
    ensures
        hunks_seen(r@, old) == landed_view(list@),
        in_old(r@, old.len() as int),
{
    let ghost v = landed_view(list@);
    let mut r: Vec<Hunk> = Vec::new();
    let mut k: usize = 0;
    while k < list.len()
        invariant
            k <= list@.len(),
            v == landed_view(list@),
            traces(v, old, new),
            old.len() < usize::MAX,
            r@.len() == k,
            in_old(r@, old.len() as int),
            forall|i: int| 0 <= i < k ==> hunk_seen(#[trigger] r@[i], old) == v[i],
        decreases list@.len() - k,
    {
        assert(hunk_stands(v, k as int, old));
        assert(gap_kept(v, k as int, old, new));
        let l = &list[k];
        assert(v[k as int] == l@);
        let took_to = l.took_at + l.took.len();
        let h = Hunk {
            start: l.start as u128,
            end: l.end as u128,
            took_at: l.took_at,
            took_to,
        };
        assert(hunk_seen(h, old) == v[k as int]);
        r.push(h);
        k += 1;
    }
    assert(hunks_seen(r@, old) =~= v);
    r
}

/// One hunk more done to what the others left.
fn absorb(
    v: Vec<Hunk>,
    l: &Landed,
    Ghost(old): Ghost<Seq<Seq<char>>>,
    Ghost(cur): Ghost<Seq<Seq<char>>>,
) -> (r: Vec<Hunk>)
    requires
        in_old(v@, old.len() as int),
        traces(hunks_seen(v@, old), old, cur),
        can_act(l@, cur.len() as int),
        old.len() < usize::MAX,
        cur.len() <= 2 * usize::MAX,
    ensures
        hunks_seen(r@, old) == absorbed(hunks_seen(v@, old), l@, old),
        in_old(r@, old.len() as int),
{
    let ghost list = hunks_seen(v@, old);
    let ghost seen = l@;
    proof {
        lemma_covered(list, seen, old, cur);
        assert forall|k: int| 0 <= k < v@.len() implies 1 <= (#[trigger] v@[k]).start <= v@[k].end
            + 1 && v@[k].end <= cur.len() by {
            assert(list[k] == hunk_seen(v@[k], old));
            assert(hunk_stands(list, k, old));
            assert(gap_kept(list, k, old, cur));
            assert(gap_kept(list, k + 1, old, cur));
        }
    }
    let s = l.start as u128;
    let took = l.took.len() as u128;
    let given = (l.end as u128 + 1) - s;
    let e = s + took;
    let mut i: usize = 0;
    while i < v.len() && v[i].end + 1 <= s
        invariant
            i <= v@.len(),
            list == hunks_seen(v@, old),
            s == seen.start,
            cur.len() <= 2 * usize::MAX,
            forall|k: int| 0 <= k < v@.len() ==> (#[trigger] v@[k]).end <= cur.len(),
            passed(list, i as int, s as int) == passed(list, 0, s as int),
        decreases v@.len() - i,
    {
        i += 1;
    }
    assert(passed(list, i as int, s as int) == i);
    let mut j: usize = i;
    while j < v.len() && v[j].start < e
        invariant
            i <= j <= v@.len(),
            list == hunks_seen(v@, old),
            met(list, j as int, e as int) == met(list, i as int, e as int),
        decreases v@.len() - j,
    {
        j += 1;
    }
    assert(met(list, j as int, e as int) == j);
    assert(touched(list, seen) == (i as int, j as int));
    let mut from = s;
    let mut to = e;
    if i < j {
        if v[i].start < from {
            from = v[i].start;
        }
        if v[j - 1].end + 1 > to {
            to = v[j - 1].end + 1;
        }
    }
    assert(covered(list, seen) == (from as int, to as int));
    let above: (u128, u128) = if i > 0 {
        (v[i - 1].end, (v[i - 1].took_to - 1) as u128)
    } else {
        (0, 0)
    };
    let below: (u128, u128) = if j > 0 {
        (v[j - 1].end, (v[j - 1].took_to - 1) as u128)
    } else {
        (0, 0)
    };
    assert(above.0 == new_upto(list, i as int) && above.1 == old_upto(list, i as int)) by {
        if i > 0 {
            assert(in_old(v@, old.len() as int));
            assert(list[i - 1] == hunk_seen(v@[i - 1], old));
        }
    }
    assert(below.0 == new_upto(list, j as int) && below.1 == old_upto(list, j as int)) by {
        if j > 0 {
            assert(list[j - 1] == hunk_seen(v@[j - 1], old));
        }
    }
    let took_at = (from - above.0 + above.1) as usize;
    let took_to = (to - below.0 + below.1) as usize;
    let one = Hunk { start: from, end: to - 1 - took + given, took_at, took_to };
    assert(hunk_seen(one, old) == fused(list, seen, old));
    let mut r: Vec<Hunk> = Vec::new();
    let mut k: usize = 0;
    while k < i
        invariant
            k <= i <= v@.len(),
            list == hunks_seen(v@, old),
            in_old(v@, old.len() as int),
            in_old(r@, old.len() as int),
            r@ == v@.take(k as int),
        decreases i - k,
    {
        r.push(v[k]);
        k += 1;
        assert(r@ =~= v@.take(k as int));
    }
    r.push(one);
    let ghost want = absorbed(list, seen, old);
    let ghost by = gave(seen) - seen.took.len();
    assert(forall|m: int| 0 <= m < i ==> r@[m] == v@[m]);
    assert forall|m: int| j <= m < v@.len() implies (#[trigger] v@[m]).start >= e by {
        assert(list[m] == hunk_seen(v@[m], old));
        assert(hunk_stands(list, m, old));
        if m > j {
            lemma_behind(list, seen, old, cur, m);
        }
    }
    let mut k: usize = j;
    while k < v.len()
        invariant
            i <= j <= k <= v@.len(),
            list == hunks_seen(v@, old),
            in_old(v@, old.len() as int),
            in_old(r@, old.len() as int),
            forall|m: int|
                0 <= m < v@.len() ==> 1 <= (#[trigger] v@[m]).start <= v@[m].end + 1 && v@[m].end
                    <= cur.len(),
            forall|m: int| j <= m < v@.len() ==> (#[trigger] v@[m]).start >= e,
            cur.len() <= 2 * usize::MAX,
            e == s + took,
            s >= 1,
            given <= usize::MAX + 1,
            by == given - took,
            r@.len() == i + 1 + (k - j),
            forall|m: int| 0 <= m < i ==> r@[m] == v@[m],
            r@[i as int] == one,
            forall|m: int|
                i < m < r@.len() ==> hunk_seen(#[trigger] r@[m], old) == lowered_by(
                    list[j + (m - i - 1)],
                    by,
                ),
        decreases v@.len() - k,
    {
        let h = v[k];
        assert(list[k as int] == hunk_seen(h, old));
        let down = Hunk { start: h.start - took + given, end: h.end - took + given, ..h };
        assert(hunk_seen(down, old) == lowered_by(list[k as int], by));
        let ghost before = r@;
        r.push(down);
        assert forall|m: int| i < m < r@.len() implies hunk_seen(#[trigger] r@[m], old)
            == lowered_by(list[j + (m - i - 1)], by) by {
            if m < before.len() {
                assert(r@[m] == before[m]);
            }
        }
        k += 1;
    }
    assert(hunks_seen(r@, old) =~= want);
    r
}

/// The hunks as landings, once every later one is done.
fn settle(v: &[Hunk], old: &[Vec<char>], Ghost(new): Ghost<Seq<Seq<char>>>) -> (r: Vec<Landed>)
    requires
        in_old(v@, old@.len() as int),
        traces(hunks_seen(v@, rows(old@)), rows(old@), new),
        new.len() < usize::MAX,
    ensures
        landed_view(r@) == hunks_seen(v@, rows(old@)),
{
    let ghost o = rows(old@);
    let ghost list = hunks_seen(v@, o);
    let mut r: Vec<Landed> = Vec::new();
    let mut k: usize = 0;
    while k < v.len()
        invariant
            k <= v@.len(),
            o == rows(old@),
            list == hunks_seen(v@, o),
            in_old(v@, old@.len() as int),
            traces(list, o, new),
            new.len() < usize::MAX,
            r@.len() == k,
            forall|i: int| 0 <= i < k ==> (#[trigger] r@[i])@ == list[i],
        decreases v@.len() - k,
    {
        let h = v[k];
        assert(list[k as int] == hunk_seen(h, o));
        assert(hunk_stands(list, k as int, o));
        assert(gap_kept(list, k as int, o, new));
        assert(gap_kept(list, k + 1, o, new));
        let took = rows_taken(old, h.took_at - 1, h.took_to - 1);
        let l = Landed {
            start: h.start as usize,
            end: h.end as usize,
            took,
            took_at: h.took_at,
        };
        assert(l@ == list[k as int]);
        r.push(l);
        k += 1;
    }
    assert(landed_view(r@) =~= list);
    r
}

/// The landings of a section on the original file, given those of the sections
/// before it.
pub(crate) fn restack(
    kept: &[Landed],
    more: &[Landed],
    old: &[Vec<char>],
    mid: &[Vec<char>],
    n: usize,
    Ghost(new): Ghost<Seq<Seq<char>>>,
) -> (r: Vec<Landed>)
    requires
        forall|k: int|
            0 <= k < kept@.len() ==> #[trigger] hunk_stands(landed_view(kept@), k, rows(old@)),
        traces(landed_view(more@), rows(mid@), new),
        old@.len() < usize::MAX,
        new.len() < usize::MAX,
    ensures
        landed_view(r@) == restacked(
            landed_view(kept@),
            landed_view(more@),
            rows(old@),
            rows(mid@),
            n as int,
        ),
{
    let ghost o = rows(old@);
    let ghost m = rows(mid@);
    let ghost first = landed_view(kept@);
    let ghost second = landed_view(more@);
    assert(o.len() == old@.len());
    if !leads(kept, old, mid) {
        let l = Landed { start: 1, end: n, took: rows_taken(old, 0, old.len()), took_at: 1 };
        assert(o.subrange(0, o.len() as int) =~= o);
        let ghost one = l@;
        let mut r: Vec<Landed> = Vec::new();
        r.push(l);
        assert(landed_view(r@) =~= whole(o, n as int));
        return r;
    }
    let size = mid.len();
    let mut v = opened(kept, Ghost(o), Ghost(m));
    let mut k: usize = 0;
    while k < more.len()
        invariant
            k <= more@.len(),
            size == m.len(),
            o.len() < usize::MAX,
            new.len() < usize::MAX,
            second == landed_view(more@),
            traces(first, o, m),
            traces(second, m, new),
            in_old(v@, o.len() as int),
            hunks_seen(v@, o) == absorbed_all(first, second, k as int, o),
        decreases more@.len() - k,
    {
        let ghost cur = midway(second, k as int, m, new);
        proof {
            lemma_absorbed_all(first, second, k as int, o, m, new);
            lemma_midway(second, k as int, m, new);
            assert(second[k as int] == more@[k as int]@);
        }
        v = absorb(v, &more[k], Ghost(o), Ghost(cur));
        k += 1;
    }
    proof {
        law_stacked_hunks_lead_all_the_way(first, second, o, m, new);
    }
    settle(v.as_slice(), old, Ghost(new))
}

} // verus!
