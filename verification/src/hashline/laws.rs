//! What holds of every edit and every patch, whatever the file.

use crate::hashline::edits::{lemma_region, Edit};
use crate::hashline::landing::{
    above, all_places, block_hits, block_needle, body_of, clash, closeness, closest, crlf,
    crlf_form, first_clash, found, gap, has_crlf, line_of, mark, nearest, outcome, reached,
    reported, resolved, rewritten, row_at, settled, slotted, sooner, sound, spellings, translated,
    written, Place, Ratio,
};
use crate::hashline::matching::lemma_found;
use crate::hashline::patch::SectionView;
use crate::hashline::plan::{
    built, current, file_rows, inserted, inside_span, lowered, new_rows, plan, rejoined, slot_of,
    span_at, spans_of, swept, trailing, ChangeView, OpView,
};
use crate::hashline::Blocks;
use crate::text::{ends, index_of, join, lemma_index_of, lines, split, starts, without_cr};
use vstd::multiset::Multiset;
use vstd::prelude::*;
use vstd::seq_lib::*;

verus! {

// ---------------------------------------------------------------------------
// The text around the edits
// ---------------------------------------------------------------------------

/// A byte-order mark the file opened with is still in front, and a call that
/// goes through has changed the file.
pub proof fn law_the_mark_survives<B: Blocks>(
    path: Seq<char>,
    content: Seq<char>,
    edits: Seq<Edit>,
    blocks: &B,
)
    requires
        outcome(path, content, edits, blocks) is Ok,
    ensures
        starts(outcome(path, content, edits, blocks)->Ok_0.content, mark(content)),
        outcome(path, content, edits, blocks)->Ok_0.content != content,
{
    let placed = settled(all_places(path, body_of(content), edits, blocks)->Ok_0);
    let rest = rewritten(body_of(content), placed);
    assert((mark(content) + rest).take(mark(content).len() as int) =~= mark(content));
}

proof fn lemma_written_prefix(body: Seq<char>, placed: Seq<Place>, k: int, n: int)
    requires
        0 <= k <= n,
    ensures
        written(body, placed, k).len() <= written(body, placed, n).len(),
        written(body, placed, n).take(written(body, placed, k).len() as int) == written(
            body,
            placed,
            k,
        ),
    decreases n - k,
{
    let w = written(body, placed, k);
    if k < n {
        lemma_written_prefix(body, placed, k, n - 1);
        let v = written(body, placed, n - 1);
        assert(written(body, placed, n).take(w.len() as int) =~= v.take(w.len() as int));
    } else {
        assert(w.take(w.len() as int) =~= w);
    }
}

/// Every landing's text stands in the result behind the original text that led
/// up to it, and what followed the last landing still ends the file: nothing
/// outside the landings is touched.
pub proof fn law_what_lies_between_the_landings_stays(body: Seq<char>, placed: Seq<Place>, k: int)
    requires
        0 <= k < placed.len(),
    ensures
        ({
            let all = rewritten(body, placed);
            let from = written(body, placed, k).len() as int;
            let at = from + gap(body, placed, k).len();
            let to = at + placed[k].text.len();
            &&& to <= all.len()
            &&& all.subrange(from, at) == gap(body, placed, k)
            &&& all.subrange(at, to) == placed[k].text
            &&& ends(all, body.skip(reached(placed, placed.len() as int)))
        }),
{
    let n = placed.len() as int;
    lemma_written_prefix(body, placed, k, n);
    lemma_written_prefix(body, placed, k + 1, n);
    let all = rewritten(body, placed);
    let tail = body.skip(reached(placed, n));
    let w = written(body, placed, k);
    let g = gap(body, placed, k);
    let next = written(body, placed, k + 1);
    let whole = written(body, placed, n);
    assert(next == w + g + placed[k].text);
    assert(all =~= whole + tail);
    assert(all.skip(all.len() - tail.len()) =~= tail);
    assert forall|i: int| 0 <= i < next.len() implies all[i] == #[trigger] next[i] by {
        assert(whole.take(next.len() as int)[i] == whole[i]);
    }
    let at = (w.len() + g.len()) as int;
    assert forall|i: int| 0 <= i < g.len() implies #[trigger] all.subrange(w.len() as int, at)[i]
        == g[i] by {
        assert(next[w.len() + i] == g[i]);
    }
    assert(all.subrange(w.len() as int, at) =~= g);
    assert forall|i: int| 0 <= i < placed[k].text.len() implies #[trigger] all.subrange(
        at,
        at + placed[k].text.len(),
    )[i] == placed[k].text[i] by {
        assert(next[at + i] == placed[k].text[i]);
    }
    assert(all.subrange(at, at + placed[k].text.len()) =~= placed[k].text);
}

/// The line a report gives a landing is the line its text starts on in the file
/// that results.
pub proof fn law_a_report_names_the_line_in_the_result(
    body: Seq<char>,
    placed: Seq<Place>,
    k: int,
)
    requires
        0 <= k < placed.len(),
    ensures
        reported(body, placed, k).start == line_of(
            rewritten(body, placed),
            (written(body, placed, k).len() + gap(body, placed, k).len()) as int,
        ),
{
    let n = placed.len() as int;
    lemma_written_prefix(body, placed, k + 1, n);
    let all = rewritten(body, placed);
    let w = written(body, placed, k);
    let g = gap(body, placed, k);
    let next = written(body, placed, k + 1);
    let whole = written(body, placed, n);
    assert forall|i: int| 0 <= i < next.len() implies all[i] == #[trigger] next[i] by {
        assert(whole.take(next.len() as int)[i] == whole[i]);
    }
    let at = (w.len() + g.len()) as int;
    assert forall|i: int| 0 <= i < at implies #[trigger] all.take(at)[i] == (w + g)[i] by {
        assert(next[i] == (w + g)[i]);
    }
    assert(all.take(at) =~= w + g);
}

/// Text put into a file that breaks its lines with `\r\n` never brings a bare
/// line feed along, and translating it again changes nothing.
pub proof fn law_line_endings_never_mix(text: Seq<char>)
    ensures
        forall|i: int|
            0 <= i < translated(text, true).len() && #[trigger] translated(text, true)[i] == '\n'
                ==> i > 0 && translated(text, true)[i - 1] == '\r',
        translated(translated(text, true), true) == translated(text, true),
{
    lemma_no_bare_feed(text);
    lemma_spelt_already(crlf_form(text));
}

spec fn spelt(s: Seq<char>) -> bool {
    forall|i: int| 0 <= i < s.len() && #[trigger] s[i] == '\n' ==> i > 0 && s[i - 1] == '\r'
}

proof fn lemma_no_bare_feed(s: Seq<char>)
    ensures
        spelt(crlf_form(s)),
        s.len() > 0 ==> crlf_form(s).len() > 0 && crlf_form(s).last() == s.last(),
    decreases s.len(),
{
    if s.len() > 0 {
        let rest = s.drop_last();
        lemma_no_bare_feed(rest);
        let done = crlf_form(rest);
        let all = crlf_form(s);
        if s.last() == '\n' && !(s.len() >= 2 && s[s.len() - 2] == '\r') {
            assert(all =~= done.push('\r').push('\n'));
        } else if s.last() == '\n' {
            assert(rest.last() == '\r');
        }
        assert forall|i: int| 0 <= i < all.len() && #[trigger] all[i] == '\n' implies i > 0
            && all[i - 1] == '\r' by {
            if i < done.len() {
                assert(all[i] == done[i]);
            }
        }
    }
}

proof fn lemma_spelt_already(s: Seq<char>)
    requires
        spelt(s),
    ensures
        crlf_form(s) == s,
    decreases s.len(),
{
    if s.len() > 0 {
        let rest = s.drop_last();
        assert forall|i: int| 0 <= i < rest.len() && #[trigger] rest[i] == '\n' implies i > 0
            && rest[i - 1] == '\r' by {
            assert(s[i] == rest[i]);
        }
        lemma_spelt_already(rest);
        if s.last() == '\n' {
            assert(s[s.len() - 1] == '\n');
        }
        assert(rest.push(s.last()) =~= s);
    }
}

// ---------------------------------------------------------------------------
// The closest line
// ---------------------------------------------------------------------------

pub(crate) proof fn lemma_not_above_through(a: Ratio, b: Ratio, c: Ratio)
    requires
        a.1 > 0,
        b.1 > 0,
        c.1 > 0,
        !above(a, b),
        !above(b, c),
    ensures
        !above(a, c),
{
    let (a0, a1, b0, b1, c0, c1) = (a.0, a.1, b.0, b.1, c.0, c.1);
    assert(a0 * c1 <= c0 * a1) by (nonlinear_arith)
        requires
            a0 * b1 <= b0 * a1,
            b0 * c1 <= c0 * b1,
            a1 > 0,
            b1 > 0,
            c1 > 0,
    {
        assert((a0 * b1) * c1 <= (b0 * a1) * c1);
        assert((b0 * c1) * a1 <= (c0 * b1) * a1);
        assert((b0 * a1) * c1 == (b0 * c1) * a1);
        assert((a0 * c1) * b1 == (a0 * b1) * c1);
        assert((c0 * a1) * b1 == (c0 * b1) * a1);
        assert((a0 * c1) * b1 <= (c0 * a1) * b1);
    }
}

pub(crate) proof fn lemma_closeness_is_a_ratio(row: Seq<char>, wanted: Seq<Seq<char>>)
    ensures
        closeness(row, wanted).1 > 0,
    decreases wanted.len(),
{
    if wanted.len() > 0 {
        lemma_closeness_is_a_ratio(row, wanted.drop_last());
    }
}

pub(crate) proof fn lemma_nearest(rows: Seq<Seq<char>>, wanted: Seq<Seq<char>>, lo: int, hi: int, n: int)
    requires
        lo <= n <= hi,
    ensures
        lo <= nearest(rows, wanted, lo, hi) <= hi,
        !above(
            closeness(row_at(rows, n), wanted),
            closeness(row_at(rows, nearest(rows, wanted, lo, hi)), wanted),
        ),
    decreases hi - lo,
{
    if lo < hi {
        let best = nearest(rows, wanted, lo, hi - 1);
        let last = closeness(row_at(rows, hi), wanted);
        let kept = closeness(row_at(rows, best), wanted);
        if n < hi {
            lemma_nearest(rows, wanted, lo, hi - 1, n);
        } else {
            lemma_nearest(rows, wanted, lo, hi - 1, lo);
        }
        lemma_closeness_is_a_ratio(row_at(rows, hi), wanted);
        lemma_closeness_is_a_ratio(row_at(rows, best), wanted);
        lemma_closeness_is_a_ratio(row_at(rows, n), wanted);
        if above(last, kept) && n < hi {
            lemma_not_above_through(closeness(row_at(rows, n), wanted), kept, last);
        }
    }
}

/// The line a refusal hands over is the closest there is: no other line of the
/// file is closer to the anchor.
pub proof fn law_no_line_is_closer(body: Seq<char>, anchor: Seq<char>, n: int)
    requires
        1 <= n <= lines(body).len(),
    ensures
        1 <= closest(body, anchor) <= lines(body).len(),
        !above(
            closeness(row_at(lines(body), n), lines(anchor)),
            closeness(row_at(lines(body), closest(body, anchor)), lines(anchor)),
        ),
{
    lemma_nearest(lines(body), lines(anchor), 1, lines(body).len() as int, n);
}

// ---------------------------------------------------------------------------
// The order of the edits
// ---------------------------------------------------------------------------

/// A landing, whichever edit it belongs to.
spec fn bare(p: Place) -> Place {
    Place { index: 0, ..p }
}

spec fn bares(s: Seq<Place>) -> Seq<Place> {
    Seq::new(s.len(), |i: int| bare(s[i]))
}

/// What one edit puts where, whichever number it has.
spec fn of_edit<B: Blocks>(path: Seq<char>, body: Seq<char>, edit: Edit, blocks: &B) -> Multiset<
    Place,
> {
    match resolved(path, body, edit, 0, blocks) {
        Ok(v) => bares(v).to_multiset(),
        Err(_) => Multiset::empty(),
    }
}

spec fn of_edits<B: Blocks>(
    path: Seq<char>,
    body: Seq<char>,
    edits: Seq<Edit>,
    blocks: &B,
) -> Multiset<Place>
    decreases edits.len(),
{
    if edits.len() == 0 {
        Multiset::empty()
    } else {
        of_edits(path, body, edits.drop_last(), blocks).add(
            of_edit(path, body, edits.last(), blocks),
        )
    }
}

spec fn all_resolve<B: Blocks>(
    path: Seq<char>,
    body: Seq<char>,
    edits: Seq<Edit>,
    blocks: &B,
) -> bool {
    forall|i: int|
        0 <= i < edits.len() ==> resolved(path, body, #[trigger] edits[i], 0, blocks) is Ok
}

proof fn lemma_resolved_anywhere<B: Blocks>(
    path: Seq<char>,
    body: Seq<char>,
    edit: Edit,
    i: int,
    j: int,
    blocks: &B,
)
    ensures
        (resolved(path, body, edit, i, blocks) is Ok) == (resolved(
            path,
            body,
            edit,
            j,
            blocks,
        ) is Ok),
        resolved(path, body, edit, i, blocks) is Ok ==> bares(
            resolved(path, body, edit, i, blocks)->Ok_0,
        ) == bares(resolved(path, body, edit, j, blocks)->Ok_0),
{
    let a = resolved(path, body, edit, i, blocks);
    let b = resolved(path, body, edit, j, blocks);
    if a is Ok {
        assert(bares(a->Ok_0) =~= bares(b->Ok_0));
    }
}

proof fn lemma_bares_concat(a: Seq<Place>, b: Seq<Place>)
    ensures
        bares(a + b).to_multiset() == bares(a).to_multiset().add(bares(b).to_multiset()),
{
    assert(bares(a + b) =~= bares(a) + bares(b));
    lemma_multiset_commutative(bares(a), bares(b));
}

proof fn lemma_places_of_edits<B: Blocks>(
    path: Seq<char>,
    body: Seq<char>,
    edits: Seq<Edit>,
    blocks: &B,
)
    ensures
        (all_places(path, body, edits, blocks) is Ok) == all_resolve(path, body, edits, blocks),
        all_places(path, body, edits, blocks) is Ok ==> bares(
            all_places(path, body, edits, blocks)->Ok_0,
        ).to_multiset() == of_edits(path, body, edits, blocks),
    decreases edits.len(),
{
    if edits.len() == 0 {
        assert(bares(Seq::<Place>::empty()) =~= Seq::empty());
        assert(Seq::<Place>::empty().to_multiset() =~= Multiset::empty()) by {
            broadcast use group_to_multiset_ensures;

        }
    } else {
        let less = edits.drop_last();
        lemma_places_of_edits(path, body, less, blocks);
        lemma_resolved_anywhere(path, body, edits.last(), edits.len() - 1, 0, blocks);
        if all_resolve(path, body, edits, blocks) {
            assert forall|i: int| 0 <= i < less.len() implies resolved(
                path,
                body,
                #[trigger] less[i],
                0,
                blocks,
            ) is Ok by {
                assert(less[i] == edits[i]);
            }
            assert(edits[edits.len() - 1] == edits.last());
        }
        if all_places(path, body, edits, blocks) is Ok {
            assert forall|i: int| 0 <= i < edits.len() implies resolved(
                path,
                body,
                #[trigger] edits[i],
                0,
                blocks,
            ) is Ok by {
                if i < less.len() {
                    assert(less[i] == edits[i]);
                }
            }
            let before = all_places(path, body, less, blocks)->Ok_0;
            let more = resolved(path, body, edits.last(), edits.len() - 1, blocks)->Ok_0;
            lemma_bares_concat(before, more);
        }
    }
}

/// Nothing is written unless every edit resolves against the original content.
pub proof fn law_all_edits_resolve_or_none_is_written<B: Blocks>(
    path: Seq<char>,
    content: Seq<char>,
    edits: Seq<Edit>,
    blocks: &B,
    i: int,
)
    requires
        0 <= i < edits.len(),
        outcome(path, content, edits, blocks) is Ok,
    ensures
        resolved(path, body_of(content), edits[i], i, blocks) is Ok,
{
    let body = body_of(content);
    lemma_places_of_edits(path, body, edits, blocks);
    assert(resolved(path, body, edits[i], 0, blocks) is Ok);
    lemma_resolved_anywhere(path, body, edits[i], 0, i, blocks);
}

proof fn lemma_of_edits_remove<B: Blocks>(
    path: Seq<char>,
    body: Seq<char>,
    edits: Seq<Edit>,
    k: int,
    blocks: &B,
)
    requires
        0 <= k < edits.len(),
    ensures
        of_edits(path, body, edits, blocks) == of_edits(path, body, edits.remove(k), blocks).add(
            of_edit(path, body, edits[k], blocks),
        ),
    decreases edits.len(),
{
    let less = edits.drop_last();
    if k == edits.len() - 1 {
        assert(edits.remove(k) =~= less);
    } else {
        lemma_of_edits_remove(path, body, less, k, blocks);
        assert(edits.remove(k).drop_last() =~= less.remove(k));
        assert(edits.remove(k).last() == edits.last());
        assert(of_edits(path, body, edits, blocks) =~= of_edits(
            path,
            body,
            edits.remove(k),
            blocks,
        ).add(of_edit(path, body, edits[k], blocks)));
    }
}

proof fn lemma_same_edits<B: Blocks>(
    path: Seq<char>,
    body: Seq<char>,
    edits: Seq<Edit>,
    other: Seq<Edit>,
    blocks: &B,
)
    requires
        edits.to_multiset() == other.to_multiset(),
        all_resolve(path, body, edits, blocks),
    ensures
        edits.len() == other.len(),
        all_resolve(path, body, other, blocks),
        of_edits(path, body, edits, blocks) == of_edits(path, body, other, blocks),
    decreases other.len(),
{
    broadcast use group_to_multiset_ensures;

    assert(edits.len() == edits.to_multiset().len());
    assert(other.len() == other.to_multiset().len());
    if other.len() > 0 {
        let last = other.last();
        assert(other.contains(last)) by {
            assert(other[other.len() - 1] == last);
        }
        assert(other.to_multiset().count(last) > 0);
        assert(edits.contains(last));
        let k = choose|k: int| 0 <= k < edits.len() && edits[k] == last;
        let rest = edits.remove(k);
        let less = other.drop_last();
        assert(other =~= less.push(last));
        assert(less.to_multiset() =~= rest.to_multiset()) by {
            assert(other.to_multiset() =~= less.to_multiset().insert(last));
            assert(rest.to_multiset() =~= edits.to_multiset().remove(last));
        }
        assert forall|i: int| 0 <= i < rest.len() implies resolved(
            path,
            body,
            #[trigger] rest[i],
            0,
            blocks,
        ) is Ok by {
            if i < k {
                assert(rest[i] == edits[i]);
            } else {
                assert(rest[i] == edits[i + 1]);
            }
        }
        lemma_same_edits(path, body, rest, less, blocks);
        lemma_of_edits_remove(path, body, edits, k, blocks);
        assert forall|i: int| 0 <= i < other.len() implies resolved(
            path,
            body,
            #[trigger] other[i],
            0,
            blocks,
        ) is Ok by {
            if i < less.len() {
                assert(other[i] == less[i]);
            } else {
                assert(other[i] == edits[k]);
            }
        }
    }
}

proof fn lemma_slotted_members(sorted: Seq<Place>, p: Place)
    ensures
        bares(slotted(sorted, p)).to_multiset() == bares(sorted).to_multiset().insert(bare(p)),
    decreases sorted.len(),
{
    broadcast use group_to_multiset_ensures;

    if sorted.len() > 0 && sooner(p, sorted.last()) {
        let less = sorted.drop_last();
        lemma_slotted_members(less, p);
        assert(bares(slotted(sorted, p)) =~= bares(slotted(less, p)).push(bare(sorted.last())));
        assert(bares(sorted) =~= bares(less).push(bare(sorted.last())));
        assert(bares(slotted(sorted, p)).to_multiset() =~= bares(sorted).to_multiset().insert(
            bare(p),
        ));
    } else {
        assert(bares(slotted(sorted, p)) =~= bares(sorted).push(bare(p)));
    }
}

proof fn lemma_settled_members(places: Seq<Place>)
    ensures
        bares(settled(places)).to_multiset() == bares(places).to_multiset(),
    decreases places.len(),
{
    broadcast use group_to_multiset_ensures;

    if places.len() > 0 {
        let less = places.drop_last();
        lemma_settled_members(less);
        lemma_slotted_members(settled(less), places.last());
        assert(bares(places) =~= bares(less).push(bare(places.last())));
    } else {
        assert(bares(places) =~= bares(settled(places)));
    }
}

spec fn in_order(s: Seq<Place>) -> bool {
    forall|i: int, j: int| 0 <= i < j < s.len() ==> !sooner(#[trigger] s[j], #[trigger] s[i])
}

proof fn lemma_slotted_order(sorted: Seq<Place>, p: Place)
    requires
        in_order(sorted),
    ensures
        in_order(slotted(sorted, p)),
        forall|q: Place|
            #![trigger slotted(sorted, p).contains(q)]
            slotted(sorted, p).contains(q) ==> q == p || sorted.contains(q),
    decreases sorted.len(),
{
    let all = slotted(sorted, p);
    if sorted.len() > 0 && sooner(p, sorted.last()) {
        let less = sorted.drop_last();
        assert(in_order(less)) by {
            assert forall|i: int, j: int| 0 <= i < j < less.len() implies !sooner(
                #[trigger] less[j],
                #[trigger] less[i],
            ) by {
                assert(less[i] == sorted[i] && less[j] == sorted[j]);
            }
        }
        lemma_slotted_order(less, p);
        let front = slotted(less, p);
        assert forall|q: Place| #![trigger all.contains(q)] all.contains(q) implies q == p
            || sorted.contains(q) by {
            let i = choose|i: int| 0 <= i < all.len() && all[i] == q;
            if i < front.len() {
                assert(front[i] == q);
                assert(front.contains(q));
                if q != p {
                    let m = choose|m: int| 0 <= m < less.len() && less[m] == q;
                    assert(sorted[m] == q);
                }
            } else {
                assert(sorted[sorted.len() - 1] == q);
            }
        }
        assert forall|i: int, j: int| 0 <= i < j < all.len() implies !sooner(
            #[trigger] all[j],
            #[trigger] all[i],
        ) by {
            if j < front.len() {
                assert(all[i] == front[i] && all[j] == front[j]);
            } else {
                assert(all[j] == sorted.last());
                assert(all[i] == front[i]);
                assert(front.contains(all[i]));
                if all[i] != p {
                    let m = choose|m: int| 0 <= m < less.len() && less[m] == all[i];
                    assert(!sooner(sorted[sorted.len() - 1], sorted[m]));
                }
            }
        }
    } else {
        assert forall|q: Place| #![trigger all.contains(q)] all.contains(q) implies q == p
            || sorted.contains(q) by {
            let i = choose|i: int| 0 <= i < all.len() && all[i] == q;
            if i < sorted.len() {
                assert(sorted[i] == q);
            }
        }
        assert forall|i: int, j: int| 0 <= i < j < all.len() implies !sooner(
            #[trigger] all[j],
            #[trigger] all[i],
        ) by {
            if j < sorted.len() {
                assert(all[i] == sorted[i] && all[j] == sorted[j]);
            } else {
                assert(all[j] == p);
                assert(all[i] == sorted[i]);
                assert(!sooner(p, sorted[sorted.len() - 1]));
                if i < sorted.len() - 1 {
                    assert(!sooner(sorted[sorted.len() - 1], sorted[i]));
                }
            }
        }
    }
}

proof fn lemma_settled_order(places: Seq<Place>)
    ensures
        in_order(settled(places)),
    decreases places.len(),
{
    if places.len() > 0 {
        lemma_settled_order(places.drop_last());
        lemma_slotted_order(settled(places.drop_last()), places.last());
    }
}

spec fn apart(s: Seq<Place>) -> bool {
    forall|i: int, j: int| 0 <= i < j < s.len() ==> (#[trigger] s[i]).start < (#[trigger] s[j]).start
}

spec fn spans_text(s: Seq<Place>) -> bool {
    forall|i: int| 0 <= i < s.len() ==> (#[trigger] s[i]).start <= s[i].end
}

proof fn lemma_first_clash(path: Seq<char>, placed: Seq<Place>, i: int)
    requires
        0 <= i,
        first_clash(path, placed, i) is None,
    ensures
        forall|k: int|
            i <= k < placed.len() - 1 ==> clash(path, #[trigger] placed[k], placed[k + 1]) is None,
    decreases placed.len() - i,
{
    if i + 1 < placed.len() {
        lemma_first_clash(path, placed, i + 1);
        assert forall|k: int| i <= k < placed.len() - 1 implies clash(
            path,
            #[trigger] placed[k],
            placed[k + 1],
        ) is None by {}
    }
}

proof fn lemma_no_clash_from(path: Seq<char>, placed: Seq<Place>, i: int)
    requires
        0 <= i,
        forall|k: int|
            i <= k < placed.len() - 1 ==> clash(path, #[trigger] placed[k], placed[k + 1]) is None,
    ensures
        first_clash(path, placed, i) is None,
    decreases placed.len() - i,
{
    if i + 1 < placed.len() {
        assert(clash(path, placed[i], placed[i + 1]) is None);
        lemma_no_clash_from(path, placed, i + 1);
    }
}

/// Landings in order that do not clash start at different places.
proof fn lemma_apart(path: Seq<char>, placed: Seq<Place>, i: int, j: int)
    requires
        first_clash(path, placed, 0) is None,
        spans_text(placed),
        0 <= i < j < placed.len(),
    ensures
        placed[i].start < placed[j].start,
    decreases j - i,
{
    lemma_first_clash(path, placed, 0);
    assert(clash(path, placed[j - 1], placed[j - 1 + 1]) is None);
    assert(placed[j - 1].start <= placed[j - 1].end);
    assert(placed[j].start <= placed[j].end);
    if i < j - 1 {
        lemma_apart(path, placed, i, j - 1);
    }
}

/// Two orderly sequences of the same landings are one, where no two of them
/// start at one place.
proof fn lemma_one_order(x: Seq<Place>, y: Seq<Place>)
    requires
        x.to_multiset() == y.to_multiset(),
        in_order(y),
        apart(x),
    ensures
        x == y,
    decreases x.len(),
{
    broadcast use group_to_multiset_ensures;

    assert(x.len() == x.to_multiset().len());
    assert(y.len() == y.to_multiset().len());
    if x.len() > 0 {
        let a = x.last();
        let b = y.last();
        assert(x[x.len() - 1] == a);
        assert(y[y.len() - 1] == b);
        assert(x.contains(a) && y.contains(b));
        assert(y.to_multiset().count(a) > 0);
        assert(x.to_multiset().count(b) > 0);
        assert(y.contains(a) && x.contains(b));
        let m = choose|m: int| 0 <= m < y.len() && y[m] == a;
        let k = choose|k: int| 0 <= k < x.len() && x[k] == b;
        if m < y.len() - 1 {
            assert(!sooner(y[y.len() - 1], y[m]));
        }
        if k < x.len() - 1 {
            assert(x[k].start < x[x.len() - 1].start);
        }
        assert(a == b);
        let xs = x.drop_last();
        let ys = y.drop_last();
        assert(x =~= xs.push(a));
        assert(y =~= ys.push(a));
        assert(xs.to_multiset() =~= ys.to_multiset()) by {
            assert(x.to_multiset() =~= xs.to_multiset().insert(a));
            assert(y.to_multiset() =~= ys.to_multiset().insert(a));
            assert(xs.to_multiset() =~= x.to_multiset().remove(a));
            assert(ys.to_multiset() =~= y.to_multiset().remove(a));
        }
        assert forall|i: int, j: int| 0 <= i < j < xs.len() implies (#[trigger] xs[i]).start < (
        #[trigger] xs[j]).start by {
            assert(xs[i] == x[i] && xs[j] == x[j]);
        }
        assert forall|i: int, j: int| 0 <= i < j < ys.len() implies !sooner(
            #[trigger] ys[j],
            #[trigger] ys[i],
        ) by {
            assert(ys[i] == y[i] && ys[j] == y[j]);
        }
        lemma_one_order(xs, ys);
    } else {
        assert(x =~= y);
    }
}

proof fn lemma_bare_text(body: Seq<char>, a: Seq<Place>, b: Seq<Place>, k: int)
    requires
        bares(a) == bares(b),
        0 <= k <= a.len(),
    ensures
        a.len() == b.len(),
        written(body, a, k) == written(body, b, k),
        reached(a, k) == reached(b, k),
    decreases k,
{
    assert(bares(a).len() == a.len());
    assert(bares(b).len() == b.len());
    if k > 0 {
        lemma_bare_text(body, a, b, k - 1);
        assert(bare(a[k - 1]) == bares(a)[k - 1]);
        assert(bare(b[k - 1]) == bares(b)[k - 1]);
    }
}

proof fn lemma_places_are_ranges<B: Blocks>(
    path: Seq<char>,
    body: Seq<char>,
    edits: Seq<Edit>,
    blocks: &B,
)
    requires
        sound(blocks, path, body),
        all_places(path, body, edits, blocks) is Ok,
    ensures
        spans_text(all_places(path, body, edits, blocks)->Ok_0),
    decreases edits.len(),
{
    if edits.len() > 0 {
        let edit = edits.last();
        let anchor = edit.anchor.words();
        lemma_places_are_ranges(path, body, edits.drop_last(), blocks);
        lemma_found(body, spellings(anchor, has_crlf(body)));
        if edit.whole_block {
            let hits = block_hits(
                blocks.opening_rows(path, body),
                lines(body),
                block_needle(anchor),
            );
            let (start, end) = blocks.extent_at(path, body, hits[0])->Some_0;
            lemma_region(body, start, end);
        }
        let before = all_places(path, body, edits.drop_last(), blocks)->Ok_0;
        let more = resolved(path, body, edit, edits.len() - 1, blocks)->Ok_0;
        let hits = found(body, anchor);
        assert forall|i: int| 0 <= i < more.len() implies (#[trigger] more[i]).start
            <= more[i].end by {
            if !edit.whole_block {
                assert(0 <= hits[i].0 <= hits[i].1);
            }
        }
        let all = before + more;
        assert forall|i: int| 0 <= i < all.len() implies (#[trigger] all[i]).start <= all[i].end by {
            if i < before.len() {
                assert(all[i] == before[i]);
            } else {
                assert(all[i] == more[i - before.len()]);
            }
        }
    }
}

/// The order the edits are given in does not matter: a call that goes through
/// goes through in any order, leaves the same file, and reports the same
/// landings.
pub proof fn law_the_order_of_edits_does_not_matter<B: Blocks>(
    path: Seq<char>,
    content: Seq<char>,
    edits: Seq<Edit>,
    other: Seq<Edit>,
    blocks: &B,
)
    requires
        edits.to_multiset() == other.to_multiset(),
        outcome(path, content, edits, blocks) is Ok,
        sound(blocks, path, body_of(content)),
    ensures
        outcome(path, content, other, blocks) is Ok,
        outcome(path, content, other, blocks)->Ok_0.content == outcome(
            path,
            content,
            edits,
            blocks,
        )->Ok_0.content,
        outcome(path, content, other, blocks)->Ok_0.landed == outcome(
            path,
            content,
            edits,
            blocks,
        )->Ok_0.landed,
{
    let body = body_of(content);
    lemma_places_of_edits(path, body, edits, blocks);
    lemma_places_of_edits(path, body, other, blocks);
    lemma_same_edits(path, body, edits, other, blocks);
    let p = all_places(path, body, edits, blocks)->Ok_0;
    let q = all_places(path, body, other, blocks)->Ok_0;
    let a = settled(p);
    let b = settled(q);
    lemma_settled_members(p);
    lemma_settled_members(q);
    lemma_settled_order(q);
    assert(spans_text(a)) by {
        lemma_settled_from(p);
        lemma_places_are_ranges(path, body, edits, blocks);
        assert forall|i: int| 0 <= i < a.len() implies (#[trigger] a[i]).start <= a[i].end by {
            assert(a.contains(a[i]));
            let m = choose|m: int| 0 <= m < p.len() && p[m] == a[i];
            assert(p[m].start <= p[m].end);
        }
    }
    let x = bares(a);
    let y = bares(b);
    assert(apart(x)) by {
        assert forall|i: int, j: int| 0 <= i < j < x.len() implies (#[trigger] x[i]).start < (
        #[trigger] x[j]).start by {
            lemma_apart(path, a, i, j);
        }
    }
    assert(in_order(y)) by {
        assert forall|i: int, j: int| 0 <= i < j < y.len() implies !sooner(
            #[trigger] y[j],
            #[trigger] y[i],
        ) by {
            assert(!sooner(b[j], b[i]));
        }
    }
    lemma_one_order(x, y);
    lemma_bare_text(body, a, b, a.len() as int);
    lemma_first_clash(path, a, 0);
    assert forall|k: int| 0 <= k < b.len() - 1 implies clash(
        path,
        #[trigger] b[k],
        b[k + 1],
    ) is None by {
        assert(clash(path, a[k], a[k + 1]) is None);
        assert(bare(a[k]) == x[k] && bare(b[k]) == y[k]);
        assert(bare(a[k + 1]) == x[k + 1] && bare(b[k + 1]) == y[k + 1]);
    }
    lemma_no_clash_from(path, b, 0);
    let told_a = Seq::new(a.len(), |k: int| reported(body, a, k));
    let told_b = Seq::new(b.len(), |k: int| reported(body, b, k));
    assert forall|k: int| 0 <= k < a.len() implies reported(body, a, k) == reported(
        body,
        b,
        k,
    ) by {
        assert(bare(a[k]) == x[k] && bare(b[k]) == y[k]);
        lemma_bare_text(body, a, b, k);
        lemma_bare_text(body, a, b, k + 1);
    }
    assert(told_a =~= told_b);
}

proof fn lemma_settled_from(places: Seq<Place>)
    ensures
        forall|q: Place|
            #![trigger settled(places).contains(q)]
            settled(places).contains(q) ==> places.contains(q),
    decreases places.len(),
{
    let all = settled(places);
    if places.len() > 0 {
        let less = places.drop_last();
        lemma_settled_from(less);
        lemma_settled_order(less);
        lemma_slotted_order(settled(less), places.last());
        assert forall|q: Place| #![trigger all.contains(q)] all.contains(q) implies places.contains(
            q,
        ) by {
            if q == places.last() {
                assert(places[places.len() - 1] == q);
            } else {
                assert(settled(less).contains(q));
                let m = choose|m: int| 0 <= m < less.len() && less[m] == q;
                assert(places[m] == q);
            }
        }
    }
}

// ---------------------------------------------------------------------------
// Patches
// ---------------------------------------------------------------------------

pub(crate) proof fn lemma_slot_of(changes: Seq<ChangeView>, path: Seq<char>)
    ensures
        0 <= slot_of(changes, path) <= changes.len(),
        slot_of(changes, path) < changes.len() ==> changes[slot_of(changes, path)].path == path,
        forall|i: int| 0 <= i < slot_of(changes, path) ==> (#[trigger] changes[i]).path != path,
    decreases changes.len(),
{
    if changes.len() > 0 && changes[0].path != path {
        let less = changes.skip(1);
        lemma_slot_of(less, path);
        let n = slot_of(less, path);
        if n < less.len() {
            assert(less[n] == changes[n + 1]);
        }
        assert forall|i: int| 0 <= i < slot_of(changes, path) implies (
        #[trigger] changes[i]).path != path by {
            if i > 0 {
                assert(less[i - 1] == changes[i]);
            }
        }
    }
}

/// However many sections name a file, the plan writes it once.
pub proof fn law_a_file_is_written_once<B: Blocks>(
    sections: Seq<SectionView>,
    n: int,
    files: Seq<(Seq<char>, Seq<char>)>,
    blocks: &B,
    i: int,
    j: int,
)
    requires
        plan(sections, n, files, blocks) is Ok,
        0 <= i < j < plan(sections, n, files, blocks)->Ok_0.len(),
    ensures
        plan(sections, n, files, blocks)->Ok_0[i].path != plan(
            sections,
            n,
            files,
            blocks,
        )->Ok_0[j].path,
    decreases n,
{
    if n > 0 {
        let before = plan(sections, n - 1, files, blocks)->Ok_0;
        let s = sections[n - 1];
        let content = current(before, files, s.path)->Some_0;
        let ops = lowered(s, content, blocks)->Ok_0;
        let c = built(s.path, ops, content, blocks)->Ok_0;
        lemma_slot_of(before, c.path);
        if j < before.len() {
            law_a_file_is_written_once(sections, n - 1, files, blocks, i, j);
        } else {
            assert(before[i].path != c.path);
        }
    }
}

/// A patch that is refused anywhere leaves no plan, and one that goes through
/// has gone through section by section: every shorter run of it went through
/// too.
pub proof fn law_a_plan_is_whole_or_not_at_all<B: Blocks>(
    sections: Seq<SectionView>,
    m: int,
    n: int,
    files: Seq<(Seq<char>, Seq<char>)>,
    blocks: &B,
)
    requires
        m <= n,
        plan(sections, n, files, blocks) is Ok,
    ensures
        plan(sections, m, files, blocks) is Ok,
    decreases n - m,
{
    if m < n {
        law_a_plan_is_whole_or_not_at_all(sections, m, n - 1, files, blocks);
    }
}

proof fn lemma_swept_prefix(rows: Seq<Seq<char>>, ops: Seq<OpView>, k: int, n: int)
    requires
        k <= n,
    ensures
        swept(rows, ops, k).len() <= swept(rows, ops, n).len(),
        swept(rows, ops, n).take(swept(rows, ops, k).len() as int) == swept(rows, ops, k),
    decreases n - k,
{
    let w = swept(rows, ops, k);
    if k < n {
        lemma_swept_prefix(rows, ops, k, n - 1);
        if n > 0 {
            let v = swept(rows, ops, n - 1);
            assert(swept(rows, ops, n).take(w.len() as int) =~= v.take(w.len() as int));
        } else {
            assert(w.take(w.len() as int) =~= w);
        }
    } else {
        assert(w.take(w.len() as int) =~= w);
    }
}

/// A row that no range takes stands in the new file, behind what is inserted in
/// front of it.
pub proof fn law_a_row_nothing_takes_stays(rows: Seq<Seq<char>>, ops: Seq<OpView>, line: int)
    requires
        1 <= line <= rows.len(),
        span_at(spans_of(ops), line) is None,
        !inside_span(spans_of(ops), line),
    ensures
        ({
            let at = swept(rows, ops, line - 1).len() + inserted(ops, line).len();
            at < new_rows(rows, ops).len() && new_rows(rows, ops)[at as int] == rows[line - 1]
        }),
{
    let n = rows.len() as int;
    let at = (swept(rows, ops, line - 1).len() + inserted(ops, line).len()) as int;
    lemma_swept_prefix(rows, ops, line, n);
    let upto = swept(rows, ops, line);
    assert(upto == swept(rows, ops, line - 1) + inserted(ops, line) + seq![rows[line - 1]]);
    assert(upto[at] == rows[line - 1]);
    assert(swept(rows, ops, n).take(upto.len() as int)[at] == swept(rows, ops, n)[at]);
}

proof fn lemma_join_front(first: Seq<char>, rest: Seq<Seq<char>>, sep: Seq<char>)
    requires
        rest.len() > 0,
    ensures
        join(seq![first] + rest, sep) == first + sep + join(rest, sep),
    decreases rest.len(),
{
    let all = seq![first] + rest;
    assert(all.drop_last() =~= seq![first] + rest.drop_last());
    assert(all.last() == rest.last());
    if rest.len() == 1 {
        assert(all.drop_last() =~= seq![first]);
        assert(join(seq![first], sep) == first);
        assert(join(rest, sep) == rest[0]);
        assert(join(all, sep) =~= first + sep + join(rest, sep));
    } else {
        lemma_join_front(first, rest.drop_last(), sep);
        assert(join(all, sep) =~= first + sep + join(rest, sep));
    }
}

pub(crate) proof fn lemma_split_some(s: Seq<char>, c: char)
    ensures
        split(s, c).len() >= 1,
    decreases s.len(),
{
    lemma_index_of(s, c);
    let n = index_of(s, c);
    if n < s.len() {
        lemma_split_some(s.skip(n + 1), c);
    }
}

/// Joining what a split leaves gives the text back.
pub(crate) proof fn lemma_split_join(s: Seq<char>)
    ensures
        join(split(s, '\n'), seq!['\n']) == s,
    decreases s.len(),
{
    lemma_index_of(s, '\n');
    let n = index_of(s, '\n');
    if n < s.len() {
        let rest = s.skip(n + 1);
        lemma_split_join(rest);
        lemma_split_some(rest, '\n');
        lemma_join_front(s.take(n), split(rest, '\n'), seq!['\n']);
        assert(s =~= s.take(n) + seq!['\n'] + rest);
    } else {
        assert(split(s, '\n') =~= seq![s]);
    }
}

proof fn lemma_no_cr(s: Seq<char>)
    requires
        forall|i: int| 0 <= i < s.len() ==> s[i] != '\r',
    ensures
        Seq::new(split(s, '\n').len(), |i: int| without_cr(split(s, '\n')[i])) == split(s, '\n'),
    decreases s.len(),
{
    lemma_index_of(s, '\n');
    let n = index_of(s, '\n');
    let all = split(s, '\n');
    if n < s.len() {
        let rest = s.skip(n + 1);
        assert forall|i: int| 0 <= i < rest.len() implies rest[i] != '\r' by {
            assert(rest[i] == s[n + 1 + i]);
        }
        lemma_no_cr(rest);
        let less = split(rest, '\n');
        assert forall|i: int| 0 <= i < all.len() implies without_cr(#[trigger] all[i])
            == all[i] by {
            if i > 0 {
                assert(all[i] == less[i - 1]);
                assert(Seq::new(less.len(), |k: int| without_cr(less[k]))[i - 1] == less[i - 1]);
            } else if n > 0 {
                assert(s.take(n).last() == s[n - 1]);
            }
        }
    } else {
        assert forall|i: int| 0 <= i < all.len() implies without_cr(#[trigger] all[i])
            == all[i] by {
            if s.len() > 0 {
                assert(s.last() == s[s.len() - 1]);
            }
        }
    }
    assert(Seq::new(all.len(), |i: int| without_cr(all[i])) =~= all);
}

/// A file taken apart into rows and put together again is the file, where its
/// lines break with `\n` alone.
pub proof fn law_rows_make_the_file_again(content: Seq<char>)
    requires
        forall|i: int| 0 <= i < content.len() ==> content[i] != '\r',
    ensures
        rejoined(file_rows(content), trailing(content), false) == content,
{
    if content.len() > 0 {
        let closed = content.last() == '\n';
        let body = if closed {
            content.drop_last()
        } else {
            content
        };
        assert forall|i: int| 0 <= i < body.len() implies body[i] != '\r' by {
            assert(body[i] == content[i]);
        }
        lemma_no_cr(body);
        lemma_split_join(body);
        if closed {
            assert(content =~= body + seq!['\n']);
        }
    } else {
        assert(rejoined(file_rows(content), trailing(content), false) =~= content);
    }
}

proof fn lemma_split_join_crlf(s: Seq<char>)
    requires
        spelt(s),
        s.len() > 0 ==> s.last() != '\r',
    ensures
        join(
            Seq::new(split(s, '\n').len(), |i: int| without_cr(split(s, '\n')[i])),
            crlf(),
        ) == s,
    decreases s.len(),
{
    lemma_index_of(s, '\n');
    let n = index_of(s, '\n');
    let all = split(s, '\n');
    let bare_rows = Seq::new(all.len(), |i: int| without_cr(all[i]));
    if n < s.len() {
        let rest = s.skip(n + 1);
        assert(s[n] == '\n');
        assert(spelt(rest)) by {
            assert forall|i: int| 0 <= i < rest.len() && #[trigger] rest[i] == '\n' implies i > 0
                && rest[i - 1] == '\r' by {
                assert(s[n + 1 + i] == '\n');
                if i > 0 {
                    assert(rest[i - 1] == s[n + i]);
                }
            }
        }
        if rest.len() > 0 {
            assert(rest.last() == s.last());
        }
        lemma_split_join_crlf(rest);
        lemma_split_some(rest, '\n');
        let less = split(rest, '\n');
        let fewer = Seq::new(less.len(), |i: int| without_cr(less[i]));
        let first = without_cr(s.take(n));
        assert(s.take(n).last() == s[n - 1]);
        assert(bare_rows =~= seq![first] + fewer) by {
            assert forall|i: int| 0 <= i < bare_rows.len() implies bare_rows[i] == (seq![first]
                + fewer)[i] by {
                if i > 0 {
                    assert(all[i] == less[i - 1]);
                }
            }
        }
        lemma_join_front(first, fewer, crlf());
        assert(s =~= first + crlf() + rest);
    } else {
        assert(bare_rows =~= seq![s]);
    }
}

/// The same of a file whose every line breaks with `\r\n`.
pub proof fn law_rows_make_the_crlf_file_again(content: Seq<char>)
    requires
        forall|i: int|
            0 <= i < content.len() && #[trigger] content[i] == '\n' ==> i > 0 && content[i - 1]
                == '\r',
        content.len() > 0 ==> content.last() != '\r',
        content.len() > 2 ==> (content.last() == '\n' ==> content[content.len() - 3] != '\r'),
    ensures
        rejoined(file_rows(content), trailing(content), true) == content,
{
    if content.len() > 0 && content.last() == '\n' {
        assert(content[content.len() - 1] == '\n');
        let body = content.drop_last();
        let inner = body.drop_last();
        assert(body.last() == '\r');
        assert(spelt(inner)) by {
            assert forall|i: int| 0 <= i < inner.len() && #[trigger] inner[i] == '\n' implies i > 0
                && inner[i - 1] == '\r' by {
                assert(content[i] == '\n');
            }
        }
        if inner.len() > 0 {
            assert(inner.last() == content[content.len() - 3]);
        }
        lemma_split_join_crlf(inner);
        lemma_closing_cr(inner);
        assert(body =~= inner.push('\r'));
        assert(content =~= inner + crlf());
    } else if content.len() > 0 {
        lemma_split_join_crlf(content);
    } else {
        assert(rejoined(file_rows(content), trailing(content), true) =~= content);
    }
}

/// A carriage return at the very end belongs to the last row, and goes with its
/// break.
proof fn lemma_closing_cr(s: Seq<char>)
    requires
        s.len() > 0 ==> s.last() != '\r',
    ensures
        Seq::new(
            split(s.push('\r'), '\n').len(),
            |i: int| without_cr(split(s.push('\r'), '\n')[i]),
        ) == Seq::new(split(s, '\n').len(), |i: int| without_cr(split(s, '\n')[i])),
    decreases s.len(),
{
    let t = s.push('\r');
    lemma_index_of(s, '\n');
    lemma_index_of(t, '\n');
    let n = index_of(s, '\n');
    crate::text::lemma_index_of_is(
        t,
        '\n',
        if n < s.len() {
            n
        } else {
            t.len() as int
        },
    );
    let a = split(t, '\n');
    let b = split(s, '\n');
    if n < s.len() {
        let rest = s.skip(n + 1);
        if rest.len() > 0 {
            assert(rest.last() == s.last());
        }
        lemma_closing_cr(rest);
        assert(t.skip(n + 1) =~= rest.push('\r'));
        assert(t.take(n) =~= s.take(n));
        let c = split(rest.push('\r'), '\n');
        let d = split(rest, '\n');
        let cc = Seq::new(c.len(), |i: int| without_cr(c[i]));
        let dd = Seq::new(d.len(), |i: int| without_cr(d[i]));
        assert(cc == dd);
        assert(cc.len() == dd.len());
        assert forall|i: int| 0 <= i < a.len() implies without_cr(#[trigger] a[i]) == without_cr(
            b[i],
        ) by {
            if i > 0 {
                assert(a[i] == c[i - 1] && b[i] == d[i - 1]);
                assert(cc[i - 1] == dd[i - 1]);
            }
        }
        assert(Seq::new(a.len(), |i: int| without_cr(a[i])) =~= Seq::new(
            b.len(),
            |i: int| without_cr(b[i]),
        ));
    } else {
        assert(a =~= seq![t]);
        assert(b =~= seq![s]);
        assert(t.drop_last() =~= s);
        assert(without_cr(t) == s);
        assert(without_cr(s) == s);
        assert(Seq::new(a.len(), |i: int| without_cr(a[i])) =~= Seq::new(
            b.len(),
            |i: int| without_cr(b[i]),
        ));
    }
}

proof fn lemma_slotted_whole(sorted: Seq<Place>, p: Place)
    ensures
        slotted(sorted, p).to_multiset() == sorted.to_multiset().insert(p),
    decreases sorted.len(),
{
    broadcast use group_to_multiset_ensures;

    if sorted.len() > 0 && sooner(p, sorted.last()) {
        let less = sorted.drop_last();
        lemma_slotted_whole(less, p);
        assert(sorted =~= less.push(sorted.last()));
        assert(slotted(sorted, p).to_multiset() =~= sorted.to_multiset().insert(p));
    } else {
        assert(slotted(sorted, p).to_multiset() =~= sorted.to_multiset().insert(p));
    }
}

proof fn lemma_settled_whole(places: Seq<Place>)
    ensures
        settled(places).to_multiset() == places.to_multiset(),
    decreases places.len(),
{
    broadcast use group_to_multiset_ensures;

    if places.len() > 0 {
        let less = places.drop_last();
        lemma_settled_whole(less);
        lemma_slotted_whole(settled(less), places.last());
        assert(places =~= less.push(places.last()));
    } else {
        assert(settled(places) =~= places);
    }
}

proof fn lemma_all_apart(path: Seq<char>, placed: Seq<Place>)
    requires
        first_clash(path, placed, 0) is None,
        spans_text(placed),
    ensures
        forall|i: int, j: int|
            0 <= i < j < placed.len() ==> (#[trigger] placed[i]).end <= (#[trigger] placed[j]).start
                && placed[i].start < placed[j].start,
{
    lemma_first_clash(path, placed, 0);
    assert forall|i: int, j: int| 0 <= i < j < placed.len() implies (#[trigger] placed[i]).end <= (
    #[trigger] placed[j]).start && placed[i].start < placed[j].start by {
        lemma_apart(path, placed, i, j);
        assert(clash(path, placed[i], placed[i + 1]) is None);
        if i + 1 < j {
            lemma_apart(path, placed, i + 1, j);
        }
    }
}

proof fn lemma_settled_ranges(places: Seq<Place>)
    requires
        spans_text(places),
    ensures
        spans_text(settled(places)),
{
    let placed = settled(places);
    lemma_settled_from(places);
    assert forall|i: int| 0 <= i < placed.len() implies (#[trigger] placed[i]).start
        <= placed[i].end by {
        assert(placed.contains(placed[i]));
        let k = choose|k: int| 0 <= k < places.len() && places[k] == placed[i];
        assert(places[k].start <= places[k].end);
    }
}

/// Edits that are taken together are apart: each takes text of its own, no two
/// start at one place, and none is put inside what another takes.
pub proof fn law_edits_taken_together_are_apart<B: Blocks>(
    path: Seq<char>,
    content: Seq<char>,
    edits: Seq<Edit>,
    blocks: &B,
)
    requires
        sound(blocks, path, body_of(content)),
        outcome(path, content, edits, blocks) is Ok,
    ensures
        ({
            let places = all_places(path, body_of(content), edits, blocks)->Ok_0;
            let placed = settled(places);
            &&& placed.to_multiset() == places.to_multiset()
            &&& placed.len() == outcome(path, content, edits, blocks)->Ok_0.landed.len()
            &&& forall|i: int, j: int|
                0 <= i < j < placed.len() ==> (#[trigger] placed[i]).end <= (
                #[trigger] placed[j]).start && placed[i].start < placed[j].start
        }),
{
    let places = all_places(path, body_of(content), edits, blocks)->Ok_0;
    let placed = settled(places);
    lemma_places_are_ranges(path, body_of(content), edits, blocks);
    lemma_settled_whole(places);
    lemma_settled_ranges(places);
    lemma_all_apart(path, placed);
}

} // verus!
