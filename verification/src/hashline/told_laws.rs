//! What a refusal tells: where it was, which edit it is about, and what is there.

use crate::hashline::edit_laws::{shows, shows_at};
use crate::hashline::edits::{message_of, nth_edit, tag_of};
use crate::hashline::landing::{
    above, available, candidate, closeness, closest, covering, innermost, likeness, nearest,
    opening_lines, row_at, Ratio, RefusalView,
};
use crate::hashline::laws::{lemma_closeness_is_a_ratio, lemma_nearest, lemma_not_above_through};
use crate::hashline::patch::{error_form, rows_form, ErrorView};
use crate::hashline::plan::{above_row, alike, telling_depth};
use crate::text::{cropped, decimal, join, lines, trim};
use vstd::prelude::*;
use vstd::string::*;

verus! {

/// The file a refused edit is about, where it is about one.
pub open spec fn refused_in(r: RefusalView) -> Option<Seq<char>> {
    match r {
        RefusalView::NoEdits => None,
        RefusalView::EmptyAnchor { path, .. } => Some(path),
        RefusalView::EmptyInsert { path, .. } => Some(path),
        RefusalView::NoMatch { path, .. } => Some(path),
        RefusalView::Ambiguous { path, .. } => Some(path),
        RefusalView::Overlap { path, .. } => Some(path),
        RefusalView::InsertInside { path, .. } => Some(path),
        RefusalView::NoBlock { path, .. } => Some(path),
        RefusalView::AmbiguousBlock { path, .. } => Some(path),
        RefusalView::Unchanged { path } => Some(path),
    }
}

/// The edits that a refusal is about, by number.
pub open spec fn refused_edits(r: RefusalView) -> Seq<int> {
    match r {
        RefusalView::EmptyAnchor { index, .. } => seq![index],
        RefusalView::EmptyInsert { index, .. } => seq![index],
        RefusalView::NoMatch { index, .. } => seq![index],
        RefusalView::Ambiguous { index, .. } => seq![index],
        RefusalView::Overlap { a, b, .. } => seq![a, b],
        RefusalView::InsertInside { a, b, .. } => seq![a, b],
        RefusalView::NoBlock { index, .. } => seq![index],
        RefusalView::AmbiguousBlock { index, .. } => seq![index],
        _ => Seq::empty(),
    }
}

/// A refusal names the file it is about.
pub proof fn law_a_refusal_names_its_file(r: RefusalView)
    ensures
        refused_in(r) matches Some(path) ==> shows(message_of(r), path),
{
    let m = message_of(r);
    match r {
        RefusalView::NoEdits => {},
        RefusalView::EmptyAnchor { path, .. }
        | RefusalView::EmptyInsert { path, .. }
        | RefusalView::NoBlock { path, .. }
        | RefusalView::AmbiguousBlock { path, .. } => {
            assert(shows_at(m, path, "in "@.len() as int));
        },
        RefusalView::NoMatch { path, .. } => {
            assert(shows_at(m, path, "no match in "@.len() as int));
        },
        RefusalView::Ambiguous { path, index, n, .. } => {
            let front = nth_edit(index) + " matches "@ + decimal(n as nat) + " places in "@;
            assert(shows_at(m, path, front.len() as int));
        },
        RefusalView::Overlap { path, a, b } => {
            let front = nth_edit(a) + " and "@ + nth_edit(b) + " overlap in "@;
            assert(shows_at(m, path, front.len() as int));
        },
        RefusalView::InsertInside { path, a, b } => {
            let front = nth_edit(a) + " and "@ + nth_edit(b) + " meet at one byte in "@;
            assert(shows_at(m, path, front.len() as int));
        },
        RefusalView::Unchanged { path } => {
            assert(shows_at(m, path, 0));
        },
    }
}

/// A refusal names every edit it is about, by its number from zero on.
pub proof fn law_a_refusal_names_its_edits(r: RefusalView, k: int)
    requires
        0 <= k < refused_edits(r).len(),
        refused_edits(r)[k] >= 0,
    ensures
        shows(
            message_of(r),
            seq!['e', 'd', 'i', 't', 's', '['] + decimal(refused_edits(r)[k] as nat) + seq![']'],
        ),
{
    reveal_strlit("edits[");
    reveal_strlit("]");
    let m = message_of(r);
    let i = refused_edits(r)[k];
    let told = seq!['e', 'd', 'i', 't', 's', '['] + decimal(i as nat) + seq![']'];
    assert(nth_edit(i) =~= told);
    match r {
        RefusalView::EmptyAnchor { path, .. }
        | RefusalView::EmptyInsert { path, .. }
        | RefusalView::NoBlock { path, .. }
        | RefusalView::AmbiguousBlock { path, .. } => {
            assert(shows_at(m, told, ("in "@ + path + ", "@).len() as int));
        },
        RefusalView::NoMatch { path, .. } => {
            assert(shows_at(m, told, ("no match in "@ + path + " for "@).len() as int));
        },
        RefusalView::Ambiguous { .. } => {
            assert(shows_at(m, told, 0));
        },
        RefusalView::Overlap { a, .. } | RefusalView::InsertInside { a, .. } => {
            if k == 0 {
                assert(shows_at(m, told, 0));
            } else {
                assert(shows_at(m, told, (nth_edit(a) + " and "@).len() as int));
            }
        },
        _ => {},
    }
}

/// A text that was not found is told with the number and the text of the row that
/// comes closest; one found too often with how often and where.
pub proof fn law_a_failed_search_tells_what_is_there(
    path: Seq<char>,
    index: int,
    line: int,
    n: int,
    text: Seq<char>,
)
    requires
        line >= 0,
        n >= 0,
    ensures
        shows(
            message_of(RefusalView::NoMatch { path, index, line, text }),
            decimal(line as nat) + seq![':', ' ', '`'] + text + seq!['`'],
        ),
        shows(
            error_form(ErrorView::NoMatch { path, line, text }),
            decimal(line as nat) + seq![':', ' ', '`'] + text + seq!['`'],
        ),
        shows(message_of(RefusalView::Ambiguous { path, index, n, detail: text }), text),
        shows(error_form(ErrorView::Ambiguous { path, n, detail: text }), text),
        shows(message_of(RefusalView::Ambiguous { path, index, n, detail: text }), decimal(n as nat)),
        shows(error_form(ErrorView::Ambiguous { path, n, detail: text }), decimal(n as nat)),
{
    reveal_strlit(": `");
    reveal_strlit("`. Nothing was written.");
    reveal_strlit("`");
    let told = decimal(line as nat) + seq![':', ' ', '`'] + text + seq!['`'];
    let a = message_of(RefusalView::NoMatch { path, index, line, text });
    let front = "no match in "@ + path + " for "@ + nth_edit(index)
        + " — the closest real line is "@;
    assert(shows_at(a, told, front.len() as int));
    let b = error_form(ErrorView::NoMatch { path, line, text });
    let before = "no match in "@ + path + " — the closest row is "@;
    assert(shows_at(b, told, before.len() as int));
    let c = message_of(RefusalView::Ambiguous { path, index, n, detail: text });
    let x = nth_edit(index) + " matches "@;
    let y = x + decimal(n as nat) + " places in "@ + path + ":\n"@;
    assert(shows_at(c, decimal(n as nat), x.len() as int));
    assert(shows_at(c, text, y.len() as int));
    let d = error_form(ErrorView::Ambiguous { path, n, detail: text });
    let z = decimal(n as nat) + " places match in "@ + path + ":\n"@;
    assert(shows_at(d, decimal(n as nat), 0));
    assert(shows_at(d, text, z.len() as int));
}

/// Refusals of different kinds carry different tags.
pub proof fn law_a_tag_tells_the_kind(r: RefusalView, s: RefusalView)
    requires
        tag_of(r) == tag_of(s),
    ensures
        r is NoEdits == s is NoEdits,
        r is EmptyAnchor == s is EmptyAnchor,
        r is EmptyInsert == s is EmptyInsert,
        r is NoMatch == s is NoMatch,
        r is Ambiguous == s is Ambiguous,
        r is Overlap == s is Overlap,
        r is InsertInside == s is InsertInside,
        r is NoBlock == s is NoBlock,
        r is AmbiguousBlock == s is AmbiguousBlock,
        r is Unchanged == s is Unchanged,
{
    reveal_strlit("NO_EDITS");
    reveal_strlit("EMPTY_ANCHOR");
    reveal_strlit("EMPTY_INSERT");
    reveal_strlit("NO_MATCH");
    reveal_strlit("AMBIGUOUS");
    reveal_strlit("OVERLAP");
    reveal_strlit("INSERT_INSIDE");
    reveal_strlit("NO_BLOCK");
    reveal_strlit("AMBIGUOUS_BLOCK");
    reveal_strlit("UNCHANGED");
    let t = tag_of(r);
    let n = t.len();
    assert(r is NoEdits ==> n == 8 && t[0] == 'N' && t[3] == 'E');
    assert(r is NoMatch ==> n == 8 && t[0] == 'N' && t[3] == 'M');
    assert(r is NoBlock ==> n == 8 && t[0] == 'N' && t[3] == 'B');
    assert(r is EmptyAnchor ==> n == 12 && t[6] == 'A');
    assert(r is EmptyInsert ==> n == 12 && t[6] == 'I');
    assert(r is Ambiguous ==> n == 9 && t[0] == 'A');
    assert(r is Unchanged ==> n == 9 && t[0] == 'U');
    assert(r is Overlap ==> n == 7);
    assert(r is InsertInside ==> n == 13);
    assert(r is AmbiguousBlock ==> n == 15);
    assert(s is NoEdits ==> n == 8 && t[0] == 'N' && t[3] == 'E');
    assert(s is NoMatch ==> n == 8 && t[0] == 'N' && t[3] == 'M');
    assert(s is NoBlock ==> n == 8 && t[0] == 'N' && t[3] == 'B');
    assert(s is EmptyAnchor ==> n == 12 && t[6] == 'A');
    assert(s is EmptyInsert ==> n == 12 && t[6] == 'I');
    assert(s is Ambiguous ==> n == 9 && t[0] == 'A');
    assert(s is Unchanged ==> n == 9 && t[0] == 'U');
    assert(s is Overlap ==> n == 7);
    assert(s is InsertInside ==> n == 13);
    assert(s is AmbiguousBlock ==> n == 15);
}

/// What a patch is refused for names the file, or the line of the patch where it
/// could not be read; two ranges that meet are told with their rows and the row
/// they meet on.
pub proof fn law_a_refused_patch_tells_where(e: ErrorView)
    requires
        e matches ErrorView::Syntax { line, .. } ==> line >= 0,
        e matches ErrorView::Overlap { a_start, a_end, b_start, b_end, overlap, .. } ==> a_start
            >= 0 && a_end >= 0 && b_start >= 0 && b_end >= 0 && overlap >= 0,
    ensures
        match e {
            ErrorView::Syntax { line, what } => shows(
                error_form(e),
                decimal(line as nat) + seq![':', ' '] + what,
            ),
            ErrorView::Empty => true,
            ErrorView::Missing { path } => shows(error_form(e), path),
            ErrorView::NoMatch { path, .. } => shows(error_form(e), path),
            ErrorView::Ambiguous { path, .. } => shows(error_form(e), path),
            ErrorView::NoConstruct { path, what } => shows(error_form(e), path) && shows(
                error_form(e),
                what,
            ),
            ErrorView::Overlap { path, a_start, a_end, b_start, b_end, overlap, .. } => {
                &&& shows(error_form(e), path)
                &&& shows(
                    error_form(e),
                    decimal(a_start as nat) + seq!['-'] + decimal(a_end as nat),
                )
                &&& shows(
                    error_form(e),
                    decimal(b_start as nat) + seq!['-'] + decimal(b_end as nat),
                )
                &&& shows(error_form(e), seq!['r', 'o', 'w', ' '] + decimal(overlap as nat))
            },
        },
{
    let m = error_form(e);
    match e {
        ErrorView::Syntax { line, what } => {
            reveal_strlit(": ");
            let told = decimal(line as nat) + seq![':', ' '] + what;
            assert(shows_at(m, told, "line "@.len() as int));
        },
        ErrorView::Empty => {},
        ErrorView::Missing { path } => {
            assert(shows_at(m, path, 0));
        },
        ErrorView::NoMatch { path, .. } => {
            assert(shows_at(m, path, "no match in "@.len() as int));
        },
        ErrorView::Ambiguous { path, n, .. } => {
            assert(shows_at(m, path, (decimal(n as nat) + " places match in "@).len() as int));
        },
        ErrorView::NoConstruct { path, what } => {
            assert(shows_at(m, path, "in "@.len() as int));
            assert(shows_at(m, what, ("in "@ + path + ": "@).len() as int));
        },
        ErrorView::Overlap { path, a_start, a_end, b_start, b_end, overlap, a_in, b_in } => {
            reveal_strlit("-");
            reveal_strlit(" overlap at row ");
            let a = decimal(a_start as nat) + seq!['-'] + decimal(a_end as nat);
            let b = decimal(b_start as nat) + seq!['-'] + decimal(b_end as nat);
            assert(rows_form(a_start, a_end) =~= a);
            assert(rows_form(b_start, b_end) =~= b);
            let one = "in "@ + path + ": rows "@;
            let two = one + a + a_in + " and "@;
            let three = two + b + b_in;
            assert(shows_at(m, path, "in "@.len() as int));
            assert(shows_at(m, a, one.len() as int));
            assert(shows_at(m, b, two.len() as int));
            let told = seq!['r', 'o', 'w', ' '] + decimal(overlap as nat);
            assert(shows_at(m, told, three.len() as int + 12));
        },
    }
}

// ---------------------------------------------------------------------------
// The closest row
// ---------------------------------------------------------------------------

/// How many characters two texts have in common, wherever they stand.
pub open spec fn in_common(a: Seq<char>, b: Seq<char>) -> int {
    a.to_multiset().intersection_with(b.to_multiset()).len() as int
}

/// The length of the longer of two texts, and no less than one.
pub open spec fn out_of(a: Seq<char>, b: Seq<char>) -> int {
    if a.len() <= 1 && b.len() <= 1 {
        1
    } else if a.len() < b.len() {
        b.len() as int
    } else {
        a.len() as int
    }
}

/// Whether `a` has more of `b` than `c` has of `d`, each out of the longer one.
pub open spec fn liker(a: Seq<char>, b: Seq<char>, c: Seq<char>, d: Seq<char>) -> bool {
    in_common(a, b) * out_of(c, d) > in_common(c, d) * out_of(a, b)
}

proof fn lemma_liker(a: Seq<char>, b: Seq<char>, c: Seq<char>, d: Seq<char>)
    ensures
        liker(a, b, c, d) == above(likeness(a, b), likeness(c, d)),
        out_of(a, b) > 0,
        likeness(a, b).1 == out_of(a, b),
{
}

proof fn lemma_best_wanted(row: Seq<char>, wanted: Seq<Seq<char>>) -> (w: int)
    requires
        wanted.len() > 0,
    ensures
        0 <= w < wanted.len(),
        closeness(row, wanted) == likeness(row, wanted[w]),
        forall|v: int|
            0 <= v < wanted.len() ==> !above(
                likeness(row, #[trigger] wanted[v]),
                closeness(row, wanted),
            ),
    decreases wanted.len(),
{
    let less = wanted.drop_last();
    let last = likeness(row, wanted.last());
    let rest = closeness(row, less);
    let n = wanted.len() - 1;
    lemma_liker(row, wanted.last(), row, wanted.last());
    lemma_closeness_is_a_ratio(row, less);
    if less.len() == 0 {
        assert(rest == (-1int, 1int));
        assert(above(last, rest)) by {
            assert(last.0 * 1 > -1 * last.1);
        }
        assert(wanted.last() == wanted[0]);
        assert(!above(last, last));
        0
    } else {
        let w = lemma_best_wanted(row, less);
        if above(last, rest) {
            assert forall|v: int| 0 <= v < wanted.len() implies !above(
                likeness(row, #[trigger] wanted[v]),
                last,
            ) by {
                if v < n {
                    assert(wanted[v] == less[v]);
                    lemma_liker(row, wanted[v], row, wanted[v]);
                    lemma_not_above_through(likeness(row, wanted[v]), rest, last);
                }
            }
            n
        } else {
            assert forall|v: int| 0 <= v < wanted.len() implies !above(
                likeness(row, #[trigger] wanted[v]),
                rest,
            ) by {
                if v < n {
                    assert(wanted[v] == less[v]);
                }
            }
            w
        }
    }
}

proof fn lemma_above_through(a: Ratio, b: Ratio, c: Ratio)
    requires
        a.1 > 0,
        b.1 > 0,
        c.1 > 0,
        above(a, b),
        !above(c, b),
    ensures
        above(a, c),
{
    let (a0, a1, b0, b1, c0, c1) = (a.0, a.1, b.0, b.1, c.0, c.1);
    assert(a0 * c1 > c0 * a1) by (nonlinear_arith)
        requires
            a0 * b1 > b0 * a1,
            c0 * b1 <= b0 * c1,
            a1 > 0,
            b1 > 0,
            c1 > 0,
    {
        assert((a0 * b1) * c1 > (b0 * a1) * c1);
        assert((c0 * b1) * a1 <= (b0 * c1) * a1);
        assert((b0 * a1) * c1 == (b0 * c1) * a1);
        assert((a0 * c1) * b1 == (a0 * b1) * c1);
        assert((c0 * a1) * b1 == (c0 * b1) * a1);
        assert((a0 * c1) * b1 > (c0 * a1) * b1);
    }
}

proof fn lemma_first_nearest(
    rows: Seq<Seq<char>>,
    wanted: Seq<Seq<char>>,
    lo: int,
    hi: int,
    n: int,
)
    requires
        lo <= n < nearest(rows, wanted, lo, hi),
        lo <= hi,
    ensures
        above(
            closeness(row_at(rows, nearest(rows, wanted, lo, hi)), wanted),
            closeness(row_at(rows, n), wanted),
        ),
    decreases hi - lo,
{
    let best = nearest(rows, wanted, lo, hi - 1);
    let last = closeness(row_at(rows, hi), wanted);
    let kept = closeness(row_at(rows, best), wanted);
    let c = closeness(row_at(rows, n), wanted);
    lemma_closeness_is_a_ratio(row_at(rows, hi), wanted);
    lemma_closeness_is_a_ratio(row_at(rows, best), wanted);
    lemma_closeness_is_a_ratio(row_at(rows, n), wanted);
    if above(last, kept) {
        lemma_nearest(rows, wanted, lo, hi - 1, n);
        lemma_above_through(last, kept, c);
    } else {
        lemma_first_nearest(rows, wanted, lo, hi - 1, n);
    }
}

/// The row a failed search hands over is the first of those that are most like a
/// line of what was looked for: no row has more of its characters in common with
/// any line, out of the longer of the two.
pub proof fn law_the_row_told_is_the_most_alike(
    body: Seq<char>,
    anchor: Seq<char>,
    n: int,
    v: int,
)
    requires
        1 <= n <= lines(body).len(),
        0 <= v < lines(anchor).len(),
    ensures
        ({
            let c = closest(body, anchor);
            &&& 1 <= c <= lines(body).len()
            &&& exists|w: int|
                0 <= w < lines(anchor).len() && !liker(
                    lines(body)[n - 1],
                    lines(anchor)[v],
                    lines(body)[c - 1],
                    #[trigger] lines(anchor)[w],
                ) && (n < c ==> liker(
                    lines(body)[c - 1],
                    lines(anchor)[w],
                    lines(body)[n - 1],
                    lines(anchor)[v],
                ))
        }),
{
    let rows = lines(body);
    let wanted = lines(anchor);
    let hi = rows.len() as int;
    let c = closest(body, anchor);
    lemma_nearest(rows, wanted, 1, hi, n);
    let w = lemma_best_wanted(rows[c - 1], wanted);
    lemma_best_wanted(rows[n - 1], wanted);
    let here = closeness(rows[n - 1], wanted);
    let there = closeness(rows[c - 1], wanted);
    let one = likeness(rows[n - 1], wanted[v]);
    lemma_closeness_is_a_ratio(rows[n - 1], wanted);
    lemma_closeness_is_a_ratio(rows[c - 1], wanted);
    lemma_liker(rows[n - 1], wanted[v], rows[c - 1], wanted[w]);
    lemma_liker(rows[c - 1], wanted[w], rows[n - 1], wanted[v]);
    lemma_not_above_through(one, here, there);
    if n < c {
        lemma_first_nearest(rows, wanted, 1, hi, n);
        lemma_above_through(there, here, one);
    }
    assert(wanted[w] == lines(anchor)[w]);
}

// ---------------------------------------------------------------------------
// The places that match
// ---------------------------------------------------------------------------

proof fn lemma_innermost(extents: Seq<(usize, usize)>, at: int)
    ensures
        match innermost(extents, at) {
            Some(j) => {
                &&& 0 <= j < extents.len()
                &&& extents[j].0 <= at <= extents[j].1
                &&& forall|k: int|
                    0 <= k < extents.len() && (#[trigger] extents[k]).0 <= at <= extents[k].1
                        ==> extents[j].1 - extents[j].0 <= extents[k].1 - extents[k].0
            },
            None => forall|k: int|
                0 <= k < extents.len() ==> !((#[trigger] extents[k]).0 <= at <= extents[k].1),
        },
    decreases extents.len(),
{
    if extents.len() > 0 {
        let less = extents.drop_last();
        lemma_innermost(less, at);
        assert forall|k: int| 0 <= k < less.len() implies #[trigger] extents[k] == less[k] by {}
    }
}

/// A place is told with the opening row of the smallest construct around it, and
/// with none where there is none.
pub proof fn law_a_place_is_told_by_the_construct_around(
    at: int,
    rows: Seq<Seq<char>>,
    extents: Seq<(usize, usize)>,
)
    requires
        forall|k: int| 0 <= k < extents.len() ==> 1 <= (#[trigger] extents[k]).0 <= rows.len(),
    ensures
        covering(at, rows, extents) matches Some(told) ==> exists|j: int|
            {
                &&& 0 <= j < extents.len()
                &&& (#[trigger] extents[j]).0 <= at <= extents[j].1
                &&& told == trim(rows[extents[j].0 - 1])
                &&& forall|k: int|
                    0 <= k < extents.len() && (#[trigger] extents[k]).0 <= at <= extents[k].1
                        ==> extents[j].1 - extents[j].0 <= extents[k].1 - extents[k].0
            },
        covering(at, rows, extents) is None ==> forall|k: int|
            0 <= k < extents.len() ==> !((#[trigger] extents[k]).0 <= at <= extents[k].1),
{
    lemma_innermost(extents, at);
    if innermost(extents, at) is Some {
        let j = innermost(extents, at)->Some_0;
        assert(1 <= extents[j].0 <= rows.len());
    }
}

/// Places that match alike are told with as many of the rows above them as it
/// takes to tell them apart: one, two, or three where the first two are the same.
pub proof fn law_the_rows_above_tell_places_apart(
    rows: Seq<Seq<char>>,
    starts: Seq<int>,
    i: int,
    d: int,
)
    requires
        0 <= i < starts.len(),
        forall|k: int| 0 <= k < starts.len() ==> 3 < #[trigger] starts[k] <= rows.len(),
    ensures
        1 <= telling_depth(rows, starts) <= 3,
        1 <= d < telling_depth(rows, starts) ==> rows[starts[i] - d - 1] == rows[starts[0] - d - 1],
        telling_depth(rows, starts) < 3 ==> exists|k: int|
            0 <= k < starts.len() && rows[#[trigger] starts[k] - telling_depth(rows, starts) - 1]
                != rows[starts[0] - telling_depth(rows, starts) - 1],
{
    let t = telling_depth(rows, starts);
    if 1 <= d < t {
        assert(alike(rows, starts, d));
        assert(above_row(rows, starts[i], d) == above_row(rows, starts[0], d));
    }
    if t < 3 {
        assert(!alike(rows, starts, t));
        let k = choose|k: int|
            0 <= k < starts.len() && above_row(rows, #[trigger] starts[k], t) != above_row(
                rows,
                starts[0],
                t,
            );
        assert(rows[starts[k] - t - 1] != rows[starts[0] - t - 1]);
    }
}

/// A place is told with its line, what it is in and the row above it.
pub proof fn law_a_place_is_told_with_the_row_above(
    at: int,
    rows: Seq<Seq<char>>,
    extents: Seq<(usize, usize)>,
)
    requires
        2 <= at <= rows.len() + 1,
    ensures
        ({
            let above = if rows[at - 2].len() > 60 {
                rows[at - 2].take(60).push('…')
            } else {
                rows[at - 2]
            };
            let told = candidate(at, rows, extents);
            &&& shows_at(told, decimal(at as nat), 7)
            &&& shows(told, seq!['`'] + above + seq!['`'])
            &&& covering(at, rows, extents) is None ==> told == "  line "@ + decimal(at as nat)
                + ", preceded by `"@ + above + "`"@
        }),
{
    reveal_strlit("  line ");
    reveal_strlit(", preceded by `");
    reveal_strlit("`");
    let above = if rows[at - 2].len() > 60 {
        rows[at - 2].take(60).push('…')
    } else {
        rows[at - 2]
    };
    let told = candidate(at, rows, extents);
    let quoted = seq!['`'] + above + seq!['`'];
    assert(shows_at(told, quoted, told.len() - quoted.len()));
    assert("  line "@ + decimal(at as nat) + Seq::<char>::empty() + (", preceded by `"@ + above
        + "`"@) =~= "  line "@ + decimal(at as nat) + ", preceded by `"@ + above + "`"@);
}

// ---------------------------------------------------------------------------
// What a file opens with
// ---------------------------------------------------------------------------

/// Whether a row that opens something says `text`.
pub open spec fn some_opening(opens: Seq<usize>, rows: Seq<Seq<char>>, text: Seq<char>) -> bool {
    exists|j: int|
        0 <= j < opens.len() && 1 <= #[trigger] opens[j] <= rows.len() && text == trim(
            rows[opens[j] - 1],
        )
}

proof fn lemma_openings(opens: Seq<usize>, rows: Seq<Seq<char>>)
    ensures
        ({
            let all = opening_lines(opens, rows);
            &&& forall|k: int|
                0 <= k < all.len() ==> some_opening(opens, rows, #[trigger] all[k])
            &&& forall|j: int|
                0 <= j < opens.len() && 1 <= #[trigger] opens[j] <= rows.len() ==> all.contains(
                    trim(rows[opens[j] - 1]),
                )
            &&& forall|i: int, k: int|
                0 <= i && k == i + 1 && k < all.len() ==> #[trigger] all[i] != #[trigger] all[k]
        }),
    decreases opens.len(),
{
    let all = opening_lines(opens, rows);
    if opens.len() > 0 {
        let fewer = opens.drop_last();
        lemma_openings(fewer, rows);
        let rest = opening_lines(fewer, rows);
        let last = opens.len() - 1;
        assert forall|k: int| 0 <= k < all.len() implies some_opening(
            opens,
            rows,
            #[trigger] all[k],
        ) by {
            if k < rest.len() {
                assert(some_opening(fewer, rows, rest[k]));
                let j = choose|j: int|
                    0 <= j < fewer.len() && 1 <= #[trigger] fewer[j] <= rows.len() && rest[k]
                        == trim(rows[fewer[j] - 1]);
                assert(opens[j] == fewer[j]);
            } else {
                assert(1 <= opens[last] <= rows.len());
            }
        }
        assert forall|j: int|
            0 <= j < opens.len() && 1 <= #[trigger] opens[j] <= rows.len() implies all.contains(
            trim(rows[opens[j] - 1]),
        ) by {
            let row = trim(rows[opens[j] - 1]);
            if j < last {
                assert(fewer[j] == opens[j]);
                assert(rest.contains(row));
                let k = choose|k: int| 0 <= k < rest.len() && rest[k] == row;
                assert(all[k] == row);
            } else {
                assert(all[all.len() - 1] == row);
            }
        }
    }
}

/// What a file opens with is told as its rows are: only rows that open something,
/// every one of them, and none twice in a row.
pub proof fn law_the_openings_of_a_file_are_told(opens: Seq<usize>, rows: Seq<Seq<char>>, k: int)
    requires
        0 <= k < opens.len(),
        1 <= opens[k] <= rows.len(),
    ensures
        ({
            let all = opening_lines(opens, rows);
            &&& all.contains(trim(rows[opens[k] - 1]))
            &&& forall|i: int|
                0 <= i < all.len() ==> some_opening(opens, rows, #[trigger] all[i])
            &&& forall|i: int, j: int|
                0 <= i && j == i + 1 && j < all.len() ==> #[trigger] all[i] != #[trigger] all[j]
            &&& all.len() <= 5 ==> available(opens, rows) == " — the file opens: "@ + join(
                Seq::new(all.len(), |i: int| seq!['`'] + cropped(all[i], 60) + seq!['`']),
                ", "@,
            )
            &&& all.len() > 5 ==> available(opens, rows) == " — the file opens: "@ + join(
                Seq::new(5, |i: int| seq!['`'] + cropped(all[i], 60) + seq!['`']),
                ", "@,
            ) + ", and "@ + decimal((all.len() - 5) as nat) + " more"@
        }),
{
    lemma_openings(opens, rows);
    let all = opening_lines(opens, rows);
    assert(all.contains(trim(rows[opens[k] - 1])));
    assert(all.len() > 0);
}

} // verus!
