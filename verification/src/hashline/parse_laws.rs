//! What a patch is read as, stated on its lines.

use crate::hashline::parse::{
    after_line, after_lines, closed_group, fault, header_path, parsed, row_of_line, Reading,
};
use crate::hashline::patch::{
    adds_around, is_add, late_scope, star_at, starred, ErrorView, Mark, RowView, SectionView,
};
use crate::hashline::patch_laws::{around_star, lemma_star_at, shaped};
use crate::hashline::plan::scope_count;
use crate::text::{blank, lines};
use vstd::prelude::*;

verus! {

/// The sign a row is written with.
pub open spec fn sign_of(r: RowView) -> char {
    match r {
        RowView::Mark(Mark::Del, _) => '-',
        RowView::Mark(Mark::Keep, _) => '=',
        RowView::Mark(Mark::Add, _) => '+',
        RowView::Star(_) => '*',
        RowView::At(_) => '@',
    }
}

/// The line a row is written as.
pub open spec fn line_of_row(r: RowView) -> Seq<char> {
    seq![sign_of(r)] + match r {
        RowView::Mark(_, t) => t,
        RowView::Star(t) => t,
        RowView::At(t) => t,
    }
}

/// The lines an operation is written as.
pub open spec fn group_lines(g: Seq<RowView>) -> Seq<Seq<char>> {
    Seq::new(g.len(), |i: int| line_of_row(g[i]))
}

/// The lines the operations of a section are written as, one after another.
pub open spec fn groups_lines(groups: Seq<Seq<RowView>>) -> Seq<Seq<char>>
    decreases groups.len(),
{
    if groups.len() == 0 {
        Seq::empty()
    } else {
        groups_lines(groups.drop_last()) + group_lines(groups.last())
    }
}

/// The lines sections are written as: each its path in brackets and its rows.
pub open spec fn sections_lines(sections: Seq<SectionView>) -> Seq<Seq<char>>
    decreases sections.len(),
{
    if sections.len() == 0 {
        Seq::empty()
    } else {
        let last = sections.last();
        sections_lines(sections.drop_last()) + seq![seq!['['] + last.path + seq![']']]
            + groups_lines(last.groups)
    }
}

/// The lines among the first `n` that are not blank.
pub open spec fn written_lines(all: Seq<Seq<char>>, n: int) -> Seq<Seq<char>>
    decreases n,
{
    if n <= 0 {
        Seq::empty()
    } else if blank(all[n - 1]) {
        written_lines(all, n - 1)
    } else {
        written_lines(all, n - 1).push(all[n - 1])
    }
}

/// Whether a line is a path in brackets.
pub open spec fn bracketed(line: Seq<char>) -> bool {
    line.len() >= 2 && line[0] == '[' && line[line.len() - 1] == ']'
}

/// How many rows stand at the end of the first `n` lines, behind the last blank
/// line or header.
pub open spec fn open_rows(all: Seq<Seq<char>>, n: int) -> int
    decreases n,
{
    if n <= 0 || blank(all[n - 1]) || bracketed(all[n - 1]) {
        0
    } else {
        open_rows(all, n - 1) + 1
    }
}

proof fn lemma_closed_group(r: Reading)
    requires
        closed_group(r) is Ok,
    ensures
        ({
            let done = closed_group(r)->Ok_0;
            &&& sections_lines(done.sections) == sections_lines(r.sections) + group_lines(r.group)
            &&& done.group.len() == 0
            &&& done.sections.len() == r.sections.len()
            &&& forall|k: int|
                0 <= k < done.sections.len() ==> (#[trigger] done.sections[k]).path
                    == r.sections[k].path && done.sections[k].line == r.sections[k].line
        }),
{
    let done = closed_group(r)->Ok_0;
    if r.group.len() == 0 {
        assert(group_lines(r.group) =~= Seq::empty());
        assert(sections_lines(r.sections) + group_lines(r.group) =~= sections_lines(r.sections));
    } else {
        let last = r.sections.last();
        let grown = SectionView { groups: last.groups.push(r.group), ..last };
        assert(done.sections == r.sections.drop_last().push(grown));
        assert(done.sections.drop_last() =~= r.sections.drop_last());
        assert(grown.groups.drop_last() =~= last.groups);
        assert(sections_lines(done.sections) =~= sections_lines(r.sections) + group_lines(r.group));
    }
}

/// Every line of a patch that is not blank is in what was read, in order: a path
/// in brackets starts a section, and a row keeps the sign it was written with and
/// all its text. A section knows the line its header stands on.
pub proof fn law_every_line_is_read(all: Seq<Seq<char>>, n: int)
    requires
        0 <= n <= all.len(),
        after_lines(all, n) is Ok,
    ensures
        ({
            let r = after_lines(all, n)->Ok_0;
            &&& written_lines(all, n) == sections_lines(r.sections) + group_lines(r.group)
            &&& r.group.len() == open_rows(all, n)
            &&& forall|k: int|
                0 <= k < r.sections.len() ==> {
                    let s = #[trigger] r.sections[k];
                    1 <= s.line <= n && all[s.line - 1] == seq!['['] + s.path + seq![']']
                }
        }),
    decreases n,
{
    let r = after_lines(all, n)->Ok_0;
    if n > 0 {
        law_every_line_is_read(all, n - 1);
        let q = after_lines(all, n - 1)->Ok_0;
        let raw = all[n - 1];
        assert(after_line(q, raw, n) == Ok::<Reading, ErrorView>(r));
        let before = written_lines(all, n - 1);
        if blank(raw) {
            lemma_closed_group(q);
            let done = closed_group(q)->Ok_0;
            assert(r.sections == done.sections && r.group == done.group);
            assert(group_lines(r.group) =~= Seq::empty());
            assert(written_lines(all, n) =~= sections_lines(r.sections) + group_lines(r.group));
            assert forall|k: int| 0 <= k < r.sections.len() implies {
                let s = #[trigger] r.sections[k];
                1 <= s.line <= n && all[s.line - 1] == seq!['['] + s.path + seq![']']
            } by {
                assert(q.sections[k].line >= 1);
            }
        } else if header_path(raw) is Some {
            let inner = header_path(raw)->Some_0;
            let s = SectionView { path: inner, groups: Seq::empty(), line: n };
            assert(r.sections == q.sections.push(s));
            assert(r.sections.drop_last() =~= q.sections);
            assert(raw =~= seq!['['] + inner + seq![']']);
            assert(group_lines(q.group) =~= Seq::empty());
            assert(groups_lines(Seq::<Seq<RowView>>::empty()) =~= Seq::empty());
            assert(written_lines(all, n) =~= sections_lines(r.sections) + group_lines(r.group));
            assert forall|k: int| 0 <= k < r.sections.len() implies {
                let s = #[trigger] r.sections[k];
                1 <= s.line <= n && all[s.line - 1] == seq!['['] + s.path + seq![']']
            } by {
                if k < q.sections.len() {
                    assert(q.sections[k].line >= 1);
                }
            }
        } else {
            let row = row_of_line(raw)->Some_0;
            assert(r.group == q.group.push(row));
            assert(line_of_row(row) =~= raw);
            assert(group_lines(r.group) =~= group_lines(q.group).push(raw));
            assert(written_lines(all, n) =~= sections_lines(r.sections) + group_lines(r.group));
        }
    } else {
        assert(group_lines(r.group) =~= Seq::empty());
        assert(written_lines(all, n) =~= sections_lines(r.sections) + group_lines(r.group));
    }
}

/// A patch that was read is its lines: its sections, written out again, are the
/// lines of the input that are not blank.
pub proof fn law_a_patch_reads_as_its_lines(input: Seq<char>)
    requires
        parsed(input) is Ok,
    ensures
        sections_lines(parsed(input)->Ok_0) == written_lines(lines(input), lines(input).len() as int),
        parsed(input)->Ok_0.len() > 0,
{
    let all = lines(input);
    let n = all.len() as int;
    law_every_line_is_read(all, n);
    lemma_closed_group(after_lines(all, n)->Ok_0);
}

proof fn lemma_scope_count(g: Seq<RowView>)
    ensures
        0 <= scope_count(g) <= g.len(),
        forall|i: int| 0 <= i < scope_count(g) ==> #[trigger] g[i] is At,
        scope_count(g) < g.len() ==> !(g[scope_count(g)] is At),
    decreases g.len(),
{
    if g.len() > 0 && g[0] is At {
        lemma_scope_count(g.skip(1));
        assert forall|i: int| 0 <= i < scope_count(g) implies #[trigger] g[i] is At by {
            if i > 0 {
                assert(g.skip(1)[i - 1] == g[i]);
            }
        }
    }
}

/// An operation is taken where it is scopes and marked rows behind them, or one
/// `*` row with `+` rows around it; and nothing else is.
pub proof fn law_an_operation_is_rows_under_scopes_or_rows_around_a_star(g: Seq<RowView>, at: int)
    requires
        g.len() > 0,
    ensures
        fault(g, at) is None <==> (exists|n: int| #[trigger] shaped(g, n) && n < g.len()) || (g.len()
            > 1 && exists|ix: int| #[trigger] around_star(g, ix)),
{
    if starred(g) {
        lemma_star_at(g);
        let ix = star_at(g);
        let behind = g.skip(ix + 1);
        if fault(g, at) is None {
            assert(around_star(g, ix)) by {
                assert forall|i: int| 0 <= i < g.len() && i != ix implies (
                #[trigger] g[i] matches RowView::Mark(m, _) && m == Mark::Add) by {
                    assert(is_add(g[i]));
                }
            }
        }
        if exists|n: int| #[trigger] shaped(g, n) && n < g.len() {
            let n = choose|n: int| #[trigger] shaped(g, n) && n < g.len();
            assert(g[ix] is Star);
        }
        if g.len() > 1 && exists|x: int| #[trigger] around_star(g, x) {
            let x = choose|x: int| #[trigger] around_star(g, x);
            assert(x == ix) by {
                assert(g[ix] is Star);
            }
            assert(!starred(behind)) by {
                assert forall|i: int| 0 <= i < behind.len() implies !(#[trigger] behind[i] is Star) by {
                    assert(behind[i] == g[ix + 1 + i]);
                }
            }
            assert(adds_around(g, ix));
        }
    } else {
        lemma_scope_count(g);
        let n = scope_count(g);
        if fault(g, at) is None {
            assert(n < g.len());
            assert(shaped(g, n)) by {
                assert forall|i: int| n <= i < g.len() implies #[trigger] g[i] is Mark by {
                    assert(!(g[n] is Star) && !(g[i] is Star));
                    assert(g[n] is Mark);
                    if g[i] is At {
                        assert(late_scope(g));
                    }
                }
            }
        }
        if exists|m: int| #[trigger] shaped(g, m) && m < g.len() {
            let m = choose|m: int| #[trigger] shaped(g, m) && m < g.len();
            assert(g[m] is Mark);
            if late_scope(g) {
                let (i, j) = choose|i: int, j: int|
                    0 <= i < j < g.len() && #[trigger] g[i] is Mark && #[trigger] g[j] is At;
                assert(j < m);
                assert(g[i] is At);
            }
        }
        if exists|ix: int| #[trigger] around_star(g, ix) {
            let ix = choose|ix: int| #[trigger] around_star(g, ix);
            assert(g[ix] is Star);
        }
    }
}

} // verus!
