//! How the line being typed is laid out, stated on positions of the text.

use crate::tui::editor::{
    avail, before_char, caret_cell, closed_row, gutter, is_bang, laid, laid_rows, painted,
    painted_caret, shown_text, EditorView, Laid,
};
use crate::width::{columns, row_columns};
use vstd::prelude::*;

verus! {

/// Whether row `k` is what stands from one cut to the next: up to a line break,
/// which it does not show, or else as much as fits, the next character being too
/// wide for it.
pub open spec fn row_between(
    s: Seq<char>,
    room: int,
    rows: Seq<Seq<char>>,
    cuts: Seq<int>,
    k: int,
) -> bool {
    let from = cuts[k];
    let to = cuts[k + 1];
    &&& 0 <= from < to <= s.len()
    &&& s[to - 1] == '\n' ==> rows[k] == s.subrange(from, to - 1)
    &&& s[to - 1] != '\n' ==> rows[k] == s.subrange(from, to) && to < s.len() && s[to] != '\n'
        && row_columns(s.subrange(from, to)) + columns(s[to]) > room
    &&& forall|i: int| 0 <= i < rows[k].len() ==> #[trigger] rows[k][i] != '\n'
}

/// Whether `cuts` are where the rows of a text start.
pub open spec fn cut_into(s: Seq<char>, room: int, rows: Seq<Seq<char>>, cuts: Seq<int>) -> bool {
    &&& rows.len() == cuts.len() > 0
    &&& cuts[0] == 0
    &&& forall|k: int| 0 <= k < rows.len() - 1 ==> #[trigger] row_between(s, room, rows, cuts, k)
    &&& 0 <= cuts.last() <= s.len()
    &&& rows.last() == s.skip(cuts.last())
    &&& forall|i: int| 0 <= i < rows.last().len() ==> #[trigger] rows.last()[i] != '\n'
}

/// Whether position `p` is on row `r`: the last row that starts no later.
pub open spec fn sits_on(cuts: Seq<int>, p: int, r: int) -> bool {
    0 <= r < cuts.len() && cuts[r] <= p && forall|k: int| r < k < cuts.len() ==> #[trigger] cuts[k] > p
}

spec fn closes(l: Laid, c: char, room: int) -> bool {
    c != '\n' && l.used + columns(c) > room && l.row.len() > 0
}

spec fn cuts_upto(s: Seq<char>, room: int, n: int) -> Seq<int>
    decreases n,
{
    if n <= 0 {
        seq![0]
    } else {
        let before = cuts_upto(s, room, n - 1);
        let c = s[n - 1];
        let soft = if closes(laid(s, room, n - 1), c, room) {
            before.push(n - 1)
        } else {
            before
        };
        if c == '\n' {
            soft.push(n)
        } else {
            soft
        }
    }
}

proof fn lemma_columns_one(c: char)
    ensures
        row_columns(seq![c]) == columns(c),
{
    assert(seq![c].drop_last() =~= Seq::empty());
    assert(row_columns(Seq::<char>::empty()) == 0);
}

/// What stands after `n` characters.
proof fn lemma_cuts(s: Seq<char>, room: int, n: int)
    requires
        0 <= n <= s.len(),
    ensures
        ({
            let l = laid(s, room, n);
            let cuts = cuts_upto(s, room, n);
            &&& cuts.len() == l.rows.len() + 1
            &&& cuts[0] == 0
            &&& 0 <= cuts.last() <= n
            &&& l.row == s.subrange(cuts.last(), n)
            &&& l.used == row_columns(l.row)
            &&& forall|i: int| cuts.last() <= i < n ==> #[trigger] s[i] != '\n'
            &&& forall|k: int|
                0 <= k < l.rows.len() ==> #[trigger] row_between(s, room, l.rows, cuts, k)
        }),
    decreases n,
{
    let l = laid(s, room, n);
    let cuts = cuts_upto(s, room, n);
    if n <= 0 {
        assert(s.subrange(0, 0) =~= Seq::empty());
        assert(row_columns(Seq::<char>::empty()) == 0);
    } else {
        let q = laid(s, room, n - 1);
        let old_cuts = cuts_upto(s, room, n - 1);
        lemma_cuts(s, room, n - 1);
        let c = s[n - 1];
        let b = before_char(q, c, room);
        let mid = if closes(q, c, room) {
            old_cuts.push(n - 1)
        } else {
            old_cuts
        };
        assert forall|k: int| 0 <= k < b.rows.len() implies #[trigger] row_between(
            s,
            room,
            b.rows,
            mid,
            k,
        ) by {
            if k < q.rows.len() {
                assert(row_between(s, room, q.rows, old_cuts, k));
                assert(b.rows[k] == q.rows[k]);
                assert(mid[k] == old_cuts[k] && mid[k + 1] == old_cuts[k + 1]);
            } else {
                assert(b.rows[k] == q.row);
                assert(mid[k] == old_cuts.last() && mid[k + 1] == n - 1);
                assert(q.row.len() > 0);
                assert(s[n - 2] != '\n');
                assert forall|i: int| 0 <= i < b.rows[k].len() implies #[trigger] b.rows[k][i]
                    != '\n' by {
                    assert(b.rows[k][i] == s[old_cuts.last() + i]);
                }
            }
        }
        if closes(q, c, room) {
            assert(b.row =~= s.subrange(n - 1, n - 1));
            assert(row_columns(Seq::<char>::empty()) == 0);
        }
        assert(b.row =~= s.subrange(mid.last(), n - 1));
        assert(b.used == row_columns(b.row));
        if c == '\n' {
            assert(l == closed_row(b));
            assert forall|k: int| 0 <= k < l.rows.len() implies #[trigger] row_between(
                s,
                room,
                l.rows,
                cuts,
                k,
            ) by {
                if k < b.rows.len() {
                    assert(row_between(s, room, b.rows, mid, k));
                    assert(l.rows[k] == b.rows[k]);
                    assert(cuts[k] == mid[k] && cuts[k + 1] == mid[k + 1]);
                } else {
                    assert(l.rows[k] == b.row);
                    assert(cuts[k] == mid.last() && cuts[k + 1] == n);
                    assert forall|i: int| 0 <= i < l.rows[k].len() implies #[trigger] l.rows[k][i]
                        != '\n' by {
                        assert(l.rows[k][i] == s[mid.last() + i]);
                    }
                }
            }
            assert(l.row =~= s.subrange(n, n));
            assert(row_columns(Seq::<char>::empty()) == 0);
        } else {
            assert(l.row =~= s.subrange(cuts.last(), n));
            assert(l.row.drop_last() =~= b.row);
            assert(l.rows == b.rows && cuts == mid);
        }
    }
}

proof fn lemma_cuts_grow(s: Seq<char>, room: int, n: int, m: int)
    requires
        0 <= n <= m <= s.len(),
    ensures
        ({
            let a = cuts_upto(s, room, n);
            let b = cuts_upto(s, room, m);
            &&& a.len() <= b.len()
            &&& b.take(a.len() as int) == a
            &&& forall|k: int| a.len() <= k < b.len() ==> #[trigger] b[k] >= n
        }),
    decreases m - n,
{
    let a = cuts_upto(s, room, n);
    let b = cuts_upto(s, room, m);
    if n < m {
        lemma_cuts_grow(s, room, n, m - 1);
        let c = cuts_upto(s, room, m - 1);
        assert forall|k: int| 0 <= k < c.len() implies b[k] == c[k] by {}
        assert(b.take(a.len() as int) =~= c.take(a.len() as int));
    } else {
        assert(b.take(a.len() as int) =~= a);
    }
}

/// The line being typed is laid out row by row: a line break ends a row, and
/// otherwise a row ends only where the next character does not fit it. The caret
/// is on the row the character behind it is on, as many columns in as the text of
/// the row in front of it takes.
pub proof fn law_a_row_ends_at_a_break_or_where_it_is_full(s: Seq<char>, room: int)
    ensures
        exists|cuts: Seq<int>|
            {
                &&& #[trigger] cut_into(s, room, laid_rows(s, room), cuts)
                &&& forall|p: int|
                    0 <= p <= s.len() ==> sits_on(
                        cuts,
                        p,
                        (#[trigger] caret_cell(s, room, p)).0,
                    ) && caret_cell(s, room, p).1 == row_columns(
                        s.subrange(cuts[caret_cell(s, room, p).0], p),
                    )
            },
{
    let n = s.len() as int;
    let l = laid(s, room, n);
    let cuts = cuts_upto(s, room, n);
    lemma_cuts(s, room, n);
    let rows = laid_rows(s, room);
    assert(rows == l.rows.push(l.row));
    assert(s.subrange(cuts.last(), n) =~= s.skip(cuts.last()));
    assert forall|k: int| 0 <= k < rows.len() - 1 implies #[trigger] row_between(
        s,
        room,
        rows,
        cuts,
        k,
    ) by {
        assert(row_between(s, room, l.rows, cuts, k));
        assert(rows[k] == l.rows[k]);
    }
    assert forall|i: int| 0 <= i < rows.last().len() implies #[trigger] rows.last()[i] != '\n' by {
        assert(rows.last()[i] == s[cuts.last() + i]);
    }
    assert(cut_into(s, room, rows, cuts));
    assert forall|p: int| 0 <= p <= s.len() implies sits_on(
        cuts,
        p,
        (#[trigger] caret_cell(s, room, p)).0,
    ) && caret_cell(s, room, p).1 == row_columns(s.subrange(cuts[caret_cell(s, room, p).0], p)) by {
        let (r, col) = caret_cell(s, room, p);
        if p == n {
        } else {
            let q = laid(s, room, p);
            let at = cuts_upto(s, room, p);
            let next = cuts_upto(s, room, p + 1);
            lemma_cuts(s, room, p);
            lemma_cuts_grow(s, room, p, n);
            lemma_cuts_grow(s, room, p + 1, n);
            assert forall|k: int| 0 <= k < next.len() implies cuts[k] == next[k] by {
                assert(cuts.take(next.len() as int)[k] == cuts[k]);
            }
            if closes(q, s[p], room) {
                assert(next =~= at.push(p));
                assert(cuts[r] == p);
                assert(s.subrange(p, p) =~= Seq::empty());
                assert(row_columns(Seq::<char>::empty()) == 0);
            } else if s[p] == '\n' {
                assert(next =~= at.push(p + 1));
                assert(cuts[r] == at.last());
                assert(cuts[r + 1] == p + 1);
            } else {
                assert(next =~= at);
                assert(cuts[r] == at.last());
            }
            assert forall|k: int| r < k < cuts.len() implies #[trigger] cuts[k] > p by {
                if k >= next.len() {
                } else {
                    assert(cuts[k] == next[k]);
                }
            }
        }
    }
}

/// The first row stands behind the prompt and each other one behind as many
/// blanks as the prompt has cells: two, and one where the line opens with `!`,
/// which the prompt shows in its place. The caret is that far in, too.
pub proof fn law_the_rows_stand_behind_the_prompt(e: EditorView, width: int)
    requires
        e.valid(),
    ensures
        ({
            let bang = e.text.len() > 0 && e.text[0] == '!';
            let lead = if bang {
                1int
            } else {
                2
            };
            let text = if bang {
                e.text.skip(1)
            } else {
                e.text
            };
            let room = if width > lead + 1 {
                width - lead
            } else {
                1
            };
            let p = if bang && e.caret > 0 {
                e.caret - 1
            } else {
                e.caret
            };
            let rows = laid_rows(text, room);
            let shown = painted(e, width);
            &&& shown.len() == rows.len()
            &&& shown[0] == (if bang {
                e.prompt_bang
            } else {
                e.prompt
            }) + rows[0]
            &&& forall|k: int|
                0 < k < rows.len() ==> (#[trigger] shown[k]).len() == lead + rows[k].len()
                    && shown[k].skip(lead) == rows[k] && forall|i: int|
                    0 <= i < lead ==> shown[k][i] == ' '
            &&& painted_caret(e, width) == (
                caret_cell(text, room, p).0,
                lead + caret_cell(text, room, p).1,
            )
        }),
{
    let bang = is_bang(e.text);
    let lead = gutter(e.text);
    let text = shown_text(e.text);
    let room = avail(e.text, width);
    let rows = laid_rows(text, room);
    let shown = painted(e, width);
    assert forall|k: int| 0 < k < rows.len() implies (#[trigger] shown[k]).len() == lead
        + rows[k].len() && shown[k].skip(lead) == rows[k] && forall|i: int|
        0 <= i < lead ==> shown[k][i] == ' ' by {
        assert(shown[k].skip(lead) =~= rows[k]);
    }
}

} // verus!
