//! What of a line is seen, and where its rows end, stated on its characters.

use crate::tui::line::SpanView;
use crate::tui::screen::{
    broken, broken_rows, cells_columns, clamped, decorated, escape_step, past_escape, placed,
    seen_chars, shown, spans_of, with_cell, Broken, Cell, Escape, PlacedView,
};
use crate::width::columns;
use vstd::prelude::*;

verus! {

// ---------------------------------------------------------------------------
// Where rows end
// ---------------------------------------------------------------------------

/// How many columns cells take.
pub open spec fn cells_width(row: Seq<Cell>) -> int
    decreases row.len(),
{
    if row.len() == 0 {
        0
    } else {
        cells_width(row.drop_last()) + columns(row.last().0)
    }
}

/// Whether row `k` is what stands from one cut to the next: up to a break, which
/// it does not show, or else as much as fits, the next character being too wide
/// for it.
pub open spec fn cells_between(
    s: Seq<Cell>,
    width: int,
    rows: Seq<Seq<Cell>>,
    cuts: Seq<int>,
    k: int,
) -> bool {
    let from = cuts[k];
    let to = cuts[k + 1];
    &&& 0 <= from < to <= s.len()
    &&& s[to - 1].0 == '\n' ==> rows[k] == s.subrange(from, to - 1)
    &&& s[to - 1].0 != '\n' ==> rows[k] == s.subrange(from, to) && to < s.len() && s[to].0 != '\n'
        && cells_width(s.subrange(from, to)) + columns(s[to].0) > width
    &&& forall|i: int| 0 <= i < rows[k].len() ==> (#[trigger] rows[k][i]).0 != '\n'
}

/// Whether `cuts` are where the rows of a line start.
pub open spec fn cells_cut_into(
    s: Seq<Cell>,
    width: int,
    rows: Seq<Seq<Cell>>,
    cuts: Seq<int>,
) -> bool {
    &&& rows.len() == cuts.len() > 0
    &&& cuts[0] == 0
    &&& forall|k: int| 0 <= k < rows.len() - 1 ==> #[trigger] cells_between(s, width, rows, cuts, k)
    &&& 0 <= cuts.last() <= s.len()
    &&& rows.last() == s.skip(cuts.last())
    &&& forall|i: int| 0 <= i < rows.last().len() ==> (#[trigger] rows.last()[i]).0 != '\n'
}

spec fn closes(b: Broken, c: Cell, width: int) -> bool {
    c.0 != '\n' && b.used + columns(c.0) > width && b.used > 0
}

spec fn cuts_upto(s: Seq<Cell>, width: int, n: int) -> Seq<int>
    decreases n,
{
    if n <= 0 {
        seq![0]
    } else {
        let before = cuts_upto(s, width, n - 1);
        let c = s[n - 1];
        if c.0 == '\n' {
            before.push(n)
        } else if closes(broken(s, width, n - 1), c, width) {
            before.push(n - 1)
        } else {
            before
        }
    }
}

proof fn lemma_cuts(s: Seq<Cell>, width: int, n: int)
    requires
        0 <= n <= s.len(),
    ensures
        ({
            let b = broken(s, width, n);
            let cuts = cuts_upto(s, width, n);
            &&& cuts.len() == b.rows.len() + 1
            &&& cuts[0] == 0
            &&& 0 <= cuts.last() <= n
            &&& b.row == s.subrange(cuts.last(), n)
            &&& b.used == cells_width(b.row)
            &&& forall|i: int| cuts.last() <= i < n ==> (#[trigger] s[i]).0 != '\n'
            &&& forall|k: int|
                0 <= k < b.rows.len() ==> #[trigger] cells_between(s, width, b.rows, cuts, k)
        }),
    decreases n,
{
    let b = broken(s, width, n);
    let cuts = cuts_upto(s, width, n);
    assert(cells_width(Seq::<Cell>::empty()) == 0);
    if n <= 0 {
        assert(s.subrange(0, 0) =~= Seq::empty());
    } else {
        let q = broken(s, width, n - 1);
        let was = cuts_upto(s, width, n - 1);
        lemma_cuts(s, width, n - 1);
        let c = s[n - 1];
        assert(b == with_cell(q, c, width));
        assert forall|k: int| 0 <= k < b.rows.len() implies #[trigger] cells_between(
            s,
            width,
            b.rows,
            cuts,
            k,
        ) by {
            if k < q.rows.len() {
                assert(cells_between(s, width, q.rows, was, k));
                assert(b.rows[k] == q.rows[k]);
                assert(cuts[k] == was[k] && cuts[k + 1] == was[k + 1]);
            } else {
                assert(b.rows[k] == q.row);
                assert(cuts[k] == was.last());
                assert forall|i: int| 0 <= i < b.rows[k].len() implies (#[trigger] b.rows[k][i]).0
                    != '\n' by {
                    assert(b.rows[k][i] == s[was.last() + i]);
                }
                if c.0 != '\n' {
                    assert(q.used > 0);
                    assert(q.row.len() > 0);
                    assert(s[n - 2].0 != '\n');
                }
            }
        }
        if c.0 == '\n' {
            assert(b.row =~= s.subrange(n, n));
        } else if closes(q, c, width) {
            assert(b.row =~= s.subrange(n - 1, n));
            assert(b.row.drop_last() =~= Seq::empty());
        } else {
            assert(b.row =~= s.subrange(was.last(), n));
            assert(b.row.drop_last() =~= q.row);
        }
    }
}

/// A line is broken into rows at its breaks, and otherwise only where the next
/// character does not fit the row.
pub proof fn law_a_shown_row_ends_at_a_break_or_where_it_is_full(s: Seq<Cell>, width: int)
    ensures
        exists|cuts: Seq<int>| #[trigger] cells_cut_into(s, width, broken_rows(s, width), cuts),
{
    let n = s.len() as int;
    let b = broken(s, width, n);
    let cuts = cuts_upto(s, width, n);
    lemma_cuts(s, width, n);
    let rows = broken_rows(s, width);
    assert(s.subrange(cuts.last(), n) =~= s.skip(cuts.last()));
    assert forall|k: int| 0 <= k < rows.len() - 1 implies #[trigger] cells_between(
        s,
        width,
        rows,
        cuts,
        k,
    ) by {
        assert(cells_between(s, width, b.rows, cuts, k));
        assert(rows[k] == b.rows[k]);
    }
    assert forall|i: int| 0 <= i < rows.last().len() implies (#[trigger] rows.last()[i]).0
        != '\n' by {
        assert(rows.last()[i] == s[cuts.last() + i]);
    }
    assert(cells_cut_into(s, width, rows, cuts));
}

// ---------------------------------------------------------------------------
// Spans
// ---------------------------------------------------------------------------

/// The characters of spans, each with its style.
pub open spec fn poured_out(line: Seq<SpanView>) -> Seq<Cell>
    decreases line.len(),
{
    if line.len() == 0 {
        Seq::empty()
    } else {
        poured_out(line.drop_last()) + run_of(line.last())
    }
}

/// The characters of a span, each with its style.
pub open spec fn run_of(span: SpanView) -> Seq<Cell> {
    Seq::new(span.content.len(), |i: int| (span.content[i], span.style))
}

proof fn lemma_poured(row: Seq<Cell>)
    ensures
        poured_out(spans_of(row)) == row,
        spans_of(row).len() > 0 <==> row.len() > 0,
    decreases row.len(),
{
    if row.len() > 0 {
        lemma_poured(row.drop_last());
        let rest = spans_of(row.drop_last());
        let all = spans_of(row);
        let now = all.last();
        if rest.len() > 0 && rest.last().style == row.last().1 {
            assert(all.drop_last() =~= rest.drop_last());
            assert(run_of(now) =~= run_of(rest.last()).push(row.last()));
            assert(poured_out(rest) == poured_out(rest.drop_last()) + run_of(rest.last()));
            assert(poured_out(all) == poured_out(rest.drop_last()) + run_of(now));
        } else {
            assert(all.drop_last() =~= rest);
            assert(run_of(now) =~= seq![row.last()]);
            assert(poured_out(all) == poured_out(rest) + run_of(now));
        }
        assert(row =~= row.drop_last().push(row.last()));
        assert(poured_out(all) =~= row.drop_last().push(row.last()));
    } else {
        assert(poured_out(spans_of(row)) =~= row);
    }
}

/// Whether each span has text, and another style than the one in front.
pub open spec fn runs(line: Seq<SpanView>) -> bool {
    &&& forall|k: int| 0 <= k < line.len() ==> (#[trigger] line[k]).content.len() > 0
    &&& forall|j: int, k: int|
        0 <= j < k < line.len() && k == j + 1 ==> (#[trigger] line[k]).style != (
        #[trigger] line[j]).style
}

proof fn lemma_runs(row: Seq<Cell>)
    ensures
        runs(spans_of(row)),
    decreases row.len(),
{
    if row.len() > 0 {
        lemma_runs(row.drop_last());
        let rest = spans_of(row.drop_last());
        let all = spans_of(row);
        let n = rest.len() as int;
        if n > 0 && rest.last().style == row.last().1 {
            assert(all.len() == n);
            assert forall|j: int, k: int| 0 <= j < k < all.len() && k == j + 1 implies (
            #[trigger] all[k]).style != (#[trigger] all[j]).style by {
                assert(all[k].style == rest[k].style && all[j].style == rest[j].style);
            }
        } else {
            assert forall|j: int, k: int| 0 <= j < k < all.len() && k == j + 1 implies (
            #[trigger] all[k]).style != (#[trigger] all[j]).style by {
                assert(all[j] == rest[j]);
                if k < n {
                    assert(all[k] == rest[k]);
                }
            }
        }
    }
}

/// A row is shown in as few spans as its styles allow: each is a run of one
/// style, the next has another, and together they are the row.
pub proof fn law_spans_are_runs_of_one_style(row: Seq<Cell>)
    ensures
        poured_out(spans_of(row)) == row,
        runs(spans_of(row)),
{
    lemma_poured(row);
    lemma_runs(row);
}

// ---------------------------------------------------------------------------
// What is seen
// ---------------------------------------------------------------------------

/// Text in front of an escape is seen as it is.
pub proof fn law_plain_text_is_seen(a: Seq<char>, rest: Seq<char>)
    requires
        forall|i: int| 0 <= i < a.len() ==> #[trigger] a[i] != '\u{1b}',
    ensures
        seen_chars(a + rest) == a + seen_chars(rest),
    decreases a.len(),
{
    if a.len() > 0 {
        let t = a.skip(1);
        assert forall|i: int| 0 <= i < t.len() implies #[trigger] t[i] != '\u{1b}' by {
            assert(t[i] == a[i + 1]);
        }
        law_plain_text_is_seen(t, rest);
        assert((a + rest).skip(1) =~= t + rest);
        assert((a + rest)[0] == a[0]);
        assert(seen_chars(a + rest) =~= a + seen_chars(rest));
    } else {
        assert(a + rest =~= rest);
        assert(a + seen_chars(rest) =~= seen_chars(rest));
    }
}

/// Whether a character ends a control sequence.
pub open spec fn ends_control(c: char) -> bool {
    '@' as int <= c as int <= '~' as int
}

/// Whether a character ends a command sequence.
pub open spec fn ends_command(c: char) -> bool {
    c == '\u{7}' || c == '\\'
}

proof fn lemma_step(c: char)
    ensures
        escape_step(Escape::Control, c) == (Escape::Control, ends_control(c)),
        escape_step(Escape::Command, c) == (Escape::Command, ends_command(c)),
{
}

proof fn lemma_past_control(mid: Seq<char>, last: char, rest: Seq<char>)
    requires
        forall|i: int| 0 <= i < mid.len() ==> !ends_control(#[trigger] mid[i]),
        ends_control(last),
    ensures
        past_escape(mid + seq![last] + rest, Escape::Control) == rest,
    decreases mid.len(),
{
    let s = mid + seq![last] + rest;
    if mid.len() > 0 {
        let t = mid.skip(1);
        assert forall|i: int| 0 <= i < t.len() implies !ends_control(#[trigger] t[i]) by {
            assert(t[i] == mid[i + 1]);
        }
        assert(!ends_control(mid[0]));
        lemma_past_control(t, last, rest);
        assert(s.skip(1) =~= t + seq![last] + rest);
        assert(s[0] == mid[0]);
        lemma_step(mid[0]);
    } else {
        assert(s[0] == last);
        assert(s.skip(1) =~= rest);
        lemma_step(last);
    }
}

proof fn lemma_past_command(mid: Seq<char>, last: char, rest: Seq<char>)
    requires
        forall|i: int| 0 <= i < mid.len() ==> !ends_command(#[trigger] mid[i]),
        ends_command(last),
    ensures
        past_escape(mid + seq![last] + rest, Escape::Command) == rest,
    decreases mid.len(),
{
    let s = mid + seq![last] + rest;
    if mid.len() > 0 {
        let t = mid.skip(1);
        assert forall|i: int| 0 <= i < t.len() implies !ends_command(#[trigger] t[i]) by {
            assert(t[i] == mid[i + 1]);
        }
        assert(!ends_command(mid[0]));
        lemma_past_command(t, last, rest);
        assert(s.skip(1) =~= t + seq![last] + rest);
        assert(s[0] == mid[0]);
        lemma_step(mid[0]);
    } else {
        assert(s[0] == last);
        assert(s.skip(1) =~= rest);
        lemma_step(last);
    }
}

/// An escape is not seen: a control sequence up to the letter that ends it, a
/// command up to the bell or the backslash, and any other with the one character
/// behind it.
pub proof fn law_an_escape_is_not_seen(
    mid: Seq<char>,
    last: char,
    other: char,
    rest: Seq<char>,
)
    ensures
        (forall|i: int| 0 <= i < mid.len() ==> !ends_control(#[trigger] mid[i])) && ends_control(last)
            ==> seen_chars(seq!['\u{1b}', '['] + mid + seq![last] + rest) == seen_chars(rest),
        (forall|i: int| 0 <= i < mid.len() ==> !ends_command(#[trigger] mid[i])) && ends_command(last)
            ==> seen_chars(seq!['\u{1b}', ']'] + mid + seq![last] + rest) == seen_chars(rest),
        other != '[' && other != ']' ==> seen_chars(seq!['\u{1b}', other] + rest) == seen_chars(rest),
{
    let tail = mid + seq![last] + rest;
    if (forall|i: int| 0 <= i < mid.len() ==> !ends_control(#[trigger] mid[i])) && ends_control(
        last,
    ) {
        lemma_past_control(mid, last, rest);
        let s = seq!['\u{1b}', '['] + mid + seq![last] + rest;
        let t = s.skip(1);
        assert(t[0] == '[');
        assert(t.skip(1) =~= tail);
        assert(past_escape(t, Escape::Opened) == past_escape(tail, Escape::Control));
    }
    if (forall|i: int| 0 <= i < mid.len() ==> !ends_command(#[trigger] mid[i])) && ends_command(
        last,
    ) {
        lemma_past_command(mid, last, rest);
        let s = seq!['\u{1b}', ']'] + mid + seq![last] + rest;
        let t = s.skip(1);
        assert(t[0] == ']');
        assert(t.skip(1) =~= tail);
        assert(past_escape(t, Escape::Opened) == past_escape(tail, Escape::Command));
    }
    if other != '[' && other != ']' {
        let s = seq!['\u{1b}', other] + rest;
        let t = s.skip(1);
        assert(t[0] == other);
        assert(t.skip(1) =~= rest);
        assert(past_escape(t, Escape::Opened) == rest);
    }
}

// ---------------------------------------------------------------------------
// The window
// ---------------------------------------------------------------------------

/// The window shows rows that follow each other, as far from the newest as it is
/// scrolled back, and never past the oldest.
pub proof fn law_the_window_is_as_far_back_as_it_is_scrolled<T>(
    rows: Seq<(Seq<SpanView>, T)>,
    room: int,
    scroll: int,
)
    requires
        0 <= room,
        0 <= scroll,
    ensures
        scroll + room <= rows.len() ==> shown(rows, room, scroll).len() == room && forall|i: int|
            0 <= i < room ==> #[trigger] shown(rows, room, scroll)[i] == rows[rows.len() - scroll
                - room + i],
        scroll + room > rows.len() && rows.len() >= room ==> shown(rows, room, scroll)
            == rows.take(room),
        rows.len() < room ==> shown(rows, room, scroll) == rows,
{
    if scroll + room > rows.len() && rows.len() >= room {
        assert(shown(rows, room, scroll) =~= rows.take(room));
    }
    if rows.len() < room {
        assert(clamped(rows.len() as int, room, scroll) == 0);
        assert(shown(rows, room, scroll) =~= rows);
    }
}

// ---------------------------------------------------------------------------
// Cells
// ---------------------------------------------------------------------------

/// A combining mark goes on the last cell that shows something, and changes no
/// other; where none does it is lost.
pub proof fn law_a_mark_goes_on_what_shows(v: Seq<PlacedView>, c: char, i: int)
    requires
        -1 <= i < v.len(),
        i >= 0 ==> v[i].symbol != seq![' '],
        forall|k: int| i < k < v.len() ==> (#[trigger] v[k]).symbol == seq![' '],
    ensures
        i >= 0 ==> decorated(v, c) == v.update(
            i,
            (PlacedView { symbol: v[i].symbol.push(c), ..v[i] }),
        ),
        i < 0 ==> decorated(v, c) == v,
    decreases v.len(),
{
    if v.len() > 0 {
        let less = v.drop_last();
        if i < v.len() - 1 {
            assert(v[v.len() - 1].symbol == seq![' ']);
            assert forall|k: int| i < k < less.len() implies (#[trigger] less[k]).symbol == seq![
                ' ',
            ] by {
                assert(v[k].symbol == seq![' ']);
            }
            law_a_mark_goes_on_what_shows(less, c, i);
        }
        if i >= 0 {
            assert(decorated(v, c) =~= v.update(
                i,
                PlacedView { symbol: v[i].symbol.push(c), ..v[i] },
            ));
        } else {
            assert(decorated(v, c) =~= v);
        }
    }
}

/// How many columns placed cells take.
pub open spec fn placed_columns(v: Seq<PlacedView>) -> int
    decreases v.len(),
{
    if v.len() == 0 {
        0
    } else {
        placed_columns(v.drop_last()) + v.last().width
    }
}

proof fn lemma_decorated(v: Seq<PlacedView>, c: char)
    ensures
        placed_columns(decorated(v, c)) == placed_columns(v),
        decorated(v, c).len() == v.len(),
        forall|k: int| 0 <= k < v.len() ==> (#[trigger] decorated(v, c)[k]).style == v[k].style,
    decreases v.len(),
{
    if v.len() > 0 {
        lemma_decorated(v.drop_last(), c);
        assert(decorated(v, c).drop_last() =~= v.drop_last() || decorated(v, c).drop_last()
            =~= decorated(v.drop_last(), c));
        assert forall|k: int| 0 <= k < v.len() implies (#[trigger] decorated(v, c)[k]).style
            == v[k].style by {
            if k < v.len() - 1 {
                assert(decorated(v.drop_last(), c)[k].style == v.drop_last()[k].style);
            }
        }
    }
}

/// The cells of a row take as many columns as its characters do, one cell for
/// each character that takes any.
pub proof fn law_cells_take_the_columns_of_their_text(row: Seq<Cell>)
    ensures
        placed_columns(placed(row)) == cells_columns(row),
        placed(row).len() == row.filter(|c: Cell| columns(c.0) > 0).len(),
    decreases row.len(),
{
    reveal(Seq::filter);
    if row.len() > 0 {
        let rest = placed(row.drop_last());
        let (c, style) = row.last();
        law_cells_take_the_columns_of_their_text(row.drop_last());
        lemma_decorated(rest, c);
        if columns(c) > 0 {
            assert(placed(row).drop_last() =~= rest);
        }
    }
}

} // verus!
