//! What holds of every line that can be typed.

use crate::text::{index_of, lemma_index_of, lines, without_cr};
use crate::tui::editor::{
    after_down, after_up, avail, before_char, encoded, entries_of, escaped, gutter, is_bang, laid,
    laid_rows, line_begin, painted, prompt_of, shown_text, unescaped, EditorView,
};
use crate::width::{columns, row_columns};
use vstd::prelude::*;

verus! {

/// Typing a character and taking it back leaves the line as it was.
pub proof fn law_backspace_takes_back_what_was_typed(e: EditorView, c: char)
    requires
        e.valid(),
    ensures
        e.inserted(seq![c]).cut(e.caret, e.caret + 1) == e,
        e.inserted(seq![c]).caret == e.caret + 1,
{
    let t = e.inserted(seq![c]);
    assert(t.text.take(e.caret) + t.text.skip(e.caret + 1) =~= e.text);
    assert(t.cut(e.caret, e.caret + 1) =~= e);
}

/// Browsing back once from the first row and forth again gives the line being
/// typed back. A recalled entry of several rows keeps Down to itself, so it is
/// left out.
pub proof fn law_the_draft_comes_back(e: EditorView)
    requires
        e.valid(),
        e.at == e.history.len(),
        e.history.len() > 0,
        line_begin(e.text, e.caret) == 0,
        !e.history.last().contains('\n'),
    ensures
        after_up(e).text == e.history.last(),
        after_down(after_up(e)).text == e.text,
        after_down(after_up(e)).at == e.at,
        after_down(after_up(e)).history == e.history,
{
}

// ---------------------------------------------------------------------------
// Rows
// ---------------------------------------------------------------------------

/// Rows one after the other.
pub open spec fn poured(rows: Seq<Seq<char>>) -> Seq<char>
    decreases rows.len(),
{
    if rows.len() == 0 {
        Seq::empty()
    } else {
        poured(rows.drop_last()) + rows.last()
    }
}

/// A text without its line feeds.
pub open spec fn unbroken(s: Seq<char>) -> Seq<char>
    decreases s.len(),
{
    if s.len() == 0 {
        Seq::empty()
    } else if s.last() == '\n' {
        unbroken(s.drop_last())
    } else {
        unbroken(s.drop_last()).push(s.last())
    }
}

spec fn row_fits(row: Seq<char>, avail: int) -> bool {
    row.len() <= 1 || row_columns(row) <= avail
}

spec fn rows_fit(rows: Seq<Seq<char>>, avail: int) -> bool {
    forall|i: int| 0 <= i < rows.len() ==> row_fits(#[trigger] rows[i], avail)
}

proof fn lemma_poured_push(rows: Seq<Seq<char>>, row: Seq<char>)
    ensures
        poured(rows.push(row)) == poured(rows) + row,
{
    assert(rows.push(row).drop_last() =~= rows);
}

proof fn lemma_laid(s: Seq<char>, avail: int, n: int)
    requires
        0 <= n <= s.len(),
    ensures
        ({
            let l = laid(s, avail, n);
            &&& poured(l.rows) + l.row == unbroken(s.take(n))
            &&& l.used == row_columns(l.row)
            &&& row_fits(l.row, avail)
            &&& rows_fit(l.rows, avail)
        }),
    decreases n,
{
    if n == 0 {
        assert(s.take(0) =~= Seq::empty());
        assert(poured(Seq::<Seq<char>>::empty()) + Seq::<char>::empty() =~= Seq::empty());
    } else {
        lemma_laid(s, avail, n - 1);
        let before = laid(s, avail, n - 1);
        let c = s[n - 1];
        let l = before_char(before, c, avail);
        let t = s.take(n);
        assert(t.drop_last() =~= s.take(n - 1));
        assert(t.last() == c);
        lemma_poured_push(before.rows, before.row);
        lemma_poured_push(l.rows, l.row);
        assert(poured(l.rows) + l.row =~= unbroken(s.take(n - 1)));
        assert forall|i: int| 0 <= i < l.rows.len() implies row_fits(
            #[trigger] l.rows[i],
            avail,
        ) by {
            if i < before.rows.len() {
                assert(row_fits(before.rows[i], avail));
            }
        }
        let r = laid(s, avail, n);
        if c == '\n' {
            assert(r.rows =~= l.rows.push(l.row));
            assert forall|i: int| 0 <= i < r.rows.len() implies row_fits(
                #[trigger] r.rows[i],
                avail,
            ) by {
                if i < l.rows.len() {
                    assert(row_fits(l.rows[i], avail));
                }
            }
            assert(poured(r.rows) + r.row =~= unbroken(t));
        } else {
            assert(poured(r.rows) + r.row =~= (poured(l.rows) + l.row).push(c));
            assert(r.row.drop_last() =~= l.row);
            assert(r.row.last() == c);
            assert(row_columns(Seq::<char>::empty()) == 0);
            assert(l.used == row_columns(l.row));
            assert(row_columns(r.row) == l.used + columns(c));
        }
    }
}

/// Wrapping loses no character: the rows one after the other are the text
/// without its line feeds.
pub proof fn law_wrapping_loses_nothing(s: Seq<char>, avail: int)
    ensures
        poured(laid_rows(s, avail)) == unbroken(s),
{
    let l = laid(s, avail, s.len() as int);
    lemma_laid(s, avail, s.len() as int);
    lemma_poured_push(l.rows, l.row);
    assert(s.take(s.len() as int) =~= s);
}

/// Every row fits the columns there are, unless it is a single character wider
/// than all of them.
pub proof fn law_a_wrapped_row_fits(s: Seq<char>, avail: int, i: int)
    requires
        0 <= i < laid_rows(s, avail).len(),
    ensures
        laid_rows(s, avail)[i].len() <= 1 || row_columns(laid_rows(s, avail)[i]) <= avail,
{
    let l = laid(s, avail, s.len() as int);
    lemma_laid(s, avail, s.len() as int);
    if i < l.rows.len() {
        assert(row_fits(l.rows[i], avail));
    }
}

proof fn lemma_columns_concat(a: Seq<char>, b: Seq<char>)
    ensures
        row_columns(a + b) == row_columns(a) + row_columns(b),
    decreases b.len(),
{
    if b.len() == 0 {
        assert(a + b =~= a);
    } else {
        lemma_columns_concat(a, b.drop_last());
        assert((a + b).drop_last() =~= a + b.drop_last());
    }
}

proof fn lemma_laid_narrow(s: Seq<char>, avail: int, n: int)
    requires
        0 <= n <= s.len(),
        0 <= avail,
        forall|k: int| 0 <= k < s.len() ==> columns(#[trigger] s[k]) <= avail,
    ensures
        ({
            let l = laid(s, avail, n);
            &&& l.used == row_columns(l.row)
            &&& l.used <= avail
            &&& forall|i: int| 0 <= i < l.rows.len() ==> row_columns(#[trigger] l.rows[i]) <= avail
        }),
    decreases n,
{
    if n > 0 {
        lemma_laid_narrow(s, avail, n - 1);
        let before = laid(s, avail, n - 1);
        let c = s[n - 1];
        let l = before_char(before, c, avail);
        assert(columns(s[n - 1]) <= avail);
        assert(row_columns(Seq::<char>::empty()) == 0);
        assert(l.used == row_columns(l.row));
        assert(l.row.len() == 0 ==> l.used == 0);
        assert forall|i: int| 0 <= i < l.rows.len() implies row_columns(#[trigger] l.rows[i])
            <= avail by {
            if i < before.rows.len() {
                assert(l.rows[i] == before.rows[i]);
            }
        }
        let r = laid(s, avail, n);
        if c == '\n' {
            assert forall|i: int| 0 <= i < r.rows.len() implies row_columns(#[trigger] r.rows[i])
                <= avail by {
                if i < l.rows.len() {
                    assert(r.rows[i] == l.rows[i]);
                }
            }
        } else {
            assert(l.row.push(c).drop_last() =~= l.row);
        }
    }
}

/// No row that is painted is wider than the screen, so the terminal never wraps
/// one on its own: with a prompt no wider than the gutter and characters that
/// fit beside it, every painted row fits the width.
pub proof fn law_a_painted_row_fits(e: EditorView, width: int, i: int)
    requires
        gutter(e.text) < width,
        row_columns(prompt_of(e)) <= gutter(e.text),
        forall|k: int|
            0 <= k < e.text.len() ==> columns(#[trigger] e.text[k]) <= width - gutter(e.text),
        0 <= i < painted(e, width).len(),
    ensures
        row_columns(painted(e, width)[i]) <= width,
{
    let s = shown_text(e.text);
    let room = avail(e.text, width);
    assert forall|k: int| 0 <= k < s.len() implies columns(#[trigger] s[k]) <= room by {
        if is_bang(e.text) {
            assert(s[k] == e.text[k + 1]);
        }
    }
    lemma_laid_narrow(s, room, s.len() as int);
    let l = laid(s, room, s.len() as int);
    let row = laid_rows(s, room)[i];
    assert(row_columns(row) <= room) by {
        if i < l.rows.len() {
            assert(row == l.rows[i]);
        }
    }
    let one = seq![' '];
    let two = seq![' ', ' '];
    assert(one.drop_last() =~= Seq::<char>::empty());
    assert(row_columns(Seq::<char>::empty()) == 0);
    assert(one.last() == ' ' && two.last() == ' ');
    assert(row_columns(one) == 1);
    assert(two.drop_last() =~= one);
    assert(row_columns(two) == 2);
    lemma_columns_concat(prompt_of(e), row);
    lemma_columns_concat(one, row);
    lemma_columns_concat(two, row);
}

// ---------------------------------------------------------------------------
// History in a file
// ---------------------------------------------------------------------------

proof fn lemma_escaped_concat(a: Seq<char>, b: Seq<char>)
    ensures
        escaped(a + b) == escaped(a) + escaped(b),
    decreases b.len(),
{
    if b.len() == 0 {
        assert(a + b =~= a);
        assert(escaped(a) + escaped(b) =~= escaped(a));
    } else {
        lemma_escaped_concat(a, b.drop_last());
        assert((a + b).drop_last() =~= a + b.drop_last());
        assert((a + b).last() == b.last());
        assert(escaped(a + b) =~= escaped(a) + escaped(b));
    }
}

proof fn lemma_escaped_shape(s: Seq<char>)
    ensures
        forall|i: int| 0 <= i < escaped(s).len() ==> #[trigger] escaped(s)[i] != '\n',
        s.len() > 0 ==> escaped(s).len() > 0,
        s.len() > 0 && s.last() != '\r' ==> escaped(s).last() != '\r',
    decreases s.len(),
{
    if s.len() > 0 {
        lemma_escaped_shape(s.drop_last());
        let rest = escaped(s.drop_last());
        assert forall|i: int| 0 <= i < escaped(s).len() implies #[trigger] escaped(s)[i] != '\n' by {
            if i < rest.len() {
                assert(escaped(s)[i] == rest[i]);
            }
        }
    }
}

/// An entry written on one line and read back is the entry.
pub proof fn law_an_entry_reads_back(s: Seq<char>)
    ensures
        unescaped(escaped(s)) == s,
    decreases s.len(),
{
    if s.len() > 0 {
        let rest = s.skip(1);
        let one = seq![s[0]];
        law_an_entry_reads_back(rest);
        assert(s =~= one + rest);
        lemma_escaped_concat(one, rest);
        assert(one.drop_last() =~= Seq::<char>::empty());
        assert(escaped(Seq::<char>::empty()) =~= Seq::<char>::empty());
        let l = escaped(s);
        if s[0] == '\\' {
            assert(escaped(one) =~= seq!['\\', '\\']);
            assert(l.skip(2) =~= escaped(rest));
            assert(l[0] == '\\' && l[1] == '\\');
        } else if s[0] == '\n' {
            assert(escaped(one) =~= seq!['\\', 'n']);
            assert(l.skip(2) =~= escaped(rest));
            assert(l[0] == '\\' && l[1] == 'n');
        } else {
            assert(escaped(one) =~= one);
            assert(l.skip(1) =~= escaped(rest));
            assert(l[0] == s[0]);
        }
    }
}

proof fn lemma_lines_push(x: Seq<char>, y: Seq<char>)
    requires
        x.len() > 0 ==> x.last() == '\n',
        forall|i: int| 0 <= i < y.len() ==> y[i] != '\n',
    ensures
        lines(x + y + seq!['\n']) == lines(x).push(without_cr(y)),
    decreases x.len(),
{
    let all = x + y + seq!['\n'];
    lemma_index_of(all, '\n');
    lemma_index_of(x, '\n');
    let n = index_of(all, '\n');
    if x.len() == 0 {
        crate::text::lemma_index_of_is(all, '\n', y.len() as int);
        assert(all.take(n) =~= y);
        assert(all.skip(n + 1) =~= Seq::empty());
        assert(lines(all.skip(n + 1)) =~= Seq::empty());
        assert(lines(x) =~= Seq::empty());
        assert(lines(all) =~= lines(x).push(without_cr(y)));
    } else {
        let m = index_of(x, '\n');
        if m == x.len() {
            assert(x[x.len() - 1] != '\n');
        }
        crate::text::lemma_index_of_is(all, '\n', m);
        let rest = x.skip(m + 1);
        if rest.len() > 0 {
            assert(rest.last() == x.last());
        }
        lemma_lines_push(rest, y);
        assert(all.take(n) =~= x.take(m));
        assert(all.skip(n + 1) =~= rest + y + seq!['\n']);
        assert(lines(all) =~= lines(x).push(without_cr(y)));
    }
}

/// A history written out and read back is the history: every entry is there, in
/// order, however many lines it has. An empty entry, and a carriage return at
/// the end of one, cannot be told from the line it stands on and are left out.
pub proof fn law_a_history_reads_back(entries: Seq<Seq<char>>)
    requires
        forall|i: int|
            0 <= i < entries.len() ==> (#[trigger] entries[i]).len() > 0 && entries[i].last()
                != '\r',
    ensures
        entries_of(lines(encoded(entries))) == entries,
    decreases entries.len(),
{
    if entries.len() > 0 {
        let less = entries.drop_last();
        assert forall|i: int| 0 <= i < less.len() implies (#[trigger] less[i]).len() > 0
            && less[i].last() != '\r' by {
            assert(less[i] == entries[i]);
        }
        law_a_history_reads_back(less);
        let e = entries.last();
        assert(entries[entries.len() - 1] == e);
        lemma_escaped_shape(e);
        law_an_entry_reads_back(e);
        let x = encoded(less);
        if less.len() > 0 {
            assert(x.last() == '\n');
        }
        lemma_lines_push(x, escaped(e));
        let all = lines(encoded(entries));
        assert(all.drop_last() =~= lines(x));
        assert(all.last() == escaped(e));
        assert(entries_of(all) =~= entries);
    } else {
        assert(entries_of(lines(encoded(entries))) =~= entries);
    }
}

} // verus!
