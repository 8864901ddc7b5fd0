//! Where the caret goes, stated on the text alone: the rows are what stands
//! between line feeds, the words what stands between white space.

use crate::text::{
    bytes_len, first_white, is_white, last_index_of, lemma_bytes_concat, lemma_first_white,
    lemma_index_of_is, lemma_last_index_of, lemma_trim_end, lemma_trim_start, trim_end, trim_start,
    width_of,
};
use crate::tui::editor::{
    after_down, after_up, fitting, last_white, line_begin, line_end, next_word, remembered,
    word_end, word_start, EditorView,
};
use vstd::prelude::*;

verus! {

/// Whether the row that position `at` is on starts at `s`.
pub open spec fn row_opens(text: Seq<char>, at: int, s: int) -> bool {
    &&& 0 <= s <= at <= text.len()
    &&& s == 0 || text[s - 1] == '\n'
    &&& forall|k: int| s <= k < at ==> text[k] != '\n'
}

/// Whether the row that position `at` is on ends at `e`.
pub open spec fn row_closes(text: Seq<char>, at: int, e: int) -> bool {
    &&& 0 <= at <= e <= text.len()
    &&& e == text.len() || text[e] == '\n'
    &&& forall|k: int| at <= k < e ==> text[k] != '\n'
}

/// Whether the characters from `a` to before `b` are one byte each.
pub open spec fn narrow(text: Seq<char>, a: int, b: int) -> bool {
    forall|k: int| a <= k < b ==> (#[trigger] text[k] as u32) < 0x80
}

proof fn lemma_opens(text: Seq<char>, at: int, s: int)
    requires
        row_opens(text, at, s),
    ensures
        line_begin(text, at) == s,
{
    let t = text.take(at);
    lemma_last_index_of(t, '\n');
    let m = last_index_of(t, '\n');
    if m >= 0 {
        assert(t[m] == text[m]);
    }
    if s > 0 {
        assert(t[s - 1] == text[s - 1]);
    }
}

proof fn lemma_closes(text: Seq<char>, at: int, e: int)
    requires
        row_closes(text, at, e),
    ensures
        line_end(text, at) == e,
{
    let t = text.skip(at);
    assert forall|i: int| 0 <= i < e - at implies t[i] != '\n' by {
        assert(t[i] == text[at + i]);
    }
    lemma_index_of_is(t, '\n', e - at);
}

/// `fitting` is how far one gets with the bytes there are.
proof fn lemma_fitting(s: Seq<char>, room: int)
    requires
        0 <= room,
    ensures
        0 <= fitting(s, room) <= s.len(),
        bytes_len(s.take(fitting(s, room))) <= room,
        fitting(s, room) < s.len() ==> bytes_len(s.take(fitting(s, room) + 1)) > room,
    decreases s.len(),
{
    assert(s.take(0) =~= Seq::<char>::empty());
    assert(bytes_len(Seq::<char>::empty()) == 0);
    if s.len() > 0 {
        let one = seq![s[0]];
        assert(one.drop_last() =~= Seq::<char>::empty());
        assert(bytes_len(one) == width_of(s[0]));
        assert(s.take(1) =~= one);
        if width_of(s[0]) <= room {
            let rest = s.skip(1);
            lemma_fitting(rest, room - width_of(s[0]));
            let k = fitting(rest, room - width_of(s[0]));
            assert(s.take(k + 1) =~= one + rest.take(k));
            lemma_bytes_concat(one, rest.take(k));
            if k < rest.len() {
                assert(s.take(k + 2) =~= one + rest.take(k + 1));
                lemma_bytes_concat(one, rest.take(k + 1));
            }
        }
    }
}

proof fn lemma_narrow_bytes(s: Seq<char>)
    requires
        narrow(s, 0, s.len() as int),
    ensures
        bytes_len(s) == s.len(),
    decreases s.len(),
{
    if s.len() > 0 {
        let t = s.drop_last();
        assert forall|k: int| 0 <= k < t.len() implies (#[trigger] t[k] as u32) < 0x80 by {
            assert(t[k] == s[k]);
        }
        lemma_narrow_bytes(t);
        assert((s[s.len() - 1] as u32) < 0x80);
    }
}

/// The caret that goes as many bytes into a row as it was into another, or to
/// the end of it.
proof fn lemma_level(text: Seq<char>, s: int, at: int, from: int, to: int)
    requires
        0 <= s <= at <= text.len(),
        0 <= from <= to <= text.len(),
    ensures
        ({
            let room = bytes_len(text.subrange(s, at)) as int;
            let c = from + fitting(text.subrange(from, to), room);
            &&& from <= c <= to
            &&& bytes_len(text.subrange(from, c)) <= room
            &&& c < to ==> bytes_len(text.subrange(from, c + 1)) > room
            &&& narrow(text, s, at) && narrow(text, from, to) ==> c - from == if at - s <= to
                - from {
                at - s
            } else {
                to - from
            }
        }),
{
    let was = text.subrange(s, at);
    let room = bytes_len(was) as int;
    let row = text.subrange(from, to);
    lemma_fitting(row, room);
    let k = fitting(row, room);
    let c = from + k;
    assert(row.take(k) =~= text.subrange(from, c));
    if k < row.len() {
        assert(row.take(k + 1) =~= text.subrange(from, c + 1));
    }
    if narrow(text, s, at) && narrow(text, from, to) {
        assert forall|i: int| 0 <= i < was.len() implies (#[trigger] was[i] as u32) < 0x80 by {
            assert(was[i] == text[s + i]);
        }
        lemma_narrow_bytes(was);
        assert forall|i: int| 0 <= i < row.len() implies (#[trigger] row[i] as u32) < 0x80 by {
            assert(row[i] == text[from + i]);
        }
        let a = row.take(k);
        assert forall|i: int| 0 <= i < a.len() implies (#[trigger] a[i] as u32) < 0x80 by {
            assert(a[i] == row[i]);
        }
        lemma_narrow_bytes(a);
        if k < row.len() {
            let b = row.take(k + 1);
            assert forall|i: int| 0 <= i < b.len() implies (#[trigger] b[i] as u32) < 0x80 by {
                assert(b[i] == row[i]);
            }
            lemma_narrow_bytes(b);
        }
    }
}

/// Down goes to the next row and keeps the column: from the row `s..e` to the
/// row behind it, which ends at `f`, the caret goes as many bytes in as it was,
/// or as far as they reach; where every character is one byte, as many
/// characters in, or to the end of the row. Nothing else changes.
pub proof fn law_down_keeps_the_column(ed: EditorView, s: int, e: int, f: int)
    requires
        ed.valid(),
        row_opens(ed.text, ed.caret, s),
        row_closes(ed.text, ed.caret, e),
        e < ed.text.len(),
        row_closes(ed.text, e + 1, f),
    ensures
        ({
            let r = after_down(ed);
            let c = r.caret;
            let room = bytes_len(ed.text.subrange(s, ed.caret));
            &&& r == (EditorView { caret: c, ..ed })
            &&& e + 1 <= c <= f
            &&& bytes_len(ed.text.subrange(e + 1, c)) <= room
            &&& c < f ==> bytes_len(ed.text.subrange(e + 1, c + 1)) > room
            &&& narrow(ed.text, s, ed.caret) && narrow(ed.text, e + 1, f) ==> c - (e + 1)
                == if ed.caret - s <= f - (e + 1) {
                ed.caret - s
            } else {
                f - (e + 1)
            }
        }),
{
    assert(ed.text[e] == '\n');
    assert(ed.text.contains('\n'));
    lemma_opens(ed.text, ed.caret, s);
    lemma_closes(ed.text, ed.caret, e);
    lemma_closes(ed.text, e + 1, f);
    lemma_level(ed.text, s, ed.caret, e + 1, f);
}

/// Up goes to the row above and keeps the column: from a row that starts at `s`
/// to the one in front of it, which starts at `p`.
pub proof fn law_up_keeps_the_column(ed: EditorView, s: int, p: int)
    requires
        ed.valid(),
        row_opens(ed.text, ed.caret, s),
        s > 0,
        row_opens(ed.text, s - 1, p),
    ensures
        ({
            let r = after_up(ed);
            let c = r.caret;
            let room = bytes_len(ed.text.subrange(s, ed.caret));
            &&& r == (EditorView { caret: c, ..ed })
            &&& p <= c <= s - 1
            &&& bytes_len(ed.text.subrange(p, c)) <= room
            &&& c < s - 1 ==> bytes_len(ed.text.subrange(p, c + 1)) > room
            &&& narrow(ed.text, s, ed.caret) && narrow(ed.text, p, s - 1) ==> c - p == if ed.caret
                - s <= s - 1 - p {
                ed.caret - s
            } else {
                s - 1 - p
            }
        }),
{
    lemma_opens(ed.text, ed.caret, s);
    lemma_opens(ed.text, s - 1, p);
    lemma_level(ed.text, s, ed.caret, p, s - 1);
}

/// Down and then Up comes back to the same place, where the next row is at least
/// as long and every character on the two is one byte.
pub proof fn law_down_then_up_comes_back(ed: EditorView, s: int, e: int, f: int)
    requires
        ed.valid(),
        row_opens(ed.text, ed.caret, s),
        row_closes(ed.text, ed.caret, e),
        e < ed.text.len(),
        row_closes(ed.text, e + 1, f),
        narrow(ed.text, s, e),
        narrow(ed.text, e + 1, f),
        ed.caret - s <= f - (e + 1),
    ensures
        after_up(after_down(ed)) == ed,
{
    law_down_keeps_the_column(ed, s, e, f);
    let d = after_down(ed);
    assert forall|k: int| e + 1 <= k < d.caret implies d.text[k] != '\n' by {}
    assert(row_opens(d.text, d.caret, e + 1));
    assert forall|k: int| s <= k < e implies ed.text[k] != '\n' by {}
    assert(row_opens(d.text, e, s));
    law_up_keeps_the_column(d, e + 1, s);
}

/// Up on the first row shows the line before the one shown, and Down on a line
/// of one row the line after it: each once, oldest last and newest first, with
/// the caret behind it, and what was being typed behind them all.
pub proof fn law_browsing_goes_through_the_history(ed: EditorView)
    requires
        ed.valid(),
    ensures
        (forall|k: int| 0 <= k < ed.caret ==> ed.text[k] != '\n') && ed.at > 0 ==> {
            let r = after_up(ed);
            &&& r.text == ed.history[ed.at - 1]
            &&& r.caret == r.text.len()
            &&& r.at == ed.at - 1
            &&& r.history == ed.history
            &&& ed.at == ed.history.len() ==> r.draft == ed.text
            &&& ed.at < ed.history.len() ==> r.draft == ed.draft
        },
        (forall|k: int| 0 <= k < ed.text.len() ==> ed.text[k] != '\n') && ed.at
            < ed.history.len() ==> {
            let r = after_down(ed);
            &&& r.text == if ed.at + 1 < ed.history.len() {
                ed.history[ed.at + 1]
            } else {
                ed.draft
            }
            &&& r.caret == r.text.len()
            &&& r.at == ed.at + 1
            &&& r.history == ed.history
        },
        (forall|k: int| 0 <= k < ed.caret ==> ed.text[k] != '\n') && ed.at == 0 ==> after_up(ed)
            == ed,
        (forall|k: int| 0 <= k < ed.text.len() ==> ed.text[k] != '\n') && ed.at
            == ed.history.len() ==> after_down(ed) == ed,
{
    if forall|k: int| 0 <= k < ed.caret ==> ed.text[k] != '\n' {
        lemma_opens(ed.text, ed.caret, 0);
    }
}

/// Home and End stay on the row of the caret: no line feed stands between, and
/// one, or the end of the text, stands beyond.
pub proof fn law_home_and_end_are_the_ends_of_the_row(text: Seq<char>, caret: int)
    requires
        0 <= caret <= text.len(),
    ensures
        row_opens(text, caret, line_begin(text, caret)),
        row_closes(text, caret, line_end(text, caret)),
{
    let t = text.take(caret);
    lemma_last_index_of(t, '\n');
    let b = line_begin(text, caret);
    if b > 0 {
        assert(t[b - 1] == text[b - 1]);
    }
    assert forall|k: int| b <= k < caret implies text[k] != '\n' by {
        assert(t[k] == text[k]);
    }
    let u = text.skip(caret);
    crate::text::lemma_index_of(u, '\n');
    let e = line_end(text, caret);
    if e < text.len() {
        assert(u[e - caret] == text[e]);
    }
    assert forall|k: int| caret <= k < e implies text[k] != '\n' by {
        assert(u[k - caret] == text[k]);
    }
}

// ---------------------------------------------------------------------------
// Words
// ---------------------------------------------------------------------------

/// Whether the characters from `a` to before `b` are white space.
pub open spec fn all_white(text: Seq<char>, a: int, b: int) -> bool {
    forall|k: int| a <= k < b ==> is_white(#[trigger] text[k])
}

/// Whether none of the characters from `a` to before `b` is white space.
pub open spec fn no_white(text: Seq<char>, a: int, b: int) -> bool {
    forall|k: int| a <= k < b ==> !is_white(#[trigger] text[k])
}

proof fn lemma_last_white(s: Seq<char>)
    ensures
        -1 <= last_white(s) < s.len(),
        last_white(s) >= 0 ==> is_white(s[last_white(s)]),
        no_white(s, last_white(s) + 1, s.len() as int),
    decreases s.len(),
{
    if s.len() > 0 && !is_white(s.last()) {
        let t = s.drop_last();
        lemma_last_white(t);
        assert forall|k: int| last_white(s) + 1 <= k < s.len() implies !is_white(
            #[trigger] s[k],
        ) by {
            if k < t.len() {
                assert(t[k] == s[k]);
            }
        }
    }
}

proof fn lemma_no_white_before(s: Seq<char>)
    ensures
        no_white(s, 0, first_white(s)),
    decreases s.len(),
{
    if s.len() > 0 && !is_white(s[0]) {
        let t = s.skip(1);
        lemma_first_white(t);
        lemma_no_white_before(t);
        assert forall|k: int| 0 <= k < first_white(s) implies !is_white(#[trigger] s[k]) by {
            if k > 0 {
                assert(t[k - 1] == s[k]);
            }
        }
    }
}

/// A word back is the start of the word in front of the caret: between it and
/// the caret stand the word, and then white space only; and in front of it
/// stands white space, or nothing.
pub proof fn law_a_word_back_starts_the_word(text: Seq<char>, caret: int)
    requires
        0 <= caret <= text.len(),
    ensures
        ({
            let w = word_start(text, caret);
            &&& 0 <= w <= caret
            &&& w == 0 || is_white(text[w - 1])
            &&& exists|j: int|
                w <= j <= caret && #[trigger] no_white(text, w, j) && all_white(text, j, caret)
                    && (j == w ==> w == 0)
        }),
{
    let t = text.take(caret);
    lemma_trim_end(t);
    let u = trim_end(t);
    let j = u.len() as int;
    lemma_last_white(u);
    let w = word_start(text, caret);
    assert(u =~= t.take(j));
    if w > 0 {
        assert(u[w - 1] == text[w - 1]);
    }
    assert forall|k: int| w <= k < j implies !is_white(#[trigger] text[k]) by {
        assert(u[k] == text[k]);
    }
    assert forall|k: int| j <= k < caret implies is_white(#[trigger] text[k]) by {
        assert(t[k] == text[k]);
    }
    assert(no_white(text, w, j) && all_white(text, j, caret));
}

/// A word forward is the end of the word behind the caret: between the caret and
/// it stand white space, and then the word; behind it stands white space, or
/// nothing.
pub proof fn law_a_word_forward_ends_the_word(text: Seq<char>, caret: int)
    requires
        0 <= caret <= text.len(),
    ensures
        ({
            let w = word_end(text, caret);
            &&& caret <= w <= text.len()
            &&& w == text.len() || is_white(text[w])
            &&& exists|j: int|
                caret <= j <= w && #[trigger] all_white(text, caret, j) && no_white(text, j, w)
                    && (j == w ==> w == text.len())
        }),
{
    let t = text.skip(caret);
    lemma_trim_start(t);
    let rest = trim_start(t);
    lemma_first_white(rest);
    lemma_no_white_before(rest);
    let j = text.len() - rest.len();
    let w = word_end(text, caret);
    assert(rest =~= text.skip(j));
    if w < text.len() {
        assert(rest[w - j] == text[w]);
    }
    assert forall|k: int| caret <= k < j implies is_white(#[trigger] text[k]) by {
        assert(t[k - caret] == text[k]);
    }
    assert forall|k: int| j <= k < w implies !is_white(#[trigger] text[k]) by {
        assert(rest[k - j] == text[k]);
    }
    if j == w && w < text.len() {
        assert(rest[0] == text[w]);
    }
    assert(all_white(text, caret, j) && no_white(text, j, w));
}

/// The next word starts where the white space behind the word at the caret ends.
pub proof fn law_the_next_word_starts_behind_the_white(text: Seq<char>, caret: int)
    requires
        0 <= caret <= text.len(),
    ensures
        ({
            let w = next_word(text, caret);
            &&& caret <= w <= text.len()
            &&& w == text.len() || !is_white(text[w])
            &&& exists|j: int|
                caret <= j <= w && #[trigger] no_white(text, caret, j) && all_white(text, j, w)
                    && (j == w ==> w == text.len())
        }),
{
    let t = text.skip(caret);
    lemma_first_white(t);
    lemma_no_white_before(t);
    let j = caret + first_white(t);
    let u = t.skip(first_white(t));
    lemma_trim_start(u);
    let rest = trim_start(u);
    let w = next_word(text, caret);
    assert(u =~= text.skip(j));
    assert(rest =~= text.skip(w));
    if w < text.len() {
        assert(rest[0] == text[w]);
    }
    assert forall|k: int| caret <= k < j implies !is_white(#[trigger] text[k]) by {
        assert(t[k - caret] == text[k]);
    }
    assert forall|k: int| j <= k < w implies is_white(#[trigger] text[k]) by {
        assert(u[k - j] == text[k]);
    }
    if j == w && w < text.len() {
        assert(t[first_white(t)] == text[j]);
    }
    assert(no_white(text, caret, j) && all_white(text, j, w));
}

/// A line handed over is remembered last, behind every line before it; one that
/// is blank, or the last one again, is not remembered twice.
pub proof fn law_a_line_is_remembered_once(history: Seq<Seq<char>>, line: Seq<char>)
    ensures
        ({
            let h = remembered(history, line);
            &&& history.len() <= h.len() <= history.len() + 1
            &&& h.take(history.len() as int) == history
            &&& (exists|k: int| 0 <= k < line.len() && !is_white(#[trigger] line[k])) ==> h.len()
                > 0 && h.last() == line
            &&& h.len() > history.len() ==> h.last() == line && (history.len() > 0
                ==> history.last() != line)
            &&& (forall|k: int| 0 <= k < line.len() ==> is_white(#[trigger] line[k])) ==> h
                == history
        }),
{
    let h = remembered(history, line);
    assert(h.take(history.len() as int) =~= history);
}

} // verus!
