//! What edits do to the rows of a file, stated on its characters.

use crate::hashline::edits::{Anchor, Edit};
use crate::hashline::landing::{
    all_places, at_row_start, behind, blanked, block_hits, block_needle, block_span, body_of, crlf,
    empties, ending, first_spans, found, gap, has_crlf, is_address, last_solid, lf_form, line_start,
    mark, opens_on, outcome, past_address, place, region_crlf, reported, resolved, rewritten,
    settled, slotted, sound, spans, spellings, spliced, without_address, written, Place,
    RefusalView,
};
use crate::hashline::laws::{law_line_endings_never_mix, lemma_split_join, lemma_split_some};
use crate::hashline::matching::{lemma_line_start, lemma_line_start_order, lemma_occurrences};
use crate::hashline::Blocks;
use crate::text::{
    blank, breaks, ends, holds, index_of, is_digit, join, lemma_breaks_concat, lemma_index_of,
    lemma_index_of_is, lemma_trim_start, lines, occurrences, occurs_at, split, starts, trim,
    trim_start, without_cr,
};
use vstd::prelude::*;

verus! {

// ---------------------------------------------------------------------------
// Rows
// ---------------------------------------------------------------------------

/// Whether a text ends with a line break.
pub open spec fn closed(s: Seq<char>) -> bool {
    s.len() > 0 && s[s.len() - 1] == '\n'
}

/// Whether every carriage return of a text is part of a `\r\n`.
pub open spec fn plain_returns(s: Seq<char>) -> bool {
    forall|i: int| 0 <= i < s.len() && #[trigger] s[i] == '\r' ==> i + 1 < s.len() && s[i + 1] == '\n'
}

proof fn lemma_closed(s: Seq<char>)
    ensures
        ends(s, seq!['\n']) == closed(s),
{
    if s.len() > 0 {
        assert(s.skip(s.len() - 1)[0] == s[s.len() - 1]);
        assert(s.skip(s.len() - 1) =~= seq![s[s.len() - 1]]);
    }
}

/// The rows of two texts in a row are those of both, where the first stops at
/// the end of a row.
proof fn lemma_lines_concat(a: Seq<char>, b: Seq<char>)
    requires
        a.len() == 0 || closed(a),
    ensures
        lines(a + b) == lines(a) + lines(b),
    decreases a.len(),
{
    if a.len() == 0 {
        assert(a + b =~= b);
        assert(lines(a) =~= Seq::empty());
        assert(lines(a) + lines(b) =~= lines(b));
    } else {
        lemma_index_of(a, '\n');
        let n = index_of(a, '\n');
        assert(n < a.len());
        lemma_index_of_is(a + b, '\n', n);
        let rest = a.skip(n + 1);
        if rest.len() > 0 {
            assert(rest[rest.len() - 1] == a[a.len() - 1]);
        }
        lemma_lines_concat(rest, b);
        assert((a + b).take(n) =~= a.take(n));
        assert((a + b).skip(n + 1) =~= rest + b);
        assert(lines(a + b) =~= lines(a) + lines(b));
    }
}

/// The first row of a text, with its break.
proof fn lemma_first_row(body: Seq<char>, n: int)
    requires
        n == index_of(body, '\n'),
        n < body.len(),
    ensures
        lines(body.take(n + 1)) == seq![without_cr(body.take(n))],
        lines(body) == seq![without_cr(body.take(n))] + lines(body.skip(n + 1)),
        breaks(body.take(n + 1)) == 1,
{
    let first = body.take(n + 1);
    lemma_index_of(body, '\n');
    lemma_index_of_is(first, '\n', n);
    assert(first.take(n) =~= body.take(n));
    assert(first.skip(n + 1) =~= Seq::empty());
    assert(lines(Seq::<char>::empty()) =~= Seq::empty());
    assert(lines(first) =~= seq![without_cr(body.take(n))]);
    assert(first =~= body.take(n).push('\n'));
    assert(first.drop_last() =~= body.take(n));
    lemma_no_breaks(body.take(n));
}

spec fn least(a: int, b: int) -> int {
    if a <= b {
        a
    } else {
        b
    }
}

/// What stands before a row and from it on are the rows before it and those from
/// it on.
proof fn lemma_lines_at(body: Seq<char>, k: int)
    requires
        0 <= k,
    ensures
        ({
            let c = line_start(body, k);
            let m = least(k, lines(body).len() as int);
            &&& 0 <= c <= body.len()
            &&& lines(body.take(c)) == lines(body).take(m)
            &&& lines(body.skip(c)) == lines(body).skip(m)
            &&& k <= breaks(body) || c < body.len() ==> at_row_start(body.take(c))
        }),
    decreases body.len(),
{
    lemma_line_start(body, k);
    lemma_index_of(body, '\n');
    let n = index_of(body, '\n');
    let c = line_start(body, k);
    let all = lines(body);
    if k == 0 {
        assert(body.take(0) =~= Seq::empty());
        assert(body.skip(0) =~= body);
        assert(all.take(0) =~= Seq::empty());
        assert(all.skip(0) =~= all);
        assert(lines(body.take(0)) =~= Seq::empty());
    } else if n >= body.len() {
        assert(body.take(c) =~= body);
        assert(body.skip(c) =~= Seq::empty());
        let m = least(k, all.len() as int);
        assert(m == all.len());
        assert(all.take(m) =~= all);
        assert(all.skip(m) =~= Seq::empty());
        lemma_no_breaks(body);
    } else {
        let rest = body.skip(n + 1);
        let first = body.take(n + 1);
        lemma_lines_at(rest, k - 1);
        let d = line_start(rest, k - 1);
        assert(body =~= first + rest);
        lemma_lines_concat(first, rest);
        assert(body.take(c) =~= first + rest.take(d));
        assert(body.skip(c) =~= rest.skip(d));
        lemma_lines_concat(first, rest.take(d));
        lemma_first_row(body, n);
        let m = least(k, all.len() as int);
        let j = least(k - 1, lines(rest).len() as int);
        assert(m == j + 1);
        assert(all.take(m) =~= lines(first) + lines(rest).take(j));
        assert(all.skip(m) =~= lines(rest).skip(j));
        lemma_breaks_concat(first, rest);
        if rest.take(d).len() > 0 {
            assert(body.take(c).last() == rest.take(d).last());
        } else {
            assert(body.take(c) =~= first);
        }
    }
}

proof fn lemma_no_breaks(s: Seq<char>)
    requires
        forall|i: int| 0 <= i < s.len() ==> s[i] != '\n',
    ensures
        breaks(s) == 0,
    decreases s.len(),
{
    if s.len() > 0 {
        lemma_no_breaks(s.drop_last());
    }
}

proof fn lemma_one_row(s: Seq<char>)
    requires
        forall|i: int| 0 <= i < s.len() ==> s[i] != '\n',
    ensures
        lines(s) == if s.len() == 0 {
            Seq::empty()
        } else {
            seq![s]
        },
{
    lemma_index_of_is(s, '\n', s.len() as int);
}

/// Whether no piece holds a line feed or ends with a carriage return.
spec fn rows_only(parts: Seq<Seq<char>>) -> bool {
    &&& forall|k: int, i: int|
        0 <= k < parts.len() && 0 <= i < parts[k].len() ==> #[trigger] parts[k][i] != '\n'
    &&& forall|k: int|
        0 <= k < parts.len() && (#[trigger] parts[k]).len() > 0 ==> parts[k].last() != '\r'
}

/// One row and its break.
proof fn lemma_row_and_break(row: Seq<char>, term: Seq<char>)
    requires
        forall|i: int| 0 <= i < row.len() ==> row[i] != '\n',
        row.len() > 0 ==> row.last() != '\r',
        term == seq!['\n'] || term == crlf(),
    ensures
        lines(row + term) == seq![row],
{
    let s = row + term;
    let n = s.len() - 1;
    assert(s[n] == '\n');
    assert forall|i: int| 0 <= i < n implies s[i] != '\n' by {
        if i < row.len() {
            assert(s[i] == row[i]);
        }
    }
    lemma_index_of_is(s, '\n', n);
    assert(s.skip(n + 1) =~= Seq::empty());
    assert(lines(s.skip(n + 1)) =~= Seq::empty());
    if term == crlf() {
        assert(s.take(n) =~= row.push('\r'));
        assert(s.take(n).drop_last() =~= row);
    } else {
        assert(s.take(n) =~= row);
    }
    assert(without_cr(s.take(n)) == row);
    assert(lines(s) =~= seq![row]);
}

/// The rows of joined rows are the rows.
proof fn lemma_lines_joined(parts: Seq<Seq<char>>, term: Seq<char>)
    requires
        parts.len() > 0,
        rows_only(parts),
        term == seq!['\n'] || term == crlf(),
    ensures
        lines(join(parts, term) + term) == parts,
        lines(join(parts, term)) == if parts.last().len() == 0 {
            parts.drop_last()
        } else {
            parts
        },
    decreases parts.len(),
{
    let last = parts.last();
    let less = parts.drop_last();
    assert forall|i: int| 0 <= i < last.len() implies last[i] != '\n' by {
        assert(parts[parts.len() - 1][i] != '\n');
    }
    assert(last == parts[parts.len() - 1]);
    lemma_row_and_break(last, term);
    lemma_one_row(last);
    if parts.len() == 1 {
        assert(parts =~= seq![last]);
        assert(less =~= Seq::empty());
    } else {
        assert(rows_only(less)) by {
            assert forall|k: int, i: int|
                0 <= k < less.len() && 0 <= i < less[k].len() implies #[trigger] less[k][i]
                != '\n' by {
                assert(parts[k][i] != '\n');
            }
            assert forall|k: int|
                0 <= k < less.len() && (#[trigger] less[k]).len() > 0 implies less[k].last()
                != '\r' by {
                assert(parts[k].len() > 0);
            }
        }
        lemma_lines_joined(less, term);
        let front = join(less, term) + term;
        assert(front[front.len() - 1] == '\n');
        lemma_lines_concat(front, last + term);
        lemma_lines_concat(front, last);
        assert(join(parts, term) + term =~= front + (last + term));
        assert(join(parts, term) =~= front + last);
        assert(less + seq![last] =~= parts);
        assert(less + Seq::<Seq<char>>::empty() =~= less);
    }
}

proof fn lemma_split_parts(s: Seq<char>)
    requires
        forall|i: int| 0 <= i < s.len() ==> s[i] != '\r',
    ensures
        rows_only(split(s, '\n')),
    decreases s.len(),
{
    lemma_index_of(s, '\n');
    let n = index_of(s, '\n');
    let all = split(s, '\n');
    if n < s.len() {
        let rest = s.skip(n + 1);
        assert forall|i: int| 0 <= i < rest.len() implies rest[i] != '\r' by {
            assert(rest[i] == s[n + 1 + i]);
        }
        lemma_split_parts(rest);
        let less = split(rest, '\n');
        assert(all == seq![s.take(n)] + less);
        assert forall|k: int, i: int| 0 <= k < all.len() && 0 <= i < all[k].len() implies #[trigger] all[k][i]
            != '\n' by {
            if k > 0 {
                assert(all[k] == less[k - 1]);
                assert(less[k - 1][i] != '\n');
            } else {
                assert(all[0][i] == s[i]);
            }
        }
        assert forall|k: int| 0 <= k < all.len() && (#[trigger] all[k]).len() > 0 implies all[k].last()
            != '\r' by {
            if k > 0 {
                assert(all[k] == less[k - 1]);
            } else {
                assert(all[0].last() == s[n - 1]);
            }
        }
    } else {
        assert(all =~= seq![s]);
    }
}

/// What `\n` stands for `\r\n` gives: the same rows, without a carriage return.
proof fn lemma_lf_form(s: Seq<char>)
    requires
        plain_returns(s),
    ensures
        forall|i: int| 0 <= i < lf_form(s).len() ==> lf_form(s)[i] != '\r',
        lines(lf_form(s)) == lines(s),
        s.len() > 0 ==> lf_form(s).len() > 0 && lf_form(s).last() == s.last(),
        s.len() == 0 ==> lf_form(s).len() == 0,
    decreases s.len(),
{
    lemma_index_of(s, '\n');
    let n = index_of(s, '\n');
    if s.len() > 0 {
        lemma_lf_front(s);
        if n < s.len() {
            let rest = s.skip(n + 1);
            assert(plain_returns(rest)) by {
                assert forall|i: int| 0 <= i < rest.len() && #[trigger] rest[i] == '\r' implies i + 1
                    < rest.len() && rest[i + 1] == '\n' by {
                    assert(s[n + 1 + i] == '\r');
                }
            }
            lemma_lf_form(rest);
            let row = without_cr(s.take(n));
            assert forall|i: int| 0 <= i < row.len() implies row[i] != '\n' && row[i] != '\r' by {
                assert(row[i] == s[i]);
                if s[i] == '\r' {
                    assert(s[i + 1] == '\n');
                    assert(i + 1 == n);
                    assert(s.take(n).last() == s[n - 1]);
                }
            }
            let f = lf_form(s);
            assert(f == row + seq!['\n'] + lf_form(rest));
            assert forall|i: int| 0 <= i < f.len() implies f[i] != '\r' by {
                if i < row.len() {
                    assert(f[i] == row[i]);
                } else if i > row.len() {
                    assert(f[i] == lf_form(rest)[i - row.len() - 1]);
                }
            }
            if row.len() > 0 {
                assert(row.last() == row[row.len() - 1]);
            }
            lemma_row_and_break(row, seq!['\n']);
            lemma_lines_concat(row + seq!['\n'], lf_form(rest));
            assert(lines(s) =~= seq![row] + lines(rest));
            if rest.len() > 0 {
                assert(rest.last() == s.last());
            }
        } else {
            assert forall|i: int| 0 <= i < s.len() implies s[i] != '\r' by {
                if s[i] == '\r' {
                    assert(s[i + 1] == '\n');
                }
            }
        }
    }
}

/// How the first row of a text comes out.
proof fn lemma_lf_front(s: Seq<char>)
    requires
        plain_returns(s),
        s.len() > 0,
    ensures
        ({
            let n = index_of(s, '\n');
            lf_form(s) == if n < s.len() {
                without_cr(s.take(n)) + seq!['\n'] + lf_form(s.skip(n + 1))
            } else {
                s
            }
        }),
    decreases s.len(),
{
    lemma_index_of(s, '\n');
    let n = index_of(s, '\n');
    let t = s.skip(1);
    assert(plain_returns(t)) by {
        assert forall|i: int| 0 <= i < t.len() && #[trigger] t[i] == '\r' implies i + 1 < t.len()
            && t[i + 1] == '\n' by {
            assert(s[1 + i] == '\r');
        }
    }
    if n == 0 {
        assert(s.take(0) =~= Seq::empty());
        assert(lf_form(s) =~= without_cr(s.take(n)) + seq!['\n'] + lf_form(s.skip(n + 1)));
    } else if t.len() == 0 {
        assert(lf_form(t) =~= Seq::empty());
        assert(lf_form(s) =~= s);
    } else {
        lemma_lf_front(t);
        assert(index_of(t, '\n') == n - 1);
        if n < s.len() {
            assert(t.skip(n) =~= s.skip(n + 1));
            assert(s.take(n) =~= seq![s[0]] + t.take(n - 1));
            if s[0] == '\r' {
                assert(s[1] == '\n');
                assert(n == 1);
                assert(t.take(0) =~= Seq::empty());
                assert(s.take(1).drop_last() =~= Seq::empty());
                assert(lf_form(s) =~= without_cr(s.take(n)) + seq!['\n'] + lf_form(s.skip(n + 1)));
            } else {
                assert(without_cr(s.take(n)) =~= seq![s[0]] + without_cr(t.take(n - 1)));
                assert(lf_form(s) =~= without_cr(s.take(n)) + seq!['\n'] + lf_form(s.skip(n + 1)));
            }
        } else {
            if s[0] == '\r' {
                assert(s[1] == '\n');
            }
            assert(lf_form(s) =~= s);
        }
    }
}

/// What is spliced into a region: the rows of the new text, the last closed
/// where the region was.
proof fn lemma_spliced(region: Seq<char>, new: Seq<char>, term: Seq<char>)
    requires
        plain_returns(new),
        term == seq!['\n'] || term == crlf(),
    ensures
        ({
            let put = spliced(region, new, term);
            &&& new.len() == 0 ==> put.len() == 0
            &&& new.len() > 0 && closed(region) ==> closed(put) && lines(put) == lines(new)
            &&& !closed(region) && (new.len() == 0 || lines(new).last().len() > 0) ==> !closed(put)
                && lines(put) == lines(new)
        }),
{
    lemma_lf_form(new);
    let plain = lf_form(new);
    let put = spliced(region, new, term);
    lemma_closed(plain);
    lemma_closed(region);
    if new.len() > 0 {
        let pieces = split(plain, '\n');
        lemma_split_some(plain, '\n');
        lemma_split_join(plain);
        lemma_split_parts(plain);
        let parts = if closed(plain) {
            pieces.drop_last()
        } else {
            pieces
        };
        lemma_lines_joined(pieces, seq!['\n']);
        if closed(plain) {
            lemma_last_piece(plain);
            assert(pieces.len() > 1);
            assert(rows_only(parts)) by {
                assert forall|k: int, i: int|
                    0 <= k < parts.len() && 0 <= i < parts[k].len() implies #[trigger] parts[k][i]
                    != '\n' by {
                    assert(pieces[k][i] != '\n');
                }
                assert forall|k: int|
                    0 <= k < parts.len() && (#[trigger] parts[k]).len() > 0 implies parts[k].last()
                    != '\r' by {
                    assert(pieces[k].len() > 0);
                }
            }
        } else {
            lemma_last_piece(plain);
        }
        assert(lines(new) == parts);
        lemma_lines_joined(parts, term);
        if closed(region) {
            assert(put == join(parts, term) + term);
        } else {
            assert(put == join(parts, term));
            let last = parts.last();
            if last.len() > 0 {
                assert(last[last.len() - 1] != '\n') by {
                    assert(parts[parts.len() - 1][last.len() - 1] != '\n');
                }
                lemma_join_last(parts, term);
            }
        }
    }
}

/// A join ends with its last piece.
proof fn lemma_join_last(parts: Seq<Seq<char>>, term: Seq<char>)
    requires
        parts.len() > 0,
        parts.last().len() > 0,
    ensures
        join(parts, term).len() > 0,
        join(parts, term).last() == parts.last().last(),
{
}

/// The last piece of a text is empty where the text ends with a break, and only
/// there.
proof fn lemma_last_piece(s: Seq<char>)
    requires
        s.len() > 0,
    ensures
        split(s, '\n').len() > 0,
        (split(s, '\n').last().len() == 0) == closed(s),
        closed(s) ==> split(s, '\n').len() > 1,
    decreases s.len(),
{
    lemma_index_of(s, '\n');
    let n = index_of(s, '\n');
    if n < s.len() {
        let rest = s.skip(n + 1);
        lemma_split_some(rest, '\n');
        if rest.len() > 0 {
            lemma_last_piece(rest);
            assert(rest[rest.len() - 1] == s[s.len() - 1]);
        } else {
            assert(split(rest, '\n') =~= seq![rest]);
        }
        assert(split(s, '\n').last() == split(rest, '\n').last());
    } else {
        assert(split(s, '\n') =~= seq![s]);
    }
}

/// A text that is not empty stays so, and ends with the same character.
proof fn lemma_lf_some(s: Seq<char>)
    requires
        s.len() > 0,
    ensures
        lf_form(s).len() > 0,
        lf_form(s).last() == s.last(),
    decreases s.len(),
{
    if s.len() > 1 {
        lemma_lf_some(s.skip(1));
        assert(s.skip(1).last() == s.last());
    } else {
        assert(lf_form(s.skip(1)) =~= Seq::empty());
    }
}

proof fn lemma_no_rows(s: Seq<char>)
    requires
        lines(s).len() == 0,
    ensures
        s.len() == 0,
{
}

// ---------------------------------------------------------------------------
// Whole blocks
// ---------------------------------------------------------------------------

/// The region of a block that a replacement takes, and the text it puts there:
/// it ends with a line break where the region did, whether the new text brings
/// one or not; and no text leaves nothing.
pub proof fn law_a_block_keeps_its_closing_break<B: Blocks>(
    path: Seq<char>,
    body: Seq<char>,
    edit: Edit,
    index: int,
    blocks: &B,
)
    requires
        edit.whole_block,
        edit.anchor is Replace,
        resolved(path, body, edit, index, blocks) is Ok,
    ensures
        ({
            let places = resolved(path, body, edit, index, blocks)->Ok_0;
            let region = body.subrange(places[0].start, places[0].end);
            let put = places[0].text;
            &&& places.len() == 1
            &&& edit.new@.len() == 0 ==> put.len() == 0
            &&& edit.new@.len() > 0 && closed(region) ==> closed(put)
            &&& !closed(region) && plain_returns(edit.new@) && (edit.new@.len() == 0
                || lines(edit.new@).last().len() > 0) ==> !closed(put)
            &&& plain_returns(edit.new@) && (closed(region) || edit.new@.len() == 0 || lines(
                edit.new@,
            ).last().len() > 0) ==> lines(put) == lines(edit.new@)
        }),
{
    let places = resolved(path, body, edit, index, blocks)->Ok_0;
    let region = body.subrange(places[0].start, places[0].end);
    let new = edit.new@;
    let term = ending(region_crlf(region, body));
    lemma_closed(region);
    if new.len() > 0 {
        lemma_lf_some(new);
    } else {
        assert(lines(new) =~= Seq::empty());
        assert(lines(places[0].text) =~= Seq::empty());
    }
    if plain_returns(new) {
        lemma_spliced(region, new, term);
    }
}

/// What one edit that lands once comes to.
proof fn lemma_single<B: Blocks>(
    path: Seq<char>,
    content: Seq<char>,
    edit: Edit,
    blocks: &B,
    p: Place,
)
    requires
        resolved(path, body_of(content), edit, 0, blocks) == Ok::<Seq<Place>, RefusalView>(seq![p]),
        0 <= p.start <= p.end <= body_of(content).len(),
    ensures
        ({
            let body = body_of(content);
            let text = mark(content) + (body.take(p.start) + p.text + body.skip(p.end));
            &&& outcome(path, content, seq![edit], blocks) is Ok <==> text != content
            &&& outcome(path, content, seq![edit], blocks) is Ok ==> outcome(
                path,
                content,
                seq![edit],
                blocks,
            )->Ok_0.content == text && outcome(path, content, seq![edit], blocks)->Ok_0.left_blank
                == blanked(body, seq![p], 1)
        }),
{
    let body = body_of(content);
    let edits = seq![edit];
    assert(edits.drop_last() =~= Seq::empty());
    assert(all_places(path, body, edits.drop_last(), blocks) == Ok::<Seq<Place>, RefusalView>(Seq::empty()));
    let places = Seq::<Place>::empty() + seq![p];
    assert(places =~= seq![p]);
    assert(places.drop_last() =~= Seq::empty());
    assert(settled(Seq::<Place>::empty()) =~= Seq::empty());
    assert(slotted(Seq::<Place>::empty(), p) =~= seq![p]);
    let placed = settled(places);
    assert(placed =~= seq![p]);
    assert(written(body, placed, 0) =~= Seq::empty());
    assert(gap(body, placed, 0) =~= body.take(p.start));
    assert(written(body, placed, 1) =~= body.take(p.start) + p.text);
    assert(rewritten(body, placed) =~= body.take(p.start) + p.text + body.skip(p.end));
}

pub(crate) proof fn lemma_block_hits(opens: Seq<usize>, rows: Seq<Seq<char>>, needle: Seq<char>)
    ensures
        forall|i: int|
            0 <= i < block_hits(opens, rows, needle).len() ==> opens.contains(
                #[trigger] block_hits(opens, rows, needle)[i],
            ) && opens_on(rows, block_hits(opens, rows, needle)[i], needle),
        forall|k: int|
            0 <= k < opens.len() && opens_on(rows, #[trigger] opens[k], needle) ==> block_hits(
                opens,
                rows,
                needle,
            ).contains(opens[k]),
    decreases opens.len(),
{
    if opens.len() > 0 {
        let less = opens.drop_last();
        let before = block_hits(less, rows, needle);
        let now = block_hits(opens, rows, needle);
        lemma_block_hits(less, rows, needle);
        assert forall|i: int| 0 <= i < now.len() implies opens.contains(#[trigger] now[i])
            && opens_on(rows, now[i], needle) by {
            if i < before.len() {
                assert(now[i] == before[i]);
                let k = choose|k: int| 0 <= k < less.len() && less[k] == before[i];
                assert(opens[k] == now[i]);
            } else {
                assert(opens[opens.len() - 1] == now[i]);
            }
        }
        assert forall|k: int|
            0 <= k < opens.len() && opens_on(rows, #[trigger] opens[k], needle) implies now.contains(
            opens[k],
        ) by {
            if k < less.len() {
                assert(less[k] == opens[k]);
                let i = choose|i: int| 0 <= i < before.len() && before[i] == opens[k];
                assert(now[i] == opens[k]);
            } else {
                assert(now[now.len() - 1] == opens[k]);
            }
        }
    }
}

proof fn lemma_last_solid(rows: Seq<Seq<char>>, start: int, last: int)
    requires
        last <= rows.len(),
    ensures
        ({
            let n = last_solid(rows, start, last);
            &&& n <= last
            &&& last >= start ==> n >= start
            &&& last <= start ==> n == last
            &&& n > start ==> n < 1 || !blank(rows[n - 1])
            &&& forall|k: int| n < k <= last && 1 <= k ==> blank(#[trigger] rows[k - 1])
        }),
    decreases last,
{
    if last > start && 1 <= last <= rows.len() && blank(rows[last - 1]) {
        lemma_last_solid(rows, start, last - 1);
    }
}

/// Whether the anchor of a block edit names the block on rows `start..=end`, and
/// `last` is the last of them that is not one of the blank rows it trails off
/// with.
pub open spec fn names_block<B: Blocks>(
    blocks: &B,
    path: Seq<char>,
    body: Seq<char>,
    anchor: Seq<char>,
    line: usize,
    start: usize,
    end: usize,
    last: int,
) -> bool {
    let rows = lines(body);
    &&& blocks.opening_rows(path, body).contains(line)
    &&& opens_on(rows, line, block_needle(anchor))
    &&& forall|k: int|
        0 <= k < blocks.opening_rows(path, body).len() && opens_on(
            rows,
            #[trigger] blocks.opening_rows(path, body)[k],
            block_needle(anchor),
        ) ==> blocks.opening_rows(path, body)[k] == line
    &&& blocks.extent_at(path, body, line) == Some((start, end))
    &&& start - 1 <= last <= end && last <= rows.len()
    &&& start <= end && start <= rows.len() ==> start <= last
    &&& last > start ==> !blank(rows[last - 1])
    &&& forall|k: int| last < k <= end && k <= rows.len() ==> blank(#[trigger] rows[k - 1])
}

/// A block that is replaced is replaced row for row: the rows above it and those
/// below it, the blank ones it trails off with among them, are the file's own,
/// each still a row of its own; between them stand the rows of the new text.
pub proof fn law_a_block_is_replaced_row_for_row<B: Blocks>(
    path: Seq<char>,
    content: Seq<char>,
    edit: Edit,
    blocks: &B,
)
    requires
        edit.whole_block,
        edit.anchor is Replace,
        plain_returns(edit.new@),
        sound(blocks, path, body_of(content)),
        outcome(path, content, seq![edit], blocks) is Ok,
    ensures
        exists|line: usize, start: usize, end: usize, last: int, text: Seq<char>|
            {
                let body = body_of(content);
                let rows = lines(body);
                &&& #[trigger] names_block(
                    blocks,
                    path,
                    body_of(content),
                    edit.anchor.words(),
                    line,
                    start,
                    end,
                    last,
                )
                &&& #[trigger] (mark(content) + text) == outcome(
                    path,
                    content,
                    seq![edit],
                    blocks,
                )->Ok_0.content
                &&& (start <= last && (last < rows.len() || closed(body))) || edit.new@.len() == 0
                    || (last == rows.len() && lines(edit.new@).last().len() > 0) ==> lines(text)
                    == rows.take(start - 1) + lines(edit.new@) + rows.skip(last)
            },
{
    let body = body_of(content);
    let rows = lines(body);
    let anchor = edit.anchor.words();
    let needle = block_needle(anchor);
    let opens = blocks.opening_rows(path, body);
    let hits = block_hits(opens, rows, needle);
    let edits = seq![edit];
    assert(edits.drop_last() =~= Seq::empty());
    assert(all_places(path, body, edits.drop_last(), blocks) == Ok::<Seq<Place>, RefusalView>(Seq::empty()));
    assert(resolved(path, body, edit, 0, blocks) is Ok);
    assert(block_span(path, body, anchor, blocks, 0) is Ok);
    let line = hits[0];
    lemma_block_hits(opens, rows, needle);
    assert(blocks.extent_at(path, body, line) is Some);
    let (start, end) = blocks.extent_at(path, body, line)->Some_0;
    let cap = least(end as int, rows.len() as int);
    let last = last_solid(rows, start as int, cap);
    lemma_last_solid(rows, start as int, cap);
    assert(forall|k: int|
        0 <= k < opens.len() && opens_on(rows, #[trigger] opens[k], needle) ==> opens[k] == line) by {
        assert forall|k: int|
            0 <= k < opens.len() && opens_on(rows, #[trigger] opens[k], needle) implies opens[k]
            == line by {
            assert(hits.contains(opens[k]));
        }
    }
    lemma_row_count(body);
    let c = line_start(body, start - 1);
    let d = line_start(body, last);
    lemma_lines_at(body, start - 1);
    lemma_lines_at(body, last);
    lemma_line_start_order(body, start - 1, last);
    let region = body.subrange(c, d);
    let put = spliced(region, edit.new@, ending(region_crlf(region, body)));
    let p = Place { index: 0, start: c, end: d, text: put };
    assert(resolved(path, body, edit, 0, blocks) == Ok::<Seq<Place>, RefusalView>(seq![p]));
    lemma_single(path, content, edit, blocks, p);
    let text = body.take(c) + put + body.skip(d);
    lemma_spliced(region, edit.new@, ending(region_crlf(region, body)));
    assert(names_block(blocks, path, body, anchor, line, start, end, last));
    assert(mark(content) + text == outcome(path, content, seq![edit], blocks)->Ok_0.content);
    let new = edit.new@;
    if start <= last && (last < rows.len() || closed(body)) {
        if d >= body.len() {
            assert(body.skip(d) =~= Seq::empty());
            assert(lines(body.skip(d)) =~= Seq::empty());
            assert(last == rows.len());
        }
        if c == d {
            assert(rows.take(start - 1).len() == rows.take(last).len());
        }
        assert(c < d);
        assert(body.take(d).last() == body[d - 1]);
        assert(region[region.len() - 1] == body[d - 1]);
        assert(closed(region));
    }
    if (start <= last && (last < rows.len() || closed(body))) || new.len() == 0 || (last
        == rows.len() && lines(new).last().len() > 0) {
        if new.len() == 0 {
            assert(lines(new) =~= Seq::empty());
            assert(put =~= Seq::empty());
        }
        lemma_at_start(body.take(c));
        lemma_lines_concat(body.take(c), put + body.skip(d));
        assert(text =~= body.take(c) + (put + body.skip(d)));
        if put.len() == 0 || closed(put) {
            lemma_lines_concat(put, body.skip(d));
        } else {
            assert(rows.skip(last) =~= Seq::empty());
            lemma_no_rows(body.skip(d));
            assert(put + body.skip(d) =~= put);
            assert(lines(put) + lines(body.skip(d)) =~= lines(put));
        }
        assert(lines(text) =~= rows.take(start - 1) + lines(new) + rows.skip(last));
    }
}

proof fn lemma_at_start(s: Seq<char>)
    ensures
        at_row_start(s) == (s.len() == 0 || closed(s)),
{
}

/// A text has a row for each break, and one more where it goes on behind the
/// last.
proof fn lemma_row_count(s: Seq<char>)
    ensures
        lines(s).len() == breaks(s) + if s.len() == 0 || closed(s) {
            0int
        } else {
            1int
        },
    decreases s.len(),
{
    lemma_index_of(s, '\n');
    let n = index_of(s, '\n');
    if s.len() == 0 {
    } else if n >= s.len() {
        lemma_no_breaks(s);
    } else {
        let rest = s.skip(n + 1);
        lemma_first_row(s, n);
        lemma_row_count(rest);
        assert(s =~= s.take(n + 1) + rest);
        lemma_breaks_concat(s.take(n + 1), rest);
        if rest.len() > 0 {
            assert(rest[rest.len() - 1] == s[s.len() - 1]);
        }
    }
}

// ---------------------------------------------------------------------------
// Text that is found
// ---------------------------------------------------------------------------

/// Whether a text shows somewhere in a row.
pub open spec fn shows(row: Seq<char>, text: Seq<char>) -> bool {
    exists|i: int| #[trigger] shows_at(row, text, i)
}

/// Whether a text stands in a row from position `i` on.
pub open spec fn shows_at(row: Seq<char>, text: Seq<char>, i: int) -> bool {
    &&& 0 <= i && i + text.len() <= row.len()
    &&& forall|j: int| 0 <= j < text.len() ==> row[i + j] == #[trigger] text[j]
}

pub(crate) proof fn lemma_shows(row: Seq<char>, text: Seq<char>)
    ensures
        holds(row, text) == shows(row, text),
{
    if holds(row, text) {
        let i = choose|i: int| #[trigger] occurs_at(row, text, i);
        let part = row.subrange(i, i + text.len());
        assert forall|j: int| 0 <= j < text.len() implies row[i + j] == #[trigger] text[j] by {
            assert(part[j] == row[i + j]);
        }
        assert(shows_at(row, text, i));
    }
    if shows(row, text) {
        let i = choose|i: int| #[trigger] shows_at(row, text, i);
        let part = row.subrange(i, i + text.len());
        assert forall|j: int| 0 <= j < text.len() implies part[j] == text[j] by {
            assert(row[i + j] == text[j]);
        }
        assert(part =~= text);
        assert(occurs_at(row, text, i));
    }
}

proof fn lemma_shows_at(s: Seq<char>, text: Seq<char>, i: int)
    ensures
        occurs_at(s, text, i) == shows_at(s, text, i),
{
    if 0 <= i && i + text.len() <= s.len() {
        let part = s.subrange(i, i + text.len());
        if shows_at(s, text, i) {
            assert forall|j: int| 0 <= j < text.len() implies part[j] == text[j] by {
                assert(s[i + j] == text[j]);
            }
            assert(part =~= text);
        }
        if part == text {
            assert forall|j: int| 0 <= j < text.len() implies s[i + j] == #[trigger] text[j] by {
                assert(part[j] == s[i + j]);
            }
        }
    }
}

/// Whether one of the texts of length `n` that start at `starts` reaches over
/// position `i`.
#[verifier::opaque]
pub open spec fn meets(starts: Seq<int>, n: int, i: int) -> bool {
    exists|k: int| 0 <= k < starts.len() && #[trigger] starts[k] <= i < starts[k] + n
}

/// A text found at places where it stands, apart and in order.
proof fn lemma_all_found(s: Seq<char>, text: Seq<char>)
    ensures
        ({
            let at = occurrences(s, text, 0);
            &&& forall|k: int| 0 <= k < at.len() ==> shows_at(s, text, #[trigger] at[k])
            &&& forall|j: int, k: int|
                0 <= j < k < at.len() ==> #[trigger] at[j] + text.len() <= #[trigger] at[k]
        }),
{
    lemma_occurrences(s, text, 0);
    let at = occurrences(s, text, 0);
    assert forall|k: int| 0 <= k < at.len() implies shows_at(s, text, #[trigger] at[k]) by {
        lemma_shows_at(s, text, at[k]);
    }
}

/// Wherever a text stands, it meets a place where it is found.
proof fn lemma_met(s: Seq<char>, text: Seq<char>, from: int, i: int)
    requires
        0 <= from <= i,
        text.len() > 0,
        shows_at(s, text, i),
    ensures
        meets(occurrences(s, text, from), text.len() as int, i),
    decreases s.len() - from,
{
    reveal(meets);
    let at = occurrences(s, text, from);
    lemma_shows_at(s, text, from);
    if occurs_at(s, text, from) {
        let rest = occurrences(s, text, from + text.len());
        assert(at == seq![from] + rest);
        if i < from + text.len() {
            assert(at[0] == from);
        } else {
            lemma_met(s, text, from + text.len(), i);
            let k = choose|k: int|
                0 <= k < rest.len() && #[trigger] rest[k] <= i < rest[k] + text.len();
            assert(at[k + 1] == rest[k]);
        }
    } else {
        lemma_met(s, text, from + 1, i);
    }
}

/// Whether no line of a text breaks with `\r\n`.
pub open spec fn no_returns(s: Seq<char>) -> bool {
    forall|i: int| 0 <= i < s.len() ==> #[trigger] s[i] != '\r'
}

proof fn lemma_no_crlf(s: Seq<char>)
    requires
        no_returns(s),
    ensures
        !has_crlf(s),
{
    if has_crlf(s) {
        let i = choose|i: int| #[trigger] occurs_at(s, crlf(), i);
        assert(s.subrange(i, i + 2)[0] == s[i]);
    }
}

/// What an anchor finds, where it stands as it is written.
proof fn lemma_found_as_written(body: Seq<char>, anchor: Seq<char>)
    requires
        anchor.len() > 0,
        shows(body, anchor),
    ensures
        found(body, anchor) == spans(body, anchor),
        found(body, anchor).len() > 0,
{
    let tried = spellings(anchor, has_crlf(body));
    assert(tried[0] == anchor);
    let i = choose|i: int| #[trigger] shows_at(body, anchor, i);
    lemma_met(body, anchor, 0, i);
    reveal(meets);
    assert(spans(body, anchor).len() > 0);
}

/// Where an edit lands: on a text that stands in the file as written, a
/// replacement takes just that text, an insertion goes just behind it or just in
/// front of it; every place the text stands at is one of the landings or meets
/// one, and what goes there is the new text.
pub proof fn law_an_edit_lands_where_its_text_stands<B: Blocks>(
    path: Seq<char>,
    body: Seq<char>,
    edit: Edit,
    index: int,
    blocks: &B,
)
    requires
        !edit.whole_block,
        edit.anchor.words().len() > 0,
        edit.anchor is Replace || edit.new@.len() > 0,
        shows(body, edit.anchor.words()),
        no_returns(body),
        resolved(path, body, edit, index, blocks) is Ok,
    ensures
        ({
            let text = edit.anchor.words();
            let n = text.len() as int;
            let places = resolved(path, body, edit, index, blocks)->Ok_0;
            &&& !edit.replace_all ==> places.len() == 1
            &&& forall|k: int|
                0 <= k < places.len() ==> {
                    let p = #[trigger] places[k];
                    &&& p.index == index
                    &&& p.text == edit.new@
                    &&& match edit.anchor {
                        Anchor::Replace(_) => p.end == p.start + n && shows_at(body, text, p.start),
                        Anchor::After(_) => p.end == p.start && shows_at(body, text, p.start - n),
                        Anchor::Before(_) => p.end == p.start && shows_at(body, text, p.start),
                    }
                }
            &&& forall|j: int, k: int|
                0 <= j < k < places.len() ==> #[trigger] places[j].start + n
                    <= #[trigger] places[k].start
            &&& forall|i: int|
                #[trigger] shows_at(body, text, i) ==> meets(
                    Seq::new(
                        places.len(),
                        |k: int|
                            if edit.anchor is After {
                                places[k].start - n
                            } else {
                                places[k].start
                            },
                    ),
                    n,
                    i,
                )
        }),
{
    let text = edit.anchor.words();
    let n = text.len() as int;
    lemma_no_crlf(body);
    lemma_found_as_written(body, text);
    lemma_all_found(body, text);
    let at = occurrences(body, text, 0);
    lemma_resolved_at(path, body, edit, index, blocks);
    let places = resolved(path, body, edit, index, blocks)->Ok_0;
    let ats = Seq::new(
        places.len(),
        |k: int|
            if edit.anchor is After {
                places[k].start - n
            } else {
                places[k].start
            },
    );
    assert(ats =~= at) by {
        assert forall|k: int| 0 <= k < at.len() implies ats[k] == at[k] by {
            assert(places[k] == place(index, edit.anchor, (at[k], at[k] + n), edit.new@));
        }
    }
    assert forall|k: int| 0 <= k < places.len() implies {
        let p = #[trigger] places[k];
        &&& p.index == index
        &&& p.text == edit.new@
        &&& match edit.anchor {
            Anchor::Replace(_) => p.end == p.start + n && shows_at(body, text, p.start),
            Anchor::After(_) => p.end == p.start && shows_at(body, text, p.start - n),
            Anchor::Before(_) => p.end == p.start && shows_at(body, text, p.start),
        }
    } by {
        assert(places[k] == place(index, edit.anchor, (at[k], at[k] + n), edit.new@));
        assert(shows_at(body, text, at[k]));
    }
    assert forall|j: int, k: int| 0 <= j < k < places.len() implies #[trigger] places[j].start + n
        <= #[trigger] places[k].start by {
        assert(places[j] == place(index, edit.anchor, (at[j], at[j] + n), edit.new@));
        assert(places[k] == place(index, edit.anchor, (at[k], at[k] + n), edit.new@));
        assert(at[j] + n <= at[k]);
    }
    assert forall|i: int| #[trigger] shows_at(body, text, i) implies meets(ats, n, i) by {
        lemma_met(body, text, 0, i);
    }
}

/// What an anchor that stands as written comes to.
proof fn lemma_resolved_at<B: Blocks>(
    path: Seq<char>,
    body: Seq<char>,
    edit: Edit,
    index: int,
    blocks: &B,
)
    requires
        !edit.whole_block,
        edit.anchor.words().len() > 0,
        edit.anchor is Replace || edit.new@.len() > 0,
        shows(body, edit.anchor.words()),
    ensures
        ({
            let text = edit.anchor.words();
            let at = occurrences(body, text, 0);
            let done = resolved(path, body, edit, index, blocks);
            &&& at.len() > 1 && !edit.replace_all ==> done is Err && done->Err_0 is Ambiguous
                && done->Err_0->Ambiguous_n == at.len()
            &&& at.len() == 1 || edit.replace_all ==> {
                &&& done is Ok
                &&& done->Ok_0.len() == at.len()
                &&& !has_crlf(body) ==> forall|k: int|
                    0 <= k < at.len() ==> #[trigger] done->Ok_0[k] == place(
                        index,
                        edit.anchor,
                        (at[k], at[k] + text.len()),
                        edit.new@,
                    )
            }
            &&& at.len() > 0
        }),
{
    let text = edit.anchor.words();
    lemma_found_as_written(body, text);
    assert(found(body, text).len() == occurrences(body, text, 0).len());
}

/// The text one edit leaves whose anchor stands at one place alone: the rest of
/// the file is as it was.
pub proof fn law_one_edit_changes_one_place<B: Blocks>(
    path: Seq<char>,
    content: Seq<char>,
    edit: Edit,
    at: int,
    blocks: &B,
)
    requires
        !edit.whole_block,
        edit.anchor.words().len() > 0,
        edit.anchor is Replace || edit.new@.len() > 0,
        no_returns(body_of(content)),
        shows_at(body_of(content), edit.anchor.words(), at),
        forall|i: int| #[trigger] shows_at(body_of(content), edit.anchor.words(), i) ==> i == at,
    ensures
        ({
            let body = body_of(content);
            let n = edit.anchor.words().len() as int;
            let done = outcome(path, content, seq![edit], blocks);
            let text = match edit.anchor {
                Anchor::Replace(_) => body.take(at) + edit.new@ + body.skip(at + n),
                Anchor::After(_) => body.take(at + n) + edit.new@ + body.skip(at + n),
                Anchor::Before(_) => body.take(at) + edit.new@ + body.skip(at),
            };
            &&& done is Ok <==> mark(content) + text != content
            &&& done is Ok ==> done->Ok_0.content == mark(content) + text
        }),
{
    let body = body_of(content);
    let text = edit.anchor.words();
    let n = text.len() as int;
    lemma_no_crlf(body);
    lemma_found_as_written(body, text);
    lemma_all_found(body, text);
    let all = occurrences(body, text, 0);
    lemma_resolved_at(path, body, edit, 0, blocks);
    if all.len() > 1 {
        assert(all[0] + n <= all[1]);
        assert(shows_at(body, text, all[0]) && shows_at(body, text, all[1]));
    }
    assert(shows_at(body, text, all[0]));
    let places = resolved(path, body, edit, 0, blocks)->Ok_0;
    let p = places[0];
    assert(p == place(0, edit.anchor, (at, at + n), edit.new@));
    assert(places =~= seq![p]);
    lemma_single(path, content, edit, blocks, p);
}

/// An anchor that stands at two places apart is refused, unless it is meant for
/// all of them.
pub proof fn law_an_anchor_for_one_place_is_refused_for_two<B: Blocks>(
    path: Seq<char>,
    body: Seq<char>,
    edit: Edit,
    index: int,
    i: int,
    j: int,
    blocks: &B,
)
    requires
        !edit.whole_block,
        !edit.replace_all,
        edit.anchor.words().len() > 0,
        edit.anchor is Replace || edit.new@.len() > 0,
        shows_at(body, edit.anchor.words(), i),
        shows_at(body, edit.anchor.words(), j),
        i + edit.anchor.words().len() <= j,
    ensures
        resolved(path, body, edit, index, blocks) is Err,
        resolved(path, body, edit, index, blocks)->Err_0 is Ambiguous,
        resolved(path, body, edit, index, blocks)->Err_0->Ambiguous_n >= 2,
{
    let text = edit.anchor.words();
    let at = occurrences(body, text, 0);
    let n = text.len() as int;
    lemma_resolved_at(path, body, edit, index, blocks);
    lemma_met(body, text, 0, i);
    lemma_met(body, text, 0, j);
    reveal(meets);
    let a = choose|k: int| 0 <= k < at.len() && #[trigger] at[k] <= i < at[k] + n;
    let b = choose|k: int| 0 <= k < at.len() && #[trigger] at[k] <= j < at[k] + n;
    assert(a != b);
}

/// An anchor that stands nowhere is refused, and so is an empty one and an
/// insertion of nothing.
pub proof fn law_an_anchor_that_stands_nowhere_is_refused<B: Blocks>(
    path: Seq<char>,
    body: Seq<char>,
    edit: Edit,
    index: int,
    blocks: &B,
)
    ensures
        edit.anchor.words().len() == 0 ==> resolved(path, body, edit, index, blocks)
            == Err::<Seq<Place>, RefusalView>(RefusalView::EmptyAnchor { path, index }),
        edit.anchor.words().len() > 0 && !(edit.anchor is Replace) && edit.new@.len() == 0
            ==> resolved(path, body, edit, index, blocks) == Err::<Seq<Place>, RefusalView>(
            RefusalView::EmptyInsert { path, index },
        ),
        edit.anchor.words().len() > 0 && (edit.anchor is Replace || edit.new@.len() > 0)
            && !edit.whole_block && !shows(body, edit.anchor.words()) && no_returns(body)
            && !edit.anchor.words().contains(':') ==> resolved(path, body, edit, index, blocks) is Err
            && resolved(path, body, edit, index, blocks)->Err_0 is NoMatch,
{
    let text = edit.anchor.words();
    if text.len() > 0 && !shows(body, text) && no_returns(body) && !text.contains(':') {
        lemma_no_crlf(body);
        lemma_all_found(body, text);
        let at = occurrences(body, text, 0);
        if at.len() > 0 {
            assert(shows_at(body, text, at[0]));
        }
        lemma_no_address(text);
        lemma_trim_start(text);
        let cut = trim_start(text);
        assert(!cut.contains(':')) by {
            if cut.contains(':') {
                let k = choose|k: int| 0 <= k < cut.len() && cut[k] == ':';
                assert(text[text.len() - cut.len() + k] == ':');
            }
        }
        lemma_no_address(cut);
        assert(spellings(text, false) =~= seq![text]);
        assert(seq![text].skip(1) =~= Seq::empty());
        assert(first_spans(body, seq![text].skip(1)) =~= Seq::empty());
        assert(found(body, text).len() == 0);
    }
}

proof fn lemma_no_address(text: Seq<char>)
    requires
        !text.contains(':'),
    ensures
        past_address(text) is None,
{
    lemma_index_of(text, ':');
    let n = index_of(text, ':');
    if n < text.len() {
        assert(text[n] == ':');
    }
}

// ---------------------------------------------------------------------------
// What is told of an edit
// ---------------------------------------------------------------------------

/// The rows a report names are those the text of the landing stands on in the
/// result: from the row it starts on, one for each of its lines; none for no
/// text. What it took is the rows of the file its characters were on.
pub proof fn law_a_report_counts_the_rows(body: Seq<char>, placed: Seq<Place>, k: int)
    requires
        0 <= k < placed.len(),
        breaks(written(body, placed, k + 1)) < usize::MAX,
    ensures
        ({
            let r = reported(body, placed, k);
            let text = placed[k].text;
            let before = written(body, placed, k) + gap(body, placed, k);
            &&& r.start == breaks(before) + 1
            &&& text.len() == 0 ==> r.end == r.start - 1
            &&& closed(text) ==> r.end == r.start + breaks(text) - 1
            &&& text.len() > 0 && !closed(text) ==> r.end == r.start + breaks(text)
            &&& placed[k].start == placed[k].end ==> r.took.len() == 0
        }),
{
    let before = written(body, placed, k) + gap(body, placed, k);
    let text = placed[k].text;
    assert(written(body, placed, k + 1) == before + text);
    lemma_breaks_concat(before, text);
    if text.len() == 0 {
        assert(breaks(text) == 0);
    }
}

/// An edit that takes all of a line but not its break leaves a blank line, and
/// says so; any other does not.
pub proof fn law_a_line_left_blank_is_told<B: Blocks>(
    path: Seq<char>,
    content: Seq<char>,
    edit: Edit,
    at: int,
    blocks: &B,
)
    requires
        !edit.whole_block,
        edit.anchor.words().len() > 0,
        edit.anchor is Replace || edit.new@.len() > 0,
        no_returns(body_of(content)),
        shows_at(body_of(content), edit.anchor.words(), at),
        forall|i: int| #[trigger] shows_at(body_of(content), edit.anchor.words(), i) ==> i == at,
        outcome(path, content, seq![edit], blocks) is Ok,
    ensures
        ({
            let body = body_of(content);
            let n = edit.anchor.words().len() as int;
            let whole = (at == 0 || body[at - 1] == '\n') && at + n < body.len() && body[at + n]
                == '\n' && body[at + n - 1] != '\n';
            let told = outcome(path, content, seq![edit], blocks)->Ok_0.left_blank;
            &&& edit.new@.len() == 0 && whole ==> told == seq![0int]
            &&& edit.new@.len() > 0 || !whole ==> told.len() == 0
        }),
{
    let body = body_of(content);
    let text = edit.anchor.words();
    let n = text.len() as int;
    lemma_no_crlf(body);
    lemma_all_found(body, text);
    lemma_found_as_written(body, text);
    let all = occurrences(body, text, 0);
    lemma_resolved_at(path, body, edit, 0, blocks);
    if all.len() > 1 {
        assert(all[0] + n <= all[1]);
        assert(shows_at(body, text, all[0]) && shows_at(body, text, all[1]));
    }
    assert(shows_at(body, text, all[0]));
    let places = resolved(path, body, edit, 0, blocks)->Ok_0;
    let p = places[0];
    assert(p == place(0, edit.anchor, (at, at + n), edit.new@));
    assert(places =~= seq![p]);
    lemma_single(path, content, edit, blocks, p);
    lemma_left_blank(body, p);
    let region = body.subrange(at, at + n);
    lemma_closed(region);
    assert(region[n - 1] == body[at + n - 1]);
}

proof fn lemma_left_blank(body: Seq<char>, p: Place)
    requires
        0 <= p.start <= p.end <= body.len(),
        no_returns(body),
        p.index == 0,
    ensures
        ({
            let empty = p.text.len() == 0 && p.start < p.end && !ends(
                body.subrange(p.start, p.end),
                seq!['\n'],
            ) && p.end < body.len() && body[p.end] == '\n' && (p.start == 0 || body[p.start - 1]
                == '\n');
            blanked(body, seq![p], 1) == if empty {
                seq![0int]
            } else {
                Seq::empty()
            }
        }),
{
    let placed = seq![p];
    assert(written(body, placed, 0) =~= Seq::empty());
    assert(gap(body, placed, 0) =~= body.take(p.start));
    assert(written(body, placed, 1) =~= body.take(p.start) + p.text);
    assert(rewritten(body, placed) =~= body.take(p.start) + p.text + body.skip(p.end));
    assert(behind(body, placed, 1) =~= body.skip(p.end));
    assert(blanked(body, placed, 0) =~= Seq::empty());
    let rest = body.skip(p.end);
    if rest.len() > 0 {
        assert(rest[0] == body[p.end]);
        assert(rest[0] != '\r');
        assert(rest.take(1) =~= seq![rest[0]]);
        if rest.len() > 1 {
            assert(rest.take(2)[0] == rest[0]);
        }
        assert(!starts(rest, crlf())) by {
            if starts(rest, crlf()) {
                assert(rest.take(2)[0] == '\r');
            }
        }
    }
    if p.text.len() == 0 {
        assert(written(body, placed, 1) =~= body.take(p.start));
        if p.start > 0 {
            assert(body.take(p.start).last() == body[p.start - 1]);
        }
    }
    assert(blanked(body, placed, 1) =~= if empties(body, placed, 0) {
        seq![0int]
    } else {
        Seq::empty()
    });
}

// ---------------------------------------------------------------------------
// Line breaks
// ---------------------------------------------------------------------------

/// Whether every line feed of a text has a carriage return in front.
pub open spec fn all_returned(s: Seq<char>) -> bool {
    forall|i: int| 0 <= i < s.len() && #[trigger] s[i] == '\n' ==> i > 0 && s[i - 1] == '\r'
}

proof fn lemma_join_returned(parts: Seq<Seq<char>>)
    requires
        rows_only(parts),
    ensures
        all_returned(join(parts, crlf())),
        all_returned(join(parts, crlf()) + crlf()),
    decreases parts.len(),
{
    let all = join(parts, crlf());
    if parts.len() > 0 {
        let last = parts.last();
        assert forall|i: int| 0 <= i < last.len() implies last[i] != '\n' by {
            assert(parts[parts.len() - 1][i] != '\n');
        }
        if parts.len() > 1 {
            let less = parts.drop_last();
            assert(rows_only(less)) by {
                assert forall|k: int, i: int|
                    0 <= k < less.len() && 0 <= i < less[k].len() implies #[trigger] less[k][i]
                    != '\n' by {
                    assert(parts[k][i] != '\n');
                }
                assert forall|k: int|
                    0 <= k < less.len() && (#[trigger] less[k]).len() > 0 implies less[k].last()
                    != '\r' by {
                    assert(parts[k].len() > 0);
                }
            }
            lemma_join_returned(less);
            let front = join(less, crlf()) + crlf();
            assert(all =~= front + last);
            assert forall|i: int| 0 <= i < all.len() && #[trigger] all[i] == '\n' implies i > 0
                && all[i - 1] == '\r' by {
                if i < front.len() {
                    assert(front[i] == '\n');
                    assert(front[i - 1] == all[i - 1]);
                } else {
                    assert(all[i] == last[i - front.len()]);
                }
            }
        } else {
            assert forall|i: int| 0 <= i < all.len() && #[trigger] all[i] == '\n' implies i > 0
                && all[i - 1] == '\r' by {
                assert(all[i] == last[i]);
            }
        }
    }
    let closed_up = all + crlf();
    assert forall|i: int| 0 <= i < closed_up.len() && #[trigger] closed_up[i] == '\n' implies i > 0
        && closed_up[i - 1] == '\r' by {
        if i < all.len() {
            assert(all[i] == '\n');
            assert(all[i - 1] == closed_up[i - 1]);
        }
    }
}

/// A block's new text breaks its lines as the block did, and as the file does
/// where the block had no break: all with `\r\n`, or all without.
pub proof fn law_a_block_breaks_as_it_did<B: Blocks>(
    path: Seq<char>,
    body: Seq<char>,
    edit: Edit,
    index: int,
    blocks: &B,
)
    requires
        edit.whole_block,
        edit.anchor is Replace,
        plain_returns(edit.new@),
        resolved(path, body, edit, index, blocks) is Ok,
    ensures
        ({
            let p = resolved(path, body, edit, index, blocks)->Ok_0[0];
            let region = body.subrange(p.start, p.end);
            let like = if region.contains('\n') {
                region
            } else {
                body
            };
            &&& shows(like, seq!['\r', '\n']) ==> all_returned(p.text)
            &&& no_returns(like) ==> no_returns(p.text)
        }),
{
    let p = resolved(path, body, edit, index, blocks)->Ok_0[0];
    let region = body.subrange(p.start, p.end);
    let like = if region.contains('\n') {
        region
    } else {
        body
    };
    let new = edit.new@;
    let plain = lf_form(new);
    lemma_lf_form(new);
    lemma_shows(like, crlf());
    assert(crlf() =~= seq!['\r', '\n']);
    assert(region_crlf(region, body) == has_crlf(like));
    let term = ending(has_crlf(like));
    assert(p.text == spliced(region, new, term));
    if no_returns(like) {
        lemma_no_crlf(like);
    }
    if plain.len() > 0 {
        let pieces = split(plain, '\n');
        lemma_split_some(plain, '\n');
        lemma_split_join(plain);
        lemma_split_parts(plain);
        lemma_last_piece(plain);
        lemma_closed(plain);
        let parts = if closed(plain) {
            pieces.drop_last()
        } else {
            pieces
        };
        assert(rows_only(parts)) by {
            assert forall|k: int, i: int|
                0 <= k < parts.len() && 0 <= i < parts[k].len() implies #[trigger] parts[k][i]
                != '\n' by {
                assert(pieces[k][i] != '\n');
            }
            assert forall|k: int|
                0 <= k < parts.len() && (#[trigger] parts[k]).len() > 0 implies parts[k].last()
                != '\r' by {
                assert(pieces[k].len() > 0);
            }
        }
        lemma_join_returned(parts);
        let lf = seq!['\n'];
        if closed(plain) {
            assert(pieces.last() =~= Seq::empty());
            assert(join(pieces, lf) =~= join(parts, lf) + lf);
        }
        assert(no_returns(join(parts, lf))) by {
            let j = join(parts, lf);
            assert forall|i: int| 0 <= i < j.len() implies #[trigger] j[i] != '\r' by {
                assert(j[i] == plain[i]);
            }
        }
        assert(no_returns(join(parts, lf) + lf));
    }
}

/// Text put anywhere else breaks its lines as the file does: with `\r\n` alone in
/// a file that has any.
pub proof fn law_new_text_breaks_as_the_file_does<B: Blocks>(
    path: Seq<char>,
    body: Seq<char>,
    edit: Edit,
    index: int,
    k: int,
    blocks: &B,
)
    requires
        !edit.whole_block,
        shows(body, seq!['\r', '\n']),
        resolved(path, body, edit, index, blocks) is Ok,
        0 <= k < resolved(path, body, edit, index, blocks)->Ok_0.len(),
    ensures
        all_returned(resolved(path, body, edit, index, blocks)->Ok_0[k].text),
{
    lemma_shows(body, crlf());
    assert(crlf() =~= seq!['\r', '\n']);
    law_line_endings_never_mix(edit.new@);
}

// ---------------------------------------------------------------------------
// Copied line numbers
// ---------------------------------------------------------------------------

/// Whether a text is digits alone.
pub open spec fn all_digits(s: Seq<char>) -> bool {
    s.len() > 0 && forall|i: int| 0 <= i < s.len() ==> '0' <= #[trigger] s[i] <= '9'
}

proof fn lemma_address(head: Seq<char>)
    requires
        all_digits(head),
    ensures
        is_address(head),
        forall|i: int| 0 <= i < head.len() ==> #[trigger] head[i] != ':' && head[i] != '-',
{
    assert forall|i: int| 0 <= i < head.len() implies #[trigger] head[i] != ':' && head[i] != '-' by {
        assert('0' <= head[i] <= '9');
    }
    lemma_index_of_is(head, '-', head.len() as int);
    assert(split(head, '-') =~= seq![head]);
    assert forall|j: int| 0 <= j < head.len() implies is_digit(#[trigger] head[j]) by {
        assert('0' <= head[j] <= '9');
    }
}

/// A text that was copied with its line number is looked for without it, where it
/// does not stand with it; a block is named without it in any case.
pub proof fn law_a_copied_line_number_is_dropped(
    body: Seq<char>,
    number: Seq<char>,
    rest: Seq<char>,
)
    requires
        all_digits(number),
        !blank(rest),
        no_returns(body),
    ensures
        !shows(body, number + seq![':'] + rest) && shows(body, rest) ==> found(
            body,
            number + seq![':'] + rest,
        ) == spans(body, rest),
        shows(body, number + seq![':'] + rest) ==> found(body, number + seq![':'] + rest) == spans(
            body,
            number + seq![':'] + rest,
        ),
        block_needle(number + seq![':'] + rest) == trim(rest),
{
    let text = number + seq![':'] + rest;
    let n = number.len() as int;
    lemma_address(number);
    assert(text[n] == ':');
    assert forall|i: int| 0 <= i < n implies text[i] != ':' by {
        assert(text[i] == number[i]);
    }
    lemma_index_of_is(text, ':', n);
    assert(text.take(n) =~= number);
    assert(text.skip(n + 1) =~= rest);
    assert(past_address(text) == Some(rest));
    assert(without_address(text) == Some(rest));
    lemma_no_crlf(body);
    let tried = spellings(text, false);
    assert(rest != text) by {
        assert(rest.len() < text.len());
    }
    assert(tried =~= seq![text, rest]);
    if shows(body, text) {
        lemma_found_as_written(body, text);
    } else {
        lemma_all_found(body, text);
        let at = occurrences(body, text, 0);
        if at.len() > 0 {
            assert(shows_at(body, text, at[0]));
        }
        assert(spans(body, text).len() == 0);
        assert(tried.skip(1) =~= seq![rest]);
        if shows(body, rest) {
            let i = choose|i: int| #[trigger] shows_at(body, rest, i);
            if rest.len() == 0 {
                assert(blank(rest));
            }
            lemma_met(body, rest, 0, i);
            reveal(meets);
            assert(spans(body, rest).len() > 0);
            assert(first_spans(body, seq![rest]) == spans(body, rest));
        }
    }
}

/// A block whose name was given without a line number is looked for by it, white
/// around it aside.
pub proof fn law_a_block_is_named_by_its_opening(text: Seq<char>)
    requires
        !text.contains(':'),
    ensures
        block_needle(text) == trim(trim(text)),
{
    lemma_no_address(text);
    lemma_trim_start(text);
    let cut = trim_start(text);
    assert(!cut.contains(':')) by {
        if cut.contains(':') {
            let k = choose|k: int| 0 <= k < cut.len() && cut[k] == ':';
            assert(text[text.len() - cut.len() + k] == ':');
        }
    }
    lemma_no_address(cut);
}

} // verus!
