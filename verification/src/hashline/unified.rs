//! A plan as a standard unified patch, for readers that understand one.

use crate::hashline::apply::{
    changes_view, files_view, landed_view, lemma_file_rows, Change, Landed,
};
use crate::hashline::landing::LandedView;
use crate::hashline::plan::{file_at, held_rows, ChangeView};
use crate::hashline::stacking::{gap_kept, hunk_stands, made_of, old_upto, told, traces};
use crate::text::{
    append_number, chars_of, decimal, lines, lines_of, rows, same, string_of, texts,
};
use vstd::prelude::*;
use vstd::string::*;

verus! {

/// Rows of context around a hunk, at most.
pub const CONTEXT: usize = 3;

/// The smaller of two numbers.
pub open spec fn least(a: int, b: int) -> int {
    if a <= b {
        a
    } else {
        b
    }
}

/// `a - b`, at least 0.
pub open spec fn less(a: int, b: int) -> int {
    if a >= b {
        a - b
    } else {
        0
    }
}

/// The rows a hunk put in the new file.
pub open spec fn given(l: LandedView, new: Seq<Seq<char>>) -> Seq<Seq<char>> {
    let from = less(l.start, 1);
    if from <= l.end <= new.len() {
        new.subrange(from, l.end)
    } else {
        Seq::empty()
    }
}

/// The hunks that changed anything: what they took is not what they gave.
pub open spec fn changed(landed: Seq<LandedView>, new: Seq<Seq<char>>) -> Seq<LandedView>
    decreases landed.len(),
{
    if landed.len() == 0 {
        Seq::empty()
    } else {
        let rest = changed(landed.drop_last(), new);
        if landed.last().took != given(landed.last(), new) {
            rest.push(landed.last())
        } else {
            rest
        }
    }
}

/// One past the last old row a hunk took.
pub open spec fn change_end(l: LandedView) -> int {
    l.took_at - 1 + l.took.len()
}

/// How many rows of context stand before a hunk.
pub open spec fn context_before(l: LandedView, shown: int) -> int {
    least(CONTEXT as int, less(l.took_at, shown + 1))
}

/// How many rows of context stand after hunk `i`.
pub open spec fn context_after(hunks: Seq<LandedView>, i: int, old_len: int) -> int {
    let end = change_end(hunks[i]);
    let room = least(CONTEXT as int, less(old_len, end));
    if i + 1 < hunks.len() {
        least(room, less(hunks[i + 1].took_at - 1, end))
    } else {
        room
    }
}

/// How many old rows stand shown once the hunks before `i` are written.
pub open spec fn shown_upto(hunks: Seq<LandedView>, i: int, old_len: int) -> int {
    if i <= 0 {
        0
    } else {
        change_end(hunks[i - 1]) + context_after(hunks, i - 1, old_len)
    }
}

/// Rows, each behind `sign` and closed by a line feed.
pub open spec fn signed(rows: Seq<Seq<char>>, sign: char) -> Seq<char>
    decreases rows.len(),
{
    if rows.len() == 0 {
        Seq::empty()
    } else {
        signed(rows.drop_last(), sign) + seq![sign] + rows.last() + seq!['\n']
    }
}

/// Where a range of `len` rows from `start` on is said to be.
pub open spec fn range_at(start: int, len: int) -> int {
    if len == 0 {
        less(start, 1)
    } else {
        start
    }
}

/// The line that says where a hunk stands: its rows before, and after.
pub open spec fn hunk_line(old_at: int, old_len: int, new_at: int, new_len: int) -> Seq<char> {
    "@@ -"@ + decimal(old_at as nat) + ","@ + decimal(old_len as nat) + " +"@ + decimal(
        new_at as nat,
    ) + ","@ + decimal(new_len as nat) + " @@\n"@
}

/// One hunk of the patch.
pub open spec fn hunk(
    hunks: Seq<LandedView>,
    i: int,
    old: Seq<Seq<char>>,
    new: Seq<Seq<char>>,
) -> Seq<char> {
    let l = hunks[i];
    let pre = context_before(l, shown_upto(hunks, i, old.len() as int));
    let post = context_after(hunks, i, old.len() as int);
    let end = change_end(l);
    let gave = less(l.end + 1, l.start);
    let old_len = pre + l.took.len() + post;
    let new_len = pre + gave + post;
    let new_start = if less(l.start, pre) >= 1 {
        less(l.start, pre)
    } else {
        1
    };
    hunk_line(
        range_at(l.took_at - pre, old_len as int),
        old_len as int,
        range_at(new_start, new_len),
        new_len,
    ) + signed(old.subrange(l.took_at - 1 - pre, l.took_at - 1), ' ') + signed(l.took, '-')
        + signed(given(l, new), '+') + signed(old.subrange(end, end + post), ' ')
}

/// The first `n` hunks, one after another.
pub open spec fn hunks_upto(
    hunks: Seq<LandedView>,
    n: int,
    old: Seq<Seq<char>>,
    new: Seq<Seq<char>>,
) -> Seq<char>
    decreases n,
{
    if n <= 0 {
        Seq::empty()
    } else {
        hunks_upto(hunks, n - 1, old, new) + hunk(hunks, n - 1, old, new)
    }
}

/// What the patch says of one file.
pub open spec fn file_patch(c: ChangeView, before: Seq<char>) -> Seq<char> {
    let old = lines(before);
    let new = lines(c.content);
    let hunks = changed(c.landed, new);
    if hunks.len() == 0 {
        Seq::empty()
    } else {
        "--- a/"@ + c.path + "\n+++ b/"@ + c.path + "\n"@ + hunks_upto(
            hunks,
            hunks.len() as int,
            old,
            new,
        )
    }
}

/// What a file held before; nothing where it was not handed over.
pub open spec fn prior(files: Seq<(Seq<char>, Seq<char>)>, path: Seq<char>) -> Seq<char> {
    match file_at(files, path) {
        Some(c) => c,
        None => Seq::empty(),
    }
}

/// The patch of the first `n` changes.
pub open spec fn patch_upto(
    changes: Seq<ChangeView>,
    n: int,
    files: Seq<(Seq<char>, Seq<char>)>,
) -> Seq<char>
    decreases n,
{
    if n <= 0 {
        Seq::empty()
    } else {
        patch_upto(changes, n - 1, files) + file_patch(
            changes[n - 1],
            prior(files, changes[n - 1].path),
        )
    }
}

/// Whether a hunk took rows of a file of `old_len` rows, and its numbers fit.
pub open spec fn hunk_fits(l: LandedView, old_len: int) -> bool {
    1 <= l.took_at && change_end(l) <= old_len && l.end + 7 <= usize::MAX
}

/// Whether every hunk of a change took rows of what its file held before.
pub open spec fn showable(c: ChangeView, files: Seq<(Seq<char>, Seq<char>)>) -> bool {
    let hunks = changed(c.landed, lines(c.content));
    forall|i: int|
        0 <= i < hunks.len() ==> hunk_fits(
            #[trigger] hunks[i],
            lines(prior(files, c.path)).len() as int,
        )
}

// ---------------------------------------------------------------------------
// Writing it
// ---------------------------------------------------------------------------

fn put_row(out: &mut String, sign: char, row: &str)
    ensures
        final(out)@ == old(out)@ + seq![sign] + row@ + seq!['\n'],
{
    out.push(sign);
    out.append(row);
    out.push('\n');
    assert(out@ =~= old(out)@ + seq![sign] + row@ + seq!['\n']);
}

fn put_rows(out: &mut String, sign: char, all: &[Vec<char>], from: usize, to: usize)
    requires
        from <= to <= all@.len(),
    ensures
        final(out)@ == old(out)@ + signed(rows(all@).subrange(from as int, to as int), sign),
{
    let mut i: usize = from;
    let ghost start = out@;
    assert(signed(rows(all@).subrange(from as int, from as int), sign) =~= Seq::empty());
    while i < to
        invariant
            from <= i <= to <= all@.len(),
            out@ == start + signed(rows(all@).subrange(from as int, i as int), sign),
        decreases to - i,
    {
        let t = string_of(all[i].as_slice());
        let ghost before = out@;
        put_row(out, sign, t.as_str());
        i += 1;
        proof {
            let part = rows(all@).subrange(from as int, i as int);
            assert(part.drop_last() =~= rows(all@).subrange(from as int, i - 1));
            assert(part.last() == all@[i - 1]@);
            assert(out@ =~= start + signed(part, sign));
        }
    }
}

fn put_texts(out: &mut String, sign: char, all: &[String])
    ensures
        final(out)@ == old(out)@ + signed(texts(all@), sign),
{
    let mut i: usize = 0;
    let ghost start = out@;
    assert(texts(all@).take(0) =~= Seq::empty());
    assert(out@ =~= start + signed(texts(all@).take(0), sign));
    while i < all.len()
        invariant
            i <= all@.len(),
            out@ == start + signed(texts(all@).take(i as int), sign),
        decreases all@.len() - i,
    {
        put_row(out, sign, all[i].as_str());
        i += 1;
        proof {
            let part = texts(all@).take(i as int);
            assert(part.drop_last() =~= texts(all@).take(i - 1));
            assert(part.last() == all@[i - 1]@);
            assert(out@ =~= start + signed(part, sign));
        }
    }
    assert(texts(all@).take(i as int) =~= texts(all@));
}

/// Where the rows a hunk gave stand in the new file.
fn given_range(l: &Landed, new: &[Vec<char>]) -> (r: (usize, usize))
    ensures
        r.0 <= r.1 <= new@.len(),
        rows(new@).subrange(r.0 as int, r.1 as int) == given(l@, rows(new@)),
{
    let from: usize = if l.start >= 1 {
        l.start - 1
    } else {
        0
    };
    if from <= l.end && l.end <= new.len() {
        (from, l.end)
    } else {
        assert(rows(new@).subrange(0, 0) =~= Seq::empty());
        (0, 0)
    }
}

fn is_changed(l: &Landed, new: &[Vec<char>]) -> (r: bool)
    ensures
        r == (l@.took != given(l@, rows(new@))),
{
    let (from, to) = given_range(l, new);
    let ghost part = rows(new@).subrange(from as int, to as int);
    if l.took.len() != to - from {
        assert(l@.took.len() != part.len());
        return true;
    }
    let mut i: usize = 0;
    while i < l.took.len()
        invariant
            i <= l.took@.len(),
            from <= to <= new@.len(),
            l.took@.len() == to - from,
            part == rows(new@).subrange(from as int, to as int),
            part == given(l@, rows(new@)),
            forall|k: int| 0 <= k < i ==> texts(l.took@)[k] == part[k],
        decreases l.took@.len() - i,
    {
        let t = chars_of(l.took[i].as_str());
        assert(part[i as int] == new@[from + i]@);
        assert(new@.len() == new.len());
        if !same(t.as_slice(), new[from + i].as_slice()) {
            assert(texts(l.took@)[i as int] != part[i as int]);
            return true;
        }
        i += 1;
    }
    assert(texts(l.took@) =~= part);
    false
}

/// Where the hunks of `landed` that changed anything stand in it.
fn pick_changed(landed: &[Landed], new: &[Vec<char>]) -> (r: Vec<usize>)
    ensures
        r@.len() == changed(landed_view(landed@), rows(new@)).len(),
        forall|i: int|
            0 <= i < r@.len() ==> (#[trigger] r@[i]) < landed@.len() && landed@[r@[i] as int]@
                == changed(landed_view(landed@), rows(new@))[i],
{
    let mut r: Vec<usize> = Vec::new();
    let ghost v = landed_view(landed@);
    let mut i: usize = 0;
    assert(v.take(0) =~= Seq::empty());
    while i < landed.len()
        invariant
            i <= landed@.len(),
            v == landed_view(landed@),
            r@.len() == changed(v.take(i as int), rows(new@)).len(),
            forall|k: int|
                0 <= k < r@.len() ==> (#[trigger] r@[k]) < landed@.len() && landed@[r@[k] as int]@
                    == changed(v.take(i as int), rows(new@))[k],
        decreases landed@.len() - i,
    {
        assert(v.take(i + 1).drop_last() =~= v.take(i as int));
        assert(v.take(i + 1).last() == landed@[i as int]@);
        if is_changed(&landed[i], new) {
            r.push(i);
        }
        i += 1;
    }
    assert(v.take(i as int) =~= v);
    r
}

fn smaller(a: usize, b: usize) -> (r: usize)
    ensures
        r == least(a as int, b as int),
{
    if a <= b {
        a
    } else {
        b
    }
}

/// How many rows of context stand after hunk `i`.
fn rows_after(
    landed: &[Landed],
    picks: &[usize],
    i: usize,
    old_len: usize,
    Ghost(list): Ghost<Seq<LandedView>>,
) -> (post: usize)
    requires
        i < picks@.len() == list.len(),
        forall|k: int|
            0 <= k < picks@.len() ==> (#[trigger] picks@[k]) < landed@.len()
                && landed@[picks@[k] as int]@ == list[k],
        forall|k: int| 0 <= k < list.len() ==> hunk_fits(#[trigger] list[k], old_len as int),
    ensures
        post == context_after(list, i as int, old_len as int),
        post <= CONTEXT,
        change_end(list[i as int]) + post <= old_len,
{
    assert(picks@[i as int] < landed@.len());
    let l = &landed[picks[i]];
    assert(l@ == list[i as int]);
    assert(hunk_fits(list[i as int], old_len as int));
    assert(l@.took.len() == l.took@.len());
    let end: usize = l.took_at - 1 + l.took.len();
    let room: usize = smaller(CONTEXT, old_len - end);
    if i < picks.len() - 1 {
        assert(picks@[i + 1] < landed@.len());
        let n = &landed[picks[i + 1]];
        assert(n@ == list[i + 1]);
        assert(hunk_fits(list[i + 1], old_len as int));
        let next: usize = n.took_at - 1;
        smaller(
            room,
            if next > end {
                next - end
            } else {
                0
            },
        )
    } else {
        room
    }
}

/// The line that says where a hunk stands.
fn put_numbers(out: &mut String, old_at: usize, old_len: usize, new_at: usize, new_len: usize)
    ensures
        final(out)@ == old(out)@ + hunk_line(
            old_at as int,
            old_len as int,
            new_at as int,
            new_len as int,
        ),
{
    out.append("@@ -");
    append_number(out, old_at);
    out.append(",");
    append_number(out, old_len);
    out.append(" +");
    append_number(out, new_at);
    out.append(",");
    append_number(out, new_len);
    out.append(" @@\n");
    assert(out@ =~= old(out)@ + hunk_line(
        old_at as int,
        old_len as int,
        new_at as int,
        new_len as int,
    ));
}

/// Where a hunk with `pre` and `post` rows of context stands, before and after.
fn numbers(l: &Landed, pre: usize, post: usize) -> (r: (usize, usize, usize, usize))
    requires
        pre < l.took_at,
        pre <= CONTEXT,
        post <= CONTEXT,
        l.took_at - 1 + l.took@.len() + post <= usize::MAX,
        l.end + 7 <= usize::MAX,
    ensures
        ({
            let new_start = if less(l.start as int, pre as int) >= 1 {
                less(l.start as int, pre as int)
            } else {
                1
            };
            let old_len = pre + l.took@.len() + post;
            let new_len = pre + less(l.end + 1, l.start as int) + post;
            &&& r.0 == range_at(l.took_at - pre, old_len as int)
            &&& r.1 == old_len
            &&& r.2 == range_at(new_start, new_len)
            &&& r.3 == new_len
        }),
{
    let gave = l.gave();
    let old_len: usize = pre + l.took.len() + post;
    let new_len: usize = pre + gave + post;
    let old_start: usize = l.took_at - pre;
    let cut: usize = if l.start >= pre {
        l.start - pre
    } else {
        0
    };
    let new_start: usize = if cut >= 1 {
        cut
    } else {
        1
    };
    let old_at: usize = if old_len == 0 {
        old_start - 1
    } else {
        old_start
    };
    let new_at: usize = if new_len == 0 {
        new_start - 1
    } else {
        new_start
    };
    (old_at, old_len, new_at, new_len)
}

/// Write hunk `i`; `pre` and `post` are its rows of context.
fn put_hunk(
    out: &mut String,
    l: &Landed,
    pre: usize,
    post: usize,
    before: &[Vec<char>],
    after: &[Vec<char>],
    Ghost(list): Ghost<Seq<LandedView>>,
    Ghost(i): Ghost<int>,
)
    requires
        0 <= i < list.len(),
        l@ == list[i],
        hunk_fits(l@, before@.len() as int),
        pre == context_before(l@, shown_upto(list, i, before@.len() as int)),
        0 <= shown_upto(list, i, before@.len() as int),
        post == context_after(list, i, before@.len() as int),
        change_end(l@) + post <= before@.len(),
        post <= CONTEXT,
    ensures
        final(out)@ == old(out)@ + hunk(list, i, rows(before@), rows(after@)),
{
    let ghost begun = out@;
    assert(rows(before@).len() == before@.len());
    assert(before@.len() == before.len());
    assert(l@.took.len() == l.took@.len());
    let end: usize = l.took_at - 1 + l.took.len();
    let (old_at, old_len, new_at, new_len) = numbers(l, pre, post);
    put_numbers(out, old_at, old_len, new_at, new_len);
    let ghost head = hunk_line(old_at as int, old_len as int, new_at as int, new_len as int);
    let first: usize = l.took_at - 1 - pre;
    put_rows(out, ' ', before, first, l.took_at - 1);
    let ghost a = signed(rows(before@).subrange(first as int, l.took_at - 1), ' ');
    assert(out@ =~= begun + (head + a));
    put_texts(out, '-', l.took.as_slice());
    let ghost b = signed(l@.took, '-');
    assert(out@ =~= begun + (head + a + b));
    let (from, to) = given_range(l, after);
    put_rows(out, '+', after, from, to);
    let ghost c = signed(given(l@, rows(after@)), '+');
    assert(out@ =~= begun + (head + a + b + c));
    put_rows(out, ' ', before, end, end + post);
    let ghost d = signed(rows(before@).subrange(end as int, end + post), ' ');
    assert(out@ =~= begun + (head + a + b + c + d));
    assert(hunk(list, i, rows(before@), rows(after@)) == head + a + b + c + d);
}

fn hunks(out: &mut String, path: &str, old_content: &str, content: &str, landed: &[Landed])
    requires
        forall|i: int|
            0 <= i < changed(landed_view(landed@), lines(content@)).len() ==> hunk_fits(
                #[trigger] changed(landed_view(landed@), lines(content@))[i],
                lines(old_content@).len() as int,
            ),
    ensures
        final(out)@ == old(out)@ + file_patch(
            ChangeView { path: path@, content: content@, landed: landed_view(landed@) },
            old_content@,
        ),
{
    let old_chars = chars_of(old_content);
    let new_chars = chars_of(content);
    let before = lines_of(old_chars.as_slice());
    let after = lines_of(new_chars.as_slice());
    let picks = pick_changed(landed, after.as_slice());
    let ghost list = changed(landed_view(landed@), lines(content@));
    let ghost old_rows = lines(old_content@);
    let ghost new_rows = lines(content@);
    let ghost start = out@;
    if picks.len() == 0 {
        assert(start =~= start + Seq::<char>::empty());
        return;
    }
    out.append("--- a/");
    out.append(path);
    out.append("\n+++ b/");
    out.append(path);
    out.append("\n");
    let ghost head = start + ("--- a/"@ + path@ + "\n+++ b/"@ + path@ + "\n"@);
    assert(out@ =~= head);
    assert(old_rows.len() == before@.len());
    let mut shown: usize = 0;
    let mut i: usize = 0;
    assert(head + hunks_upto(list, 0, old_rows, new_rows) =~= head);
    while i < picks.len()
        invariant
            i <= picks@.len(),
            picks@.len() == list.len(),
            rows(before@) == old_rows,
            rows(after@) == new_rows,
            old_rows.len() == before@.len(),
            forall|k: int|
                0 <= k < picks@.len() ==> (#[trigger] picks@[k]) < landed@.len()
                    && landed@[picks@[k] as int]@ == list[k],
            forall|k: int| 0 <= k < list.len() ==> hunk_fits(#[trigger] list[k], before@.len() as int),
            shown == shown_upto(list, i as int, old_rows.len() as int),
            shown <= before@.len(),
            out@ == head + hunks_upto(list, i as int, old_rows, new_rows),
        decreases picks@.len() - i,
    {
        let ghost begun = out@;
        assert(picks@[i as int] < landed@.len());
        let l = &landed[picks[i]];
        assert(l@ == list[i as int]);
        assert(hunk_fits(list[i as int], before@.len() as int));
        assert(l@.took.len() == l.took@.len());
        let pre: usize = smaller(
            CONTEXT,
            if l.took_at > shown {
                l.took_at - shown - 1
            } else {
                0
            },
        );
        let post = rows_after(landed, picks.as_slice(), i, before.len(), Ghost(list));
        put_hunk(
            out,
            l,
            pre,
            post,
            before.as_slice(),
            after.as_slice(),
            Ghost(list),
            Ghost(i as int),
        );
        shown = l.took_at - 1 + l.took.len() + post;
        i += 1;
        assert(out@ =~= head + hunks_upto(list, i as int, old_rows, new_rows));
    }
    assert(out@ =~= start + file_patch(
        ChangeView { path: path@, content: content@, landed: landed_view(landed@) },
        old_content@,
    ));
}

/// Whether a change can be shown against what the files held before: every hunk
/// took rows of the file. A plan whose sections name a file twice records the
/// later ones against the content in between.
pub fn is_showable(change: &Change, before: &[(&str, &str)]) -> (r: bool)
    ensures
        r == showable(change@, files_view(before@)),
{
    let Change::Write { path, content, landed } = change;
    let held = find_prior(before, path.as_str());
    let old = lines_of(chars_of(held.as_str()).as_slice());
    let new = lines_of(chars_of(content.as_str()).as_slice());
    assert(rows(old@).len() == old@.len());
    let picked = pick_changed(landed.as_slice(), new.as_slice());
    let ghost hunks = changed(landed_view(landed@), lines(content@));
    let mut i: usize = 0;
    while i < picked.len()
        invariant
            i <= picked@.len(),
            rows(old@) == lines(held@),
            rows(old@).len() == old@.len(),
            held@ == prior(files_view(before@), change@.path),
            hunks == changed(change@.landed, lines(change@.content)),
            hunks.len() == picked@.len(),
            forall|k: int|
                0 <= k < picked@.len() ==> (#[trigger] picked@[k]) < landed@.len() && hunks[k]
                    == landed@[picked@[k] as int]@,
            forall|k: int|
                0 <= k < i ==> hunk_fits(#[trigger] hunks[k], lines(held@).len() as int),
        decreases picked@.len() - i,
    {
        let l = &landed[picked[i]];
        assert(hunks[i as int] == l@);
        assert(texts(l.took@).len() == l.took@.len());
        if l.took_at < 1 || l.took_at - 1 > old.len() || l.took.len() > old.len() - (l.took_at - 1)
            || l.end > usize::MAX - 7 {
            assert(!hunk_fits(hunks[i as int], lines(held@).len() as int));
            return false;
        }
        i += 1;
    }
    true
}

/// A standard unified patch of the changes. Built from the hunks the applier
/// already knows rather than a fresh diff: the rows taken and given are the
/// change, and a diff would only re-derive them. Rows are LF; a file's own line
/// ending is applied on write, not here.
///
/// Context lines come from the file's prior content, which the caller passes
/// in as `before`.
pub fn unified_patch(changes: &[Change], before: &[(&str, &str)]) -> (r: String)
    requires
        forall|i: int|
            0 <= i < changes@.len() ==> showable(
                (#[trigger] changes@[i])@,
                files_view(before@),
            ),
    ensures
        r@ == patch_upto(changes_view(changes@), changes@.len() as int, files_view(before@)),
{
    let mut out = String::new();
    let ghost files = files_view(before@);
    let ghost list = changes_view(changes@);
    let mut i: usize = 0;
    while i < changes.len()
        invariant
            i <= changes@.len(),
            files == files_view(before@),
            list == changes_view(changes@),
            forall|k: int|
                0 <= k < changes@.len() ==> showable((#[trigger] changes@[k])@, files),
            out@ == patch_upto(list, i as int, files),
        decreases changes@.len() - i,
    {
        assert(list[i as int] == changes@[i as int]@);
        assert(showable(changes@[i as int]@, files));
        let Change::Write { path, content, landed } = &changes[i];
        let held = find_prior(before, path.as_str());
        assert forall|k: int|
            0 <= k < changed(landed_view(landed@), lines(content@)).len() implies hunk_fits(
            #[trigger] changed(landed_view(landed@), lines(content@))[k],
            lines(held@).len() as int,
        ) by {
            let c = changes@[i as int]@;
            assert(hunk_fits(
                changed(c.landed, lines(c.content))[k],
                lines(prior(files, c.path)).len() as int,
            ));
        }
        hunks(&mut out, path.as_str(), held.as_str(), content.as_str(), landed.as_slice());
        i += 1;
    }
    out
}

fn find_prior(files: &[(&str, &str)], path: &str) -> (r: String)
    ensures
        r@ == prior(files_view(files@), path@),
{
    match crate::hashline::apply::find_file(files, path) {
        Some(c) => c,
        None => String::new(),
    }
}

/// A hunk that changed anything is one of the hunks.
proof fn lemma_changed_from(landed: Seq<LandedView>, new: Seq<Seq<char>>, i: int)
    requires
        0 <= i < changed(landed, new).len(),
    ensures
        exists|k: int| 0 <= k < landed.len() && changed(landed, new)[i] == #[trigger] landed[k],
    decreases landed.len(),
{
    let rest = landed.drop_last();
    if i < changed(rest, new).len() {
        lemma_changed_from(rest, new, i);
        let k = choose|k: int|
            0 <= k < rest.len() && changed(rest, new)[i] == #[trigger] rest[k];
        assert(landed[k] == rest[k]);
    } else {
        assert(changed(landed, new)[i] == landed[landed.len() - 1]);
    }
}

/// Every change of a plan can be shown: its hunks took rows of what its file held
/// before, however many sections stacked up to it.
pub proof fn law_a_change_of_a_plan_can_be_shown(
    c: ChangeView,
    files: Seq<(Seq<char>, Seq<char>)>,
)
    requires
        told(c, files),
        forall|k: int| 0 <= k < c.landed.len() ==> (#[trigger] c.landed[k]).end + 7 <= usize::MAX,
    ensures
        showable(c, files),
{
    let new = lines(c.content);
    let hunks = changed(c.landed, new);
    let held = held_rows(files, c.path);
    let made = choose|rows: Seq<Seq<char>>|
        made_of(c.content, rows) && #[trigger] traces(c.landed, held, rows);
    lemma_file_rows(prior(files, c.path));
    assert forall|i: int| 0 <= i < hunks.len() implies hunk_fits(
        #[trigger] hunks[i],
        lines(prior(files, c.path)).len() as int,
    ) by {
        lemma_changed_from(c.landed, new, i);
        let k = choose|k: int| 0 <= k < c.landed.len() && hunks[i] == #[trigger] c.landed[k];
        assert(hunk_stands(c.landed, k, held));
        assert(gap_kept(c.landed, k, held, made));
        assert(old_upto(c.landed, k + 1) == change_end(c.landed[k]));
    }
}

} // verus!
