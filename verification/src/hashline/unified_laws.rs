//! What a patch shows of a change, stated on the rows it shows.

use crate::hashline::landing::LandedView;
use crate::hashline::plan::ChangeView;
use crate::hashline::unified::{
    change_end, changed, context_after, context_before, file_patch, given, hunk, hunk_fits,
    hunks_upto, shown_upto, signed,
};
use crate::text::{decimal, lines};
use vstd::prelude::*;

verus! {

/// Rows, each with a sign in front and a break behind.
pub open spec fn with_sign(rows: Seq<Seq<char>>, sign: char) -> Seq<char>
    decreases rows.len(),
{
    if rows.len() == 0 {
        Seq::empty()
    } else {
        seq![sign] + rows[0] + seq!['\n'] + with_sign(rows.skip(1), sign)
    }
}

proof fn lemma_with_sign(rows: Seq<Seq<char>>, sign: char)
    ensures
        signed(rows, sign) == with_sign(rows, sign),
    decreases rows.len(),
{
    if rows.len() > 0 {
        lemma_with_sign_last(rows, sign);
        lemma_with_sign(rows.drop_last(), sign);
        assert(signed(rows, sign) =~= with_sign(rows, sign));
    }
}

proof fn lemma_with_sign_last(rows: Seq<Seq<char>>, sign: char)
    requires
        rows.len() > 0,
    ensures
        with_sign(rows, sign) == with_sign(rows.drop_last(), sign) + (seq![sign] + rows.last()
            + seq!['\n']),
    decreases rows.len(),
{
    let last = seq![sign] + rows.last() + seq!['\n'];
    if rows.len() > 1 {
        let rest = rows.skip(1);
        lemma_with_sign_last(rest, sign);
        assert(rest.drop_last() =~= rows.drop_last().skip(1));
        assert(rest.last() == rows.last());
        assert(with_sign(rows, sign) =~= with_sign(rows.drop_last(), sign) + last);
    } else {
        assert(rows.skip(1) =~= Seq::empty());
        assert(rows.drop_last() =~= Seq::empty());
        assert(with_sign(rows.skip(1), sign) =~= Seq::empty());
        assert(with_sign(rows.drop_last(), sign) =~= Seq::empty());
        assert(with_sign(rows, sign) =~= with_sign(rows.drop_last(), sign) + last);
    }
}

/// The first row of the file that change `i` may not show below it: where the
/// next change starts, or where the file ends.
pub open spec fn bottom(hunks: Seq<LandedView>, i: int, old_len: int) -> int {
    if i + 1 < hunks.len() {
        hunks[i + 1].took_at - 1
    } else {
        old_len
    }
}

/// Whether `post` rows are shown below change `i`: three, or all there are
/// before the next change.
pub open spec fn shows_below(hunks: Seq<LandedView>, i: int, old_len: int, post: int) -> bool {
    let end = hunks[i].took_at - 1 + hunks[i].took.len();
    &&& 0 <= post <= 3
    &&& end + post <= bottom(hunks, i, old_len)
    &&& post == 3 || end + post == bottom(hunks, i, old_len)
}

/// Whether `pre` rows are shown above change `i`: three, or all there are that
/// the change above does not show.
pub open spec fn shows_above(hunks: Seq<LandedView>, i: int, old_len: int, pre: int) -> bool {
    let first = hunks[i].took_at - 1;
    &&& 0 <= pre <= 3
    &&& i == 0 ==> pre <= first && (pre == 3 || pre == first)
    &&& i > 0 ==> exists|post: int|
        {
            let floor = hunks[i - 1].took_at - 1 + hunks[i - 1].took.len() + post;
            &&& #[trigger] shows_below(hunks, i - 1, old_len, post)
            &&& floor <= first - pre
            &&& pre == 3 || floor == first - pre
        }
}

/// Whether changes are rows of the old file and of the new one, in order and
/// apart.
pub open spec fn in_order(
    hunks: Seq<LandedView>,
    old: Seq<Seq<char>>,
    new: Seq<Seq<char>>,
) -> bool {
    &&& forall|i: int| 0 <= i < hunks.len() ==> hunk_fits(#[trigger] hunks[i], old.len() as int)
    &&& forall|i: int|
        0 <= i < hunks.len() ==> 1 <= (#[trigger] hunks[i]).start <= hunks[i].end + 1
            && hunks[i].end <= new.len()
    &&& forall|i: int, j: int|
        0 <= i < j < hunks.len() ==> change_end(#[trigger] hunks[i]) <= (#[trigger] hunks[j]).took_at - 1
}

/// The numbers a hunk opens with.
pub open spec fn opening(a: int, b: int, c: int, d: int) -> Seq<char> {
    "@@ -"@ + decimal(a as nat) + ","@ + decimal(b as nat) + " +"@ + decimal(c as nat) + ","@
        + decimal(d as nat) + " @@\n"@
}

/// A hunk shows up to three rows on either side of a change, each row of the
/// file in one hunk at most, what the change took and what it put in its place;
/// and its numbers count them: the rows of the old file it starts on and spans,
/// and those of the new one.
pub proof fn law_a_hunk_shows_the_change_and_three_rows_around(
    hunks: Seq<LandedView>,
    i: int,
    old: Seq<Seq<char>>,
    new: Seq<Seq<char>>,
)
    requires
        0 <= i < hunks.len(),
        in_order(hunks, old, new),
    ensures
        exists|pre: int, post: int|
            {
                let l = hunks[i];
                let first = l.took_at - 1;
                let end = first + l.took.len();
                let put = new.subrange(l.start - 1, l.end);
                let b = pre + l.took.len() + post;
                let d = pre + put.len() + post;
                let c = if l.start > pre {
                    l.start - pre
                } else {
                    1
                };
                &&& #[trigger] shows_above(hunks, i, old.len() as int, pre)
                &&& #[trigger] shows_below(hunks, i, old.len() as int, post)
                &&& hunk(hunks, i, old, new) == opening(
                    if b == 0 {
                        first - pre
                    } else {
                        first - pre + 1
                    },
                    b,
                    if d == 0 {
                        c - 1
                    } else {
                        c
                    },
                    d,
                ) + with_sign(old.subrange(first - pre, first), ' ') + with_sign(l.took, '-')
                    + with_sign(put, '+') + with_sign(old.subrange(end, end + post), ' ')
            },
{
    let n = old.len() as int;
    let l = hunks[i];
    let pre = context_before(l, shown_upto(hunks, i, n));
    let post = context_after(hunks, i, n);
    assert(hunk_fits(l, n));
    assert forall|k: int| 0 <= k < hunks.len() implies shows_below(
        hunks,
        k,
        n,
        #[trigger] context_after(hunks, k, n),
    ) by {
        assert(hunk_fits(hunks[k], n));
        if k + 1 < hunks.len() {
            assert(change_end(hunks[k]) <= hunks[k + 1].took_at - 1);
            assert(hunk_fits(hunks[k + 1], n));
        }
    }
    assert(shows_below(hunks, i, n, post));
    assert(shows_above(hunks, i, n, pre)) by {
        if i > 0 {
            let p = context_after(hunks, i - 1, n);
            assert(shows_below(hunks, i - 1, n, p));
            assert(shown_upto(hunks, i, n) == change_end(hunks[i - 1]) + p);
        }
    }
    let put = new.subrange(l.start - 1, l.end);
    assert(given(l, new) == put);
    lemma_with_sign(old.subrange(l.took_at - 1 - pre, l.took_at - 1), ' ');
    lemma_with_sign(l.took, '-');
    lemma_with_sign(put, '+');
    let end = change_end(l);
    lemma_with_sign(old.subrange(end, end + post), ' ');
    assert(l.took_at - pre - 1 == l.took_at - 1 - pre);
}

/// The changes a patch shows are those that put other rows in the place of what
/// they took: each of them, in order, and no other.
pub proof fn law_a_patch_shows_what_changed(landed: Seq<LandedView>, new: Seq<Seq<char>>)
    ensures
        forall|l: LandedView| #[trigger]
            changed(landed, new).contains(l) <==> landed.contains(l) && l.took != given(l, new),
        changed(landed, new).len() <= landed.len(),
        (forall|k: int| 0 <= k < landed.len() ==> (#[trigger] landed[k]).took != given(landed[k], new))
            ==> changed(landed, new) == landed,
    decreases landed.len(),
{
    let all = changed(landed, new);
    if landed.len() > 0 {
        let less = landed.drop_last();
        let before = changed(less, new);
        law_a_patch_shows_what_changed(less, new);
        assert forall|l: LandedView| #[trigger]
            all.contains(l) <==> landed.contains(l) && l.took != given(l, new) by {
            if all.contains(l) {
                let i = choose|i: int| 0 <= i < all.len() && all[i] == l;
                if i < before.len() {
                    assert(before[i] == l);
                    assert(before.contains(l));
                    let k = choose|k: int| 0 <= k < less.len() && less[k] == l;
                    assert(landed[k] == l);
                } else {
                    assert(landed[landed.len() - 1] == l);
                }
            }
            if landed.contains(l) && l.took != given(l, new) {
                let k = choose|k: int| 0 <= k < landed.len() && landed[k] == l;
                if k < less.len() {
                    assert(less[k] == l);
                    assert(before.contains(l));
                    let i = choose|i: int| 0 <= i < before.len() && before[i] == l;
                    assert(all[i] == l);
                } else {
                    assert(all[all.len() - 1] == l);
                }
            }
        }
        if forall|k: int|
            0 <= k < landed.len() ==> (#[trigger] landed[k]).took != given(landed[k], new) {
            assert forall|k: int| 0 <= k < less.len() implies (#[trigger] less[k]).took != given(
                less[k],
                new,
            ) by {
                assert(landed[k].took != given(landed[k], new));
            }
            assert(landed[landed.len() - 1].took != given(landed[landed.len() - 1], new));
            assert(all =~= landed);
        }
    } else {
        assert(all =~= landed);
    }
}

/// A file nothing changed in has no patch; any other opens with its two names.
pub proof fn law_a_file_without_changes_has_no_patch(c: ChangeView, before: Seq<char>)
    ensures
        ({
            let hunks = changed(c.landed, lines(c.content));
            let patch = file_patch(c, before);
            let names = "--- a/"@ + c.path + "\n+++ b/"@ + c.path + "\n"@;
            &&& hunks.len() == 0 ==> patch.len() == 0
            &&& hunks.len() > 0 ==> patch == names + hunks_upto(
                hunks,
                hunks.len() as int,
                lines(before),
                lines(c.content),
            )
        }),
{
}

} // verus!
