//! What the menu of files offers and in which order, stated on the paths and the
//! query alone.

use crate::text::{
    bytes_len, holds, last_index_of, lemma_index_of, lemma_last_index_of, occurs_at, split, starts,
};
use crate::tui::complete::{
    at_token, depth_of, file_of, goes_first, is_delim, lemma_goes_first_total, listed, lower,
    offered, scope_of, score_of, scored, slashed, solid, text_le, token_start, EntryView, ScopeView,
    ScoredView, TOP, WALK_CAP,
};
use vstd::prelude::*;

verus! {

/// Whether `w` stands somewhere in `t`.
pub open spec fn part_of(w: Seq<char>, t: Seq<char>) -> bool {
    exists|k: int|
        #![trigger t.subrange(k, k + w.len())]
        0 <= k && k + w.len() <= t.len() && t.subrange(k, k + w.len()) == w
}

/// Whether `t` starts with `w`.
pub open spec fn opening_of(w: Seq<char>, t: Seq<char>) -> bool {
    w.len() <= t.len() && t.subrange(0, w.len() as int) == w
}

/// Whether the last name on a path starts at `s`.
pub open spec fn last_name(path: Seq<char>, s: int) -> bool {
    &&& 0 <= s <= path.len()
    &&& s == 0 || path[s - 1] == '/'
    &&& forall|k: int| s <= k < path.len() ==> path[k] != '/'
}

/// A path as it is compared: with forward slashes.
pub open spec fn forward(path: Seq<char>, q: Seq<char>) -> bool {
    &&& q.len() == path.len()
    &&& forall|k: int|
        0 <= k < q.len() ==> #[trigger] q[k] == if path[k] == '\\' {
            '/'
        } else {
            path[k]
        }
}

proof fn lemma_part_of(w: Seq<char>, t: Seq<char>)
    ensures
        holds(t, w) == part_of(w, t),
        starts(t, w) == opening_of(w, t),
        opening_of(w, t) ==> part_of(w, t),
        t == w ==> opening_of(w, t),
{
    if holds(t, w) {
        let i = choose|i: int| #[trigger] occurs_at(t, w, i);
        assert(t.subrange(i, i + w.len()) == w);
    }
    if part_of(w, t) {
        let k = choose|k: int|
            #![trigger t.subrange(k, k + w.len())]
            0 <= k && k + w.len() <= t.len() && t.subrange(k, k + w.len()) == w;
        assert(occurs_at(t, w, k));
    }
    if w.len() <= t.len() {
        assert(t.take(w.len() as int) =~= t.subrange(0, w.len() as int));
    }
    if opening_of(w, t) {
        assert(t.subrange(0int, 0int + w.len()) == w);
    }
    if t == w {
        assert(t.subrange(0, w.len() as int) =~= w);
    }
}

proof fn lemma_last_name(path: Seq<char>, s: int)
    requires
        last_name(path, s),
    ensures
        last_index_of(path, '/') + 1 == s,
{
    lemma_last_index_of(path, '/');
    let m = last_index_of(path, '/');
    if m + 1 > s {
        assert(path[m] == '/');
    }
}

/// The last name of an entry is that of its path with what the answers carry in
/// front.
proof fn lemma_same_name(base: Seq<char>, rel: Seq<char>, s: int)
    requires
        base.len() == 0 || base.last() == '/',
        last_name(base + rel, s),
    ensures
        file_of(rel) == (base + rel).skip(s),
{
    let path = base + rel;
    lemma_last_index_of(rel, '/');
    let m = last_index_of(rel, '/') + 1;
    if s < base.len() {
        assert(path[base.len() - 1] == base[base.len() - 1]);
    }
    let t = s - base.len();
    if t > 0 {
        assert(path[s - 1] == rel[t - 1]);
    }
    if m > t {
        assert(rel[m - 1] == path[base.len() + m - 1]);
    }
    assert(rel.skip(m) =~= path.skip(s));
}

spec fn entry(scope: ScopeView, e: (Seq<char>, bool)) -> ScoredView {
    ScoredView { score: score_of(scope, e.0, e.1), path: scope.base + e.0, dir: e.1 }
}

proof fn lemma_scored_from(scope: ScopeView, raw: Seq<(Seq<char>, bool)>, i: int)
    requires
        0 <= i < scored(scope, raw).len(),
    ensures
        scored(scope, raw)[i].score > 0,
        exists|k: int| 0 <= k < raw.len() && scored(scope, raw)[i] == entry(scope, #[trigger] raw[k]),
    decreases raw.len(),
{
    let less = raw.drop_last();
    let rest = scored(scope, less);
    if i < rest.len() {
        lemma_scored_from(scope, less, i);
        let k = choose|k: int| 0 <= k < less.len() && rest[i] == entry(scope, #[trigger] less[k]);
        assert(raw[k] == less[k]);
    } else {
        assert(raw[raw.len() - 1] == raw.last());
    }
}

proof fn lemma_scored_all(scope: ScopeView, raw: Seq<(Seq<char>, bool)>, k: int)
    requires
        0 <= k < raw.len(),
        score_of(scope, raw[k].0, raw[k].1) > 0,
    ensures
        scored(scope, raw).contains(entry(scope, raw[k])),
    decreases raw.len(),
{
    let less = raw.drop_last();
    let rest = scored(scope, less);
    let all = scored(scope, raw);
    if k < less.len() {
        assert(less[k] == raw[k]);
        lemma_scored_all(scope, less, k);
        let i = choose|i: int| 0 <= i < rest.len() && rest[i] == entry(scope, raw[k]);
        assert(all[i] == rest[i]);
    } else {
        assert(all[all.len() - 1] == entry(scope, raw[k]));
    }
}

spec fn in_order(all: Seq<ScoredView>) -> Seq<ScoredView> {
    all.sort_by(|a: ScoredView, b: ScoredView| goes_first(a, b))
}

proof fn lemma_in_order(all: Seq<ScoredView>)
    ensures
        in_order(all).len() == all.len(),
        forall|i: int, j: int|
            0 <= i < j < all.len() ==> goes_first(
                #[trigger] in_order(all)[i],
                #[trigger] in_order(all)[j],
            ),
        forall|i: int| 0 <= i < all.len() ==> all.contains(#[trigger] in_order(all)[i]),
        forall|x: ScoredView| all.contains(x) ==> #[trigger] in_order(all).contains(x),
{
    let r = |a: ScoredView, b: ScoredView| goes_first(a, b);
    lemma_goes_first_total();
    all.lemma_sort_by_ensures(r);
    let sorted = all.sort_by(r);
    broadcast use vstd::seq_lib::group_to_multiset_ensures;

    assert(sorted.to_multiset().len() == sorted.len());
    assert(all.to_multiset().len() == all.len());
    assert forall|i: int, j: int| 0 <= i < j < all.len() implies goes_first(
        #[trigger] in_order(all)[i],
        #[trigger] in_order(all)[j],
    ) by {
        assert(r(sorted[i], sorted[j]));
    }
    assert forall|i: int| 0 <= i < all.len() implies all.contains(#[trigger] in_order(all)[i]) by {
        assert(sorted.contains(sorted[i]));
        assert(all.to_multiset().count(sorted[i]) > 0);
    }
    assert forall|x: ScoredView| all.contains(x) implies #[trigger] in_order(all).contains(x) by {
        assert(all.to_multiset().count(x) > 0);
        assert(sorted.to_multiset().count(x) > 0);
    }
}

/// What is looked for, and what the answers carry in front, are the two halves
/// of the query.
proof fn lemma_scope(query: Seq<char>, root: Seq<char>, q: Seq<char>, n: int)
    requires
        scope_of(query, root) is Some,
        forward(query, q),
        last_name(q, n),
    ensures
        scope_of(query, root)->Some_0.base == q.subrange(0, n),
        scope_of(query, root)->Some_0.name == q.skip(n),
        n == 0 || q.subrange(0, n).last() == '/',
{
    assert(slashed(query) =~= q);
    lemma_last_name(q, n);
    assert(q.take(n) =~= q.subrange(0, n));
}

/// How well the last name of a path, which starts at `s`, matches: no part of
/// it, a part, its start, the whole.
pub open spec fn matches_whole(path: Seq<char>, s: int, wanted: Seq<char>) -> bool {
    lower(path.skip(s)) == wanted
}

/// Whether the last name of a path starts with what is wanted.
pub open spec fn matches_start(path: Seq<char>, s: int, wanted: Seq<char>) -> bool {
    opening_of(wanted, lower(path.skip(s)))
}

/// Whether what is wanted stands in the last name of a path.
pub open spec fn matches_part(path: Seq<char>, s: int, wanted: Seq<char>) -> bool {
    part_of(wanted, lower(path.skip(s)))
}

/// Where the last name of a path starts.
proof fn lemma_has_last_name(path: Seq<char>)
    ensures
        last_name(path, last_index_of(path, '/') + 1),
{
    lemma_last_index_of(path, '/');
}

/// The ranks of an entry follow from how it matches.
proof fn lemma_ranks(scope: ScopeView, e: (Seq<char>, bool), s: int)
    requires
        scope.name.len() > 0,
        scope.base.len() == 0 || scope.base.last() == '/',
        last_name(scope.base + e.0, s),
    ensures
        ({
            let path = scope.base + e.0;
            let w = lower(scope.name);
            let n = score_of(scope, e.0, e.1);
            let extra = if e.1 {
                10int
            } else {
                0
            };
            &&& matches_whole(path, s, w) ==> matches_start(path, s, w) && n == 100 + extra
            &&& matches_start(path, s, w) ==> matches_part(path, s, w) && n >= 80 + extra
            &&& matches_part(path, s, w) ==> n >= 50 + extra
            &&& n > 0 <==> matches_part(path, s, w) || part_of(w, lower(path))
            &&& n >= 50 ==> matches_part(path, s, w)
            &&& n >= 80 ==> matches_start(path, s, w)
            &&& n >= 100 ==> matches_whole(path, s, w)
            &&& n == 0 || n == 30 + extra || n == 50 + extra || n == 80 + extra || n == 100 + extra
        }),
{
    let path = scope.base + e.0;
    lemma_same_name(scope.base, e.0, s);
    lemma_part_of(lower(scope.name), lower(path.skip(s)));
    lemma_part_of(lower(scope.name), lower(path));
}

/// The menu as the sorted matches.
proof fn lemma_menu(
    query: Seq<char>,
    root: Seq<char>,
    found: Seq<(Seq<char>, bool)>,
    i: int,
)
    requires
        0 <= i < offered(query, root, found).len(),
    ensures
        scope_of(query, root) is Some,
        ({
            let scope = scope_of(query, root)->Some_0;
            let sorted = in_order(scored(scope, listed(found)));
            let m = offered(query, root, found);
            &&& i < sorted.len()
            &&& m[i] == (EntryView { path: sorted[i].path, dir: sorted[i].dir })
            &&& sorted[i].score > 0
            &&& exists|k: int|
                0 <= k < listed(found).len() && sorted[i] == entry(
                    scope,
                    #[trigger] listed(found)[k],
                )
        }),
{
    let scope = scope_of(query, root)->Some_0;
    let all = scored(scope, listed(found));
    lemma_in_order(all);
    let x = in_order(all)[i];
    assert(all.contains(x));
    let m = choose|m: int| 0 <= m < all.len() && all[m] == x;
    lemma_scored_from(scope, listed(found), m);
}

/// The closer match stands first: an entry whose last name is what was asked for
/// is above one whose last name only starts with it, that above one whose last
/// name only holds it, and that above one that holds it elsewhere on its path.
/// And a folder stands above a file that matches no better. Case does not count.
///
/// `n` is where the name asked for starts in the query, `si` and `sj` where the
/// last names of the two entries do.
pub proof fn law_the_closer_match_stands_first(
    query: Seq<char>,
    root: Seq<char>,
    found: Seq<(Seq<char>, bool)>,
    q: Seq<char>,
    n: int,
    i: int,
    j: int,
    si: int,
    sj: int,
)
    requires
        forward(query, q),
        last_name(q, n),
        n < q.len(),
        0 <= i < j < offered(query, root, found).len(),
        last_name(offered(query, root, found)[i].path, si),
        last_name(offered(query, root, found)[j].path, sj),
    ensures
        ({
            let w = lower(q.skip(n));
            let a = offered(query, root, found)[i];
            let b = offered(query, root, found)[j];
            &&& matches_whole(b.path, sj, w) ==> matches_whole(a.path, si, w)
            &&& matches_start(b.path, sj, w) ==> matches_start(a.path, si, w)
            &&& matches_part(b.path, sj, w) ==> matches_part(a.path, si, w)
            &&& b.dir && !a.dir ==> {
                ||| matches_whole(a.path, si, w) && !matches_whole(b.path, sj, w)
                ||| matches_start(a.path, si, w) && !matches_start(b.path, sj, w)
                ||| matches_part(a.path, si, w) && !matches_part(b.path, sj, w)
            }
        }),
{
    lemma_menu(query, root, found, i);
    lemma_menu(query, root, found, j);
    lemma_scope(query, root, q, n);
    let scope = scope_of(query, root)->Some_0;
    let raw = listed(found);
    let sorted = in_order(scored(scope, raw));
    lemma_in_order(scored(scope, raw));
    let x = choose|k: int| 0 <= k < raw.len() && sorted[i] == entry(scope, #[trigger] raw[k]);
    let y = choose|k: int| 0 <= k < raw.len() && sorted[j] == entry(scope, #[trigger] raw[k]);
    lemma_ranks(scope, raw[x], si);
    lemma_ranks(scope, raw[y], sj);
    assert(goes_first(sorted[i], sorted[j]));
}

/// With nothing asked for, the folders lead.
pub proof fn law_folders_lead_a_listing(
    query: Seq<char>,
    root: Seq<char>,
    found: Seq<(Seq<char>, bool)>,
    i: int,
    j: int,
)
    requires
        query.len() == 0 || query.last() == '/' || query.last() == '\\',
        0 <= i < j < offered(query, root, found).len(),
    ensures
        offered(query, root, found)[j].dir ==> offered(query, root, found)[i].dir,
{
    let q = slashed(query);
    assert(forward(query, q));
    lemma_has_last_name(q);
    let n = last_index_of(q, '/') + 1;
    if q.len() > 0 {
        assert(q[q.len() - 1] == '/');
    }
    lemma_scope(query, root, q, n);
    lemma_menu(query, root, found, i);
    lemma_menu(query, root, found, j);
    let scope = scope_of(query, root)->Some_0;
    let raw = listed(found);
    let sorted = in_order(scored(scope, raw));
    lemma_in_order(scored(scope, raw));
    assert(goes_first(sorted[i], sorted[j]));
}

/// What the menu offers matches: what was asked for stands in its last name, or
/// somewhere on its path, case aside.
pub proof fn law_what_is_offered_matches(
    query: Seq<char>,
    root: Seq<char>,
    found: Seq<(Seq<char>, bool)>,
    q: Seq<char>,
    n: int,
    i: int,
    s: int,
)
    requires
        forward(query, q),
        last_name(q, n),
        n < q.len(),
        0 <= i < offered(query, root, found).len(),
        last_name(offered(query, root, found)[i].path, s),
    ensures
        ({
            let path = offered(query, root, found)[i].path;
            let w = lower(q.skip(n));
            matches_part(path, s, w) || part_of(w, lower(path))
        }),
{
    lemma_menu(query, root, found, i);
    lemma_scope(query, root, q, n);
    let scope = scope_of(query, root)->Some_0;
    let raw = listed(found);
    let sorted = in_order(scored(scope, raw));
    let x = choose|k: int| 0 <= k < raw.len() && sorted[i] == entry(scope, #[trigger] raw[k]);
    lemma_ranks(scope, raw[x], s);
}

proof fn lemma_listed(found: Seq<(Seq<char>, bool)>, k: int)
    requires
        0 <= k < found.len() <= WALK_CAP,
        found[k].0.len() > 0,
    ensures
        listed(found).len() <= found.len(),
        listed(found).contains((slashed(found[k].0), found[k].1)),
    decreases found.len(),
{
    let less = found.drop_last();
    lemma_listed_len(less);
    let rest = listed(less);
    let all = listed(found);
    if k < less.len() {
        assert(less[k] == found[k]);
        lemma_listed(less, k);
        let x = (slashed(found[k].0), found[k].1);
        let i = choose|i: int| 0 <= i < rest.len() && rest[i] == x;
        assert(all[i] == x);
    } else {
        assert(all[all.len() - 1] == (slashed(found[k].0), found[k].1));
    }
}

proof fn lemma_listed_len(found: Seq<(Seq<char>, bool)>)
    ensures
        listed(found).len() <= found.len(),
    decreases found.len(),
{
    if found.len() > 0 {
        lemma_listed_len(found.drop_last());
    }
}

/// Everything found that matches is offered, while the menu has room; and one
/// that was left out for want of room matches no better than any that was not.
pub proof fn law_every_match_is_offered(
    query: Seq<char>,
    root: Seq<char>,
    found: Seq<(Seq<char>, bool)>,
    q: Seq<char>,
    n: int,
    k: int,
    path: Seq<char>,
    s: int,
)
    requires
        scope_of(query, root) is Some,
        forward(query, q),
        last_name(q, n),
        n < q.len(),
        0 <= k < found.len() <= WALK_CAP,
        found[k].0.len() > 0,
        forward(q.subrange(0, n) + found[k].0, path),
        last_name(path, s),
        matches_part(path, s, lower(q.skip(n))) || part_of(lower(q.skip(n)), lower(path)),
    ensures
        ({
            let m = offered(query, root, found);
            let w = lower(q.skip(n));
            ||| m.contains(EntryView { path, dir: found[k].1 })
            ||| m.len() == TOP && forall|i: int, si: int|
                0 <= i < m.len() && #[trigger] last_name(m[i].path, si) ==> {
                    &&& matches_whole(path, s, w) ==> matches_whole(m[i].path, si, w)
                    &&& matches_start(path, s, w) ==> matches_start(m[i].path, si, w)
                    &&& matches_part(path, s, w) ==> matches_part(m[i].path, si, w)
                }
        }),
{
    lemma_scope(query, root, q, n);
    let scope = scope_of(query, root)->Some_0;
    let raw = listed(found);
    let all = scored(scope, raw);
    let sorted = in_order(all);
    let m = offered(query, root, found);
    let w = lower(q.skip(n));
    lemma_listed(found, k);
    let e = (slashed(found[k].0), found[k].1);
    assert(path =~= scope.base + e.0) by {
        let whole = q.subrange(0, n) + found[k].0;
        assert forall|t: int| 0 <= t < path.len() implies path[t] == (scope.base + e.0)[t] by {
            assert(path[t] == if whole[t] == '\\' {
                '/'
            } else {
                whole[t]
            });
            if t < n {
                assert(whole[t] == q[t]);
            } else {
                assert(whole[t] == found[k].0[t - n]);
            }
        }
    }
    let r = choose|r: int| 0 <= r < raw.len() && raw[r] == e;
    lemma_ranks(scope, raw[r], s);
    lemma_scored_all(scope, raw, r);
    lemma_in_order(all);
    let x = entry(scope, e);
    assert(sorted.contains(x));
    let j = choose|j: int| 0 <= j < sorted.len() && sorted[j] == x;
    if j < m.len() {
        assert(m[j] == EntryView { path, dir: found[k].1 });
    } else {
        assert(m.len() == TOP);
        assert forall|i: int, si: int|
            0 <= i < m.len() && #[trigger] last_name(m[i].path, si) implies {
            &&& matches_whole(path, s, w) ==> matches_whole(m[i].path, si, w)
            &&& matches_start(path, s, w) ==> matches_start(m[i].path, si, w)
            &&& matches_part(path, s, w) ==> matches_part(m[i].path, si, w)
        } by {
            lemma_menu(query, root, found, i);
            let y = choose|y: int|
                0 <= y < raw.len() && sorted[i] == entry(scope, #[trigger] raw[y]);
            lemma_ranks(scope, raw[y], si);
            assert(goes_first(sorted[i], sorted[j]));
        }
    }
}

// ---------------------------------------------------------------------------
// Ties
// ---------------------------------------------------------------------------

/// How many names stand in the first `k` characters of a path: what is no slash
/// behind a slash, or in front, starts one.
pub open spec fn names_in(path: Seq<char>, k: int) -> nat
    decreases k,
{
    if k <= 0 {
        0
    } else {
        names_in(path, k - 1) + if path[k - 1] != '/' && (k == 1 || path[k - 2] == '/') {
            1nat
        } else {
            0nat
        }
    }
}

proof fn lemma_solid_concat(a: Seq<Seq<char>>, b: Seq<Seq<char>>)
    ensures
        solid(a + b) == solid(a) + solid(b),
    decreases b.len(),
{
    if b.len() == 0 {
        assert(a + b =~= a);
    } else {
        lemma_solid_concat(a, b.drop_last());
        assert((a + b).drop_last() =~= a + b.drop_last());
    }
}

proof fn lemma_names_shift(path: Seq<char>, from: int, k: int)
    requires
        0 < from <= from + k <= path.len(),
        path[from - 1] == '/',
        0 <= k,
    ensures
        names_in(path, from + k) == names_in(path, from) + names_in(path.skip(from), k),
    decreases k,
{
    if k > 0 {
        lemma_names_shift(path, from, k - 1);
        let t = path.skip(from);
        assert(t[k - 1] == path[from + k - 1]);
        if k > 1 {
            assert(t[k - 2] == path[from + k - 2]);
        }
    }
}

proof fn lemma_names_piece(path: Seq<char>, k: int)
    requires
        0 <= k <= path.len(),
        forall|i: int| 0 <= i < k ==> path[i] != '/',
    ensures
        names_in(path, k) == if k > 0 {
            1nat
        } else {
            0nat
        },
    decreases k,
{
    if k > 0 {
        lemma_names_piece(path, k - 1);
    }
}

proof fn lemma_depth(path: Seq<char>)
    ensures
        depth_of(path) == names_in(path, path.len() as int),
    decreases path.len(),
{
    lemma_index_of(path, '/');
    let n = crate::text::index_of(path, '/');
    let none = Seq::<Seq<char>>::empty();
    assert(solid(none) == 0);
    if n >= path.len() {
        assert(seq![path].drop_last() =~= none);
        lemma_names_piece(path, n);
    } else {
        let rest = path.skip(n + 1);
        lemma_depth(rest);
        let one = seq![path.take(n)];
        assert(one.drop_last() =~= none);
        lemma_solid_concat(one, split(rest, '/'));
        lemma_names_piece(path, n);
        lemma_names_shift(path, n + 1, rest.len() as int);
    }
}

/// Whether two paths differ first at `k`, where `a` has the lower character, or
/// `a` ends there.
pub open spec fn sorts_before(a: Seq<char>, b: Seq<char>, k: int) -> bool {
    &&& 0 <= k <= a.len()
    &&& k < b.len()
    &&& a.subrange(0, k) == b.subrange(0, k)
    &&& k == a.len() || a[k] < b[k]
}

proof fn lemma_text_le(a: Seq<char>, b: Seq<char>)
    requires
        text_le(a, b),
        a != b,
    ensures
        exists|k: int| #[trigger] sorts_before(a, b, k),
    decreases a.len(),
{
    if a.len() == 0 {
        if b.len() == 0 {
            assert(a =~= b);
        }
        assert(a.subrange(0, 0) =~= b.subrange(0, 0));
        assert(sorts_before(a, b, 0));
    } else if a[0] != b[0] {
        assert(a.subrange(0, 0) =~= b.subrange(0, 0));
        assert(sorts_before(a, b, 0));
    } else {
        let x = a.skip(1);
        let y = b.skip(1);
        if x == y {
            assert(a =~= seq![a[0]] + x);
            assert(b =~= seq![b[0]] + y);
        }
        lemma_text_le(x, y);
        let k = choose|k: int| #[trigger] sorts_before(x, y, k);
        assert forall|i: int| 0 <= i < k + 1 implies a[i] == b[i] by {
            if i > 0 {
                assert(x[i - 1] == x.subrange(0, k)[i - 1]);
                assert(y[i - 1] == y.subrange(0, k)[i - 1]);
            }
        }
        assert(a.subrange(0, k + 1) =~= b.subrange(0, k + 1));
        if k < x.len() {
            assert(x[k] == a[k + 1]);
        }
        assert(y[k] == b[k + 1]);
        assert(sorts_before(a, b, k + 1));
    }
}

/// Of two entries that match as well, the one with fewer names on its path
/// stands first; of two with as many, the one of fewer bytes; of two as long,
/// the one that sorts first.
pub proof fn law_equal_matches_stand_by_depth_and_length(
    query: Seq<char>,
    root: Seq<char>,
    found: Seq<(Seq<char>, bool)>,
    q: Seq<char>,
    n: int,
    i: int,
    j: int,
    si: int,
    sj: int,
)
    requires
        forward(query, q),
        last_name(q, n),
        0 <= i < j < offered(query, root, found).len(),
        last_name(offered(query, root, found)[i].path, si),
        last_name(offered(query, root, found)[j].path, sj),
        offered(query, root, found)[i].dir == offered(query, root, found)[j].dir,
        n < q.len() ==> {
            let w = lower(q.skip(n));
            let a = offered(query, root, found)[i].path;
            let b = offered(query, root, found)[j].path;
            &&& matches_whole(a, si, w) == matches_whole(b, sj, w)
            &&& matches_start(a, si, w) == matches_start(b, sj, w)
            &&& matches_part(a, si, w) == matches_part(b, sj, w)
        },
    ensures
        ({
            let a = offered(query, root, found)[i].path;
            let b = offered(query, root, found)[j].path;
            let da = names_in(a, a.len() as int);
            let db = names_in(b, b.len() as int);
            &&& da <= db
            &&& da == db ==> bytes_len(a) <= bytes_len(b)
            &&& da == db && bytes_len(a) == bytes_len(b) && a != b ==> exists|k: int| #[trigger]
                sorts_before(a, b, k)
        }),
{
    lemma_menu(query, root, found, i);
    lemma_menu(query, root, found, j);
    lemma_scope(query, root, q, n);
    let scope = scope_of(query, root)->Some_0;
    let raw = listed(found);
    let sorted = in_order(scored(scope, raw));
    lemma_in_order(scored(scope, raw));
    let x = choose|k: int| 0 <= k < raw.len() && sorted[i] == entry(scope, #[trigger] raw[k]);
    let y = choose|k: int| 0 <= k < raw.len() && sorted[j] == entry(scope, #[trigger] raw[k]);
    if n < q.len() {
        lemma_ranks(scope, raw[x], si);
        lemma_ranks(scope, raw[y], sj);
    }
    assert(goes_first(sorted[i], sorted[j]));
    lemma_depth(sorted[i].path);
    lemma_depth(sorted[j].path);
    if sorted[i].path != sorted[j].path && text_le(sorted[i].path, sorted[j].path) {
        lemma_text_le(sorted[i].path, sorted[j].path);
    }
}

// ---------------------------------------------------------------------------
// The token and the scope
// ---------------------------------------------------------------------------

/// Whether a character ends a token.
pub open spec fn cuts(c: char) -> bool {
    c == ' ' || c == '\t' || c == '\n' || c == '"' || c == '\'' || c == '='
}

/// Whether an `@` at `s` opens the token that the caret at `k` is in.
pub open spec fn at_opens(line: Seq<char>, s: int, k: int) -> bool {
    &&& 0 <= s < k <= line.len()
    &&& line[s] == '@'
    &&& s == 0 || cuts(line[s - 1])
    &&& forall|i: int| s <= i < k ==> !cuts(line[i])
}

proof fn lemma_token_start(head: Seq<char>)
    ensures
        0 <= token_start(head) <= head.len(),
        token_start(head) > 0 ==> is_delim(head[token_start(head) - 1]),
        forall|i: int| token_start(head) <= i < head.len() ==> !is_delim(#[trigger] head[i]),
    decreases head.len(),
{
    if head.len() > 0 && !is_delim(head.last()) {
        let t = head.drop_last();
        lemma_token_start(t);
        assert forall|i: int| token_start(head) <= i < head.len() implies !is_delim(
            #[trigger] head[i],
        ) by {
            if i < t.len() {
                assert(t[i] == head[i]);
            }
        }
    }
}

/// A token is completed where an `@` starts the word the caret is in, and only
/// there: `a@b` stays an email. The token reaches from the `@` to the caret.
pub proof fn law_an_at_starts_its_word(line: Seq<char>, k: int)
    requires
        0 <= k <= line.len(),
    ensures
        match at_token(line, k) {
            Some(t) => at_opens(line, k - t.len(), k) && t == line.subrange(k - t.len(), k),
            None => forall|s: int| !#[trigger] at_opens(line, s, k),
        },
{
    let head = line.take(k);
    lemma_token_start(head);
    let s = token_start(head);
    if s > 0 {
        assert(head[s - 1] == line[s - 1]);
    }
    assert forall|i: int| s <= i < k implies !cuts(line[i]) by {
        assert(head[i] == line[i]);
    }
    assert forall|r: int| #[trigger] at_opens(line, r, k) implies r == s by {
        if r < s {
            assert(cuts(line[s - 1]));
        } else if r > s {
            assert(cuts(line[r - 1]));
        }
    }
}

/// Whether `..` stands as a whole segment of `q` at `k`.
pub open spec fn climbs_at(q: Seq<char>, k: int) -> bool {
    &&& 0 <= k && k + 2 <= q.len()
    &&& q[k] == '.' && q[k + 1] == '.'
    &&& k == 0 || q[k - 1] == '/'
    &&& k + 2 == q.len() || q[k + 2] == '/'
}

proof fn lemma_climbs(q: Seq<char>)
    ensures
        split(q, '/').contains(seq!['.', '.']) == exists|k: int| #[trigger] climbs_at(q, k),
    decreases q.len(),
{
    lemma_index_of(q, '/');
    let n = crate::text::index_of(q, '/');
    let up = seq!['.', '.'];
    let parts = split(q, '/');
    if n >= q.len() {
        if parts.contains(up) {
            assert(q == up);
            assert(climbs_at(q, 0));
        }
        if exists|k: int| #[trigger] climbs_at(q, k) {
            let k = choose|k: int| #[trigger] climbs_at(q, k);
            assert(k == 0);
            assert(q =~= up);
            assert(parts[0] == up);
        }
    } else {
        let rest = q.skip(n + 1);
        let more = split(rest, '/');
        lemma_climbs(rest);
        assert(parts =~= seq![q.take(n)] + more);
        if parts.contains(up) {
            let i = choose|i: int| 0 <= i < parts.len() && parts[i] == up;
            if i == 0 {
                assert(q.take(n) == up);
                assert(q.take(n).len() == n);
                assert(q.take(n)[0] == q[0] && q.take(n)[1] == q[1]);
                assert(climbs_at(q, 0));
            } else {
                assert(more[i - 1] == up);
                let k = choose|k: int| #[trigger] climbs_at(rest, k);
                assert(rest[k] == q[n + 1 + k] && rest[k + 1] == q[n + 2 + k]);
                if k > 0 {
                    assert(rest[k - 1] == q[n + k]);
                }
                if k + 2 < rest.len() {
                    assert(rest[k + 2] == q[n + 3 + k]);
                }
                assert(climbs_at(q, n + 1 + k));
            }
        }
        if exists|k: int| #[trigger] climbs_at(q, k) {
            let k = choose|k: int| #[trigger] climbs_at(q, k);
            if k < n {
                assert(k == 0);
                assert(n == 2);
                assert(q.take(n) =~= up);
                assert(parts[0] == up);
            } else {
                let t = k - n - 1;
                assert(t >= 0);
                assert(rest[t] == q[k] && rest[t + 1] == q[k + 1]);
                if t > 0 {
                    assert(rest[t - 1] == q[k - 1]);
                }
                if t + 2 < rest.len() {
                    assert(rest[t + 2] == q[k + 2]);
                }
                assert(climbs_at(rest, t));
                let i = choose|i: int| 0 <= i < more.len() && more[i] == up;
                assert(parts[i + 1] == up);
            }
        }
    }
}

/// A query is looked up in the workspace or not at all: one that starts at the
/// root or at home, or goes up on its way, is refused, and nothing else is.
pub proof fn law_a_query_that_leaves_is_refused(query: Seq<char>, root: Seq<char>, q: Seq<char>)
    requires
        forward(query, q),
    ensures
        scope_of(query, root) is None <==> {
            ||| root.len() == 0
            ||| q.len() > 0 && (q[0] == '/' || q[0] == '~')
            ||| exists|k: int| #[trigger] climbs_at(q, k)
        },
{
    assert(slashed(query) =~= q);
    lemma_climbs(q);
}

} // verus!
