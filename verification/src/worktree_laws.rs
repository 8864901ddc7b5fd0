//! What checkouts are called and where they are, stated on the paths.

use crate::text::{
    blank, bytes_len, index_of, is_white, last_index_of, lemma_index_of, lemma_index_of_is,
    lemma_last_index_of, lemma_trim_end, lemma_trim_start, lines, split, starts, trim, trim_end,
    trim_start,
};
use crate::worktree::{
    bad_letter, behind, body, closed_off, complaint, current_name, head, holder,
    law_the_longest_checkout_holds, lemma_holder, name_form, name_letter, named_parts, names, steps,
    stray, target, trees_after, trees_in, vet, within, without_head, without_slashes, worktrees_of,
    WorktreeView,
};
use vstd::prelude::*;
use vstd::string::*;

verus! {

// ---------------------------------------------------------------------------
// The parts of a path
// ---------------------------------------------------------------------------

/// Whether `i..j` is a part of a path: what stands between two slashes, or
/// between one and an end.
pub open spec fn part_at(s: Seq<char>, i: int, j: int) -> bool {
    &&& 0 <= i <= j <= s.len()
    &&& i == 0 || s[i - 1] == '/'
    &&& j == s.len() || s[j] == '/'
    &&& forall|k: int| i <= k < j ==> #[trigger] s[k] != '/'
}

/// Whether a part says something: it is not empty and not the dot for here.
pub open spec fn telling(s: Seq<char>, i: int, j: int) -> bool {
    i < j && !(j == i + 1 && s[i] == '.')
}

/// Whether every part of a path says something.
pub open spec fn all_telling(s: Seq<char>) -> bool {
    forall|i: int, j: int| #[trigger] part_at(s, i, j) ==> telling(s, i, j)
}

proof fn lemma_parts_split(s: Seq<char>, k: int)
    requires
        0 <= k < split(s, '/').len(),
    ensures
        exists|i: int, j: int| #[trigger] part_at(s, i, j) && split(s, '/')[k] == s.subrange(i, j),
    decreases s.len(),
{
    lemma_index_of(s, '/');
    let n = index_of(s, '/');
    let all = split(s, '/');
    if n < s.len() {
        let rest = s.skip(n + 1);
        assert(all == seq![s.take(n)] + split(rest, '/'));
        if k == 0 {
            assert(part_at(s, 0, n));
            assert(s.subrange(0, n) =~= s.take(n));
        } else {
            lemma_parts_split(rest, k - 1);
            let (i, j) = choose|i: int, j: int| #[trigger]
                part_at(rest, i, j) && split(rest, '/')[k - 1] == rest.subrange(i, j);
            assert(part_at(s, i + n + 1, j + n + 1)) by {
                assert forall|m: int| i + n + 1 <= m < j + n + 1 implies #[trigger] s[m] != '/' by {
                    assert(rest[m - n - 1] == s[m]);
                }
            }
            assert(s.subrange(i + n + 1, j + n + 1) =~= rest.subrange(i, j));
        }
    } else {
        assert(all =~= seq![s]);
        assert(part_at(s, 0, s.len() as int));
        assert(s.subrange(0, s.len() as int) =~= s);
    }
}

proof fn lemma_split_parts(s: Seq<char>, i: int, j: int)
    requires
        part_at(s, i, j),
    ensures
        exists|k: int| 0 <= k < split(s, '/').len() && #[trigger] split(s, '/')[k] == s.subrange(i, j),
    decreases s.len(),
{
    lemma_index_of(s, '/');
    let n = index_of(s, '/');
    let all = split(s, '/');
    if n < s.len() {
        let rest = s.skip(n + 1);
        let less = split(rest, '/');
        assert(all == seq![s.take(n)] + less);
        if i <= n {
            if i > 0 {
                assert(s[i - 1] != '/');
            }
            if j > n {
                assert(s[n] != '/');
            }
            if j < n {
                assert(s[j] != '/');
            }
            assert(all[0] =~= s.subrange(i, j));
        } else {
            assert(part_at(rest, i - n - 1, j - n - 1)) by {
                assert forall|m: int| i - n - 1 <= m < j - n - 1 implies #[trigger] rest[m] != '/' by {
                    assert(rest[m] == s[m + n + 1]);
                }
            }
            lemma_split_parts(rest, i - n - 1, j - n - 1);
            let k = choose|k: int|
                0 <= k < less.len() && #[trigger] less[k] == rest.subrange(i - n - 1, j - n - 1);
            assert(all[k + 1] == less[k]);
            assert(rest.subrange(i - n - 1, j - n - 1) =~= s.subrange(i, j));
        }
    } else {
        assert(all =~= seq![s]);
        if i > 0 {
            assert(s[i - 1] != '/');
        }
        if j < s.len() {
            assert(s[j] != '/');
        }
        assert(s.subrange(i, j) =~= s);
        assert(all[0] == s);
    }
}

proof fn lemma_dots()
    ensures
        "."@ == seq!['.'],
        ".."@ == seq!['.', '.'],
        "/"@ == seq!['/'],
{
    reveal_strlit(".");
    reveal_strlit("..");
    reveal_strlit("/");
    assert("."@ =~= seq!['.']);
    assert(".."@ =~= seq!['.', '.']);
    assert("/"@ =~= seq!['/']);
}

proof fn lemma_telling(s: Seq<char>)
    ensures
        all_telling(s) <==> forall|k: int|
            0 <= k < split(s, '/').len() ==> names(#[trigger] split(s, '/')[k]),
{
    lemma_dots();
    let all = split(s, '/');
    if all_telling(s) {
        assert forall|k: int| 0 <= k < all.len() implies names(#[trigger] all[k]) by {
            lemma_parts_split(s, k);
            let (i, j) = choose|i: int, j: int| #[trigger]
                part_at(s, i, j) && all[k] == s.subrange(i, j);
            assert(telling(s, i, j));
            if all[k] == "."@ {
                assert(all[k].len() == 1 && all[k][0] == s[i]);
            }
        }
    }
    if forall|k: int| 0 <= k < all.len() ==> names(#[trigger] all[k]) {
        assert forall|i: int, j: int| #[trigger] part_at(s, i, j) implies telling(s, i, j) by {
            lemma_split_parts(s, i, j);
            let k = choose|k: int| 0 <= k < all.len() && #[trigger] all[k] == s.subrange(i, j);
            assert(names(all[k]));
            if j == i + 1 && s[i] == '.' {
                assert(s.subrange(i, j) =~= seq!['.']);
            }
        }
    }
}

proof fn lemma_named_all(parts: Seq<Seq<char>>)
    requires
        forall|k: int| 0 <= k < parts.len() ==> names(#[trigger] parts[k]),
    ensures
        named_parts(parts) == parts,
    decreases parts.len(),
{
    if parts.len() > 0 {
        let less = parts.drop_last();
        assert forall|k: int| 0 <= k < less.len() implies names(#[trigger] less[k]) by {
            assert(names(parts[k]));
        }
        lemma_named_all(less);
        assert(names(parts[parts.len() - 1]));
        assert(named_parts(parts) =~= parts);
    } else {
        assert(named_parts(parts) =~= parts);
    }
}

/// A path in two, at a slash, has the parts of both.
pub(crate) proof fn lemma_split_slash(a: Seq<char>, r: Seq<char>)
    ensures
        split(a + seq!['/'] + r, '/') == split(a, '/') + split(r, '/'),
        split(a, '/').len() > 0,
    decreases a.len(),
{
    lemma_index_of(a, '/');
    let n = index_of(a, '/');
    let s = a + seq!['/'] + r;
    if n < a.len() {
        assert(s[n] == '/');
        assert forall|i: int| 0 <= i < n implies s[i] != '/' by {
            assert(s[i] == a[i]);
        }
        lemma_index_of_is(s, '/', n);
        let rest = a.skip(n + 1);
        lemma_split_slash(rest, r);
        assert(s.skip(n + 1) =~= rest + seq!['/'] + r);
        assert(s.take(n) =~= a.take(n));
        assert(split(s, '/') =~= split(a, '/') + split(r, '/'));
    } else {
        let m = a.len() as int;
        assert forall|i: int| 0 <= i < m implies s[i] != '/' by {
            assert(s[i] == a[i]);
        }
        assert(s[m] == '/');
        lemma_index_of_is(s, '/', m);
        assert(s.take(m) =~= a);
        assert(s.skip(m + 1) =~= r);
        assert(split(a, '/') =~= seq![a]);
        assert(split(s, '/') =~= split(a, '/') + split(r, '/'));
    }
}

/// The parts of a path say what the path is.
proof fn lemma_same_split(a: Seq<char>, b: Seq<char>)
    requires
        split(a, '/') == split(b, '/'),
    ensures
        a == b,
    decreases a.len(),
{
    lemma_index_of(a, '/');
    lemma_index_of(b, '/');
    let n = index_of(a, '/');
    let m = index_of(b, '/');
    let x = split(a, '/');
    let y = split(b, '/');
    if n < a.len() {
        let ra = a.skip(n + 1);
        lemma_split_slash(ra, Seq::empty());
        assert(x.len() >= 2);
        if m >= b.len() {
            assert(y.len() == 1);
        }
        let rb = b.skip(m + 1);
        assert(x[0] == a.take(n) && y[0] == b.take(m));
        assert(x.skip(1) =~= split(ra, '/'));
        assert(y.skip(1) =~= split(rb, '/'));
        lemma_same_split(ra, rb);
        assert(a =~= a.take(n) + seq!['/'] + ra);
        assert(b =~= b.take(m) + seq!['/'] + rb);
    } else {
        assert(x =~= seq![a]);
        if m < b.len() {
            lemma_split_slash(b.skip(m + 1), Seq::empty());
            assert(y.len() >= 2);
        }
        assert(y =~= seq![b]);
        assert(x[0] == a && y[0] == b);
    }
}

/// Where the parts of one path lead another, the other goes on behind a slash.
proof fn lemma_split_prefix(a: Seq<char>, b: Seq<char>)
    requires
        split(b, '/').len() < split(a, '/').len(),
        split(a, '/').take(split(b, '/').len() as int) == split(b, '/'),
    ensures
        a.len() > b.len(),
        a.take(b.len() as int) == b,
        a[b.len() as int] == '/',
    decreases b.len(),
{
    lemma_index_of(a, '/');
    lemma_index_of(b, '/');
    let n = index_of(a, '/');
    let m = index_of(b, '/');
    let x = split(a, '/');
    let y = split(b, '/');
    if n >= a.len() {
        assert(x =~= seq![a]);
        lemma_split_slash(b, Seq::empty());
    }
    let ra = a.skip(n + 1);
    assert(x == seq![a.take(n)] + split(ra, '/'));
    assert(x[0] == a.take(n));
    assert(x.take(y.len() as int)[0] == x[0]);
    if m < b.len() {
        let rb = b.skip(m + 1);
        assert(y == seq![b.take(m)] + split(rb, '/'));
        assert(y[0] == b.take(m));
        assert(split(ra, '/').take(split(rb, '/').len() as int) =~= split(rb, '/')) by {
            assert forall|k: int| 0 <= k < split(rb, '/').len() implies split(ra, '/')[k] == split(
                rb,
                '/',
            )[k] by {
                assert(x.take(y.len() as int)[k + 1] == y[k + 1]);
            }
        }
        lemma_split_prefix(ra, rb);
        assert(a.take(n).len() == b.take(m).len());
        assert(n == m);
        assert(a.take(b.len() as int) =~= a.take(n) + seq!['/'] + ra.take(rb.len() as int));
        assert(b =~= b.take(m) + seq!['/'] + rb);
        assert(a[b.len() as int] == ra[rb.len() as int]);
    } else {
        assert(y =~= seq![b]);
        assert(y[0] == b);
        assert(a.take(n).len() == b.len());
    }
}

// ---------------------------------------------------------------------------
// Paths
// ---------------------------------------------------------------------------

/// Whether a path is spelt out from the root: a slash, and parts that all say
/// something.
pub open spec fn plain_path(p: Seq<char>) -> bool {
    p.len() > 1 && p[0] == '/' && all_telling(p.skip(1))
}

proof fn lemma_plain_steps(p: Seq<char>)
    requires
        plain_path(p),
    ensures
        steps(p) == seq!["/"@] + split(p.skip(1), '/'),
        body(p) == p.skip(1),
        head(p).len() == 1,
{
    lemma_telling(p.skip(1));
    lemma_named_all(split(p.skip(1), '/'));
    assert(head(p) =~= seq!["/"@]);
}

/// A path is within another where it is that path, or goes on behind it with a
/// slash: a name that only starts like it is not within it.
pub proof fn law_a_path_is_within_what_leads_it(path: Seq<char>, base: Seq<char>)
    requires
        plain_path(path),
        plain_path(base),
    ensures
        within(path, base) <==> path == base || (path.len() > base.len() && path.take(
            base.len() as int,
        ) == base && path[base.len() as int] == '/'),
{
    lemma_plain_steps(path);
    lemma_plain_steps(base);
    let a = path.skip(1);
    let b = base.skip(1);
    let x = split(a, '/');
    let y = split(b, '/');
    let sx = steps(path);
    let sy = steps(base);
    assert(path =~= seq!['/'] + a);
    assert(base =~= seq!['/'] + b);
    if within(path, base) {
        assert(x.take(y.len() as int) =~= y) by {
            assert forall|k: int| 0 <= k < y.len() implies x[k] == y[k] by {
                assert(sx.take(sy.len() as int)[k + 1] == sy[k + 1]);
            }
        }
        if x.len() == y.len() {
            assert(x =~= y);
            lemma_same_split(a, b);
        } else {
            lemma_split_prefix(a, b);
            assert(path.take(base.len() as int) =~= seq!['/'] + a.take(b.len() as int));
        }
    }
    if path == base {
        assert(sx.take(sy.len() as int) =~= sy);
    }
    if path.len() > base.len() && path.take(base.len() as int) == base && path[base.len() as int]
        == '/' {
        let r = path.skip(base.len() + 1int);
        assert(a =~= b + seq!['/'] + r) by {
            assert forall|i: int| 0 <= i < b.len() implies a[i] == b[i] by {
                assert(path.take(base.len() as int)[i + 1] == base[i + 1]);
            }
        }
        lemma_split_slash(b, r);
        assert(sx.take(sy.len() as int) =~= sy);
    }
}

proof fn lemma_behind(a: Seq<char>, r: Seq<char>)
    requires
        all_telling(a),
        r.len() > 0,
        names(r.take(index_of(r, '/'))),
    ensures
        behind(a + seq!['/'] + r, split(a, '/').len() as int) == r,
    decreases a.len(),
{
    lemma_telling(a);
    lemma_index_of(a, '/');
    let n = index_of(a, '/');
    let s = a + seq!['/'] + r;
    let parts = split(a, '/');
    if n < a.len() {
        assert forall|i: int| 0 <= i < n implies s[i] != '/' by {
            assert(s[i] == a[i]);
        }
        lemma_index_of_is(s, '/', n);
        let rest = a.skip(n + 1);
        assert(parts == seq![a.take(n)] + split(rest, '/'));
        assert(names(parts[0]));
        assert(s.take(n) =~= a.take(n));
        assert(s.skip(n + 1) =~= rest + seq!['/'] + r);
        lemma_telling(rest);
        assert forall|k: int| 0 <= k < split(rest, '/').len() implies names(
            #[trigger] split(rest, '/')[k],
        ) by {
            assert(parts[k + 1] == split(rest, '/')[k]);
            assert(names(parts[k + 1]));
        }
        lemma_split_slash(rest, Seq::empty());
        lemma_behind(rest, r);
        assert(behind(s.skip(n + 1), split(rest, '/').len() as int) == r);
        assert(parts.len() == split(rest, '/').len() + 1);
    } else {
        let m = a.len() as int;
        assert forall|i: int| 0 <= i < m implies s[i] != '/' by {
            assert(s[i] == a[i]);
        }
        lemma_index_of_is(s, '/', m);
        assert(parts =~= seq![a]);
        assert(names(parts[0]));
        assert(s.take(m) =~= a);
        assert(s.skip(m + 1) =~= r);
        lemma_index_of(r, '/');
        assert(behind(r, 0) == r);
        assert(parts.len() == 1);
    }
}

/// A checkout that was made under a name is listed under that name.
pub proof fn law_a_checkout_is_listed_under_its_name(root: Seq<char>, name: Seq<char>)
    requires
        plain_path(root),
        name.len() > 0,
        all_telling(name),
    ensures
        name_form(target(root, name), root, false) == name,
        within(target(root, name), root),
{
    lemma_dots();
    reveal_strlit(".worktrees");
    reveal_strlit(".worktrees/");
    let w = ".worktrees"@;
    let a = root.skip(1);
    assert(part_at(a, last_index_of(a, '/') + 1, a.len() as int)) by {
        lemma_last_index_of(a, '/');
    }
    lemma_last_index_of(a, '/');
    assert(telling(a, last_index_of(a, '/') + 1, a.len() as int));
    assert(root.last() == a.last());
    assert(root.last() != '/') by {
        if root.last() == '/' {
            assert(part_at(a, a.len() as int, a.len() as int));
        }
    }
    let p = target(root, name);
    let rest = w + seq!['/'] + name;
    assert(".worktrees/"@ =~= w + seq!['/']);
    assert(p =~= root + seq!['/'] + rest);
    assert(p.skip(1) =~= a + seq!['/'] + rest);
    lemma_split_slash(a, rest);
    lemma_split_slash(w, name);
    lemma_index_of_is(w, '/', w.len() as int);
    assert(split(w, '/') =~= seq![w]);
    lemma_telling(a);
    lemma_telling(name);
    lemma_telling(p.skip(1));
    assert(names(w));
    let parts = split(p.skip(1), '/');
    assert(parts =~= split(a, '/') + (seq![w] + split(name, '/')));
    assert forall|k: int| 0 <= k < parts.len() implies names(#[trigger] parts[k]) by {
        let n = split(a, '/').len();
        if k < n {
            assert(names(split(a, '/')[k]));
        } else if k > n {
            assert(names(split(name, '/')[k - n - 1]));
        }
    }
    lemma_plain_steps(root);
    lemma_plain_steps(p);
    let base = worktrees_of(root);
    assert(steps(p).take(base.len() as int) =~= base);
    let lead = a + seq!['/'] + w;
    assert(p.skip(1) =~= lead + seq!['/'] + name);
    lemma_split_slash(a, w);
    lemma_telling(lead);
    let led = split(lead, '/');
    assert forall|k: int| 0 <= k < led.len() implies names(#[trigger] led[k]) by {
        if k < split(a, '/').len() {
            assert(names(split(a, '/')[k]));
        }
    }
    lemma_index_of(name, '/');
    let n = index_of(name, '/');
    assert(part_at(name, 0, n));
    assert(telling(name, 0, n));
    assert(names(name.take(n))) by {
        if name.take(n) == "."@ {
            assert(name.take(n).len() == 1 && name.take(n)[0] == '.');
        }
    }
    lemma_behind(lead, name);
    assert(led.len() == base.len() - head(p).len());
    lemma_last_index_of(name, '/');
    let m = last_index_of(name, '/') + 1;
    assert(part_at(name, m, name.len() as int));
    assert(telling(name, m, name.len() as int));
    assert(names(name.skip(m))) by {
        if name.skip(m) == "."@ {
            assert(name.skip(m).len() == 1 && name.skip(m)[0] == '.');
        }
    }
    assert(closed_off(name) == name);
    assert(steps(p).take(steps(root).len() as int) =~= steps(root));
}

// ---------------------------------------------------------------------------
// Names
// ---------------------------------------------------------------------------

/// Whether a name is one for a checkout: letters, digits, dots, underscores,
/// dashes and slashes; no dash or slash in front and no slash behind; and every
/// part something other than a step to here or above.
pub open spec fn fit_name(n: Seq<char>) -> bool {
    &&& n.len() > 0
    &&& n[0] != '-' && n[0] != '/' && n[n.len() - 1] != '/'
    &&& forall|i: int|
        0 <= i < n.len() ==> ({
            let c = #[trigger] n[i];
            ('a' <= c <= 'z') || ('A' <= c <= 'Z') || ('0' <= c <= '9') || c == '.' || c == '_' || c
                == '-' || c == '/'
        })
    &&& forall|i: int, j: int| #[trigger]
        part_at(n, i, j) ==> telling(n, i, j) && !(j == i + 2 && n[i] == '.' && n[i + 1] == '.')
}

proof fn lemma_bad_letter(s: Seq<char>)
    ensures
        bad_letter(s) is None <==> forall|i: int| 0 <= i < s.len() ==> name_letter(#[trigger] s[i]),
        bad_letter(s) matches Some(c) ==> s.contains(c) && !name_letter(c),
    decreases s.len(),
{
    if s.len() > 0 {
        let t = s.skip(1);
        lemma_bad_letter(t);
        if !name_letter(s[0]) {
            assert(s.contains(s[0]));
        } else {
            if bad_letter(t) is None {
                assert forall|i: int| 0 <= i < s.len() implies name_letter(#[trigger] s[i]) by {
                    if i > 0 {
                        assert(t[i - 1] == s[i]);
                    }
                }
            } else {
                let c = bad_letter(t)->Some_0;
                let k = choose|k: int| 0 <= k < t.len() && t[k] == c;
                assert(s[k + 1] == c);
            }
        }
    }
}

proof fn lemma_without_slashes(s: Seq<char>)
    ensures
        without_slashes(s).len() <= s.len(),
        without_slashes(s) == s.take(without_slashes(s).len() as int),
        without_slashes(s).len() > 0 ==> without_slashes(s).last() != '/',
        forall|i: int| without_slashes(s).len() <= i < s.len() ==> #[trigger] s[i] == '/',
    decreases s.len(),
{
    if s.len() > 0 && s.last() == '/' {
        lemma_without_slashes(s.drop_last());
        let t = without_slashes(s);
        assert(s.drop_last().take(t.len() as int) =~= s.take(t.len() as int));
        assert forall|i: int| t.len() <= i < s.len() implies #[trigger] s[i] == '/' by {
            if i < s.len() - 1 {
                assert(s.drop_last()[i] == s[i]);
            }
        }
    } else {
        assert(s.take(s.len() as int) =~= s);
    }
}

/// A name is taken where, without the white around it and the slashes behind it,
/// it is a fit one; and that is what it is taken as.
pub proof fn law_a_fit_name_is_taken(name: Seq<char>)
    ensures
        ({
            let n = without_slashes(trim(name));
            &&& vet(name) is Ok <==> fit_name(n)
            &&& vet(name) is Ok ==> vet(name)->Ok_0 == n
            &&& n.len() <= trim(name).len()
            &&& n == trim(name).take(n.len() as int)
            &&& forall|i: int| n.len() <= i < trim(name).len() ==> #[trigger] trim(name)[i] == '/'
        }),
{
    lemma_dots();
    let n = without_slashes(trim(name));
    lemma_without_slashes(trim(name));
    lemma_bad_letter(n);
    let all = split(n, '/');
    if vet(name) is Ok {
        assert forall|i: int, j: int| #[trigger] part_at(n, i, j) implies telling(n, i, j) && !(j == i
            + 2 && n[i] == '.' && n[i + 1] == '.') by {
            lemma_split_parts(n, i, j);
            let k = choose|k: int| 0 <= k < all.len() && #[trigger] all[k] == n.subrange(i, j);
            assert(!stray(all[k]));
            if j == i + 1 && n[i] == '.' {
                assert(n.subrange(i, j) =~= seq!['.']);
            }
            if j == i + 2 && n[i] == '.' && n[i + 1] == '.' {
                assert(n.subrange(i, j) =~= seq!['.', '.']);
            }
        }
        assert forall|i: int| 0 <= i < n.len() implies ({
            let c = #[trigger] n[i];
            ('a' <= c <= 'z') || ('A' <= c <= 'Z') || ('0' <= c <= '9') || c == '.' || c == '_' || c
                == '-' || c == '/'
        }) by {
            assert(name_letter(n[i]));
        }
        assert(fit_name(n));
    }
    if fit_name(n) {
        assert forall|k: int| 0 <= k < all.len() implies !stray(#[trigger] all[k]) by {
            lemma_parts_split(n, k);
            let (i, j) = choose|i: int, j: int| #[trigger]
                part_at(n, i, j) && all[k] == n.subrange(i, j);
            assert(telling(n, i, j));
            assert(all[k].len() == j - i);
            assert(all[k][0] == n[i]);
            if j == i + 2 {
                assert(all[k][1] == n[i + 1]);
            }
            if all[k] == ".."@ {
                assert(all[k][0] == '.' && all[k][1] == '.');
            }
            if all[k] == "."@ {
                assert(all[k][0] == '.');
            }
        }
        assert forall|i: int| 0 <= i < n.len() implies name_letter(#[trigger] n[i]) by {}
    }
}

// ---------------------------------------------------------------------------
// Listings
// ---------------------------------------------------------------------------

/// Whether a line starts with some text.
pub open spec fn leads(line: Seq<char>, text: Seq<char>) -> bool {
    line.len() >= text.len() && forall|i: int| 0 <= i < text.len() ==> line[i] == #[trigger] text[i]
}

proof fn lemma_leads(line: Seq<char>, text: Seq<char>)
    ensures
        starts(line, text) == leads(line, text),
{
    if line.len() >= text.len() {
        let front = line.take(text.len() as int);
        if leads(line, text) {
            assert forall|i: int| 0 <= i < text.len() implies front[i] == text[i] by {
                assert(line[i] == text[i]);
            }
            assert(front =~= text);
        }
        if front == text {
            assert forall|i: int| 0 <= i < text.len() implies line[i] == #[trigger] text[i] by {
                assert(front[i] == line[i]);
            }
        }
    }
}

/// The lines of a listing that say nothing of which checkout or branch it is
/// leave what was read; the two that do say it: a path starts an entry, and a
/// branch names the one before, in short.
pub proof fn law_a_listing_is_read_entry_by_entry(
    all: Seq<Seq<char>>,
    path: Seq<char>,
    branch: Seq<char>,
    other: Seq<char>,
)
    requires
        !leads(other, "worktree "@),
        !leads(other, "branch "@),
        !leads(branch, "refs/heads/"@),
    ensures
        ({
            let was = trees_in(all);
            let one = trees_in(all.push("worktree "@ + path));
            let two = trees_in(all.push("worktree "@ + path).push("branch refs/heads/"@ + branch));
            &&& trees_in(all.push(other)) == was
            &&& one.len() == was.len() + 1
            &&& one.take(was.len() as int) == was
            &&& one.last().path == path
            &&& one.last().branch is None
            &&& one.last().main == (was.len() == 0)
            &&& two.len() == was.len() + 1
            &&& two.take(was.len() as int) == was
            &&& two.last().path == path
            &&& two.last().name == one.last().name
            &&& two.last().branch == Some(branch)
        }),
{
    lemma_leads(other, "worktree "@);
    lemma_leads(other, "branch "@);
    lemma_leads(branch, "refs/heads/"@);
    reveal_strlit("worktree ");
    reveal_strlit("branch ");
    reveal_strlit("refs/heads/");
    reveal_strlit("branch refs/heads/");
    let was = trees_in(all);
    assert(all.push(other).drop_last() =~= all);
    let w = "worktree "@ + path;
    let first = all.push(w);
    assert(first.drop_last() =~= all);
    assert(w.take("worktree "@.len() as int) =~= "worktree "@);
    assert(w.skip("worktree "@.len() as int) =~= path);
    let one = trees_in(first);
    assert(one.take(was.len() as int) =~= was);
    let b = "branch refs/heads/"@ + branch;
    assert(first.push(b).drop_last() =~= first);
    assert(b.take("branch "@.len() as int) =~= "branch "@);
    assert(!starts(b, "worktree "@)) by {
        if starts(b, "worktree "@) {
            assert(b.take("worktree "@.len() as int)[0] == b[0]);
        }
    }
    let tail = b.skip("branch "@.len() as int);
    assert(tail =~= "refs/heads/"@ + branch);
    assert(tail.take("refs/heads/"@.len() as int) =~= "refs/heads/"@);
    assert(tail.skip("refs/heads/"@.len() as int) =~= branch);
    assert(without_head(branch, "refs/heads/"@) == branch);
    assert(without_head(tail, "refs/heads/"@) == branch);
    let two = trees_in(first.push(b));
    assert(two == trees_after(one, b));
    assert(two.take(was.len() as int) =~= was);
}

// ---------------------------------------------------------------------------
// What git says
// ---------------------------------------------------------------------------

/// Whether `i..b` is what the last line with anything on it says: its line starts
/// at `j`, and only white stands around it on that line and behind it.
pub open spec fn last_said(said: Seq<char>, j: int, i: int, b: int) -> bool {
    &&& 0 <= j <= i < b <= said.len()
    &&& j == 0 || said[j - 1] == '\n'
    &&& !is_white(said[i]) && !is_white(said[b - 1])
    &&& forall|m: int| j <= m < i || b <= m < said.len() ==> is_white(#[trigger] said[m])
    &&& forall|m: int| i <= m < b ==> #[trigger] said[m] != '\n'
}

proof fn lemma_last_line(t: Seq<char>) -> (k: int)
    requires
        t.len() > 0,
        t.last() != '\n',
    ensures
        0 <= k < t.len(),
        k == 0 || t[k - 1] == '\n',
        lines(t).len() > 0,
        lines(t).last() == t.skip(k),
        forall|m: int| k <= m < t.len() ==> #[trigger] t[m] != '\n',
    decreases t.len(),
{
    lemma_index_of(t, '\n');
    let n = index_of(t, '\n');
    if n >= t.len() {
        assert(t.skip(0) =~= t);
        0
    } else {
        let rest = t.skip(n + 1);
        assert(n + 1 < t.len());
        assert(rest.last() == t.last());
        let r = lemma_last_line(rest);
        let k = n + 1 + r;
        assert(rest.skip(r) =~= t.skip(k));
        assert(lines(t).last() == lines(rest).last());
        assert forall|m: int| k <= m < t.len() implies #[trigger] t[m] != '\n' by {
            assert(rest[m - n - 1] != '\n');
        }
        if r > 0 {
            assert(t[k - 1] == rest[r - 1]);
        }
        k
    }
}

proof fn lemma_break_white()
    ensures
        is_white('\n'),
{
}

/// A failure is told by the last line git printed that says anything, and by a
/// word of our own where it printed none.
pub proof fn law_a_failure_is_told_by_the_last_line(said: Seq<char>)
    ensures
        blank(said) ==> complaint(said) == "git failed"@,
        !blank(said) ==> exists|j: int, i: int, b: int|
            #[trigger] last_said(said, j, i, b) && complaint(said) == said.subrange(i, b),
{
    lemma_break_white();
    lemma_trim_start(said);
    let front = trim_start(said);
    lemma_trim_end(front);
    let t = trim(said);
    let a = said.len() - front.len();
    let b = a + t.len();
    assert(t =~= said.subrange(a, b));
    if blank(said) {
        if t.len() > 0 {
            assert(is_white(said[a]));
        }
    } else {
        if t.len() == 0 {
            assert forall|m: int| 0 <= m < said.len() implies is_white(#[trigger] said[m]) by {
                if m >= a {
                    assert(front[m - a] == said[m]);
                }
            }
        }
        let k = lemma_last_line(t);
        let line = t.skip(k);
        lemma_trim_start(line);
        let cut = trim_start(line);
        assert(line.last() == t.last());
        if cut.len() == 0 {
            assert(is_white(line[line.len() - 1]));
        }
        lemma_trim_end(cut);
        assert(cut.last() == line.last());
        let told = trim_end(cut);
        if told.len() < cut.len() {
            assert(is_white(cut[cut.len() - 1]));
        }
        assert(told =~= cut);
        let i = b - cut.len();
        let j = if k == 0 {
            0
        } else {
            a + k
        };
        assert(cut =~= said.subrange(i, b));
        if k > 0 {
            assert(said[j - 1] == t[k - 1]);
        }
        assert(said[b - 1] == t.last());
        assert(said[i] == cut[0]);
        assert forall|m: int| j <= m < i || b <= m < said.len() implies is_white(
            #[trigger] said[m],
        ) by {
            if m >= b {
                assert(front[m - a] == said[m]);
            } else if m >= a + k {
                assert(line[m - a - k] == said[m]);
            }
        }
        assert forall|m: int| i <= m < b implies #[trigger] said[m] != '\n' by {
            assert(t[m - a] == said[m]);
        }
        assert(last_said(said, j, i, b));
    }
}

/// A path is in the checkout with the longest path that leads it, told by its
/// name; the repository's own checkout is not told, nor is what is outside.
pub proof fn law_a_path_is_told_by_its_checkout(trees: Seq<WorktreeView>, path: Seq<char>)
    ensures
        current_name(trees, path) matches Some(name) ==> exists|i: int|
            0 <= i < trees.len() && within(path, (#[trigger] trees[i]).path) && trees[i].name
                == name && !trees[i].main && forall|k: int|
                0 <= k < trees.len() && within(path, (#[trigger] trees[k]).path) ==> bytes_len(
                    trees[k].path,
                ) <= bytes_len(trees[i].path),
        current_name(trees, path) is None ==> forall|i: int|
            0 <= i < trees.len() && within(path, (#[trigger] trees[i]).path) ==> exists|k: int|
                0 <= k < trees.len() && (#[trigger] trees[k]).main && within(path, trees[k].path)
                    && bytes_len(trees[i].path) <= bytes_len(trees[k].path),
{
    lemma_holder(trees, path);
    if current_name(trees, path) is Some {
        let i = holder(trees, path)->Some_0;
        assert forall|k: int|
            0 <= k < trees.len() && within(path, (#[trigger] trees[k]).path) implies bytes_len(
            trees[k].path,
        ) <= bytes_len(trees[i].path) by {
            law_the_longest_checkout_holds(trees, path, k);
        }
        assert(within(path, trees[i].path));
    } else {
        assert forall|i: int|
            0 <= i < trees.len() && within(path, (#[trigger] trees[i]).path) implies exists|k: int|
            0 <= k < trees.len() && (#[trigger] trees[k]).main && within(path, trees[k].path)
                && bytes_len(trees[i].path) <= bytes_len(trees[k].path) by {
            law_the_longest_checkout_holds(trees, path, i);
            let k = holder(trees, path)->Some_0;
            assert(trees[k].main);
        }
    }
}

} // verus!
