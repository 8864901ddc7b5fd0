//! Finding what an anchor names: its spellings, its places, and the closest
//! line where it has none.

use crate::hashline::landing::{
    above, candidate, candidates, closeness, covering, crlf, crlf_form, crlf_spellings, ending,
    found, first_spans, has_crlf, innermost, is_address, lf_form, likeness, line_of, line_start,
    longer, nearest, past_address, plain_spellings, row_at, shared, spans, spellings, spliced,
    translated, without_address, Ratio,
};
use crate::text::{
    contains, copy_range, crop, cropped, decimal, decimal_of, digit, ends, find_all, has, index_of,
    is_blank, is_digit, join_rows, lemma_index_of, lines, occurrences, occurs_at, position,
    push_all, push_text, rows, same, split, split_of, trimmed, trimmed_start,
};
use vstd::multiset::*;
use vstd::prelude::*;
use vstd::seq_lib::*;

verus! {

/// The text of an optional row.
pub open spec fn seen(r: Option<Vec<char>>) -> Option<Seq<char>> {
    match r {
        Some(v) => Some(v@),
        None => None,
    }
}

/// Spans of machine integers as spans of integers.
pub open spec fn wide(v: Seq<(usize, usize)>) -> Seq<(int, int)> {
    Seq::new(v.len(), |i: int| (v[i].0 as int, v[i].1 as int))
}

/// Whether the file breaks any line with `\r\n`.
pub fn breaks_crlf(body: &[char]) -> (r: bool)
    ensures
        r == has_crlf(body@),
{
    let mut pair: Vec<char> = Vec::new();
    pair.push('\r');
    pair.push('\n');
    assert(pair@ =~= crlf());
    contains(body, pair.as_slice())
}

/// Text as the file spells it, so one edit never mixes endings inside a file.
pub fn translate(text: &[char], crlf_file: bool) -> (r: Vec<char>)
    ensures
        r@ == translated(text@, crlf_file),
{
    if !crlf_file {
        let r = copy_range(text, 0, text.len());
        assert(r@ =~= text@);
        return r;
    }
    let mut r: Vec<char> = Vec::new();
    let mut i: usize = 0;
    while i < text.len()
        invariant
            i <= text@.len(),
            r@ == crlf_form(text@.take(i as int)),
        decreases text@.len() - i,
    {
        let ghost head = text@.take(i + 1);
        assert(head.drop_last() =~= text@.take(i as int));
        assert(head.last() == text@[i as int]);
        if text[i] == '\n' && !(i >= 1 && text[i - 1] == '\r') {
            let ghost before = r@;
            r.push('\r');
            r.push('\n');
            assert(r@ =~= before + crlf());
        } else {
            r.push(text[i]);
        }
        i += 1;
    }
    assert(text@.take(i as int) =~= text@);
    r
}

fn plain_form(s: &[char]) -> (r: Vec<char>)
    ensures
        r@ == lf_form(s@),
{
    let mut r: Vec<char> = Vec::new();
    let mut i: usize = 0;
    assert(s@.skip(0) =~= s@);
    assert(r@ + lf_form(s@) =~= lf_form(s@));
    while i < s.len()
        invariant
            i <= s@.len(),
            r@ + lf_form(s@.skip(i as int)) == lf_form(s@),
        decreases s@.len() - i,
    {
        let ghost rest = s@.skip(i as int);
        assert(rest.skip(1) =~= s@.skip(i + 1));
        if i + 1 < s.len() && s[i] == '\r' && s[i + 1] == '\n' {
            assert(rest[1] == s@[i + 1]);
        } else {
            let ghost before = r@;
            r.push(s[i]);
            assert(r@ + lf_form(s@.skip(i + 1)) =~= before + (seq![s@[i as int]] + lf_form(
                s@.skip(i + 1),
            )));
        }
        i += 1;
    }
    assert(s@.skip(i as int) =~= Seq::empty());
    assert(r@ + lf_form(s@.skip(i as int)) =~= r@);
    r
}

/// A block's new text, spliced the way its lines were.
pub fn splice(region: &[char], new: &[char], crlf_file: bool) -> (r: Vec<char>)
    ensures
        r@ == spliced(region@, new@, ending(crlf_file)),
{
    let plain = plain_form(new);
    let mut term: Vec<char> = Vec::new();
    if crlf_file {
        term.push('\r');
    }
    term.push('\n');
    assert(term@ =~= ending(crlf_file));
    if plain.len() == 0 {
        return plain;
    }
    let mut parts = split_of(plain.as_slice(), '\n');
    let closed = plain[plain.len() - 1] == '\n';
    proof {
        let tail = plain@.skip(plain@.len() - 1);
        assert(tail =~= seq![plain@.last()]);
        assert(tail[0] == plain@.last());
        assert(seq!['\n'][0] == '\n');
        assert(ends(plain@, seq!['\n']) == closed);
    }
    if closed {
        let ghost all = rows(parts@);
        let _ = parts.pop();
        assert(rows(parts@) =~= all.drop_last());
    }
    let mut out = join_rows(parts.as_slice(), term.as_slice());
    let kept = region.len() > 0 && region[region.len() - 1] == '\n';
    proof {
        if region@.len() > 0 {
            let tail = region@.skip(region@.len() - 1);
            assert(tail =~= seq![region@.last()]);
            assert(tail[0] == region@.last());
            assert(seq!['\n'][0] == '\n');
        }
        assert(ends(region@, seq!['\n']) == kept);
    }
    if kept {
        push_all(&mut out, term.as_slice());
    }
    out
}

// ---------------------------------------------------------------------------
// Addresses
// ---------------------------------------------------------------------------

fn all_digits(p: &[char]) -> (r: bool)
    ensures
        r == (p@.len() > 0 && forall|j: int| 0 <= j < p@.len() ==> is_digit(#[trigger] p@[j])),
{
    if p.len() == 0 {
        return false;
    }
    let mut i: usize = 0;
    while i < p.len()
        invariant
            i <= p@.len(),
            forall|j: int| 0 <= j < i ==> is_digit(#[trigger] p@[j]),
        decreases p@.len() - i,
    {
        if !digit(p[i]) {
            return false;
        }
        i += 1;
    }
    true
}

fn address_head(head: &[char]) -> (r: bool)
    ensures
        r == is_address(head@),
{
    let parts = split_of(head, '-');
    let mut i: usize = 0;
    while i < parts.len()
        invariant
            i <= parts@.len(),
            rows(parts@) == split(head@, '-'),
            forall|k: int|
                0 <= k < i ==> {
                    let p = #[trigger] split(head@, '-')[k];
                    p.len() > 0 && forall|j: int| 0 <= j < p.len() ==> is_digit(#[trigger] p[j])
                },
        decreases parts@.len() - i,
    {
        assert(split(head@, '-')[i as int] == parts@[i as int]@);
        if !all_digits(parts[i].as_slice()) {
            return false;
        }
        i += 1;
    }
    true
}

/// What follows the `120-145:` a view prints in front of a line.
fn address(text: &[char]) -> (r: Option<Vec<char>>)
    ensures
        seen(r) == past_address(text@),
{
    let n = position(text, ':', 0);
    assert(text@.skip(0) =~= text@);
    if n < text.len() {
        let head = copy_range(text, 0, n);
        assert(head@ =~= text@.take(n as int));
        if address_head(head.as_slice()) {
            let rest = copy_range(text, n + 1, text.len());
            assert(rest@ =~= text@.skip(n + 1));
            return Some(rest);
        }
    }
    None
}

/// The anchor with its address taken off, when something is left to match: an
/// address on its own names no text, and nothing matches everywhere.
pub fn drop_address(text: &[char]) -> (r: Option<Vec<char>>)
    ensures
        seen(r) == without_address(text@),
{
    let first = address(text);
    let rest = match first {
        Some(rest) => Some(rest),
        None => {
            let inner = trimmed_start(text);
            address(inner.as_slice())
        },
    };
    match rest {
        Some(rest) => {
            if is_blank(rest.as_slice()) {
                None
            } else {
                Some(rest)
            }
        },
        None => None,
    }
}

// ---------------------------------------------------------------------------
// Places
// ---------------------------------------------------------------------------

/// What `occurrences` gives is in order, apart, and in the text.
pub proof fn lemma_occurrences(s: Seq<char>, needle: Seq<char>, from: int)
    requires
        from >= 0,
    ensures
        forall|i: int|
            0 <= i < occurrences(s, needle, from).len() ==> from <= #[trigger] occurrences(
                s,
                needle,
                from,
            )[i] && occurrences(s, needle, from)[i] + needle.len() <= s.len() && occurs_at(
                s,
                needle,
                occurrences(s, needle, from)[i],
            ),
        forall|i: int, j: int|
            0 <= i < j < occurrences(s, needle, from).len() ==> #[trigger] occurrences(
                s,
                needle,
                from,
            )[i] + needle.len() <= #[trigger] occurrences(s, needle, from)[j],
    decreases s.len() - from,
{
    let all = occurrences(s, needle, from);
    if needle.len() == 0 || from + needle.len() > s.len() {
        assert(all =~= Seq::empty());
    } else if occurs_at(s, needle, from) {
        let rest = occurrences(s, needle, from + needle.len());
        lemma_occurrences(s, needle, from + needle.len());
        assert(all == seq![from] + rest);
        assert forall|i: int| 0 <= i < all.len() implies from <= #[trigger] all[i] && all[i]
            + needle.len() <= s.len() && occurs_at(s, needle, all[i]) by {
            if i > 0 {
                assert(all[i] == rest[i - 1]);
            }
        }
        assert forall|i: int, j: int| 0 <= i < j < all.len() implies #[trigger] all[i]
            + needle.len() <= #[trigger] all[j] by {
            assert(all[j] == rest[j - 1]);
            if i > 0 {
                assert(all[i] == rest[i - 1]);
            }
        }
    } else {
        lemma_occurrences(s, needle, from + 1);
        assert(all == occurrences(s, needle, from + 1));
        assert forall|i: int| 0 <= i < all.len() implies from <= #[trigger] all[i] && all[i]
            + needle.len() <= s.len() && occurs_at(s, needle, all[i]) by {
            assert(from + 1 <= occurrences(s, needle, from + 1)[i]);
        }
    }
}

fn spans_of(body: &[char], needle: &[char]) -> (r: Vec<(usize, usize)>)
    ensures
        wide(r@) == spans(body@, needle@),
{
    let at = find_all(body, needle);
    let ghost all = occurrences(body@, needle@, 0);
    proof {
        lemma_occurrences(body@, needle@, 0);
    }
    let mut r: Vec<(usize, usize)> = Vec::new();
    let mut i: usize = 0;
    while i < at.len()
        invariant
            i <= at@.len(),
            r@.len() == i,
            at@.len() == all.len(),
            all == occurrences(body@, needle@, 0),
            body@.len() == body.len(),
            forall|k: int| 0 <= k < all.len() ==> at@[k] == all[k],
            forall|k: int| 0 <= k < all.len() ==> #[trigger] all[k] + needle@.len() <= body@.len(),
            forall|k: int|
                0 <= k < i ==> #[trigger] r@[k].0 == all[k] && r@[k].1 == all[k] + needle@.len(),
        decreases at@.len() - i,
    {
        assert(all[i as int] + needle@.len() <= body@.len());
        r.push((at[i], at[i] + needle.len()));
        i += 1;
    }
    assert(wide(r@) =~= spans(body@, needle@));
    r
}

fn tried(anchor: &[char], crlf_file: bool) -> (r: Vec<Vec<char>>)
    ensures
        rows(r@) == spellings(anchor@, crlf_file),
{
    let mut r: Vec<Vec<char>> = Vec::new();
    let whole = copy_range(anchor, 0, anchor.len());
    assert(whole@ =~= anchor@);
    r.push(whole);
    assert(rows(r@) =~= seq![anchor@]);
    if let Some(rest) = drop_address(anchor) {
        if !same(rest.as_slice(), anchor) {
            r.push(rest);
            assert(rows(r@) =~= seq![anchor@, rest@]);
        }
    }
    let ghost plain = rows(r@);
    assert(plain == plain_spellings(anchor@));
    if crlf_file {
        let n: usize = r.len();
        let mut i: usize = 0;
        assert(plain.take(0) =~= Seq::empty());
        assert(rows(r@) =~= plain + crlf_spellings(plain.take(0)));
        while i < n
            invariant
                i <= n == plain.len(),
                n <= r@.len(),
                rows(r@) == plain + crlf_spellings(plain.take(i as int)),
            decreases n - i,
        {
            assert(plain.take(i + 1).drop_last() =~= plain.take(i as int));
            assert(plain.take(i + 1).last() == plain[i as int]);
            assert(rows(r@)[i as int] == plain[i as int]);
            if has(r[i].as_slice(), '\n') {
                let ghost before = rows(r@);
                let t = translate(r[i].as_slice(), true);
                r.push(t);
                assert(rows(r@) =~= before.push(t@));
                assert(before.push(t@) =~= plain + crlf_spellings(plain.take(i as int)).push(t@));
            }
            i += 1;
        }
        assert(plain.take(i as int) =~= plain);
    }
    r
}

/// Every occurrence of the anchor, in order, tried as written first: the
/// spellings a view prints and a `\r\n` file writes are retries, not rewrites.
pub fn find(body: &[char], anchor: &[char], crlf_file: bool) -> (r: Vec<(usize, usize)>)
    requires
        crlf_file == has_crlf(body@),
    ensures
        wide(r@) == found(body@, anchor@),
{
    let spellings_of = tried(anchor, crlf_file);
    let ghost all = rows(spellings_of@);
    let mut i: usize = 0;
    assert(all.skip(0) =~= all);
    while i < spellings_of.len()
        invariant
            i <= spellings_of@.len(),
            all == rows(spellings_of@),
            all == spellings(anchor@, has_crlf(body@)),
            first_spans(body@, all.skip(i as int)) == first_spans(body@, all),
        decreases spellings_of@.len() - i,
    {
        let ghost rest = all.skip(i as int);
        assert(rest.skip(1) =~= all.skip(i + 1));
        let hits = spans_of(body, spellings_of[i].as_slice());
        assert(rest[0] == spellings_of@[i as int]@);
        if hits.len() > 0 {
            assert(wide(hits@).len() == hits@.len());
            return hits;
        }
        assert(wide(hits@).len() == 0);
        i += 1;
    }
    assert(all.skip(i as int) =~= Seq::empty());
    let r: Vec<(usize, usize)> = Vec::new();
    assert(wide(r@) =~= Seq::empty());
    r
}

/// The places an anchor names are in order, apart, and in the text.
pub proof fn lemma_found(body: Seq<char>, tried: Seq<Seq<char>>)
    ensures
        forall|i: int|
            0 <= i < first_spans(body, tried).len() ==> 0 <= (#[trigger] first_spans(
                body,
                tried,
            )[i]).0 <= first_spans(body, tried)[i].1 <= body.len(),
    decreases tried.len(),
{
    if tried.len() > 0 {
        let at = occurrences(body, tried[0], 0);
        lemma_occurrences(body, tried[0], 0);
        lemma_found(body, tried.skip(1));
        assert forall|i: int| 0 <= i < spans(body, tried[0]).len() implies 0 <= (#[trigger] spans(
            body,
            tried[0],
        )[i]).0 <= spans(body, tried[0])[i].1 <= body.len() by {
            assert(spans(body, tried[0])[i] == (at[i], at[i] + tried[0].len()));
        }
        let all = first_spans(body, tried);
        assert forall|i: int| 0 <= i < all.len() implies 0 <= (#[trigger] all[i]).0 <= all[i].1
            <= body.len() by {
            if spans(body, tried[0]).len() > 0 {
                assert(all[i] == spans(body, tried[0])[i]);
            } else {
                assert(all[i] == first_spans(body, tried.skip(1))[i]);
            }
        }
    }
}

// ---------------------------------------------------------------------------
// Lines of the file
// ---------------------------------------------------------------------------

/// The 1-based line that `at` sits on.
pub fn line_number(body: &[char], at: usize) -> (r: usize)
    requires
        at <= body@.len(),
    ensures
        r == line_of(body@, at as int),
{
    let mut n: usize = 1;
    let mut i: usize = 0;
    while i < at
        invariant
            i <= at <= body@.len(),
            n == line_of(body@, i as int),
        decreases at - i,
    {
        if body[i] == '\n' {
            n = n.saturating_add(1);
        }
        i += 1;
        assert(body@.take(i as int).drop_last() =~= body@.take(i - 1));
    }
    n
}

/// Where a line starts is in the text.
pub proof fn lemma_line_start(body: Seq<char>, k: int)
    ensures
        0 <= line_start(body, k) <= body.len(),
    decreases body.len(),
{
    lemma_index_of(body, '\n');
    let n = index_of(body, '\n');
    if k > 0 && n < body.len() {
        lemma_line_start(body.skip(n + 1), k - 1);
    }
}

/// A later line starts no earlier.
pub proof fn lemma_line_start_order(body: Seq<char>, j: int, k: int)
    requires
        j <= k,
    ensures
        line_start(body, j) <= line_start(body, k),
    decreases body.len(),
{
    lemma_index_of(body, '\n');
    lemma_line_start(body, k);
    let n = index_of(body, '\n');
    if j > 0 && n < body.len() {
        lemma_line_start_order(body.skip(n + 1), j - 1, k - 1);
    }
}

/// Where line `k`, counted from 0, starts; the end of the text past the last.
pub fn start_of_line(body: &[char], k: usize) -> (r: usize)
    ensures
        r == line_start(body@, k as int),
        r <= body@.len(),
{
    let mut i: usize = 0;
    let mut left: usize = k;
    assert(body@.skip(0) =~= body@);
    while left > 0
        invariant
            i <= body@.len(),
            left <= k,
            i + line_start(body@.skip(i as int), left as int) == line_start(body@, k as int),
        decreases left,
    {
        let n = position(body, '\n', i);
        proof {
            lemma_index_of(body@.skip(i as int), '\n');
        }
        if n >= body.len() {
            assert(body@.skip(i as int).len() == body@.len() - i);
            return n;
        }
        assert(body@.skip(i as int).skip(n - i + 1) =~= body@.skip(n + 1));
        i = n + 1;
        left -= 1;
    }
    i
}

/// The row of line `n`, counted from 1; empty where there is none.
pub fn row_of(all: &[Vec<char>], n: usize) -> (r: Vec<char>)
    ensures
        r@ == row_at(rows(all@), n as int),
{
    if n >= 1 && n <= all.len() {
        let v = &all[n - 1];
        let r = copy_range(v.as_slice(), 0, v.len());
        assert(r@ =~= rows(all@)[n - 1]);
        r
    } else {
        let r: Vec<char> = Vec::new();
        assert(r@ =~= Seq::empty());
        r
    }
}

// ---------------------------------------------------------------------------
// The closest line
// ---------------------------------------------------------------------------

/// One more character of `a` is shared exactly where `pool`, what is left of
/// `b` once everything shared so far is taken out, still holds it.
proof fn lemma_shared_step(a: Seq<char>, c: char, b: Seq<char>, pool: Seq<char>)
    requires
        pool.to_multiset() == b.to_multiset().sub(
            a.to_multiset().intersection_with(b.to_multiset()),
        ),
    ensures
        pool.contains(c) ==> shared(a.push(c), b) == shared(a, b) + 1,
        !pool.contains(c) ==> shared(a.push(c), b) == shared(a, b),
        forall|i: int|
            0 <= i < pool.len() && pool[i] == c ==> (#[trigger] pool.remove(i)).to_multiset()
                == b.to_multiset().sub(
                a.push(c).to_multiset().intersection_with(b.to_multiset()),
            ),
        !pool.contains(c) ==> pool.to_multiset() == b.to_multiset().sub(
            a.push(c).to_multiset().intersection_with(b.to_multiset()),
        ),
{
    broadcast use group_multiset_axioms;
    broadcast use group_multiset_properties;

    a.to_multiset_ensures();
    b.to_multiset_ensures();
    pool.to_multiset_ensures();
    let x = a.to_multiset();
    let y = b.to_multiset();
    let z = pool.to_multiset();
    let xc = a.push(c).to_multiset();
    assert(xc =~= x.insert(c));
    let both = x.intersection_with(y);
    assert forall|d: char| #[trigger] both.count(d) <= y.count(d) by {
        lemma_intersection_count(x, y, d);
    }
    assert(z.count(c) == y.count(c) - both.count(c));
    if pool.contains(c) {
        assert(z.count(c) > 0);
        assert(xc.intersection_with(y) =~= both.insert(c)) by {
            assert forall|d: char| #[trigger]
                xc.intersection_with(y).count(d) == both.insert(c).count(d) by {
                lemma_intersection_count(xc, y, d);
                lemma_intersection_count(x, y, d);
            }
        }
        assert forall|i: int| 0 <= i < pool.len() && pool[i] == c implies (#[trigger] pool.remove(
            i,
        )).to_multiset() == y.sub(xc.intersection_with(y)) by {
            assert(pool.remove(i).to_multiset() =~= z.remove(c));
            assert(z.remove(c) =~= y.sub(xc.intersection_with(y)));
        }
    } else {
        assert(z.count(c) == 0);
        assert(xc.intersection_with(y) =~= both) by {
            assert forall|d: char| #[trigger]
                xc.intersection_with(y).count(d) == both.count(d) by {
                lemma_intersection_count(xc, y, d);
                lemma_intersection_count(x, y, d);
            }
        }
    }
}

/// How many characters two lines share, counted with repetition.
fn count_shared(a: &[char], b: &[char]) -> (n: usize)
    ensures
        n == shared(a@, b@),
        n <= a@.len(),
{
    let mut pool: Vec<char> = copy_range(b, 0, b.len());
    assert(pool@ =~= b@);
    let mut n: usize = 0;
    let mut i: usize = 0;
    proof {
        broadcast use group_multiset_axioms;
        broadcast use group_multiset_properties;

        let bag = b@.to_multiset();
        let none = a@.take(0).to_multiset();
        a@.take(0).to_multiset_ensures();
        assert(none.len() == 0);
        assert(none.intersection_with(bag) =~= Multiset::empty()) by {
            assert forall|d: char| #[trigger] none.intersection_with(bag).count(d) == 0 by {
                lemma_intersection_count(none, bag, d);
            }
        }
        assert(bag.sub(Multiset::empty()) =~= bag);
    }
    while i < a.len()
        invariant
            i <= a@.len(),
            n <= i,
            n == shared(a@.take(i as int), b@),
            pool@.to_multiset() == b@.to_multiset().sub(
                a@.take(i as int).to_multiset().intersection_with(b@.to_multiset()),
            ),
        decreases a@.len() - i,
    {
        proof {
            assert(a@.take(i + 1) =~= a@.take(i as int).push(a@[i as int]));
            lemma_shared_step(a@.take(i as int), a@[i as int], b@, pool@);
        }
        let at = position(pool.as_slice(), a[i], 0);
        if at < pool.len() {
            assert(pool@[at as int] == a@[i as int]);
            assert(pool@.contains(a@[i as int]));
            let _ = pool.remove(at);
            n += 1;
        } else {
            assert(!pool@.contains(a@[i as int]));
        }
        i += 1;
    }
    assert(a@.take(i as int) =~= a@);
    n
}

fn longer_of(a: &[char], b: &[char]) -> (n: usize)
    ensures
        n == longer(a@, b@),
        n >= 1,
{
    if a.len() == 0 && b.len() == 0 {
        1
    } else if a.len() >= b.len() {
        a.len()
    } else {
        b.len()
    }
}

/// How close a row is to what was wanted: the best ratio found, and whether
/// any was.
struct Score {
    some: bool,
    num: usize,
    den: usize,
}

impl Score {
    spec fn ratio(self) -> Ratio {
        if self.some {
            (self.num as int, self.den as int)
        } else {
            (-1, 1)
        }
    }

    spec fn valid(self) -> bool {
        self.den >= 1
    }

    fn beats(&self, other: &Score) -> (r: bool)
        requires
            self.valid(),
            other.valid(),
        ensures
            r == above(self.ratio(), other.ratio()),
    {
        if !self.some {
            proof {
                if other.some {
                    assert(-1 * other.den as int <= 0) by (nonlinear_arith)
                        requires
                            other.den >= 1,
                    ;
                }
            }
            return false;
        }
        if !other.some {
            assert(self.num as int * 1 > -1 * self.den as int) by (nonlinear_arith)
                requires
                    self.den >= 1,
            ;
            return true;
        }
        assert(self.num as u128 * other.den as u128 <= u64::MAX as u128 * u64::MAX as u128)
            by (nonlinear_arith)
            requires
                self.num as u128 <= u64::MAX as u128,
                other.den as u128 <= u64::MAX as u128,
        ;
        assert(other.num as u128 * self.den as u128 <= u64::MAX as u128 * u64::MAX as u128)
            by (nonlinear_arith)
            requires
                other.num as u128 <= u64::MAX as u128,
                self.den as u128 <= u64::MAX as u128,
        ;
        assert(u64::MAX as u128 * u64::MAX as u128 <= u128::MAX) by (nonlinear_arith);
        self.num as u128 * other.den as u128 > other.num as u128 * self.den as u128
    }
}

fn score_of(row: &[char], wanted: &[Vec<char>]) -> (s: Score)
    ensures
        s.valid(),
        s.ratio() == closeness(row@, rows(wanted@)),
{
    let mut best = Score { some: false, num: 0, den: 1 };
    let mut i: usize = 0;
    while i < wanted.len()
        invariant
            i <= wanted@.len(),
            best.valid(),
            best.ratio() == closeness(row@, rows(wanted@).take(i as int)),
        decreases wanted@.len() - i,
    {
        let ghost t = rows(wanted@).take(i + 1);
        assert(t.drop_last() =~= rows(wanted@).take(i as int));
        assert(t.last() == wanted@[i as int]@);
        let num = count_shared(row, wanted[i].as_slice());
        let den = longer_of(row, wanted[i].as_slice());
        let s = Score { some: true, num, den };
        assert(s.ratio() == likeness(row@, wanted@[i as int]@));
        if s.beats(&best) {
            best = s;
        }
        i += 1;
    }
    assert(rows(wanted@).take(i as int) =~= rows(wanted@));
    best
}

/// The closest of the lines `lo..=hi`, so a refusal points at one.
pub fn nearest_line(all: &[Vec<char>], wanted: &[Vec<char>], lo: usize, hi: usize) -> (r: usize)
    requires
        lo <= hi,
    ensures
        r == nearest(rows(all@), rows(wanted@), lo as int, hi as int),
        lo <= r <= hi,
{
    let mut best: usize = lo;
    let mut n: usize = lo;
    let first = row_of(all, lo);
    let mut top = score_of(first.as_slice(), wanted);
    while n < hi
        invariant
            lo <= n <= hi,
            lo <= best <= n,
            best == nearest(rows(all@), rows(wanted@), lo as int, n as int),
            top.valid(),
            top.ratio() == closeness(row_at(rows(all@), best as int), rows(wanted@)),
        decreases hi - n,
    {
        n += 1;
        let row = row_of(all, n);
        let s = score_of(row.as_slice(), wanted);
        if s.beats(&top) {
            top = s;
            best = n;
        }
    }
    best
}

// ---------------------------------------------------------------------------
// The candidates of an ambiguous anchor
// ---------------------------------------------------------------------------

/// The opening line of the block a line sits in, innermost first.
pub fn cover(at: usize, all: &[Vec<char>], extents: &[(usize, usize)]) -> (r: Option<Vec<char>>)
    ensures
        seen(r) == covering(at as int, rows(all@), extents@),
{
    let mut best: Option<usize> = None;
    let mut i: usize = 0;
    while i < extents.len()
        invariant
            i <= extents@.len(),
            match best {
                Some(j) => innermost(extents@.take(i as int), at as int) == Some(j as int) && j < i
                    && extents@[j as int].0 <= at <= extents@[j as int].1,
                None => innermost(extents@.take(i as int), at as int) is None,
            },
        decreases extents@.len() - i,
    {
        let ghost t = extents@.take(i + 1);
        assert(t.drop_last() =~= extents@.take(i as int));
        let s = extents[i].0;
        let e = extents[i].1;
        if s <= at && at <= e {
            match best {
                Some(j) => {
                    assert(extents@.take(i as int)[j as int] == extents@[j as int]);
                    if e - s < extents[j].1 - extents[j].0 {
                        best = Some(i);
                    }
                },
                None => {
                    best = Some(i);
                },
            }
        }
        i += 1;
    }
    assert(extents@.take(i as int) =~= extents@);
    match best {
        Some(j) => {
            let row = row_of(all, extents[j].0);
            Some(trimmed(row.as_slice()))
        },
        None => None,
    }
}

fn describe(at: usize, all: &[Vec<char>], extents: &[(usize, usize)]) -> (r: Vec<char>)
    ensures
        r@ == candidate(at as int, rows(all@), extents@),
{
    let mut r: Vec<char> = Vec::new();
    push_text(&mut r, "  line ");
    let d = decimal_of(at as u64);
    push_all(&mut r, d.as_slice());
    let held = cover(at, all, extents);
    let ghost mut said: Seq<char> = Seq::empty();
    if let Some(b) = held {
        push_text(&mut r, " in `");
        let c = crop(b.as_slice(), 60);
        push_all(&mut r, c.as_slice());
        push_text(&mut r, "`");
        proof {
            said = " in `"@ + cropped(b@, 60) + "`"@;
        }
    }
    assert(r@ =~= "  line "@ + decimal(at as nat) + said);
    let ghost mut before: Seq<char> = Seq::empty();
    if at >= 2 && at - 2 < all.len() {
        push_text(&mut r, ", preceded by `");
        let c = crop(all[at - 2].as_slice(), 60);
        push_all(&mut r, c.as_slice());
        push_text(&mut r, "`");
        proof {
            before = ", preceded by `"@ + cropped(rows(all@)[at - 2], 60) + "`"@;
        }
    }
    assert(r@ =~= "  line "@ + decimal(at as nat) + said + before);
    r
}

/// Why the anchor was refused, in the words the model needs: where each
/// candidate is, what block holds it, and what precedes it.
pub fn list_candidates(
    body: &[char],
    all: &[Vec<char>],
    hits: &[(usize, usize)],
    extents: &[(usize, usize)],
) -> (r: Vec<char>)
    requires
        rows(all@) == lines(body@),
        forall|i: int| 0 <= i < hits@.len() ==> (#[trigger] hits@[i]).0 <= body@.len(),
    ensures
        r@ == candidates(body@, wide(hits@), extents@),
{
    let mut told: Vec<Vec<char>> = Vec::new();
    let n: usize = if hits.len() <= 8 {
        hits.len()
    } else {
        8
    };
    let mut i: usize = 0;
    while i < n
        invariant
            i <= n <= hits@.len(),
            told@.len() == i,
            rows(all@) == lines(body@),
            forall|k: int| 0 <= k < hits@.len() ==> (#[trigger] hits@[k]).0 <= body@.len(),
            forall|k: int|
                0 <= k < i ==> (#[trigger] told@[k])@ == candidate(
                    line_of(body@, wide(hits@)[k].0),
                    lines(body@),
                    extents@,
                ),
        decreases n - i,
    {
        assert(hits@[i as int].0 <= body@.len());
        let at = line_number(body, hits[i].0);
        let row = describe(at, all, extents);
        told.push(row);
        i += 1;
    }
    let ghost plain = Seq::new(
        n as nat,
        |i: int| candidate(line_of(body@, wide(hits@)[i].0), lines(body@), extents@),
    );
    assert(rows(told@) =~= plain);
    if hits.len() > 8 {
        let mut more: Vec<char> = Vec::new();
        push_text(&mut more, "  … and ");
        let d = decimal_of((hits.len() - 8) as u64);
        push_all(&mut more, d.as_slice());
        push_text(&mut more, " more");
        assert(more@ =~= "  … and "@ + decimal((hits@.len() - 8) as nat) + " more"@);
        told.push(more);
        assert(rows(told@) =~= plain.push(more@));
    }
    let mut sep: Vec<char> = Vec::new();
    sep.push('\n');
    assert(sep@ =~= seq!['\n']);
    join_rows(told.as_slice(), sep.as_slice())
}

} // verus!
