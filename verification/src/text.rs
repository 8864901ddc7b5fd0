//! Text as a sequence of characters.
//!
//! Everything in the crate that reads text reads it through these functions:
//! the specification of each is a function on `Seq<char>`, and the code works
//! on slices of characters.

use vstd::prelude::*;
use vstd::string::*;

verus! {

/// `String::push` appends one character to the end of the string.
pub assume_specification[ String::push ](s: &mut String, c: char)
    ensures
        final(s)@ == old(s)@.push(c),
;

// ---------------------------------------------------------------------------
// Characters
// ---------------------------------------------------------------------------

/// The characters with the Unicode `White_Space` property.
pub open spec fn is_white(c: char) -> bool {
    let n = c as u32;
    ||| n == 0x20
    ||| 0x9 <= n <= 0xd
    ||| n == 0x85
    ||| n == 0xa0
    ||| n == 0x1680
    ||| 0x2000 <= n <= 0x200a
    ||| n == 0x2028
    ||| n == 0x2029
    ||| n == 0x202f
    ||| n == 0x205f
    ||| n == 0x3000
}

/// Whether `c` has the Unicode `White_Space` property.
pub fn white(c: char) -> (r: bool)
    ensures
        r == is_white(c),
{
    let n: u32 = c as u32;
    n == 0x20 || (0x9 <= n && n <= 0xd) || n == 0x85 || n == 0xa0 || n == 0x1680 || (0x2000 <= n
        && n <= 0x200a) || n == 0x2028 || n == 0x2029 || n == 0x202f || n == 0x205f || n == 0x3000
}

/// `0` to `9`.
pub open spec fn is_digit(c: char) -> bool {
    0x30 <= c as u32 <= 0x39
}

/// Whether `c` is one of `0` to `9`.
pub fn digit(c: char) -> (r: bool)
    ensures
        r == is_digit(c),
{
    let n: u32 = c as u32;
    0x30 <= n && n <= 0x39
}

/// How many bytes UTF-8 spends on `c`.
pub open spec fn width_of(c: char) -> nat {
    let n = c as u32;
    if n < 0x80 {
        1
    } else if n < 0x800 {
        2
    } else if n < 0x10000 {
        3
    } else {
        4
    }
}

/// How many bytes UTF-8 spends on `c`.
pub fn char_bytes(c: char) -> (r: usize)
    ensures
        r == width_of(c),
        1 <= r <= 4,
{
    let n: u32 = c as u32;
    if n < 0x80 {
        1
    } else if n < 0x800 {
        2
    } else if n < 0x10000 {
        3
    } else {
        4
    }
}

// ---------------------------------------------------------------------------
// Between strings and character slices
// ---------------------------------------------------------------------------

/// The characters of `s`, in order.
pub fn chars_of(s: &str) -> (v: Vec<char>)
    ensures
        v@ == s@,
{
    let mut v: Vec<char> = Vec::new();
    for c in it: s.chars()
        invariant
            v@ == it.seq().take(it.index() as int),
            it.seq() == s@,
    {
        v.push(c);
    }
    v
}

/// The string whose characters are `v`.
pub fn string_of(v: &[char]) -> (s: String)
    ensures
        s@ == v@,
{
    let mut s = String::new();
    let mut i: usize = 0;
    while i < v.len()
        invariant
            i <= v.len(),
            s@ == v@.take(i as int),
        decreases v.len() - i,
    {
        s.push(v[i]);
        i += 1;
        assert(v@.take(i as int) == v@.take(i - 1).push(v@[i - 1]));
    }
    assert(v@.take(i as int) == v@);
    s
}

/// The text of each row.
pub open spec fn rows(v: Seq<Vec<char>>) -> Seq<Seq<char>> {
    Seq::new(v.len(), |i: int| v[i]@)
}

/// The text of each string.
pub open spec fn texts(v: Seq<String>) -> Seq<Seq<char>> {
    Seq::new(v.len(), |i: int| v[i]@)
}

/// A copy of the characters `from..to`.
pub fn copy_range(v: &[char], from: usize, to: usize) -> (r: Vec<char>)
    requires
        from <= to <= v@.len(),
    ensures
        r@ == v@.subrange(from as int, to as int),
{
    let mut r: Vec<char> = Vec::new();
    let mut i: usize = from;
    while i < to
        invariant
            from <= i <= to <= v@.len(),
            r@ == v@.subrange(from as int, i as int),
        decreases to - i,
    {
        r.push(v[i]);
        i += 1;
        assert(v@.subrange(from as int, i as int) == v@.subrange(from as int, i - 1).push(
            v@[i - 1],
        ));
    }
    r
}

/// Append the characters of `more`.
pub fn push_all(v: &mut Vec<char>, more: &[char])
    ensures
        final(v)@ == old(v)@ + more@,
{
    let mut i: usize = 0;
    while i < more.len()
        invariant
            i <= more@.len(),
            v@ == old(v)@ + more@.take(i as int),
        decreases more@.len() - i,
    {
        v.push(more[i]);
        i += 1;
        assert(more@.take(i as int) == more@.take(i - 1).push(more@[i - 1]));
    }
    assert(more@.take(i as int) == more@);
}

/// Append the characters of a string.
pub fn push_text(v: &mut Vec<char>, more: &str)
    ensures
        final(v)@ == old(v)@ + more@,
{
    let m = chars_of(more);
    push_all(v, m.as_slice());
}

/// Whether two slices hold the same characters.
pub fn same(a: &[char], b: &[char]) -> (r: bool)
    ensures
        r == (a@ == b@),
{
    if a.len() != b.len() {
        return false;
    }
    let mut i: usize = 0;
    while i < a.len()
        invariant
            i <= a@.len() == b@.len(),
            forall|j: int| 0 <= j < i ==> a@[j] == b@[j],
        decreases a@.len() - i,
    {
        if a[i] != b[i] {
            return false;
        }
        i += 1;
    }
    assert(a@ =~= b@);
    true
}

/// Whether two strings hold the same characters.
pub fn same_str(a: &str, b: &str) -> (r: bool)
    ensures
        r == (a@ == b@),
{
    let x = chars_of(a);
    let y = chars_of(b);
    same(x.as_slice(), y.as_slice())
}

// ---------------------------------------------------------------------------
// Prefixes, suffixes, occurrences
// ---------------------------------------------------------------------------

/// Whether `s` opens with `head`.
pub open spec fn starts(s: Seq<char>, head: Seq<char>) -> bool {
    head.len() <= s.len() && s.take(head.len() as int) == head
}

/// Whether `s` closes with `tail`.
pub open spec fn ends(s: Seq<char>, tail: Seq<char>) -> bool {
    tail.len() <= s.len() && s.skip(s.len() - tail.len()) == tail
}

/// Whether `needle` stands in `s` at position `i`.
pub open spec fn occurs_at(s: Seq<char>, needle: Seq<char>, i: int) -> bool {
    0 <= i && i + needle.len() <= s.len() && s.subrange(i, i + needle.len()) == needle
}

/// Whether `needle` stands anywhere in `s`.
pub open spec fn holds(s: Seq<char>, needle: Seq<char>) -> bool {
    exists|i: int| #[trigger] occurs_at(s, needle, i)
}

/// Where the first `c` stands in `s`; the length of `s` where there is none.
pub open spec fn index_of(s: Seq<char>, c: char) -> int
    decreases s.len(),
{
    if s.len() == 0 || s[0] == c {
        0
    } else {
        1 + index_of(s.skip(1), c)
    }
}

/// At most what can be counted.
pub open spec fn capped(n: int) -> int {
    if n <= usize::MAX {
        n
    } else {
        usize::MAX as int
    }
}

/// Where the last `c` stands in `s`, or -1 where there is none.
pub open spec fn last_index_of(s: Seq<char>, c: char) -> int
    decreases s.len(),
{
    if s.len() == 0 {
        -1
    } else if s.last() == c {
        s.len() - 1
    } else {
        last_index_of(s.drop_last(), c)
    }
}

/// The positions where `needle` stands in `s` at or after `from`, leftmost
/// first and never overlapping.
pub open spec fn occurrences(s: Seq<char>, needle: Seq<char>, from: int) -> Seq<int>
    decreases s.len() - from,
{
    if needle.len() == 0 || from + needle.len() > s.len() {
        Seq::empty()
    } else if occurs_at(s, needle, from) {
        seq![from] + occurrences(s, needle, from + needle.len())
    } else {
        occurrences(s, needle, from + 1)
    }
}

/// `index_of` is the first position holding `c`, and the length where none does.
pub proof fn lemma_index_of(s: Seq<char>, c: char)
    ensures
        0 <= index_of(s, c) <= s.len(),
        index_of(s, c) < s.len() ==> s[index_of(s, c)] == c,
        forall|i: int| 0 <= i < index_of(s, c) ==> s[i] != c,
    decreases s.len(),
{
    if s.len() > 0 && s[0] != c {
        lemma_index_of(s.skip(1), c);
        assert forall|i: int| 0 <= i < index_of(s, c) implies s[i] != c by {
            if i > 0 {
                assert(s.skip(1)[i - 1] == s[i]);
            }
        }
    }
}

/// A position that holds `c` with none before it is `index_of`.
pub proof fn lemma_index_of_is(s: Seq<char>, c: char, n: int)
    requires
        0 <= n <= s.len(),
        n < s.len() ==> s[n] == c,
        forall|i: int| 0 <= i < n ==> s[i] != c,
    ensures
        index_of(s, c) == n,
{
    lemma_index_of(s, c);
    let m = index_of(s, c);
    if m < n {
        assert(s[m] == c);
    }
    if n < m {
        assert(s[n] != c);
    }
}

/// `last_index_of` is the last position holding `c`, and -1 where none does.
pub proof fn lemma_last_index_of(s: Seq<char>, c: char)
    ensures
        -1 <= last_index_of(s, c) < s.len(),
        last_index_of(s, c) >= 0 ==> s[last_index_of(s, c)] == c,
        forall|i: int| last_index_of(s, c) < i < s.len() ==> s[i] != c,
    decreases s.len(),
{
    if s.len() > 0 && s.last() != c {
        lemma_last_index_of(s.drop_last(), c);
        assert forall|i: int| last_index_of(s, c) < i < s.len() implies s[i] != c by {
            if i < s.len() - 1 {
                assert(s.drop_last()[i] == s[i]);
            }
        }
    }
}

/// Where the first `c` stands at or after `from`; the length where there is
/// none.
pub fn position(s: &[char], c: char, from: usize) -> (r: usize)
    requires
        from <= s@.len(),
    ensures
        r == from + index_of(s@.skip(from as int), c),
        from <= r <= s@.len(),
        r < s@.len() ==> s@[r as int] == c,
        forall|i: int| from <= i < r ==> s@[i] != c,
{
    let mut i: usize = from;
    while i < s.len() && s[i] != c
        invariant
            from <= i <= s@.len(),
            forall|j: int| from <= j < i ==> s@[j] != c,
        decreases s@.len() - i,
    {
        i += 1;
    }
    proof {
        lemma_index_of_is(s@.skip(from as int), c, i - from);
    }
    i
}

/// One past the last `c` before `to`, or 0 where there is none.
pub fn after_last(s: &[char], c: char, to: usize) -> (r: usize)
    requires
        to <= s@.len(),
    ensures
        r == last_index_of(s@.take(to as int), c) + 1,
        r <= to,
        r > 0 ==> s@[r - 1] == c,
        forall|i: int| r <= i < to ==> s@[i] != c,
{
    let mut i: usize = to;
    while i > 0 && s[i - 1] != c
        invariant
            i <= to <= s@.len(),
            forall|j: int| i <= j < to ==> s@[j] != c,
        decreases i,
    {
        i -= 1;
    }
    proof {
        let t = s@.take(to as int);
        lemma_last_index_of(t, c);
        let m = last_index_of(t, c);
        if m + 1 < i {
            assert(t[i - 1] == s@[i - 1]);
        }
        if i < m + 1 {
            assert(t[m] == s@[m]);
        }
    }
    i
}

/// Whether `c` stands in `s`.
pub fn has(s: &[char], c: char) -> (r: bool)
    ensures
        r == s@.contains(c),
{
    let i = position(s, c, 0);
    proof {
        if i < s@.len() {
            assert(s@[i as int] == c);
        }
    }
    i < s.len()
}

/// Whether `needle` stands in `s` at `at`.
pub fn matches_at(s: &[char], needle: &[char], at: usize) -> (r: bool)
    ensures
        r == occurs_at(s@, needle@, at as int),
{
    if at > s.len() || s.len() - at < needle.len() {
        return false;
    }
    let mut i: usize = 0;
    while i < needle.len()
        invariant
            at + needle@.len() <= s@.len(),
            s@.len() == s.len(),
            i <= needle@.len(),
            forall|j: int| 0 <= j < i ==> s@[at + j] == needle@[j],
        decreases needle@.len() - i,
    {
        if s[at + i] != needle[i] {
            proof {
                let sub = s@.subrange(at as int, at + needle@.len());
                assert(sub[i as int] == s@[at + i]);
            }
            return false;
        }
        i += 1;
    }
    assert(s@.subrange(at as int, at + needle@.len()) =~= needle@);
    true
}

/// Whether `s` opens with `head`.
pub fn starts_with(s: &[char], head: &[char]) -> (r: bool)
    ensures
        r == starts(s@, head@),
{
    let r = matches_at(s, head, 0);
    assert(head@.len() <= s@.len() ==> s@.subrange(0, head@.len() as int) == s@.take(
        head@.len() as int,
    ));
    r
}

/// Whether the characters of `s` open with those of the string `head`.
pub fn opens_with(s: &[char], head: &str) -> (r: bool)
    ensures
        r == starts(s@, head@),
{
    let h = chars_of(head);
    starts_with(s, h.as_slice())
}

/// Whether `needle` stands anywhere in `s`.
pub fn contains(s: &[char], needle: &[char]) -> (r: bool)
    ensures
        r == holds(s@, needle@),
{
    if s.len() < needle.len() {
        return false;
    }
    let last: usize = s.len() - needle.len();
    let mut i: usize = 0;
    while i < last
        invariant
            last + needle@.len() == s@.len(),
            i <= last,
            forall|j: int| 0 <= j < i ==> !occurs_at(s@, needle@, j),
        decreases last - i,
    {
        if matches_at(s, needle, i) {
            return true;
        }
        i += 1;
    }
    matches_at(s, needle, last)
}

/// The positions where `needle` stands in `s`, leftmost first and never
/// overlapping.
pub fn find_all(s: &[char], needle: &[char]) -> (r: Vec<usize>)
    ensures
        r@.len() == occurrences(s@, needle@, 0).len(),
        forall|i: int| 0 <= i < r@.len() ==> r@[i] == occurrences(s@, needle@, 0)[i],
{
    let mut r: Vec<usize> = Vec::new();
    let mut i: usize = 0;
    if needle.len() == 0 {
        return r;
    }
    while i <= s.len() && needle.len() <= s.len() - i
        invariant
            needle@.len() > 0,
            i <= s@.len(),
            r@.map_values(|x: usize| x as int) + occurrences(s@, needle@, i as int) == occurrences(
                s@,
                needle@,
                0,
            ),
        decreases s@.len() - i,
    {
        let ghost before = r@.map_values(|x: usize| x as int);
        if matches_at(s, needle, i) {
            r.push(i);
            assert(r@.map_values(|x: usize| x as int) =~= before.push(i as int));
            assert(before.push(i as int) + occurrences(s@, needle@, i + needle@.len()) =~= before
                + (seq![i as int] + occurrences(s@, needle@, i + needle@.len())));
            i += needle.len();
        } else {
            i += 1;
        }
    }
    assert(occurrences(s@, needle@, i as int) =~= Seq::empty());
    assert(r@.map_values(|x: usize| x as int) =~= occurrences(s@, needle@, 0));
    assert forall|k: int| 0 <= k < r@.len() implies r@[k] == occurrences(s@, needle@, 0)[k] by {
        assert(r@.map_values(|x: usize| x as int)[k] == r@[k] as int);
    }
    r
}

// ---------------------------------------------------------------------------
// Trimming
// ---------------------------------------------------------------------------

/// `s` without the white space it opens with.
pub open spec fn trim_start(s: Seq<char>) -> Seq<char>
    decreases s.len(),
{
    if s.len() > 0 && is_white(s[0]) {
        trim_start(s.skip(1))
    } else {
        s
    }
}

/// `s` without the white space it closes with.
pub open spec fn trim_end(s: Seq<char>) -> Seq<char>
    decreases s.len(),
{
    if s.len() > 0 && is_white(s.last()) {
        trim_end(s.drop_last())
    } else {
        s
    }
}

/// `s` without the white space at either end.
pub open spec fn trim(s: Seq<char>) -> Seq<char> {
    trim_end(trim_start(s))
}

/// Whether `s` holds nothing but white space.
pub open spec fn blank(s: Seq<char>) -> bool {
    forall|i: int| 0 <= i < s.len() ==> is_white(#[trigger] s[i])
}

/// What is left after trimming the front is a suffix that opens with no white
/// space, and what went was white space.
pub proof fn lemma_trim_start(s: Seq<char>)
    ensures
        trim_start(s).len() <= s.len(),
        trim_start(s) == s.skip(s.len() - trim_start(s).len()),
        trim_start(s).len() > 0 ==> !is_white(trim_start(s)[0]),
        forall|i: int| 0 <= i < s.len() - trim_start(s).len() ==> is_white(#[trigger] s[i]),
    decreases s.len(),
{
    if s.len() > 0 && is_white(s[0]) {
        lemma_trim_start(s.skip(1));
        let t = trim_start(s);
        assert(s.skip(1).skip(s.len() - 1 - t.len()) =~= s.skip(s.len() - t.len()));
        assert forall|i: int| 0 <= i < s.len() - t.len() implies is_white(#[trigger] s[i]) by {
            if i > 0 {
                assert(s.skip(1)[i - 1] == s[i]);
            }
        }
    } else {
        assert(s.skip(0) =~= s);
    }
}

/// What is left after trimming the back is a prefix that closes with no white
/// space, and what went was white space.
pub proof fn lemma_trim_end(s: Seq<char>)
    ensures
        trim_end(s).len() <= s.len(),
        trim_end(s) == s.take(trim_end(s).len() as int),
        trim_end(s).len() > 0 ==> !is_white(trim_end(s).last()),
        forall|i: int| trim_end(s).len() <= i < s.len() ==> is_white(#[trigger] s[i]),
    decreases s.len(),
{
    if s.len() > 0 && is_white(s.last()) {
        lemma_trim_end(s.drop_last());
        let t = trim_end(s);
        assert(s.drop_last().take(t.len() as int) =~= s.take(t.len() as int));
        assert forall|i: int| t.len() <= i < s.len() implies is_white(#[trigger] s[i]) by {
            if i < s.len() - 1 {
                assert(s.drop_last()[i] == s[i]);
            }
        }
    } else {
        assert(s.take(s.len() as int) =~= s);
    }
}

/// Trimming leaves nothing exactly where there is nothing but white space.
pub proof fn lemma_blank(s: Seq<char>)
    ensures
        blank(s) == (trim(s).len() == 0),
        blank(s) == (trim_start(s).len() == 0),
{
    lemma_trim_start(s);
    let t = trim_start(s);
    lemma_trim_end(t);
    if blank(s) {
        if t.len() > 0 {
            assert(t[0] == s[s.len() - t.len()]);
        }
    } else {
        let i = choose|i: int| 0 <= i < s.len() && !is_white(#[trigger] s[i]);
        assert(i >= s.len() - t.len());
        assert(t[0] == s[s.len() - t.len()]);
        if trim_end(t).len() == 0 {
            assert(is_white(t[0]));
        }
    }
}

/// Where the white space that `s` opens with ends.
pub fn skip_white(s: &[char], from: usize) -> (r: usize)
    requires
        from <= s@.len(),
    ensures
        from <= r <= s@.len(),
        s@.skip(r as int) == trim_start(s@.skip(from as int)),
{
    let mut i: usize = from;
    while i < s.len() && white(s[i])
        invariant
            from <= i <= s@.len(),
            trim_start(s@.skip(i as int)) == trim_start(s@.skip(from as int)),
        decreases s@.len() - i,
    {
        assert(s@.skip(i as int).skip(1) =~= s@.skip(i + 1));
        i += 1;
    }
    i
}

/// Where the text before `to` ends once its closing white space is dropped.
pub fn skip_white_back(s: &[char], to: usize) -> (r: usize)
    requires
        to <= s@.len(),
    ensures
        r <= to,
        s@.take(r as int) == trim_end(s@.take(to as int)),
{
    let mut i: usize = to;
    while i > 0 && white(s[i - 1])
        invariant
            i <= to <= s@.len(),
            trim_end(s@.take(i as int)) == trim_end(s@.take(to as int)),
        decreases i,
    {
        assert(s@.take(i as int).drop_last() =~= s@.take(i - 1));
        i -= 1;
    }
    i
}

/// A copy of `s` without the white space at either end.
pub fn trimmed(s: &[char]) -> (r: Vec<char>)
    ensures
        r@ == trim(s@),
{
    let a = skip_white(s, 0);
    assert(s@.skip(0) =~= s@);
    let rest = copy_range(s, a, s.len());
    assert(rest@ =~= s@.skip(a as int));
    let b = skip_white_back(rest.as_slice(), rest.len());
    assert(rest@.take(rest@.len() as int) =~= rest@);
    let r = copy_range(rest.as_slice(), 0, b);
    assert(r@ =~= rest@.take(b as int));
    r
}

/// A copy of `s` without the white space it opens with.
pub fn trimmed_start(s: &[char]) -> (r: Vec<char>)
    ensures
        r@ == trim_start(s@),
{
    let a = skip_white(s, 0);
    assert(s@.skip(0) =~= s@);
    let r = copy_range(s, a, s.len());
    assert(r@ =~= s@.skip(a as int));
    r
}

/// Whether `s` holds nothing but white space.
pub fn is_blank(s: &[char]) -> (r: bool)
    ensures
        r == blank(s@),
{
    let a = skip_white(s, 0);
    proof {
        assert(s@.skip(0) =~= s@);
        lemma_blank(s@);
        assert(s@.skip(a as int).len() == s@.len() - a);
    }
    a == s.len()
}

// ---------------------------------------------------------------------------
// Words
// ---------------------------------------------------------------------------

/// Where the first white space of `s` stands, or its length.
pub open spec fn first_white(s: Seq<char>) -> int
    decreases s.len(),
{
    if s.len() == 0 || is_white(s[0]) {
        0
    } else {
        1 + first_white(s.skip(1))
    }
}

/// The first white space is at `first_white`, and none before it.
pub proof fn lemma_first_white(s: Seq<char>)
    ensures
        0 <= first_white(s) <= s.len(),
        first_white(s) < s.len() ==> is_white(s[first_white(s)]),
    decreases s.len(),
{
    if s.len() > 0 && !is_white(s[0]) {
        lemma_first_white(s.skip(1));
    }
}

/// The words of `s`: what stands between white space.
pub open spec fn words(s: Seq<char>) -> Seq<Seq<char>>
    decreases s.len(),
    via words_decreases
{
    let t = trim_start(s);
    if t.len() == 0 {
        Seq::empty()
    } else {
        seq![t.take(first_white(t))] + words(t.skip(first_white(t)))
    }
}

#[via_fn]
proof fn words_decreases(s: Seq<char>) {
    let t = trim_start(s);
    lemma_trim_start(s);
    lemma_first_white(t);
    if t.len() > 0 {
        assert(first_white(t) >= 1) by {
            lemma_first_white(t.skip(1));
        }
    }
}

/// Where the first white space at or after `from` stands, or the length.
pub fn white_after(s: &[char], from: usize) -> (r: usize)
    requires
        from <= s@.len(),
    ensures
        from <= r <= s@.len(),
        r == from + first_white(s@.skip(from as int)),
        r < s@.len() ==> is_white(s@[r as int]),
{
    let ghost rest = s@.skip(from as int);
    assert(rest.skip(0) =~= rest);
    let mut i: usize = from;
    while i < s.len() && !white(s[i])
        invariant
            from <= i <= s@.len(),
            rest == s@.skip(from as int),
            i - from + first_white(rest.skip(i - from)) == first_white(rest),
        decreases s@.len() - i,
    {
        assert(rest.skip(i - from).skip(1) =~= rest.skip(i - from + 1));
        i += 1;
    }
    i
}

/// The words of `s`, each a copy.
pub fn words_of(s: &[char]) -> (r: Vec<Vec<char>>)
    ensures
        rows(r@) == words(s@),
{
    let mut r: Vec<Vec<char>> = Vec::new();
    let mut i: usize = 0;
    assert(s@.skip(0) =~= s@);
    assert(rows(r@) + words(s@) =~= words(s@));
    loop
        invariant_except_break
            i <= s@.len(),
            rows(r@) + words(s@.skip(i as int)) == words(s@),
        ensures
            rows(r@) == words(s@),
        decreases s@.len() - i,
    {
        let ghost done = rows(r@);
        let from = skip_white(s, i);
        let ghost t = s@.skip(from as int);
        if from == s.len() {
            assert(t.len() == 0);
            assert(rows(r@) + words(s@.skip(i as int)) =~= rows(r@));
            break;
        }
        let to = white_after(s, from);
        proof {
            lemma_trim_start(s@.skip(i as int));
            lemma_first_white(t.skip(1));
            assert(first_white(t) >= 1);
        }
        let word = copy_range(s, from, to);
        assert(word@ =~= t.take(first_white(t)));
        assert(t.skip(first_white(t)) =~= s@.skip(to as int));
        r.push(word);
        proof {
            assert(rows(r@) =~= done.push(word@));
            assert(done.push(word@) + words(s@.skip(to as int)) =~= done + (seq![word@] + words(
                s@.skip(to as int),
            )));
        }
        i = to;
    }
    r
}

// ---------------------------------------------------------------------------
// Lines
// ---------------------------------------------------------------------------

/// `s` without one closing carriage return.
pub open spec fn without_cr(s: Seq<char>) -> Seq<char> {
    if s.len() > 0 && s.last() == '\r' {
        s.drop_last()
    } else {
        s
    }
}

/// The lines of `s`: what stands between breaks, a break being `\n` or `\r\n`,
/// with nothing after a closing break.
pub open spec fn lines(s: Seq<char>) -> Seq<Seq<char>>
    decreases s.len(),
{
    let n = index_of(s, '\n');
    if s.len() == 0 {
        Seq::empty()
    } else if n >= s.len() || n < 0 {
        seq![s]
    } else {
        seq![without_cr(s.take(n))] + lines(s.skip(n + 1))
    }
}

/// The pieces of `s` between each `c`.
pub open spec fn split(s: Seq<char>, c: char) -> Seq<Seq<char>>
    decreases s.len(),
{
    let n = index_of(s, c);
    if n >= s.len() || n < 0 {
        seq![s]
    } else {
        seq![s.take(n)] + split(s.skip(n + 1), c)
    }
}

/// The pieces with `sep` between each two.
pub open spec fn join(parts: Seq<Seq<char>>, sep: Seq<char>) -> Seq<char>
    decreases parts.len(),
{
    if parts.len() == 0 {
        Seq::empty()
    } else if parts.len() == 1 {
        parts[0]
    } else {
        join(parts.drop_last(), sep) + sep + parts.last()
    }
}

/// How many line feeds stand in `s`.
pub open spec fn breaks(s: Seq<char>) -> nat
    decreases s.len(),
{
    if s.len() == 0 {
        0
    } else {
        breaks(s.drop_last()) + if s.last() == '\n' {
            1nat
        } else {
            0nat
        }
    }
}

/// The line feeds of two texts in a row are those of both.
pub proof fn lemma_breaks_concat(a: Seq<char>, b: Seq<char>)
    ensures
        breaks(a + b) == breaks(a) + breaks(b),
        breaks(a) <= a.len(),
    decreases b.len(), a.len(),
{
    if b.len() == 0 {
        assert(a + b =~= a);
        if a.len() > 0 {
            lemma_breaks_concat(a.drop_last(), Seq::empty());
        }
    } else {
        lemma_breaks_concat(a, b.drop_last());
        assert((a + b).drop_last() =~= a + b.drop_last());
    }
}

/// The lines of `s`, each a copy.
pub fn lines_of(s: &[char]) -> (r: Vec<Vec<char>>)
    ensures
        rows(r@) == lines(s@),
{
    let mut r: Vec<Vec<char>> = Vec::new();
    let mut i: usize = 0;
    assert(s@.skip(0) =~= s@);
    assert(rows(r@) + lines(s@) =~= lines(s@));
    while i < s.len()
        invariant
            i <= s@.len(),
            rows(r@) + lines(s@.skip(i as int)) == lines(s@),
        decreases s@.len() - i,
    {
        let ghost rest = s@.skip(i as int);
        let ghost done = rows(r@);
        let n = position(s, '\n', i);
        if n < s.len() {
            let mut end: usize = n;
            if n > i && s[n - 1] == '\r' {
                end = n - 1;
            }
            let line = copy_range(s, i, end);
            proof {
                assert(rest.take(n - i) =~= s@.subrange(i as int, n as int));
                if n > i {
                    assert(rest.take(n - i).last() == s@[n - 1]);
                    assert(rest.take(n - i).drop_last() =~= s@.subrange(i as int, n - 1));
                }
                assert(line@ =~= without_cr(rest.take(n - i)));
                assert(rest.skip(n - i + 1) =~= s@.skip(n + 1));
                assert(lines(rest) == seq![line@] + lines(s@.skip(n + 1)));
            }
            r.push(line);
            proof {
                assert(rows(r@) =~= done.push(line@));
                assert(done.push(line@) + lines(s@.skip(n + 1)) =~= done + (seq![line@] + lines(
                    s@.skip(n + 1),
                )));
            }
            i = n + 1;
        } else {
            let line = copy_range(s, i, n);
            assert(line@ =~= rest);
            assert(lines(rest) == seq![line@]);
            r.push(line);
            assert(rows(r@) =~= done + seq![line@]);
            i = n;
            assert(s@.skip(i as int) =~= Seq::empty());
            assert(rows(r@) + lines(s@.skip(i as int)) =~= rows(r@));
        }
    }
    assert(s@.skip(i as int) =~= Seq::empty());
    assert(rows(r@) + lines(s@.skip(i as int)) =~= rows(r@));
    r
}

/// The pieces of `s` between each `c`, each a copy.
pub fn split_of(s: &[char], c: char) -> (r: Vec<Vec<char>>)
    ensures
        rows(r@) == split(s@, c),
        r@.len() >= 1,
{
    let mut r: Vec<Vec<char>> = Vec::new();
    let mut i: usize = 0;
    assert(s@.skip(0) =~= s@);
    assert(rows(r@) + split(s@, c) =~= split(s@, c));
    loop
        invariant_except_break
            i <= s@.len(),
            rows(r@) + split(s@.skip(i as int), c) == split(s@, c),
        ensures
            rows(r@) == split(s@, c),
            r@.len() >= 1,
        decreases s@.len() - i,
    {
        let ghost rest = s@.skip(i as int);
        let ghost done = rows(r@);
        let n = position(s, c, i);
        let piece = copy_range(s, i, n);
        if n < s.len() {
            proof {
                assert(rest.take(n - i) =~= piece@);
                assert(rest.skip(n - i + 1) =~= s@.skip(n + 1));
                assert(split(rest, c) == seq![piece@] + split(s@.skip(n + 1), c));
            }
            r.push(piece);
            proof {
                assert(rows(r@) =~= done.push(piece@));
                assert(done.push(piece@) + split(s@.skip(n + 1), c) =~= done + (seq![piece@]
                    + split(s@.skip(n + 1), c)));
            }
            i = n + 1;
        } else {
            assert(piece@ =~= rest);
            assert(split(rest, c) == seq![piece@]);
            r.push(piece);
            assert(rows(r@) =~= done + seq![piece@]);
            break;
        }
    }
    r
}

/// The rows with `sep` between each two.
pub fn join_rows(parts: &[Vec<char>], sep: &[char]) -> (r: Vec<char>)
    ensures
        r@ == join(rows(parts@), sep@),
{
    let mut r: Vec<char> = Vec::new();
    let mut i: usize = 0;
    while i < parts.len()
        invariant
            i <= parts@.len(),
            r@ == join(rows(parts@).take(i as int), sep@),
        decreases parts@.len() - i,
    {
        if i > 0 {
            push_all(&mut r, sep);
        }
        push_all(&mut r, parts[i].as_slice());
        i += 1;
        proof {
            let t = rows(parts@).take(i as int);
            assert(t.drop_last() =~= rows(parts@).take(i - 1));
            assert(t.last() == parts@[i - 1]@);
            if i == 1 {
                assert(t =~= seq![parts@[0]@]);
            }
        }
    }
    assert(rows(parts@).take(i as int) =~= rows(parts@));
    r
}

// ---------------------------------------------------------------------------
// Shortening and counting
// ---------------------------------------------------------------------------

/// `s`, or its first `max` characters and an ellipsis where it is longer.
pub open spec fn cropped(s: Seq<char>, max: int) -> Seq<char> {
    if s.len() > max {
        s.take(max).push('…')
    } else {
        s
    }
}

/// `s`, or its first `max` characters and an ellipsis where it is longer.
pub fn crop(s: &[char], max: usize) -> (r: Vec<char>)
    ensures
        r@ == cropped(s@, max as int),
{
    if s.len() > max {
        let mut r = copy_range(s, 0, max);
        assert(r@ =~= s@.take(max as int));
        r.push('…');
        r
    } else {
        let r = copy_range(s, 0, s.len());
        assert(r@ =~= s@);
        r
    }
}

/// The character of one decimal digit.
pub open spec fn digit_char(d: nat) -> char {
    (0x30 + d) as char
}

/// `n` in decimal.
pub open spec fn decimal(n: nat) -> Seq<char>
    decreases n,
{
    if n < 10 {
        seq![digit_char(n)]
    } else {
        decimal(n / 10).push(digit_char(n % 10))
    }
}

fn digit_of(d: u64) -> (c: char)
    requires
        d < 10,
    ensures
        c == digit_char(d as nat),
{
    match d {
        0 => '0',
        1 => '1',
        2 => '2',
        3 => '3',
        4 => '4',
        5 => '5',
        6 => '6',
        7 => '7',
        8 => '8',
        _ => '9',
    }
}

/// `n` in decimal.
pub fn decimal_of(n: u64) -> (r: Vec<char>)
    ensures
        r@ == decimal(n as nat),
    decreases n,
{
    if n < 10 {
        let mut r: Vec<char> = Vec::new();
        r.push(digit_of(n));
        r
    } else {
        let mut r = decimal_of(n / 10);
        r.push(digit_of(n % 10));
        r
    }
}

/// Append `n` in decimal to a string.
pub fn append_count(s: &mut String, n: u64)
    ensures
        final(s)@ == old(s)@ + decimal(n as nat),
{
    let d = decimal_of(n);
    let t = string_of(d.as_slice());
    s.append(t.as_str());
}

/// A number in decimal, with a minus sign where it is below 0.
pub open spec fn signed(n: int) -> Seq<char> {
    if n < 0 {
        seq!['-'] + decimal((-n) as nat)
    } else {
        decimal(n as nat)
    }
}

/// Append `n` in decimal to a string, with its sign.
pub fn append_signed(s: &mut String, n: i64)
    ensures
        final(s)@ == old(s)@ + signed(n as int),
{
    if n < 0 {
        s.push('-');
        let size: u64 = (-(n + 1)) as u64 + 1;
        append_count(s, size);
        assert(s@ =~= old(s)@ + signed(n as int));
    } else {
        append_count(s, n as u64);
    }
}

/// Append `n` in decimal to a string.
pub fn append_number(s: &mut String, n: usize)
    ensures
        final(s)@ == old(s)@ + decimal(n as nat),
{
    append_count(s, n as u64);
}

// ---------------------------------------------------------------------------
// Bytes
// ---------------------------------------------------------------------------

/// How many bytes UTF-8 spends on `s`.
pub open spec fn bytes_len(s: Seq<char>) -> nat
    decreases s.len(),
{
    if s.len() == 0 {
        0
    } else {
        bytes_len(s.drop_last()) + width_of(s.last())
    }
}

/// The bytes of two texts in a row are those of both.
pub proof fn lemma_bytes_concat(a: Seq<char>, b: Seq<char>)
    ensures
        bytes_len(a + b) == bytes_len(a) + bytes_len(b),
    decreases b.len(),
{
    if b.len() == 0 {
        assert(a + b =~= a);
    } else {
        lemma_bytes_concat(a, b.drop_last());
        assert((a + b).drop_last() =~= a + b.drop_last());
    }
}

/// A longer prefix takes no fewer bytes, and every character takes one.
pub proof fn lemma_bytes_prefix(s: Seq<char>, i: int, j: int)
    requires
        0 <= i <= j <= s.len(),
    ensures
        bytes_len(s.take(i)) + (j - i) <= bytes_len(s.take(j)),
    decreases j - i,
{
    if i < j {
        lemma_bytes_prefix(s, i, j - 1);
        assert(s.take(j).drop_last() =~= s.take(j - 1));
    }
}

/// UTF-8 spends `bytes_len` bytes on a text.
pub proof fn lemma_bytes_encoded(s: Seq<char>)
    ensures
        vstd::utf8::encode_utf8(s).len() == bytes_len(s),
    decreases s.len(),
{
    if s.len() > 0 {
        let rest = s.drop_first();
        lemma_bytes_encoded(rest);
        assert(s =~= seq![s[0]] + rest);
        lemma_bytes_concat(seq![s[0]], rest);
        assert(seq![s[0]].drop_last() =~= Seq::<char>::empty());
        assert(bytes_len(Seq::<char>::empty()) == 0);
        assert(bytes_len(seq![s[0]]) == width_of(s[0]));
        vstd::utf8::char_is_scalar(s[0]);
        assert(vstd::utf8::encode_scalar(s[0] as u32).len() == width_of(s[0]));
    }
}

/// How many bytes the first `to` characters of a string take.
pub fn bytes_before(s: &str, to: usize) -> (r: usize)
    requires
        to <= s@.len(),
    ensures
        r == bytes_len(s@.take(to as int)),
{
    let whole = s.as_bytes().len();
    let v = chars_of(s);
    proof {
        lemma_bytes_encoded(s@);
        assert(s@.take(s@.len() as int) =~= s@);
        lemma_bytes_prefix(s@, to as int, s@.len() as int);
    }
    let mut i: usize = 0;
    let mut n: usize = 0;
    while i < to
        invariant
            i <= to <= v@.len(),
            v@ == s@,
            bytes_len(s@.take(to as int)) <= usize::MAX,
            n == bytes_len(s@.take(i as int)),
        decreases to - i,
    {
        proof {
            assert(s@.take(i + 1).drop_last() =~= s@.take(i as int));
            lemma_bytes_prefix(s@, i + 1, to as int);
        }
        n += char_bytes(v[i]);
        i += 1;
    }
    n
}

} // verus!
