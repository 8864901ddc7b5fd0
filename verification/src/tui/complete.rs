//! The `@` file completion's pure logic: pulling the token out of the line,
//! deciding where to look, and ranking what was found there.

use crate::text::{
    bytes_before, bytes_len, char_bytes, chars_of, contains, copy_range, holds, last_index_of,
    after_last, lemma_bytes_encoded, lemma_bytes_prefix, push_all, rows, same, split, split_of,
    starts, starts_with, string_of,
};
use vstd::prelude::*;
use vstd::relations::{sorted_by, total_ordering};
use vstd::string::*;

verus! {

/// A walk stops here: ranking past it would only be sorting noise.
pub const WALK_CAP: usize = 2000;

/// What the menu shows at most.
pub const TOP: usize = 20;

/// Where a token ends and a new one may start. The newline keeps the scan
/// inside the line the caret is on.
pub open spec fn is_delim(c: char) -> bool {
    c == ' ' || c == '\t' || c == '"' || c == '\'' || c == '=' || c == '\n'
}

/// One candidate: the path as the completed `@token` should read,
/// workspace-relative, and whether it names a directory. A directory
/// completes without a trailing space, so the walk can descend.
#[derive(Debug, Clone, PartialEq, Eq)]
pub struct FileEntry {
    pub path: String,
    pub dir: bool,
}

/// Where the token that `head` ends in starts.
pub open spec fn token_start(head: Seq<char>) -> int
    decreases head.len(),
{
    if head.len() == 0 {
        0
    } else if is_delim(head.last()) {
        head.len() as int
    } else {
        token_start(head.drop_last())
    }
}

/// Whether `k` characters of `line` take `bytes` bytes.
pub open spec fn stands_at(line: Seq<char>, bytes: nat, k: int) -> bool {
    0 <= k <= line.len() && bytes_len(line.take(k)) == bytes
}

/// The token of `line` that a caret behind `k` characters is in, from its `@`.
pub open spec fn at_token(line: Seq<char>, k: int) -> Option<Seq<char>> {
    let token = line.subrange(token_start(line.take(k)), k);
    if token.len() > 0 && token[0] == '@' {
        Some(token)
    } else {
        None
    }
}

proof fn lemma_token_start(head: Seq<char>)
    ensures
        0 <= token_start(head) <= head.len(),
    decreases head.len(),
{
    if head.len() > 0 {
        lemma_token_start(head.drop_last());
    }
}

/// Whether `c` ends a token.
fn delim(c: char) -> (r: bool)
    ensures
        r == is_delim(c),
{
    c == ' ' || c == '\t' || c == '"' || c == '\'' || c == '=' || c == '\n'
}

/// How many characters stand before a byte of a line.
fn chars_before(line: &str, bytes: usize) -> (k: usize)
    requires
        exists|k: int| stands_at(line@, bytes as nat, k),
    ensures
        stands_at(line@, bytes as nat, k as int),
{
    let v = chars_of(line);
    let ghost goal = choose|k: int| stands_at(line@, bytes as nat, k);
    let mut k: usize = 0;
    let mut n: usize = 0;
    assert(line@.take(0) =~= Seq::empty());
    while n < bytes
        invariant
            v@ == line@,
            stands_at(line@, bytes as nat, goal),
            k <= goal,
            n <= bytes,
            n == bytes_len(line@.take(k as int)),
        decreases goal - k,
    {
        proof {
            assert(line@.take(k + 1).drop_last() =~= line@.take(k as int));
            lemma_bytes_prefix(line@, k + 1, goal);
        }
        n += char_bytes(v[k]);
        assert(k < v.len());
        k += 1;
    }
    k
}

/// The `@token` under the caret: where it starts (`@` taken in), where it
/// ends, and the query after the `@`. `None` when the caret is not in one:
/// the `@` must start the token, so `a@b` stays an email.
///
/// The caret is a byte of the line, between two characters.
pub fn at_prefix(line: &str, cursor: usize) -> (r: Option<(usize, usize, &str)>)
    requires
        exists|k: int| stands_at(line@, cursor as nat, k),
    ensures
        forall|k: int| #[trigger]
            stands_at(line@, cursor as nat, k) ==> match at_token(line@, k) {
                Some(token) => r matches Some((start, end, query)) && end == cursor && stands_at(
                    line@,
                    start as nat,
                    k - token.len(),
                ) && query@ == token.skip(1),
                None => r is None,
            },
{
    let k = chars_before(line, cursor);
    let v = chars_of(line);
    let mut start: usize = k;
    while start > 0 && !delim(v[start - 1])
        invariant
            start <= k <= v@.len(),
            v@ == line@,
            token_start(v@.take(start as int)) == token_start(v@.take(k as int)),
        decreases start,
    {
        assert(v@.take(start as int).drop_last() =~= v@.take(start - 1));
        start -= 1;
    }
    proof {
        if start > 0 {
            assert(v@.take(start as int).last() == v@[start - 1]);
        }
        assert(token_start(v@.take(start as int)) == start);
        assert forall|j: int| #[trigger] stands_at(line@, cursor as nat, j) implies j == k by {
            if j < k {
                lemma_bytes_prefix(line@, j, k as int);
            } else {
                lemma_bytes_prefix(line@, k as int, j);
            }
        }
    }
    let ghost token = v@.subrange(start as int, k as int);
    if start == k || v[start] != '@' {
        return None;
    }
    let at = bytes_before(line, start);
    let query = line.substring_char(start + 1, k);
    assert(query@ =~= token.skip(1));
    Some((at, cursor, query))
}

// ---------------------------------------------------------------------------
// Where to look
// ---------------------------------------------------------------------------

/// Where a query says to look, and for what.
#[derive(Debug, Clone, PartialEq, Eq)]
pub struct Scope {
    /// The directory, under the root.
    pub dir: String,
    /// What the answers carry back before the path under that directory.
    pub base: String,
    /// The name looked for.
    pub name: String,
}

/// A scope, with its texts as sequences.
#[verifier::ext_equal]
pub struct ScopeView {
    pub dir: Seq<char>,
    pub base: Seq<char>,
    pub name: Seq<char>,
}

impl View for Scope {
    type V = ScopeView;

    open spec fn view(&self) -> ScopeView {
        ScopeView { dir: self.dir@, base: self.base@, name: self.name@ }
    }
}

/// A path with forward slashes.
pub open spec fn slashed(s: Seq<char>) -> Seq<char> {
    Seq::new(
        s.len(),
        |i: int|
            if s[i] == '\\' {
                '/'
            } else {
                s[i]
            },
    )
}

/// Whether a query would leave the workspace: an absolute, home or parent scope
/// would label files the prompt cannot mean, or walk out of it.
pub open spec fn leaves(q: Seq<char>) -> bool {
    ||| q.len() > 0 && (q[0] == '/' || q[0] == '~')
    ||| split(q, '/').contains(seq!['.', '.'])
}

/// Where a query says to look, if anywhere.
pub open spec fn scope_of(query: Seq<char>, root: Seq<char>) -> Option<ScopeView> {
    let q = slashed(query);
    let i = last_index_of(q, '/');
    if root.len() == 0 || leaves(q) {
        None
    } else {
        Some(
            ScopeView {
                dir: if i < 0 {
                    Seq::empty()
                } else {
                    q.take(i)
                },
                base: q.take(i + 1),
                name: q.skip(i + 1),
            },
        )
    }
}

/// A path with forward slashes.
fn with_slashes(s: &[char]) -> (r: Vec<char>)
    ensures
        r@ == slashed(s@),
{
    let mut r: Vec<char> = Vec::new();
    let mut i: usize = 0;
    while i < s.len()
        invariant
            i <= s@.len(),
            r@ == slashed(s@).take(i as int),
        decreases s@.len() - i,
    {
        let c = s[i];
        r.push(
            if c == '\\' {
                '/'
            } else {
                c
            },
        );
        i += 1;
        assert(slashed(s@).take(i as int) =~= slashed(s@).take(i - 1).push(slashed(s@)[i - 1]));
    }
    assert(slashed(s@).take(i as int) =~= slashed(s@));
    r
}

/// Where a query says to look: the directory it names under the root, the
/// prefix the answers carry back, and the name after it. Absolute, `~` and `..`
/// scopes are refused: the completer names workspace-relative paths only.
pub fn scope(query: &str, root: &str) -> (r: Option<Scope>)
    ensures
        (match r {
            Some(s) => Some(s@),
            None => None,
        }) == scope_of(query@, root@),
{
    if root.is_empty() {
        return None;
    }
    let raw = chars_of(query);
    let q = with_slashes(raw.as_slice());
    if q.len() > 0 && (q[0] == '/' || q[0] == '~') {
        return None;
    }
    let parts = split_of(q.as_slice(), '/');
    let mut up: Vec<char> = Vec::new();
    up.push('.');
    up.push('.');
    assert(up@ =~= seq!['.', '.']);
    let mut i: usize = 0;
    while i < parts.len()
        invariant
            i <= parts@.len(),
            up@ == seq!['.', '.'],
            rows(parts@) == split(q@, '/'),
            q@ == slashed(query@),
            forall|j: int| 0 <= j < i ==> rows(parts@)[j] != seq!['.', '.'],
        decreases parts@.len() - i,
    {
        assert(rows(parts@)[i as int] == parts@[i as int]@);
        if same(parts[i].as_slice(), up.as_slice()) {
            assert(split(q@, '/')[i as int] == seq!['.', '.']);
            assert(split(q@, '/').contains(seq!['.', '.']));
            return None;
        }
        i += 1;
    }
    proof {
        assert(!split(q@, '/').contains(seq!['.', '.'])) by {
            if split(q@, '/').contains(seq!['.', '.']) {
                let j = choose|j: int|
                    0 <= j < split(q@, '/').len() && split(q@, '/')[j] == seq!['.', '.'];
                assert(rows(parts@)[j] != seq!['.', '.']);
            }
        }
    }
    let cut = after_last(q.as_slice(), '/', q.len());
    assert(q@.take(q@.len() as int) =~= q@);
    let dir = copy_range(
        q.as_slice(),
        0,
        if cut > 0 {
            cut - 1
        } else {
            0
        },
    );
    let base = copy_range(q.as_slice(), 0, cut);
    let name = copy_range(q.as_slice(), cut, q.len());
    assert(dir@ =~= if cut == 0 {
        Seq::empty()
    } else {
        q@.take(cut - 1)
    });
    assert(base@ =~= q@.take(cut as int));
    assert(name@ =~= q@.skip(cut as int));
    Some(
        Scope {
            dir: string_of(dir.as_slice()),
            base: string_of(base.as_slice()),
            name: string_of(name.as_slice()),
        },
    )
}

// ---------------------------------------------------------------------------
// Ranking
// ---------------------------------------------------------------------------

/// A text in lower case.
pub uninterp spec fn lower(s: Seq<char>) -> Seq<char>;

/// `str::to_lowercase`: the text in lower case, by Unicode's tables.
#[verifier::external_body]
fn lowered(s: &str) -> (r: String)
    ensures
        r@ == lower(s@),
{
    s.to_lowercase()
}

fn lowered_chars(s: &[char]) -> (r: Vec<char>)
    ensures
        r@ == lower(s@),
{
    let t = string_of(s);
    let l = lowered(t.as_str());
    chars_of(l.as_str())
}

/// A candidate and what it scored.
#[verifier::ext_equal]
pub struct ScoredView {
    pub score: int,
    pub path: Seq<char>,
    pub dir: bool,
}

struct Scored {
    score: u32,
    path: Vec<char>,
    dir: bool,
}

impl Scored {
    spec fn model(&self) -> ScoredView {
        ScoredView { score: self.score as int, path: self.path@, dir: self.dir }
    }
}

spec fn models(v: Seq<Scored>) -> Seq<ScoredView> {
    Seq::new(v.len(), |i: int| v[i].model())
}

/// The last segment of a path.
pub open spec fn file_of(rel: Seq<char>) -> Seq<char> {
    rel.skip(last_index_of(rel, '/') + 1)
}

/// What a name is worth against the one looked for: the whole of it, its
/// start, any part of it, any part of the whole path, or nothing.
pub open spec fn name_score(file: Seq<char>, path: Seq<char>, wanted: Seq<char>) -> int {
    if lower(file) == wanted {
        100
    } else if starts(lower(file), wanted) {
        80
    } else if holds(lower(file), wanted) {
        50
    } else if holds(lower(path), wanted) {
        30
    } else {
        0
    }
}

/// What an entry under the scope is worth. With nothing to match, all of them
/// count, folders first; otherwise a folder that matches counts a little more
/// than a file that does as well.
pub open spec fn score_of(scope: ScopeView, rel: Seq<char>, dir: bool) -> int {
    let wanted = lower(scope.name);
    if scope.name.len() == 0 {
        if dir {
            110
        } else {
            100
        }
    } else {
        let s = name_score(file_of(rel), scope.base + rel, wanted);
        if dir && s > 0 {
            s + 10
        } else {
            s
        }
    }
}

/// The entries found that have a name, as many as the walk takes.
pub open spec fn listed(found: Seq<(Seq<char>, bool)>) -> Seq<(Seq<char>, bool)>
    decreases found.len(),
{
    if found.len() == 0 {
        Seq::empty()
    } else {
        let rest = listed(found.drop_last());
        if found.last().0.len() == 0 || rest.len() >= WALK_CAP {
            rest
        } else {
            rest.push((slashed(found.last().0), found.last().1))
        }
    }
}

/// The entries that match, with their scores.
pub open spec fn scored(scope: ScopeView, raw: Seq<(Seq<char>, bool)>) -> Seq<ScoredView>
    decreases raw.len(),
{
    if raw.len() == 0 {
        Seq::empty()
    } else {
        let rest = scored(scope, raw.drop_last());
        let (rel, dir) = raw.last();
        let score = score_of(scope, rel, dir);
        if score > 0 {
            rest.push(ScoredView { score, path: scope.base + rel, dir })
        } else {
            rest
        }
    }
}

/// How many of the segments are not empty.
pub open spec fn solid(parts: Seq<Seq<char>>) -> nat
    decreases parts.len(),
{
    if parts.len() == 0 {
        0
    } else {
        solid(parts.drop_last()) + if parts.last().len() > 0 {
            1nat
        } else {
            0nat
        }
    }
}

/// How many directories deep a path goes.
pub open spec fn depth_of(path: Seq<char>) -> nat {
    solid(split(path, '/'))
}

/// Whether `a` stands before `b` in the order of their characters, or is `b`.
pub open spec fn text_le(a: Seq<char>, b: Seq<char>) -> bool
    decreases a.len(),
{
    if a.len() == 0 {
        true
    } else if b.len() == 0 {
        false
    } else if a[0] != b[0] {
        a[0] < b[0]
    } else {
        text_le(a.skip(1), b.skip(1))
    }
}

/// Whether `a` goes before `b` in the menu, or is `b`: the better score, then
/// the shallower path, then the shorter one, then the one that sorts first.
pub open spec fn goes_first(a: ScoredView, b: ScoredView) -> bool {
    if a.score != b.score {
        a.score > b.score
    } else if depth_of(a.path) != depth_of(b.path) {
        depth_of(a.path) < depth_of(b.path)
    } else if bytes_len(a.path) != bytes_len(b.path) {
        bytes_len(a.path) < bytes_len(b.path)
    } else if a.path != b.path {
        text_le(a.path, b.path)
    } else {
        a.dir || !b.dir
    }
}

/// A candidate, with its path as a sequence.
#[verifier::ext_equal]
pub struct EntryView {
    pub path: Seq<char>,
    pub dir: bool,
}

impl View for FileEntry {
    type V = EntryView;

    open spec fn view(&self) -> EntryView {
        EntryView { path: self.path@, dir: self.dir }
    }
}

/// Entries, with their paths as sequences.
pub open spec fn entries_view(v: Seq<FileEntry>) -> Seq<EntryView> {
    Seq::new(v.len(), |i: int| v[i]@)
}

/// What a walk found, with its paths as sequences.
pub open spec fn found_view(v: Seq<(String, bool)>) -> Seq<(Seq<char>, bool)> {
    Seq::new(v.len(), |i: int| (v[i].0@, v[i].1))
}

/// The best of the candidates in order, as many as the menu shows.
pub open spec fn best(all: Seq<ScoredView>) -> Seq<EntryView> {
    let sorted = all.sort_by(|a: ScoredView, b: ScoredView| goes_first(a, b));
    Seq::new(
        if sorted.len() <= TOP {
            sorted.len()
        } else {
            TOP as nat
        },
        |i: int| EntryView { path: sorted[i].path, dir: sorted[i].dir },
    )
}

proof fn lemma_text_le(a: Seq<char>, b: Seq<char>)
    ensures
        text_le(a, b) || text_le(b, a),
        text_le(a, b) && text_le(b, a) ==> a == b,
    decreases a.len(),
{
    if a.len() == 0 || b.len() == 0 {
        if a.len() == 0 && b.len() == 0 {
            assert(a =~= b);
        }
    } else if a[0] == b[0] {
        lemma_text_le(a.skip(1), b.skip(1));
        if text_le(a, b) && text_le(b, a) {
            assert(a =~= seq![a[0]] + a.skip(1));
            assert(b =~= seq![b[0]] + b.skip(1));
        }
    }
}

proof fn lemma_text_le_transitive(a: Seq<char>, b: Seq<char>, c: Seq<char>)
    requires
        text_le(a, b),
        text_le(b, c),
    ensures
        text_le(a, c),
    decreases a.len(),
{
    if a.len() > 0 && a[0] == b[0] && b[0] == c[0] {
        lemma_text_le_transitive(a.skip(1), b.skip(1), c.skip(1));
    }
}

/// The order of the menu is total.
pub(crate) proof fn lemma_goes_first_total()
    ensures
        total_ordering(|a: ScoredView, b: ScoredView| goes_first(a, b)),
{
    let r = |a: ScoredView, b: ScoredView| goes_first(a, b);
    assert forall|a: ScoredView, b: ScoredView| r(a, b) && #[trigger] r(b, a) implies a == b by {
        lemma_text_le(a.path, b.path);
        assert(a =~= b);
    }
    assert forall|a: ScoredView, b: ScoredView| #[trigger] r(a, b) || r(b, a) by {
        lemma_text_le(a.path, b.path);
    }
    assert forall|a: ScoredView, b: ScoredView, c: ScoredView| #[trigger]
        r(a, b) && #[trigger] r(b, c) implies r(a, c) by {
        lemma_text_le(a.path, b.path);
        lemma_text_le(b.path, c.path);
        if text_le(a.path, b.path) && text_le(b.path, c.path) {
            lemma_text_le_transitive(a.path, b.path, c.path);
        }
    }
}

fn text_before(a: &[char], b: &[char]) -> (r: bool)
    ensures
        r == text_le(a@, b@),
{
    let mut i: usize = 0;
    assert(a@.skip(0) =~= a@);
    assert(b@.skip(0) =~= b@);
    while i < a.len() && i < b.len() && a[i] == b[i]
        invariant
            i <= a@.len(),
            i <= b@.len(),
            text_le(a@.skip(i as int), b@.skip(i as int)) == text_le(a@, b@),
        decreases a@.len() - i,
    {
        assert(a@.skip(i as int).skip(1) =~= a@.skip(i + 1));
        assert(b@.skip(i as int).skip(1) =~= b@.skip(i + 1));
        i += 1;
    }
    if i >= a.len() {
        true
    } else if i >= b.len() {
        false
    } else {
        a[i] < b[i]
    }
}

fn depth(path: &[char]) -> (r: usize)
    ensures
        r == depth_of(path@),
{
    let parts = split_of(path, '/');
    let mut n: usize = 0;
    let mut i: usize = 0;
    while i < parts.len()
        invariant
            i <= parts@.len(),
            n <= i,
            n == solid(rows(parts@).take(i as int)),
        decreases parts@.len() - i,
    {
        assert(rows(parts@).take(i + 1).drop_last() =~= rows(parts@).take(i as int));
        assert(rows(parts@).take(i + 1).last() == parts@[i as int]@);
        if parts[i].len() > 0 {
            n += 1;
        }
        i += 1;
    }
    assert(rows(parts@).take(i as int) =~= rows(parts@));
    n
}

fn byte_length(path: &[char]) -> (r: usize)
    ensures
        r == bytes_len(path@),
{
    let s = string_of(path);
    let r = s.as_str().as_bytes().len();
    proof {
        lemma_bytes_encoded(s@);
    }
    r
}

fn before(a: &Scored, b: &Scored) -> (r: bool)
    ensures
        r == goes_first(a.model(), b.model()),
{
    if a.score != b.score {
        return a.score > b.score;
    }
    let da = depth(a.path.as_slice());
    let db = depth(b.path.as_slice());
    if da != db {
        return da < db;
    }
    let la = byte_length(a.path.as_slice());
    let lb = byte_length(b.path.as_slice());
    if la != lb {
        return la < lb;
    }
    if !same(a.path.as_slice(), b.path.as_slice()) {
        return text_before(a.path.as_slice(), b.path.as_slice());
    }
    a.dir || !b.dir
}

/// Put a candidate where it belongs among those in order.
fn slot(v: &mut Vec<Scored>, x: Scored)
    requires
        sorted_by(
            models(old(v)@),
            |a: ScoredView, b: ScoredView| goes_first(a, b),
        ),
    ensures
        sorted_by(
            models(final(v)@),
            |a: ScoredView, b: ScoredView| goes_first(a, b),
        ),
        models(final(v)@).to_multiset() == models(old(v)@).to_multiset().insert(x.model()),
{
    let ghost r = |a: ScoredView, b: ScoredView| goes_first(a, b);
    let ghost was = models(v@);
    let mut i: usize = 0;
    while i < v.len() && before(&v[i], &x)
        invariant
            i <= v@.len(),
            was == models(v@),
            forall|j: int| 0 <= j < i ==> goes_first(#[trigger] was[j], x.model()),
        decreases v@.len() - i,
    {
        assert(was[i as int] == v@[i as int].model());
        i += 1;
    }
    let ghost m = x.model();
    proof {
        lemma_goes_first_total();
        if i < was.len() {
            assert(was[i as int] == v@[i as int].model());
            assert(r(was[i as int], m) || r(m, was[i as int]));
            assert forall|j: int| i <= j < was.len() implies goes_first(m, #[trigger] was[j]) by {
                if j > i {
                    assert(r(was[i as int], was[j]));
                    assert(r(m, was[i as int]));
                    assert(r(m, was[j]));
                }
            }
        }
    }
    v.insert(i, x);
    proof {
        let now = models(v@);
        assert(now =~= was.insert(i as int, m));
        broadcast use vstd::seq_lib::group_to_multiset_ensures;

        assert(was.insert(i as int, m).to_multiset() =~= was.to_multiset().insert(m));
        assert forall|p: int, q: int| 0 <= p < q < now.len() implies #[trigger] r(now[p], now[q]) by {
            if p < i && q == i {
                assert(goes_first(was[p], m));
            } else if p == i && q > i {
                assert(goes_first(m, was[q - 1]));
            } else if p < i && q < i {
                assert(r(was[p], was[q]));
            } else if p < i && q > i {
                assert(r(was[p], was[q - 1]));
            } else if p > i {
                assert(r(was[p - 1], was[q - 1]));
            }
        }
    }
}

/// What an entry under the scope is worth.
fn score(
    name: &[char],
    wanted: &[char],
    rel: &[char],
    path: &[char],
    dir: bool,
    Ghost(scope): Ghost<ScopeView>,
) -> (r: u32)
    requires
        scope.name == name@,
        wanted@ == lower(scope.name),
        path@ == scope.base + rel@,
    ensures
        r == score_of(scope, rel@, dir),
{
    if name.len() == 0 {
        return if dir {
            110
        } else {
            100
        };
    }
    let at = after_last(rel, '/', rel.len());
    assert(rel@.take(rel@.len() as int) =~= rel@);
    let file = copy_range(rel, at, rel.len());
    assert(file@ =~= file_of(rel@));
    let lower_file = lowered_chars(file.as_slice());
    let s: u32 = if same(lower_file.as_slice(), wanted) {
        100
    } else if starts_with(lower_file.as_slice(), wanted) {
        80
    } else if contains(lower_file.as_slice(), wanted) {
        50
    } else {
        let lower_path = lowered_chars(path);
        if contains(lower_path.as_slice(), wanted) {
            30
        } else {
            0
        }
    };
    if dir && s > 0 {
        s + 10
    } else {
        s
    }
}

/// Rank what a walk of the scope found, best first, at most as many as the menu
/// shows. Each entry is a path under the scope's directory and whether it is a
/// directory; an empty path is the directory itself and is passed over.
pub fn rank(scope: &Scope, found: &[(String, bool)]) -> (r: Vec<FileEntry>)
    ensures
        entries_view(r@) == best(scored(scope@, listed(found_view(found@)))),
{
    let ghost order = |a: ScoredView, b: ScoredView| goes_first(a, b);
    let ghost all = found_view(found@);
    let base = chars_of(scope.base.as_str());
    let name = chars_of(scope.name.as_str());
    let wanted = lowered_chars(name.as_slice());
    let mut v: Vec<Scored> = Vec::new();
    let mut taken: usize = 0;
    let mut i: usize = 0;
    proof {
        assert(all.take(0) =~= Seq::empty());
        assert(models(v@) =~= Seq::empty());
        broadcast use vstd::seq_lib::group_to_multiset_ensures;

        assert(models(v@).to_multiset() =~= scored(scope@, listed(all.take(0))).to_multiset());
    }
    while i < found.len()
        invariant
            i <= found@.len(),
            order == |a: ScoredView, b: ScoredView| goes_first(a, b),
            all == found_view(found@),
            base@ == scope@.base,
            name@ == scope@.name,
            wanted@ == lower(scope@.name),
            taken == listed(all.take(i as int)).len(),
            taken <= WALK_CAP,
            sorted_by(models(v@), order),
            models(v@).to_multiset() == scored(scope@, listed(all.take(i as int))).to_multiset(),
        decreases found@.len() - i,
    {
        let ghost now = listed(all.take(i as int));
        assert(all.take(i + 1).drop_last() =~= all.take(i as int));
        assert(all.take(i + 1).last() == all[i as int]);
        let raw = chars_of(found[i].0.as_str());
        let dir = found[i].1;
        if raw.len() > 0 && taken < WALK_CAP {
            let rel = with_slashes(raw.as_slice());
            let mut path = copy_range(base.as_slice(), 0, base.len());
            push_all(&mut path, rel.as_slice());
            assert(path@ =~= scope@.base + rel@);
            let s = score(
                name.as_slice(),
                wanted.as_slice(),
                rel.as_slice(),
                path.as_slice(),
                dir,
                Ghost(scope@),
            );
            let ghost more = now.push((rel@, dir));
            assert(more.drop_last() =~= now);
            if s > 0 {
                let x = Scored { score: s, path, dir };
                let ghost m = x.model();
                slot(&mut v, x);
                proof {
                    broadcast use vstd::seq_lib::group_to_multiset_ensures;

                    assert(scored(scope@, more) == scored(scope@, now).push(m));
                    assert(scored(scope@, now).push(m).to_multiset() =~= scored(
                        scope@,
                        now,
                    ).to_multiset().insert(m));
                }
            }
            taken += 1;
        }
        i += 1;
    }
    assert(all.take(i as int) =~= all);
    let ghost hits = scored(scope@, listed(all));
    proof {
        lemma_goes_first_total();
        hits.lemma_sort_by_ensures(order);
        vstd::seq_lib::lemma_sorted_unique(models(v@), hits.sort_by(order), order);
    }
    let mut r: Vec<FileEntry> = Vec::new();
    let mut k: usize = 0;
    while k < v.len() && k < TOP
        invariant
            k <= v@.len(),
            k <= TOP,
            r@.len() == k,
            forall|j: int|
                0 <= j < k ==> (#[trigger] r@[j])@ == (EntryView {
                    path: v@[j].path@,
                    dir: v@[j].dir,
                }),
        decreases v@.len() - k,
    {
        let path = string_of(v[k].path.as_slice());
        r.push(FileEntry { path, dir: v[k].dir });
        k += 1;
    }
    proof {
        let sorted = hits.sort_by(order);
        assert(sorted == models(v@));
        assert(sorted.len() == v@.len());
        assert forall|j: int| 0 <= j < r@.len() implies #[trigger] entries_view(r@)[j] == best(
            hits,
        )[j] by {
            assert(sorted[j] == v@[j].model());
        }
        assert(entries_view(r@) =~= best(hits));
    }
    r
}

/// What the menu offers for a query, out of what a walk found.
pub open spec fn offered(
    query: Seq<char>,
    root: Seq<char>,
    found: Seq<(Seq<char>, bool)>,
) -> Seq<EntryView> {
    match scope_of(query, root) {
        Some(s) => best(scored(s, listed(found))),
        None => Seq::empty(),
    }
}

/// Ranked candidates for the text after the `@`, best first, out of what a walk
/// of the query's scope found. A query that would leave the workspace completes
/// nothing.
pub fn candidates(query: &str, root: &str, found: &[(String, bool)]) -> (r: Vec<FileEntry>)
    ensures
        entries_view(r@) == offered(query@, root@, found_view(found@)),
{
    match scope(query, root) {
        Some(s) => rank(&s, found),
        None => {
            let r: Vec<FileEntry> = Vec::new();
            assert(entries_view(r@) =~= Seq::empty());
            r
        },
    }
}

// ---------------------------------------------------------------------------
// Laws
// ---------------------------------------------------------------------------

proof fn lemma_scored_under(scope: ScopeView, raw: Seq<(Seq<char>, bool)>, i: int)
    requires
        0 <= i < scored(scope, raw).len(),
    ensures
        scored(scope, raw)[i].score > 0,
        exists|k: int|
            0 <= k < raw.len() && scored(scope, raw)[i].path == scope.base + (#[trigger] raw[k]).0
                && scored(scope, raw)[i].dir == raw[k].1,
    decreases raw.len(),
{
    let less = raw.drop_last();
    let rest = scored(scope, less);
    if i < rest.len() {
        lemma_scored_under(scope, less, i);
        let k = choose|k: int|
            0 <= k < less.len() && rest[i].path == scope.base + (#[trigger] less[k]).0
                && rest[i].dir == less[k].1;
        assert(raw[k] == less[k]);
    } else {
        assert(raw[raw.len() - 1] == raw.last());
    }
}

/// Whatever the menu offers was found, lies under what the query names, and is
/// one of no more than the menu shows.
pub proof fn law_the_menu_offers_what_was_found(
    scope: ScopeView,
    raw: Seq<(Seq<char>, bool)>,
    i: int,
)
    requires
        0 <= i < best(scored(scope, raw)).len(),
    ensures
        best(scored(scope, raw)).len() <= TOP,
        starts(best(scored(scope, raw))[i].path, scope.base),
        exists|k: int|
            0 <= k < raw.len() && best(scored(scope, raw))[i].path == scope.base + (
            #[trigger] raw[k]).0 && best(scored(scope, raw))[i].dir == raw[k].1,
{
    let r = |a: ScoredView, b: ScoredView| goes_first(a, b);
    let all = scored(scope, raw);
    lemma_goes_first_total();
    all.lemma_sort_by_ensures(r);
    let sorted = all.sort_by(r);
    broadcast use vstd::seq_lib::group_to_multiset_ensures;

    assert(sorted.contains(sorted[i]));
    assert(all.to_multiset().count(sorted[i]) > 0);
    assert(all.contains(sorted[i]));
    let m = choose|m: int| 0 <= m < all.len() && all[m] == sorted[i];
    lemma_scored_under(scope, raw, m);
    let k = choose|k: int|
        0 <= k < raw.len() && all[m].path == scope.base + (#[trigger] raw[k]).0 && all[m].dir
            == raw[k].1;
    let path = scope.base + raw[k].0;
    assert(path.take(scope.base.len() as int) =~= scope.base);
}

/// What the menu puts first goes first: no entry scores better than one above
/// it.
pub proof fn law_the_better_match_stands_first(all: Seq<ScoredView>, i: int, j: int)
    requires
        0 <= i < j < best(all).len(),
    ensures
        ({
            let sorted = all.sort_by(|a: ScoredView, b: ScoredView| goes_first(a, b));
            goes_first(sorted[i], sorted[j]) && sorted[i].score >= sorted[j].score
        }),
{
    let r = |a: ScoredView, b: ScoredView| goes_first(a, b);
    lemma_goes_first_total();
    all.lemma_sort_by_ensures(r);
    let sorted = all.sort_by(r);
    assert(r(sorted[i], sorted[j]));
}

/// Where a query is looked up, it is split and nothing of it is lost; and it
/// never leads out of the workspace.
pub proof fn law_a_scope_stays_in_the_workspace(query: Seq<char>, root: Seq<char>)
    requires
        scope_of(query, root) is Some,
    ensures
        scope_of(query, root)->Some_0.base + scope_of(query, root)->Some_0.name == slashed(query),
        !leaves(
            scope_of(query, root)->Some_0.base + scope_of(query, root)->Some_0.name,
        ),
{
    let q = slashed(query);
    let i = last_index_of(q, '/');
    crate::text::lemma_last_index_of(q, '/');
    assert(q.take(i + 1) + q.skip(i + 1) =~= q);
}

} // verus!
