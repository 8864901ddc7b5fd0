//! Parallel checkouts of one repository, and moving the session between them.
//!
//! A worktree lives at `<repo>/.worktrees/<name>` on a branch of the same name,
//! so one word names the directory, the branch and the command argument.
//! Git refuses to check one branch out twice, so the alternative to a branch
//! per worktree is a detached HEAD — commits reachable only through the reflog.
//!
//! Git is run elsewhere: what it printed comes in as text, and what it is to be
//! asked goes out as arguments.

use crate::syntax::lang::{file_name, name_of_path};
use crate::text::{
    after_last, bytes_before, bytes_len, chars_of, copy_range, index_of, last_index_of,
    lemma_index_of, lemma_index_of_is, lemma_last_index_of, lines, lines_of, opens_with, position,
    rows, same, same_str, split, split_of, starts, string_of, trim, trimmed,
};
use vstd::prelude::*;
use vstd::string::*;

verus! {

/// Where worktrees live, relative to the repository root.
pub const DIR: &'static str = ".worktrees";

/// One checkout of the repository.
#[derive(Debug, Clone, PartialEq, Eq)]
pub struct Worktree {
    pub path: String,
    /// What `/worktree` takes to reach it: the path under `.worktrees`, or the
    /// directory name for the main checkout, which lives outside it.
    pub name: String,
    /// None when the checkout is on a detached HEAD.
    pub branch: Option<String>,
    /// The repository's own working tree, the one that is not a worktree.
    pub main: bool,
}

/// A checkout, with its texts as sequences.
#[verifier::ext_equal]
pub struct WorktreeView {
    pub path: Seq<char>,
    pub name: Seq<char>,
    pub branch: Option<Seq<char>>,
    pub main: bool,
}

impl View for Worktree {
    type V = WorktreeView;

    open spec fn view(&self) -> WorktreeView {
        WorktreeView {
            path: self.path@,
            name: self.name@,
            branch: match self.branch {
                Some(b) => Some(b@),
                None => None,
            },
            main: self.main,
        }
    }
}

/// Checkouts, with their texts as sequences.
pub open spec fn trees_view(v: Seq<Worktree>) -> Seq<WorktreeView> {
    Seq::new(v.len(), |i: int| v[i]@)
}

// ---------------------------------------------------------------------------
// Paths
// ---------------------------------------------------------------------------

/// Whether a part of a path names something: it is not empty, and not `.`.
pub open spec fn names(part: Seq<char>) -> bool {
    part.len() > 0 && part != "."@
}

/// The parts that name something.
pub open spec fn named_parts(parts: Seq<Seq<char>>) -> Seq<Seq<char>>
    decreases parts.len(),
{
    if parts.len() == 0 {
        Seq::empty()
    } else if names(parts.last()) {
        named_parts(parts.drop_last()).push(parts.last())
    } else {
        named_parts(parts.drop_last())
    }
}

/// Whether a path starts at the root.
pub open spec fn rooted(path: Seq<char>) -> bool {
    path.len() > 0 && path[0] == '/'
}

/// Whether a path starts with a `.` of its own.
pub open spec fn dotted(path: Seq<char>) -> bool {
    path.len() > 0 && path[0] == '.' && (path.len() == 1 || path[1] == '/')
}

/// What a path starts with, before any name: the root, a `.`, or nothing. A `.`
/// anywhere else is no step.
pub open spec fn head(path: Seq<char>) -> Seq<Seq<char>> {
    if rooted(path) {
        seq!["/"@]
    } else if dotted(path) {
        seq!["."@]
    } else {
        Seq::empty()
    }
}

/// The path behind what it starts with.
pub open spec fn body(path: Seq<char>) -> Seq<char> {
    path.skip(head(path).len() as int)
}

/// The steps along a path: what it starts with, and its names.
pub open spec fn steps(path: Seq<char>) -> Seq<Seq<char>> {
    head(path) + named_parts(split(body(path), '/'))
}

/// Whether the steps of one path open those of another.
pub open spec fn opens_steps(base: Seq<Seq<char>>, all: Seq<Seq<char>>) -> bool {
    base.len() <= all.len() && all.take(base.len() as int) == base
}

/// Whether a path is `base` or lies below it, step by step: `/a/bc` is not
/// below `/a/b`. Everything lies below the empty path.
pub open spec fn within(path: Seq<char>, base: Seq<char>) -> bool {
    opens_steps(steps(base), steps(path))
}

/// The text behind the first `n` names, from the next name on.
pub open spec fn behind(text: Seq<char>, n: int) -> Seq<char>
    decreases text.len(),
{
    let i = index_of(text, '/');
    let part = text.take(i);
    if text.len() == 0 || (names(part) && n <= 0) {
        text
    } else if i < 0 || i >= text.len() {
        Seq::empty()
    } else if names(part) {
        behind(text.skip(i + 1), n - 1)
    } else {
        behind(text.skip(i + 1), n)
    }
}

/// The text up to the last name in it.
pub open spec fn closed_off(text: Seq<char>) -> Seq<char>
    decreases text.len(),
{
    let i = last_index_of(text, '/');
    if text.len() == 0 || names(text.skip(i + 1)) {
        text
    } else if i < 0 || i >= text.len() {
        Seq::empty()
    } else {
        closed_off(text.take(i))
    }
}

fn is_name(part: &[char]) -> (r: bool)
    ensures
        r == names(part@),
{
    let dot = chars_of(".");
    part.len() > 0 && !same(part, dot.as_slice())
}

/// What a path starts with, as a text of one character at most.
fn head_of(path: &[char]) -> (r: Vec<char>)
    ensures
        r@.len() == head(path@).len(),
        r@.len() == 1 ==> head(path@) == seq![r@],
{
    proof {
        reveal_strlit("/");
        reveal_strlit(".");
    }
    let mut r: Vec<char> = Vec::new();
    if path.len() > 0 && path[0] == '/' {
        r.push('/');
        assert(r@ =~= "/"@);
    } else if path.len() > 0 && path[0] == '.' && (path.len() == 1 || path[1] == '/') {
        r.push('.');
        assert(r@ =~= "."@);
    }
    r
}

fn steps_of(path: &[char]) -> (r: Vec<Vec<char>>)
    ensures
        rows(r@) == steps(path@),
{
    let first = head_of(path);
    let text = copy_range(path, first.len(), path.len());
    assert(text@ =~= body(path@));
    let parts = split_of(text.as_slice(), '/');
    let ghost all = rows(parts@);
    let ghost open = head(path@);
    let mut r: Vec<Vec<char>> = Vec::new();
    if first.len() > 0 {
        r.push(first);
    }
    let mut i: usize = 0;
    assert(rows(r@) =~= open);
    assert(named_parts(all.take(0)) =~= Seq::empty());
    assert(rows(r@) =~= open + named_parts(all.take(0)));
    while i < parts.len()
        invariant
            i <= parts@.len(),
            all == rows(parts@),
            rows(r@) == open + named_parts(all.take(i as int)),
        decreases parts@.len() - i,
    {
        let ghost t = all.take(i + 1);
        let ghost done = rows(r@);
        assert(t.drop_last() =~= all.take(i as int));
        assert(t.last() == parts@[i as int]@);
        let p = &parts[i];
        if is_name(p.as_slice()) {
            let c = copy_range(p.as_slice(), 0, p.len());
            assert(c@ =~= p@);
            r.push(c);
            assert(rows(r@) =~= done.push(p@));
            assert(rows(r@) =~= open + named_parts(t));
        }
        i += 1;
    }
    assert(all.take(i as int) =~= all);
    r
}

/// The text behind the first `n` names, from the next name on.
fn text_behind(text: &[char], n: usize) -> (r: Vec<char>)
    ensures
        r@ == behind(text@, n as int),
{
    let mut left: usize = n;
    let mut from: usize = 0;
    assert(text@.skip(0) =~= text@);
    while from < text.len()
        invariant
            from <= text@.len(),
            behind(text@.skip(from as int), left as int) == behind(text@, n as int),
        decreases text@.len() - from,
    {
        let ghost rest = text@.skip(from as int);
        let i = position(text, '/', from);
        proof {
            lemma_index_of(rest, '/');
            assert(index_of(rest, '/') == i - from);
        }
        let part = copy_range(text, from, i);
        assert(part@ =~= rest.take(i - from));
        let named = is_name(part.as_slice());
        if named && left == 0 {
            let r = copy_range(text, from, text.len());
            assert(r@ =~= rest);
            return r;
        }
        if i == text.len() {
            return Vec::new();
        }
        assert(rest.skip(i - from + 1) =~= text@.skip(i + 1));
        assert(behind(rest, left as int) == behind(
            text@.skip(i + 1),
            if named {
                left - 1
            } else {
                left as int
            },
        ));
        if named {
            left -= 1;
        }
        from = i + 1;
    }
    assert(text@.skip(from as int) =~= Seq::empty());
    proof {
        lemma_index_of(Seq::empty(), '/');
    }
    Vec::new()
}

/// The text up to the last name in it.
fn close_off(text: &[char]) -> (r: Vec<char>)
    ensures
        r@ == closed_off(text@),
{
    let mut to: usize = text.len();
    assert(text@.take(to as int) =~= text@);
    while to > 0
        invariant
            to <= text@.len(),
            closed_off(text@.take(to as int)) == closed_off(text@),
        decreases to,
    {
        let ghost now = text@.take(to as int);
        let i = after_last(text, '/', to);
        let part = copy_range(text, i, to);
        proof {
            lemma_last_index_of(now, '/');
            assert(part@ =~= now.skip(i as int));
        }
        if is_name(part.as_slice()) {
            let r = copy_range(text, 0, to);
            assert(r@ =~= now);
            return r;
        }
        if i == 0 {
            return Vec::new();
        }
        assert(now.take(i - 1) =~= text@.take(i - 1));
        assert(closed_off(now) == closed_off(text@.take(i - 1)));
        to = i - 1;
    }
    proof {
        lemma_last_index_of(text@.take(0), '/');
        assert(text@.take(0) =~= Seq::empty());
    }
    Vec::new()
}

fn same_start(a: &[Vec<char>], b: &[Vec<char>]) -> (r: bool)
    ensures
        r == opens_steps(rows(b@), rows(a@)),
{
    if b.len() > a.len() {
        return false;
    }
    let mut i: usize = 0;
    while i < b.len()
        invariant
            i <= b@.len() <= a@.len(),
            forall|k: int| 0 <= k < i ==> (#[trigger] a@[k])@ == b@[k]@,
        decreases b@.len() - i,
    {
        if !same(a[i].as_slice(), b[i].as_slice()) {
            proof {
                assert(rows(a@).take(b@.len() as int)[i as int] == a@[i as int]@);
                assert(rows(b@)[i as int] == b@[i as int]@);
            }
            return false;
        }
        i += 1;
    }
    assert(rows(a@).take(b@.len() as int) =~= rows(b@));
    true
}

fn is_within(path: &str, base: &str) -> (r: bool)
    ensures
        r == within(path@, base@),
{
    let ps = steps_of(chars_of(path).as_slice());
    let bs = steps_of(chars_of(base).as_slice());
    same_start(ps.as_slice(), bs.as_slice())
}

// ---------------------------------------------------------------------------
// The list
// ---------------------------------------------------------------------------

/// What git said, cut to the last line of it.
pub open spec fn complaint(said: Seq<char>) -> Seq<char> {
    let all = lines(trim(said));
    let line = if all.len() > 0 {
        trim(all.last())
    } else {
        Seq::empty()
    };
    if line.len() == 0 {
        "git failed"@
    } else {
        line
    }
}

/// Why git failed: the last line of what it printed.
pub fn stderr_of(said: &str) -> (r: String)
    ensures
        r@ == complaint(said@),
{
    let v = chars_of(said);
    let t = trimmed(v.as_slice());
    let all = lines_of(t.as_slice());
    assert(rows(all@).len() == all@.len());
    if all.len() > 0 {
        let line = trimmed(all[all.len() - 1].as_slice());
        assert(rows(all@).last() == all@[all@.len() - 1]@);
        if line.len() > 0 {
            return string_of(line.as_slice());
        }
    }
    "git failed".to_owned()
}

/// Where the worktrees of a repository lie.
pub open spec fn worktrees_of(root: Seq<char>) -> Seq<Seq<char>> {
    steps(root).push(".worktrees"@)
}

/// What a checkout is called. Under `.worktrees` the name is the path below it,
/// as it is written, so `feat/one` keeps both halves; the main checkout is not
/// under it and answers to its directory name.
pub open spec fn name_form(path: Seq<char>, root: Seq<char>, main: bool) -> Seq<char> {
    let base = worktrees_of(root);
    if main {
        match file_name(path) {
            Some(name) => name,
            None => path,
        }
    } else if opens_steps(base, steps(path)) {
        closed_off(behind(body(path), base.len() - head(path).len()))
    } else {
        path
    }
}

fn name_of(path: &str, root: &str, main: bool) -> (r: String)
    ensures
        r@ == name_form(path@, root@, main),
{
    let p = chars_of(path);
    if main {
        return match name_of_path(p.as_slice()) {
            Some(name) => string_of(name.as_slice()),
            None => path.to_owned(),
        };
    }
    let b = chars_of(root);
    let ps = steps_of(p.as_slice());
    let mut base = steps_of(b.as_slice());
    let ghost before = rows(base@);
    base.push(chars_of(".worktrees"));
    assert(rows(base@) =~= before.push(".worktrees"@));
    if !same_start(ps.as_slice(), base.as_slice()) {
        return path.to_owned();
    }
    let first = head_of(p.as_slice()).len();
    let text = copy_range(p.as_slice(), first, p.len());
    assert(text@ =~= body(path@));
    assert(rows(base@).len() == base@.len());
    let below = text_behind(text.as_slice(), base.len() - first);
    let name = close_off(below.as_slice());
    string_of(name.as_slice())
}

/// A text without `head` in front of it, as often as it stands there.
pub open spec fn without_head(s: Seq<char>, head: Seq<char>) -> Seq<char>
    decreases s.len(),
{
    if head.len() > 0 && starts(s, head) {
        without_head(s.skip(head.len() as int), head)
    } else {
        s
    }
}

fn strip_heads(s: &[char]) -> (r: Vec<char>)
    ensures
        r@ == without_head(s@, "refs/heads/"@),
{
    let head = chars_of("refs/heads/");
    proof {
        reveal_strlit("refs/heads/");
    }
    let mut rest = copy_range(s, 0, s.len());
    assert(rest@ =~= s@);
    while opens_with(rest.as_slice(), "refs/heads/")
        invariant
            head@ == "refs/heads/"@,
            head@.len() > 0,
            without_head(rest@, "refs/heads/"@) == without_head(s@, "refs/heads/"@),
        decreases rest@.len(),
    {
        let less = copy_range(rest.as_slice(), head.len(), rest.len());
        assert(less@ =~= rest@.skip(head@.len() as int));
        rest = less;
    }
    rest
}

/// The checkouts after one more line of the list.
pub open spec fn trees_after(trees: Seq<WorktreeView>, line: Seq<char>) -> Seq<WorktreeView> {
    if starts(line, "worktree "@) {
        let path = line.skip("worktree "@.len() as int);
        let main = trees.len() == 0;
        let root = if main {
            path
        } else {
            trees[0].path
        };
        trees.push(WorktreeView { path, name: name_form(path, root, main), branch: None, main })
    } else if starts(line, "branch "@) && trees.len() > 0 {
        trees.drop_last().push(
            WorktreeView {
                branch: Some(
                    without_head(line.skip("branch "@.len() as int), "refs/heads/"@),
                ),
                ..trees.last()
            },
        )
    } else {
        trees
    }
}

/// The checkouts some lines of the list tell of.
pub open spec fn trees_in(all: Seq<Seq<char>>) -> Seq<WorktreeView>
    decreases all.len(),
{
    if all.len() == 0 {
        Seq::empty()
    } else {
        trees_after(trees_in(all.drop_last()), all.last())
    }
}

/// Every checkout of a repository, the main one first, from what `git worktree
/// list --porcelain` printed.
///
/// The main one leading is what lets a worktree find its way back out:
/// `--show-toplevel` would answer with the checkout asking, not the one that
/// owns `.worktrees`.
pub fn list(listed: &str) -> (r: Vec<Worktree>)
    ensures
        trees_view(r@) == trees_in(lines(trim(listed@))),
{
    let v = chars_of(listed);
    let t = trimmed(v.as_slice());
    let all = lines_of(t.as_slice());
    let ghost every = rows(all@);
    let mut out: Vec<Worktree> = Vec::new();
    let mut i: usize = 0;
    assert(trees_view(out@) =~= Seq::empty());
    // Records are blank-line separated, `worktree <path>` always first.
    while i < all.len()
        invariant
            i <= all@.len(),
            every == rows(all@),
            trees_view(out@) == trees_in(every.take(i as int)),
        decreases all@.len() - i,
    {
        let ghost done = trees_view(out@);
        proof {
            assert(every.take(i + 1).drop_last() =~= every.take(i as int));
            assert(every.take(i + 1).last() == all@[i as int]@);
        }
        let line = &all[i];
        if opens_with(line.as_slice(), "worktree ") {
            let at = chars_of("worktree ").len();
            let rest = copy_range(line.as_slice(), at, line.len());
            assert(rest@ =~= line@.skip("worktree "@.len() as int));
            let path = string_of(rest.as_slice());
            let main = out.len() == 0;
            let name = if main {
                name_of(path.as_str(), path.as_str(), main)
            } else {
                assert(done[0] == out@[0]@);
                name_of(path.as_str(), out[0].path.as_str(), main)
            };
            let tree = Worktree { path, name, branch: None, main };
            let ghost added = tree@;
            out.push(tree);
            assert(trees_view(out@) =~= done.push(added));
        } else if opens_with(line.as_slice(), "branch ") {
            if let Some(last) = out.pop() {
                assert(done.last() == last@);
                assert(trees_view(out@) =~= done.drop_last());
                let at = chars_of("branch ").len();
                let rest = copy_range(line.as_slice(), at, line.len());
                assert(rest@ =~= line@.skip("branch "@.len() as int));
                let branch = strip_heads(rest.as_slice());
                let tree = Worktree {
                    path: last.path,
                    name: last.name,
                    branch: Some(string_of(branch.as_slice())),
                    main: last.main,
                };
                let ghost changed = tree@;
                out.push(tree);
                assert(trees_view(out@) =~= done.drop_last().push(changed));
            }
        }
        i += 1;
    }
    assert(every.take(i as int) =~= every);
    out
}

// ---------------------------------------------------------------------------
// Names
// ---------------------------------------------------------------------------

/// What is wrong with a name.
#[derive(Debug, Clone, PartialEq, Eq)]
pub enum Refusal {
    Empty,
    /// It starts with `/` or `-`.
    Start(String),
    /// It would leave `.worktrees`.
    Outside(String),
    /// It holds a character that git would not take.
    Letter(char),
}

/// What is wrong with a name, with its texts as sequences.
#[verifier::ext_equal]
pub enum RefusalView {
    Empty,
    Start(Seq<char>),
    Outside(Seq<char>),
    Letter(char),
}

impl View for Refusal {
    type V = RefusalView;

    open spec fn view(&self) -> RefusalView {
        match self {
            Refusal::Empty => RefusalView::Empty,
            Refusal::Start(s) => RefusalView::Start(s@),
            Refusal::Outside(s) => RefusalView::Outside(s@),
            Refusal::Letter(c) => RefusalView::Letter(*c),
        }
    }
}

/// What is said of a refused name.
pub open spec fn refusal_form(r: RefusalView) -> Seq<char> {
    match r {
        RefusalView::Empty => "a worktree needs a name"@,
        RefusalView::Start(name) => "`"@ + name + "` cannot start with `/` or `-`"@,
        RefusalView::Outside(name) => "`"@ + name + "` is not a path under .worktrees/"@,
        RefusalView::Letter(c) => "`"@.push(c) + "` is not allowed in a worktree name"@,
    }
}

impl Refusal {
    /// What is said of it.
    pub fn message(&self) -> (r: String)
        ensures
            r@ == refusal_form(self@),
    {
        let mut r = "`".to_owned();
        match self {
            Refusal::Empty => {
                return "a worktree needs a name".to_owned();
            },
            Refusal::Start(name) => {
                r.append(name.as_str());
                r.append("` cannot start with `/` or `-`");
            },
            Refusal::Outside(name) => {
                r.append(name.as_str());
                r.append("` is not a path under .worktrees/");
            },
            Refusal::Letter(c) => {
                r.push(*c);
                r.append("` is not allowed in a worktree name");
            },
        }
        r
    }
}

/// A text without the slashes at its end.
pub open spec fn without_slashes(s: Seq<char>) -> Seq<char>
    decreases s.len(),
{
    if s.len() > 0 && s.last() == '/' {
        without_slashes(s.drop_last())
    } else {
        s
    }
}

/// Whether a character may stand in a name.
pub open spec fn name_letter(c: char) -> bool {
    ('a' <= c <= 'z') || ('A' <= c <= 'Z') || ('0' <= c <= '9') || c == '.' || c == '_' || c == '-'
        || c == '/'
}

/// The first character that may not stand in a name, if any.
pub open spec fn bad_letter(s: Seq<char>) -> Option<char>
    decreases s.len(),
{
    if s.len() == 0 {
        None
    } else if !name_letter(s[0]) {
        Some(s[0])
    } else {
        bad_letter(s.skip(1))
    }
}

/// Whether a part of a name leads nowhere or elsewhere.
pub open spec fn stray(part: Seq<char>) -> bool {
    part.len() == 0 || part == ".."@ || part == "."@
}

/// A name as it will be used, or what is wrong with it.
pub open spec fn vet(name: Seq<char>) -> Result<Seq<char>, RefusalView> {
    let name = without_slashes(trim(name));
    if name.len() == 0 {
        Err(RefusalView::Empty)
    } else if name[0] == '/' || name[0] == '-' {
        Err(RefusalView::Start(name))
    } else if exists|i: int|
        0 <= i < split(name, '/').len() && stray(#[trigger] split(name, '/')[i]) {
        Err(RefusalView::Outside(name))
    } else {
        match bad_letter(name) {
            Some(c) => Err(RefusalView::Letter(c)),
            None => Ok(name),
        }
    }
}

/// Refuse a name that would not stay under `.worktrees`, or that git would not
/// take as a branch. The check is on the name rather than the joined path
/// because the error should say which word was wrong.
pub fn vetted(name: &str) -> (r: Result<String, Refusal>)
    ensures
        match vet(name@) {
            Ok(n) => r matches Ok(s) && s@ == n,
            Err(e) => r matches Err(x) && x@ == e,
        },
{
    let v = chars_of(name);
    let t = trimmed(v.as_slice());
    let mut n: usize = t.len();
    assert(t@.take(n as int) =~= t@);
    while n > 0 && t[n - 1] == '/'
        invariant
            n <= t@.len(),
            without_slashes(t@.take(n as int)) == without_slashes(t@),
        decreases n,
    {
        assert(t@.take(n as int).drop_last() =~= t@.take(n - 1));
        n -= 1;
    }
    let kept = copy_range(t.as_slice(), 0, n);
    assert(kept@ =~= t@.take(n as int));
    let ghost name_ = without_slashes(trim(name@));
    assert(kept@ == name_);
    if kept.len() == 0 {
        return Err(Refusal::Empty);
    }
    let word = string_of(kept.as_slice());
    if kept[0] == '/' || kept[0] == '-' {
        return Err(Refusal::Start(word));
    }
    let parts = split_of(kept.as_slice(), '/');
    let dot = chars_of(".");
    let up = chars_of("..");
    let mut i: usize = 0;
    while i < parts.len()
        invariant
            i <= parts@.len(),
            dot@ == "."@,
            up@ == ".."@,
            word@ == name_,
            name_ == without_slashes(trim(name@)),
            name_.len() > 0,
            name_[0] != '/' && name_[0] != '-',
            rows(parts@) == split(name_, '/'),
            forall|k: int| 0 <= k < i ==> !stray(#[trigger] split(name_, '/')[k]),
        decreases parts@.len() - i,
    {
        let p = &parts[i];
        assert(split(name_, '/')[i as int] == p@);
        if p.len() == 0 || same(p.as_slice(), up.as_slice()) || same(p.as_slice(), dot.as_slice()) {
            return Err(Refusal::Outside(word));
        }
        i += 1;
    }
    assert(rows(parts@).len() == parts@.len());
    let mut j: usize = 0;
    assert(kept@.skip(0) =~= kept@);
    while j < kept.len()
        invariant
            j <= kept@.len(),
            kept@ == name_,
            name_ == without_slashes(trim(name@)),
            name_.len() > 0,
            name_[0] != '/' && name_[0] != '-',
            forall|k: int|
                0 <= k < split(name_, '/').len() ==> !stray(#[trigger] split(name_, '/')[k]),
            bad_letter(kept@.skip(j as int)) == bad_letter(kept@),
        decreases kept@.len() - j,
    {
        let c = kept[j];
        assert(kept@.skip(j as int)[0] == c);
        assert(kept@.skip(j as int).skip(1) =~= kept@.skip(j + 1));
        let fine = ('a' <= c && c <= 'z') || ('A' <= c && c <= 'Z') || ('0' <= c && c <= '9') || c
            == '.' || c == '_' || c == '-' || c == '/';
        if !fine {
            return Err(Refusal::Letter(c));
        }
        j += 1;
    }
    Ok(word)
}

// ---------------------------------------------------------------------------
// Which checkout
// ---------------------------------------------------------------------------

/// Which of the checkouts holds a path: the one with the longest path that
/// contains it, and the later of two as long.
pub open spec fn holder(trees: Seq<WorktreeView>, path: Seq<char>) -> Option<int>
    decreases trees.len(),
{
    if trees.len() == 0 {
        None
    } else {
        let rest = holder(trees.drop_last(), path);
        if !within(path, trees.last().path) {
            rest
        } else {
            match rest {
                Some(i) => if bytes_len(trees[i].path) > bytes_len(trees.last().path) {
                    rest
                } else {
                    Some(trees.len() - 1)
                },
                None => Some(trees.len() - 1),
            }
        }
    }
}

/// Which of `trees` holds `path`.
///
/// By longest containing path rather than by equality: a run started in a
/// subdirectory is still in that checkout, and the main one contains every
/// other, so only the longest match answers.
pub fn holding<'a>(trees: &'a [Worktree], path: &str) -> (r: Option<&'a Worktree>)
    ensures
        match holder(trees_view(trees@), path@) {
            Some(i) => r matches Some(t) && 0 <= i < trees@.len() && *t == trees@[i],
            None => r is None,
        },
{
    let ghost all = trees_view(trees@);
    let mut best: Option<usize> = None;
    let mut most: usize = 0;
    let mut i: usize = 0;
    while i < trees.len()
        invariant
            i <= trees@.len(),
            all == trees_view(trees@),
            match best {
                Some(b) => b < i && holder(all.take(i as int), path@) == Some(b as int) && most
                    == bytes_len(all[b as int].path),
                None => holder(all.take(i as int), path@) is None,
            },
        decreases trees@.len() - i,
    {
        proof {
            assert(all.take(i + 1).drop_last() =~= all.take(i as int));
            assert(all.take(i + 1).last() == trees@[i as int]@);
        }
        if is_within(path, trees[i].path.as_str()) {
            let v = chars_of(trees[i].path.as_str());
            let size = bytes_before(trees[i].path.as_str(), v.len());
            assert(v@.take(v@.len() as int) =~= v@);
            if best.is_none() || size >= most {
                best = Some(i);
                most = size;
            }
        }
        i += 1;
    }
    assert(all.take(i as int) =~= all);
    match best {
        Some(b) => Some(&trees[b]),
        None => None,
    }
}

/// The name of the worktree a path sits in.
pub open spec fn current_name(trees: Seq<WorktreeView>, path: Seq<char>) -> Option<Seq<char>> {
    match holder(trees, path) {
        Some(i) => if trees[i].main {
            None
        } else {
            Some(trees[i].name)
        },
        None => None,
    }
}

/// The worktree `here` sits in, or None in the repository's own checkout and
/// None outside a repository, where there is nothing to name.
pub fn current(trees: &[Worktree], here: &str) -> (r: Option<String>)
    ensures
        match current_name(trees_view(trees@), here@) {
            Some(n) => r matches Some(s) && s@ == n,
            None => r is None,
        },
{
    match holding(trees, here) {
        Some(t) => {
            if t.main {
                None
            } else {
                Some(t.name.clone())
            }
        },
        None => None,
    }
}

/// What a menu says of a checkout: its name, and the branch it is on.
pub open spec fn choice_of(t: WorktreeView) -> (Seq<char>, Seq<char>) {
    (
        t.name,
        match t.branch {
            Some(b) => b,
            None => "detached HEAD"@,
        },
    )
}

/// The checkouts as a menu offers them, each with the branch it is on.
pub fn choices(trees: &[Worktree]) -> (r: Vec<(String, String)>)
    ensures
        r@.len() == trees@.len(),
        forall|i: int|
            0 <= i < trees@.len() ==> ((#[trigger] r@[i]).0@, r@[i].1@) == choice_of(trees@[i]@),
{
    let mut out: Vec<(String, String)> = Vec::new();
    let mut i: usize = 0;
    while i < trees.len()
        invariant
            i <= trees@.len(),
            out@.len() == i,
            forall|k: int|
                0 <= k < i ==> ((#[trigger] out@[k]).0@, out@[k].1@) == choice_of(trees@[k]@),
        decreases trees@.len() - i,
    {
        let t = &trees[i];
        let note = match &t.branch {
            Some(b) => b.clone(),
            None => "detached HEAD".to_owned(),
        };
        out.push((t.name.clone(), note));
        i += 1;
    }
    out
}

// ---------------------------------------------------------------------------
// Entering one
// ---------------------------------------------------------------------------

/// What entering a name did, so the caller can say it.
#[derive(Debug, Clone, Copy, PartialEq, Eq, Structural)]
pub enum Entered {
    /// It was already there.
    Existing,
    /// The branch existed and now has a checkout.
    Checkout,
    /// Both the branch and the checkout are new.
    Created,
}

/// How a name is to be entered.
#[derive(Debug, Clone, PartialEq, Eq)]
pub enum Way {
    /// By going to this checkout.
    Go(usize),
    /// By adding a checkout of this name at this path.
    Add { name: String, path: String },
}

/// Why a name cannot be entered.
#[derive(Debug, Clone, PartialEq, Eq)]
pub enum NoEntry {
    Refused(Refusal),
    NotARepository,
}

impl NoEntry {
    /// What is said of it.
    pub fn message(&self) -> (r: String)
        ensures
            r@ == match self {
                NoEntry::Refused(e) => refusal_form(e@),
                NoEntry::NotARepository => "not a git repository"@,
            },
    {
        match self {
            NoEntry::Refused(e) => e.message(),
            NoEntry::NotARepository => "not a git repository".to_owned(),
        }
    }
}

/// The first checkout of a name; as many as there are where none has it.
pub open spec fn place_of_name(trees: Seq<WorktreeView>, name: Seq<char>) -> int
    decreases trees.len(),
{
    if trees.len() == 0 || trees[0].name == name {
        0
    } else {
        1 + place_of_name(trees.skip(1), name)
    }
}

/// Where the checkout of a name goes. `.worktrees` hangs off the repository, not
/// off whichever checkout asked.
pub open spec fn target(root: Seq<char>, name: Seq<char>) -> Seq<char> {
    if root.len() > 0 && root.last() != '/' {
        root + "/"@ + ".worktrees/"@ + name
    } else {
        root + ".worktrees/"@ + name
    }
}

fn position_of(trees: &[Worktree], name: &str) -> (r: usize)
    ensures
        r == place_of_name(trees_view(trees@), name@),
        r <= trees@.len(),
{
    let ghost all = trees_view(trees@);
    let mut i: usize = 0;
    assert(all.skip(0) =~= all);
    while i < trees.len()
        invariant
            i <= trees@.len(),
            all == trees_view(trees@),
            place_of_name(all, name@) == i + place_of_name(all.skip(i as int), name@),
        decreases trees@.len() - i,
    {
        assert(all.skip(i as int)[0] == trees@[i as int]@);
        assert(all.skip(i as int).skip(1) =~= all.skip(i + 1));
        if same_str(trees[i].name.as_str(), name) {
            return i;
        }
        i += 1;
    }
    i
}

/// The checkout `name` refers to, or the worktree that is to be made for it.
/// Idempotent: running it twice means "go there".
pub fn enter(trees: &[Worktree], name: &str) -> (r: Result<Way, NoEntry>)
    ensures
        match vet(name@) {
            Err(e) => r matches Err(NoEntry::Refused(x)) && x@ == e,
            Ok(n) => {
                let at = place_of_name(trees_view(trees@), n);
                if at < trees@.len() {
                    r matches Ok(Way::Go(i)) && i == at
                } else if trees@.len() == 0 {
                    r matches Err(NoEntry::NotARepository)
                } else {
                    r matches Ok(Way::Add { name: x, path: p }) && x@ == n && p@ == target(
                        trees@[0].path@,
                        n,
                    )
                }
            },
        },
{
    let name = match vetted(name) {
        Ok(name) => name,
        Err(e) => {
            return Err(NoEntry::Refused(e));
        },
    };
    let at = position_of(trees, name.as_str());
    if at < trees.len() {
        return Ok(Way::Go(at));
    }
    if trees.len() == 0 {
        return Err(NoEntry::NotARepository);
    }
    let mut path = trees[0].path.clone();
    let root = chars_of(path.as_str());
    if root.len() > 0 && root[root.len() - 1] != '/' {
        path.append("/");
    }
    path.append(".worktrees/");
    path.append(name.as_str());
    Ok(Way::Add { name, path })
}

/// What git is asked to add a checkout. An existing branch is checked out rather
/// than re-created: `-b` on one that exists fails, and asking twice means the
/// same feature both times.
pub fn add_args(known: bool, path: &str, name: &str) -> (r: Vec<String>)
    ensures
        crate::text::texts(r@) == if known {
            seq!["worktree"@, "add"@, path@, name@]
        } else {
            seq!["worktree"@, "add"@, "-b"@, name@, path@]
        },
{
    let mut r: Vec<String> = Vec::new();
    r.push("worktree".to_owned());
    r.push("add".to_owned());
    if known {
        r.push(path.to_owned());
        r.push(name.to_owned());
    } else {
        r.push("-b".to_owned());
        r.push(name.to_owned());
        r.push(path.to_owned());
    }
    assert(crate::text::texts(r@) =~= if known {
        seq!["worktree"@, "add"@, path@, name@]
    } else {
        seq!["worktree"@, "add"@, "-b"@, name@, path@]
    });
    r
}

/// What is said of a directory in the way.
pub fn taken(path: &str) -> (r: String)
    ensures
        r@ == path@ + " exists but is not a registered worktree"@,
{
    let mut r = path.to_owned();
    r.append(" exists but is not a registered worktree");
    r
}

/// What adding a checkout left, read back from the list: one place decides what
/// a checkout is called and which branch it is on. Where git resolved the path
/// elsewhere — a symlinked `.worktrees` does that — this says so.
pub fn entered(trees: &[Worktree], name: &str, path: &str, known: bool) -> (r: Result<
    (usize, Entered),
    String,
>)
    ensures
        ({
            let at = place_of_name(trees_view(trees@), name@);
            match r {
                Ok((i, how)) => i == at && at < trees@.len() && how == if known {
                    Entered::Checkout
                } else {
                    Entered::Created
                },
                Err(e) => at == trees@.len() && e@
                    == "git put the checkout somewhere other than "@ + path@
                    + " — is .worktrees a symlink?"@,
            }
        }),
{
    let at = position_of(trees, name);
    if at < trees.len() {
        return Ok(
            (
                at,
                if known {
                    Entered::Checkout
                } else {
                    Entered::Created
                },
            ),
        );
    }
    let mut e = "git put the checkout somewhere other than ".to_owned();
    e.append(path);
    e.append(" — is .worktrees a symlink?");
    Err(e)
}

// ---------------------------------------------------------------------------
// Laws
// ---------------------------------------------------------------------------

/// The checkout that holds a path contains it, and no other that does has a
/// longer path.
pub proof fn law_the_longest_checkout_holds(trees: Seq<WorktreeView>, path: Seq<char>, k: int)
    requires
        0 <= k < trees.len(),
        within(path, trees[k].path),
    ensures
        holder(trees, path) matches Some(i) && 0 <= i < trees.len() && within(path, trees[i].path)
            && bytes_len(trees[k].path) <= bytes_len(trees[i].path),
    decreases trees.len(),
{
    let less = trees.drop_last();
    if k < less.len() {
        law_the_longest_checkout_holds(less, path, k);
    } else {
        lemma_holder(less, path);
    }
}

pub(crate) proof fn lemma_holder(trees: Seq<WorktreeView>, path: Seq<char>)
    ensures
        holder(trees, path) matches Some(i) ==> 0 <= i < trees.len() && within(
            path,
            trees[i].path,
        ),
    decreases trees.len(),
{
    if trees.len() > 0 {
        lemma_holder(trees.drop_last(), path);
    }
}

/// The first checkout listed is the main one, and it is the only one.
pub proof fn law_the_main_checkout_leads(all: Seq<Seq<char>>, i: int)
    requires
        0 <= i < trees_in(all).len(),
    ensures
        trees_in(all)[i].main == (i == 0),
    decreases all.len(),
{
    let less = trees_in(all.drop_last());
    if i < less.len() {
        law_the_main_checkout_leads(all.drop_last(), i);
    }
}

/// A name that is let through stays under `.worktrees`: it is not empty, opens
/// with neither `/` nor `-`, and each of its parts names something below.
pub proof fn law_a_vetted_name_stays_below(name: Seq<char>)
    requires
        vet(name) is Ok,
    ensures
        vet(name)->Ok_0.len() > 0,
        vet(name)->Ok_0[0] != '/',
        vet(name)->Ok_0[0] != '-',
        steps(vet(name)->Ok_0) == split(vet(name)->Ok_0, '/'),
        !steps(vet(name)->Ok_0).contains(".."@),
{
    let n = vet(name)->Ok_0;
    let parts = split(n, '/');
    lemma_all_named(parts);
    assert(!dotted(n)) by {
        if dotted(n) {
            reveal_strlit(".");
            lemma_index_of_is(n, '/', 1);
            assert(parts[0] =~= "."@);
            assert(stray(parts[0]));
        }
    }
    assert(body(n) =~= n);
    assert(steps(n) =~= parts);
    if parts.contains(".."@) {
        let i = choose|i: int| 0 <= i < parts.len() && parts[i] == ".."@;
        assert(stray(parts[i]));
    }
}

proof fn lemma_all_named(parts: Seq<Seq<char>>)
    requires
        forall|i: int| 0 <= i < parts.len() ==> !stray(#[trigger] parts[i]),
    ensures
        named_parts(parts) == parts,
    decreases parts.len(),
{
    if parts.len() > 0 {
        let less = parts.drop_last();
        assert forall|i: int| 0 <= i < less.len() implies !stray(#[trigger] less[i]) by {
            assert(less[i] == parts[i]);
        }
        lemma_all_named(less);
        assert(!stray(parts[parts.len() - 1]));
        assert(named_parts(parts) =~= parts);
    } else {
        assert(named_parts(parts) =~= parts);
    }
}

/// Entering a name that is already listed goes to it and adds nothing: the
/// checkout gone to has that name.
pub proof fn law_a_listed_name_is_gone_to(trees: Seq<WorktreeView>, k: int)
    requires
        0 <= k < trees.len(),
    ensures
        place_of_name(trees, trees[k].name) <= k,
        trees[place_of_name(trees, trees[k].name)].name == trees[k].name,
        place_of_name(trees, trees[k].name) >= 0,
    decreases trees.len(),
{
    if trees[0].name != trees[k].name {
        let less = trees.skip(1);
        assert(less[k - 1] == trees[k]);
        law_a_listed_name_is_gone_to(less, k - 1);
        assert(less[place_of_name(less, trees[k].name)] == trees[place_of_name(
            less,
            trees[k].name,
        ) + 1]);
    }
}

} // verus!
