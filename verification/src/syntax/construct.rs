//! What the construct at a node is: past its annotations to the thing they are
//! about, out to the outermost node that opens on the same row, and up over the
//! annotations that touch it.

use crate::syntax::lang::{signals, Lang, Signal};
use crate::syntax::tree::{nodes_view, on_rows, NodeView, SyntaxNode};
use crate::text::same_str;
use vstd::prelude::*;
use vstd::string::*;

verus! {

// ---------------------------------------------------------------------------
// Around a node
// ---------------------------------------------------------------------------

/// One past the last node in the subtree of node `i`, looked for from `k` on.
pub open spec fn end_from(nodes: Seq<NodeView>, i: int, k: int) -> int
    decreases nodes.len() - k,
{
    if k >= nodes.len() {
        nodes.len() as int
    } else if nodes[k].depth <= nodes[i].depth {
        k
    } else {
        end_from(nodes, i, k + 1)
    }
}

/// One past the last node in the subtree of node `i`.
pub open spec fn end_of(nodes: Seq<NodeView>, i: int) -> int {
    end_from(nodes, i, i + 1)
}

/// The closest node before `k` that is not as deep as node `i`.
pub open spec fn parent_before(nodes: Seq<NodeView>, i: int, k: int) -> Option<int>
    decreases k,
{
    if k <= 0 {
        None
    } else if nodes[k - 1].depth < nodes[i].depth {
        Some(k - 1)
    } else {
        parent_before(nodes, i, k - 1)
    }
}

/// The node that holds node `i`.
pub open spec fn parent(nodes: Seq<NodeView>, i: int) -> Option<int> {
    parent_before(nodes, i, i)
}

/// The first named node from `k` on among the siblings of depth `d`.
pub open spec fn named_from(nodes: Seq<NodeView>, d: int, k: int) -> Option<int>
    decreases nodes.len() - k,
{
    if k < 0 || k >= nodes.len() || nodes[k].depth < d {
        None
    } else if nodes[k].depth == d && nodes[k].named {
        Some(k)
    } else {
        named_from(nodes, d, k + 1)
    }
}

/// The closest named sibling after node `i`.
pub open spec fn next_named(nodes: Seq<NodeView>, i: int) -> Option<int> {
    named_from(nodes, nodes[i].depth, i + 1)
}

/// The closest named node before `k` among the siblings of depth `d`.
pub open spec fn named_before(nodes: Seq<NodeView>, d: int, k: int) -> Option<int>
    decreases k,
{
    if k <= 0 || nodes[k - 1].depth < d {
        None
    } else if nodes[k - 1].depth == d && nodes[k - 1].named {
        Some(k - 1)
    } else {
        named_before(nodes, d, k - 1)
    }
}

/// The closest named sibling before node `i`.
pub open spec fn prev_named(nodes: Seq<NodeView>, i: int) -> Option<int> {
    named_before(nodes, nodes[i].depth, i)
}

/// The first named child of node `i`.
pub open spec fn first_named_child(nodes: Seq<NodeView>, i: int) -> Option<int> {
    named_from(nodes, nodes[i].depth + 1, i + 1)
}

// ---------------------------------------------------------------------------
// One node
// ---------------------------------------------------------------------------

/// The last row holding any of a node, counted from 0. A node that stops at
/// column 0 stopped at that row's boundary, not inside it.
pub open spec fn last_row(n: NodeView) -> int {
    if n.end_column == 0 && n.end_row > n.start_row {
        n.end_row - 1
    } else {
        n.end_row
    }
}

/// Adjacent rows: an annotation binds to what starts on the row after it ends.
pub open spec fn touches(a: NodeView, b: NodeView) -> bool {
    last_row(a) + 1 >= b.start_row
}

/// A node an address may name. What the parser could not read is not a
/// construct.
pub open spec fn resolvable(n: NodeView) -> bool {
    n.named && !n.error && !n.missing
}

/// Whether the text of a node opens with `opener`.
pub open spec fn node_opens(n: NodeView, bytes: Seq<u8>, opener: Seq<u8>) -> bool {
    &&& 0 <= n.start_byte
    &&& n.start_byte + opener.len() <= n.end_byte
    &&& n.end_byte <= bytes.len()
    &&& bytes.subrange(n.start_byte, n.start_byte + opener.len()) == opener
}

/// Whether one signal marks a node as an annotation.
pub open spec fn signalled(s: Signal, n: NodeView, bytes: Seq<u8>) -> bool {
    match s {
        Signal::Kind(kind) => n.kind == kind@,
        Signal::Outer(kind) => n.kind == kind@ && n.outer,
        Signal::Opener(kind, opener) => n.kind == kind@ && node_opens(
            n,
            bytes,
            opener.spec_bytes(),
        ),
    }
}

/// Whether a node documents or decorates whatever it touches.
pub open spec fn annotates(lang: Lang, n: NodeView, bytes: Seq<u8>) -> bool {
    exists|i: int| 0 <= i < signals(lang).len() && signalled(#[trigger] signals(lang)[i], n, bytes)
}

// ---------------------------------------------------------------------------
// The construct at a node
// ---------------------------------------------------------------------------

/// Past the annotations to the sibling they are about: not onto what the parser
/// could not read.
pub open spec fn past_annotations(
    lang: Lang,
    nodes: Seq<NodeView>,
    bytes: Seq<u8>,
    i: int,
) -> int
    decreases nodes.len() - i,
    when 0 <= i < nodes.len()
    via past_annotations_decreases
{
    if annotates(lang, nodes[i], bytes) {
        match next_named(nodes, i) {
            Some(k) => if touches(nodes[i], nodes[k]) && resolvable(nodes[k]) {
                past_annotations(lang, nodes, bytes, k)
            } else {
                i
            },
            None => i,
        }
    } else {
        i
    }
}

#[via_fn]
proof fn past_annotations_decreases(lang: Lang, nodes: Seq<NodeView>, bytes: Seq<u8>, i: int) {
    lemma_named_from(nodes, nodes[i].depth, i + 1);
}

/// The first sibling from `k` on that is named and no annotation.
pub open spec fn plain_from(
    lang: Lang,
    nodes: Seq<NodeView>,
    bytes: Seq<u8>,
    d: int,
    k: int,
) -> Option<int>
    decreases nodes.len() - k,
{
    if k < 0 || k >= nodes.len() || nodes[k].depth < d {
        None
    } else if nodes[k].depth == d && nodes[k].named && !annotates(lang, nodes[k], bytes) {
        Some(k)
    } else {
        plain_from(lang, nodes, bytes, d, k + 1)
    }
}

/// What a wrapper led by an annotation wraps: its first named child that is no
/// annotation.
pub open spec fn wrapped(lang: Lang, nodes: Seq<NodeView>, bytes: Seq<u8>, i: int) -> Option<int> {
    match first_named_child(nodes, i) {
        Some(first) => if annotates(lang, nodes[first], bytes) {
            match plain_from(lang, nodes, bytes, nodes[i].depth + 1, first + 1) {
                Some(k) => if resolvable(nodes[k]) {
                    Some(k)
                } else {
                    None
                },
                None => None,
            }
        } else {
            None
        },
        None => None,
    }
}

/// In through the wrappers to what they wrap.
pub open spec fn unwrapped(lang: Lang, nodes: Seq<NodeView>, bytes: Seq<u8>, i: int) -> int
    decreases nodes.len() - i,
    when 0 <= i < nodes.len()
    via unwrapped_decreases
{
    match wrapped(lang, nodes, bytes, i) {
        Some(k) => unwrapped(lang, nodes, bytes, k),
        None => i,
    }
}

#[via_fn]
proof fn unwrapped_decreases(lang: Lang, nodes: Seq<NodeView>, bytes: Seq<u8>, i: int) {
    lemma_named_from(nodes, nodes[i].depth + 1, i + 1);
    if let Some(first) = first_named_child(nodes, i) {
        lemma_plain_from(lang, nodes, bytes, nodes[i].depth + 1, first + 1);
    }
}

/// Past the annotations to the thing they are about.
pub open spec fn subject(lang: Lang, nodes: Seq<NodeView>, bytes: Seq<u8>, i: int) -> int {
    unwrapped(lang, nodes, bytes, past_annotations(lang, nodes, bytes, i))
}

/// Out to the outermost node opening on the same row: not into the root, and
/// not into what the parser gave up on.
pub open spec fn widened(nodes: Seq<NodeView>, i: int) -> int
    decreases i,
    when 0 <= i < nodes.len()
    via widened_decreases
{
    match parent(nodes, i) {
        Some(p) => if parent(nodes, p) is Some && nodes[p].start_row == nodes[i].start_row
            && resolvable(nodes[p]) {
            widened(nodes, p)
        } else {
            i
        },
        None => i,
    }
}

#[via_fn]
proof fn widened_decreases(nodes: Seq<NodeView>, i: int) {
    lemma_parent(nodes, i, i);
}

/// The annotation immediately above a node, if one is touching it.
pub open spec fn annotation_above(
    lang: Lang,
    nodes: Seq<NodeView>,
    bytes: Seq<u8>,
    i: int,
) -> Option<int> {
    match prev_named(nodes, i) {
        Some(p) => if annotates(lang, nodes[p], bytes) && touches(nodes[p], nodes[i]) {
            Some(p)
        } else {
            None
        },
        None => None,
    }
}

/// The first of the annotations above a node, each touching the next.
pub open spec fn topmost(lang: Lang, nodes: Seq<NodeView>, bytes: Seq<u8>, i: int) -> int
    decreases i,
    when 0 <= i < nodes.len()
    via topmost_decreases
{
    match annotation_above(lang, nodes, bytes, i) {
        Some(p) => topmost(lang, nodes, bytes, p),
        None => i,
    }
}

#[via_fn]
proof fn topmost_decreases(lang: Lang, nodes: Seq<NodeView>, bytes: Seq<u8>, i: int) {
    lemma_named_before(nodes, nodes[i].depth, i);
}

/// The rows one construct occupies, counted from 1, and the row that names it.
#[derive(Debug, Clone, Copy, PartialEq, Eq, Structural)]
pub struct Extent {
    pub start: usize,
    pub end: usize,
    pub name: usize,
}

/// The construct at a node: first row, last row, and the row that names it.
pub open spec fn extent_at(lang: Lang, nodes: Seq<NodeView>, bytes: Seq<u8>, i: int) -> (
    int,
    int,
    int,
) {
    let s = widened(nodes, subject(lang, nodes, bytes, i));
    let first = topmost(lang, nodes, bytes, s);
    (nodes[first].start_row + 1, last_row(nodes[s]) + 1, nodes[s].start_row + 1)
}

// ---------------------------------------------------------------------------
// Where the searches end up
// ---------------------------------------------------------------------------

pub proof fn lemma_end_from(nodes: Seq<NodeView>, i: int, k: int)
    requires
        0 <= i < k <= nodes.len(),
    ensures
        k <= end_from(nodes, i, k) <= nodes.len(),
        forall|j: int| k <= j < end_from(nodes, i, k) ==> (#[trigger] nodes[j]).depth > nodes[i].depth,
        end_from(nodes, i, k) < nodes.len() ==> nodes[end_from(nodes, i, k)].depth
            <= nodes[i].depth,
    decreases nodes.len() - k,
{
    if k < nodes.len() && nodes[k].depth > nodes[i].depth {
        lemma_end_from(nodes, i, k + 1);
    }
}

pub proof fn lemma_parent(nodes: Seq<NodeView>, i: int, k: int)
    requires
        0 <= k <= i < nodes.len(),
    ensures
        match parent_before(nodes, i, k) {
            Some(p) => 0 <= p < k && nodes[p].depth < nodes[i].depth && forall|j: int|
                p < j < k ==> (#[trigger] nodes[j]).depth >= nodes[i].depth,
            None => forall|j: int| 0 <= j < k ==> (#[trigger] nodes[j]).depth >= nodes[i].depth,
        },
    decreases k,
{
    if k > 0 && nodes[k - 1].depth >= nodes[i].depth {
        lemma_parent(nodes, i, k - 1);
    }
}

pub proof fn lemma_named_from(nodes: Seq<NodeView>, d: int, k: int)
    ensures
        named_from(nodes, d, k) matches Some(j) ==> k <= j < nodes.len() && nodes[j].named
            && nodes[j].depth == d && 0 <= j,
    decreases nodes.len() - k,
{
    if !(k < 0 || k >= nodes.len() || nodes[k].depth < d) && !(nodes[k].depth == d
        && nodes[k].named) {
        lemma_named_from(nodes, d, k + 1);
    }
}

pub proof fn lemma_named_before(nodes: Seq<NodeView>, d: int, k: int)
    ensures
        named_before(nodes, d, k) matches Some(j) ==> 0 <= j < k && nodes[j].named
            && nodes[j].depth == d,
    decreases k,
{
    if !(k <= 0 || nodes[k - 1].depth < d) && !(nodes[k - 1].depth == d && nodes[k - 1].named) {
        lemma_named_before(nodes, d, k - 1);
    }
}

pub proof fn lemma_plain_from(
    lang: Lang,
    nodes: Seq<NodeView>,
    bytes: Seq<u8>,
    d: int,
    k: int,
)
    ensures
        plain_from(lang, nodes, bytes, d, k) matches Some(j) ==> k <= j < nodes.len() && 0 <= j,
    decreases nodes.len() - k,
{
    if !(k < 0 || k >= nodes.len() || nodes[k].depth < d) && !(nodes[k].depth == d
        && nodes[k].named && !annotates(lang, nodes[k], bytes)) {
        lemma_plain_from(lang, nodes, bytes, d, k + 1);
    }
}

// ---------------------------------------------------------------------------
// Finding them
// ---------------------------------------------------------------------------

/// A syntax tree with the text it was read from.
pub struct Source<'a> {
    pub lang: Lang,
    pub nodes: &'a [SyntaxNode],
    pub bytes: &'a [u8],
}

impl<'a> Source<'a> {
    /// The nodes of the tree.
    pub open spec fn tree(self) -> Seq<NodeView> {
        nodes_view(self.nodes@)
    }

    /// One past the last node in the subtree of node `i`.
    pub fn subtree_end(&self, i: usize) -> (r: usize)
        requires
            i < self.nodes@.len(),
        ensures
            r == end_of(self.tree(), i as int),
            i < r <= self.nodes@.len(),
    {
        let ghost t = self.tree();
        assert(self.nodes@.len() == self.nodes.len());
        let mut k: usize = i + 1;
        while k < self.nodes.len() && self.nodes[k].depth > self.nodes[i].depth
            invariant
                i < k <= self.nodes@.len(),
                t == self.tree(),
                end_from(t, i as int, k as int) == end_of(t, i as int),
            decreases self.nodes@.len() - k,
        {
            assert(t[k as int] == self.nodes@[k as int]@ && t[i as int] == self.nodes@[i as int]@);
            k += 1;
        }
        proof {
            if k < self.nodes@.len() {
                assert(t[k as int] == self.nodes@[k as int]@);
                assert(t[i as int] == self.nodes@[i as int]@);
            }
        }
        k
    }

    fn parent(&self, i: usize) -> (r: Option<usize>)
        requires
            i < self.nodes@.len(),
        ensures
            match r {
                Some(p) => parent(self.tree(), i as int) == Some(p as int) && p < i,
                None => parent(self.tree(), i as int) is None,
            },
    {
        let ghost t = self.tree();
        let mut k: usize = i;
        while k > 0
            invariant
                k <= i < self.nodes@.len(),
                t == self.tree(),
                parent_before(t, i as int, k as int) == parent(t, i as int),
            decreases k,
        {
            assert(t[k - 1] == self.nodes@[k - 1]@ && t[i as int] == self.nodes@[i as int]@);
            if self.nodes[k - 1].depth < self.nodes[i].depth {
                return Some(k - 1);
            }
            k -= 1;
        }
        None
    }

    fn find_named(&self, d: usize, from: usize) -> (r: Option<usize>)
        requires
            from <= self.nodes@.len(),
        ensures
            match r {
                Some(j) => named_from(self.tree(), d as int, from as int) == Some(j as int)
                    && from <= j < self.nodes@.len(),
                None => named_from(self.tree(), d as int, from as int) is None,
            },
    {
        let ghost t = self.tree();
        let mut k: usize = from;
        while k < self.nodes.len()
            invariant
                from <= k <= self.nodes@.len(),
                t == self.tree(),
                named_from(t, d as int, k as int) == named_from(t, d as int, from as int),
            decreases self.nodes@.len() - k,
        {
            assert(t[k as int] == self.nodes@[k as int]@);
            if self.nodes[k].depth < d {
                return None;
            }
            if self.nodes[k].depth == d && self.nodes[k].named {
                return Some(k);
            }
            k += 1;
        }
        None
    }

    fn find_named_before(&self, d: usize, to: usize) -> (r: Option<usize>)
        requires
            to <= self.nodes@.len(),
        ensures
            match r {
                Some(j) => named_before(self.tree(), d as int, to as int) == Some(j as int) && j
                    < to,
                None => named_before(self.tree(), d as int, to as int) is None,
            },
    {
        let ghost t = self.tree();
        let mut k: usize = to;
        while k > 0
            invariant
                k <= to <= self.nodes@.len(),
                t == self.tree(),
                named_before(t, d as int, k as int) == named_before(t, d as int, to as int),
            decreases k,
        {
            assert(t[k - 1] == self.nodes@[k - 1]@);
            if self.nodes[k - 1].depth < d {
                return None;
            }
            if self.nodes[k - 1].depth == d && self.nodes[k - 1].named {
                return Some(k - 1);
            }
            k -= 1;
        }
        None
    }

    /// The last row holding any of node `i`, counted from 0.
    pub fn last_row(&self, i: usize) -> (r: usize)
        requires
            i < self.nodes@.len(),
        ensures
            r == last_row(self.tree()[i as int]),
    {
        let n = &self.nodes[i];
        assert(self.tree()[i as int] == n@);
        if n.end_column == 0 && n.end_row > n.start_row {
            n.end_row - 1
        } else {
            n.end_row
        }
    }

    fn touches(&self, a: usize, b: usize) -> (r: bool)
        requires
            a < self.nodes@.len(),
            b < self.nodes@.len(),
        ensures
            r == touches(self.tree()[a as int], self.tree()[b as int]),
    {
        let last = self.last_row(a);
        let n = &self.nodes[b];
        assert(self.tree()[b as int] == n@);
        n.start_row == 0 || last >= n.start_row - 1
    }

    /// Whether an address may name node `i`.
    pub fn resolvable(&self, i: usize) -> (r: bool)
        requires
            i < self.nodes@.len(),
        ensures
            r == resolvable(self.tree()[i as int]),
    {
        let n = &self.nodes[i];
        assert(self.tree()[i as int] == n@);
        n.named && !n.error && !n.missing
    }

    fn opens(&self, i: usize, opener: &str) -> (r: bool)
        requires
            i < self.nodes@.len(),
        ensures
            r == node_opens(self.tree()[i as int], self.bytes@, opener.spec_bytes()),
    {
        let n = &self.nodes[i];
        assert(self.tree()[i as int] == n@);
        let want = opener.as_bytes();
        if n.end_byte > self.bytes.len() || n.start_byte > n.end_byte || n.end_byte - n.start_byte
            < want.len() {
            return false;
        }
        let ghost part = self.bytes@.subrange(n.start_byte as int, n.start_byte + want@.len());
        let mut k: usize = 0;
        while k < want.len()
            invariant
                k <= want@.len(),
                self.bytes@.len() == self.bytes.len(),
                n.start_byte + want@.len() <= n.end_byte <= self.bytes@.len(),
                want@ == opener.spec_bytes(),
                self.tree()[i as int] == n@,
                part == self.bytes@.subrange(n.start_byte as int, n.start_byte + want@.len()),
                forall|j: int| 0 <= j < k ==> part[j] == want@[j],
            decreases want@.len() - k,
        {
            assert(part[k as int] == self.bytes@[n.start_byte + k]);
            if self.bytes[n.start_byte + k] != want[k] {
                return false;
            }
            k += 1;
        }
        assert(part =~= want@);
        true
    }

    /// Whether node `i` documents or decorates whatever it touches.
    pub fn annotates(&self, i: usize) -> (r: bool)
        requires
            i < self.nodes@.len(),
        ensures
            r == annotates(self.lang, self.tree()[i as int], self.bytes@),
    {
        let all = self.lang.annotations();
        let n = &self.nodes[i];
        let ghost v = self.tree()[i as int];
        assert(v == n@);
        let mut k: usize = 0;
        while k < all.len()
            invariant
                k <= all@.len(),
                all@ == signals(self.lang),
                i < self.nodes@.len(),
                v == self.tree()[i as int],
                v == n@,
                forall|j: int| 0 <= j < k ==> !signalled(#[trigger] all@[j], v, self.bytes@),
            decreases all@.len() - k,
        {
            let hit = match &all[k] {
                Signal::Kind(kind) => same_str(n.kind.as_str(), kind),
                Signal::Outer(kind) => n.outer && same_str(n.kind.as_str(), kind),
                Signal::Opener(kind, opener) => same_str(n.kind.as_str(), kind) && self.opens(
                    i,
                    opener,
                ),
            };
            assert(hit == signalled(all@[k as int], v, self.bytes@));
            if hit {
                assert(signalled(signals(self.lang)[k as int], v, self.bytes@));
                return true;
            }
            k += 1;
        }
        false
    }

    fn past_annotations(&self, i: usize) -> (r: usize)
        requires
            i < self.nodes@.len(),
        ensures
            r == past_annotations(self.lang, self.tree(), self.bytes@, i as int),
            r < self.nodes@.len(),
    {
        let mut n: usize = i;
        while self.annotates(n)
            invariant
                n < self.nodes@.len(),
                past_annotations(self.lang, self.tree(), self.bytes@, n as int)
                    == past_annotations(self.lang, self.tree(), self.bytes@, i as int),
            decreases self.nodes@.len() - n,
        {
            assert(self.tree()[n as int] == self.nodes@[n as int]@);
            match self.find_named(self.nodes[n].depth, n + 1) {
                Some(k) => {
                    if self.touches(n, k) && self.resolvable(k) {
                        n = k;
                    } else {
                        return n;
                    }
                },
                None => {
                    return n;
                },
            }
        }
        n
    }

    /// The first named child from `from` on of a node of depth `above`.
    fn find_child(&self, above: usize, from: usize) -> (r: Option<usize>)
        requires
            from <= self.nodes@.len(),
        ensures
            match r {
                Some(j) => named_from(self.tree(), above + 1, from as int) == Some(j as int)
                    && from <= j < self.nodes@.len(),
                None => named_from(self.tree(), above + 1, from as int) is None,
            },
    {
        let ghost t = self.tree();
        let mut k: usize = from;
        while k < self.nodes.len()
            invariant
                from <= k <= self.nodes@.len(),
                t == self.tree(),
                named_from(t, above + 1, k as int) == named_from(t, above + 1, from as int),
            decreases self.nodes@.len() - k,
        {
            assert(t[k as int] == self.nodes@[k as int]@);
            if self.nodes[k].depth <= above {
                return None;
            }
            if self.nodes[k].depth - 1 == above && self.nodes[k].named {
                return Some(k);
            }
            k += 1;
        }
        None
    }

    /// The first child from `from` on of a node of depth `above` that is named
    /// and no annotation.
    fn find_plain(&self, above: usize, from: usize) -> (r: Option<usize>)
        requires
            from <= self.nodes@.len(),
        ensures
            match r {
                Some(j) => plain_from(self.lang, self.tree(), self.bytes@, above + 1, from as int)
                    == Some(j as int) && from <= j < self.nodes@.len(),
                None => plain_from(self.lang, self.tree(), self.bytes@, above + 1, from as int)
                    is None,
            },
    {
        let ghost t = self.tree();
        let mut k: usize = from;
        while k < self.nodes.len()
            invariant
                from <= k <= self.nodes@.len(),
                t == self.tree(),
                plain_from(self.lang, t, self.bytes@, above + 1, k as int) == plain_from(
                    self.lang,
                    t,
                    self.bytes@,
                    above + 1,
                    from as int,
                ),
            decreases self.nodes@.len() - k,
        {
            assert(t[k as int] == self.nodes@[k as int]@);
            if self.nodes[k].depth <= above {
                return None;
            }
            if self.nodes[k].depth - 1 == above && self.nodes[k].named && !self.annotates(k) {
                return Some(k);
            }
            k += 1;
        }
        None
    }

    fn unwrapped(&self, i: usize) -> (r: usize)
        requires
            i < self.nodes@.len(),
        ensures
            r == unwrapped(self.lang, self.tree(), self.bytes@, i as int),
            r < self.nodes@.len(),
    {
        let mut n: usize = i;
        loop
            invariant
                n < self.nodes@.len(),
                self.nodes@.len() == self.nodes.len(),
                unwrapped(self.lang, self.tree(), self.bytes@, n as int) == unwrapped(
                    self.lang,
                    self.tree(),
                    self.bytes@,
                    i as int,
                ),
            decreases self.nodes@.len() - n,
        {
            assert(self.tree()[n as int] == self.nodes@[n as int]@);
            let above = self.nodes[n].depth;
            let first = match self.find_child(above, n + 1) {
                Some(k) => k,
                None => {
                    return n;
                },
            };
            if !self.annotates(first) {
                return n;
            }
            match self.find_plain(above, first + 1) {
                Some(k) => {
                    if !self.resolvable(k) {
                        return n;
                    }
                    n = k;
                },
                None => {
                    return n;
                },
            }
        }
    }

    fn widened(&self, i: usize) -> (r: usize)
        requires
            i < self.nodes@.len(),
        ensures
            r == widened(self.tree(), i as int),
            r < self.nodes@.len(),
    {
        let mut n: usize = i;
        loop
            invariant
                n < self.nodes@.len(),
                widened(self.tree(), n as int) == widened(self.tree(), i as int),
            decreases n,
        {
            let p = match self.parent(n) {
                Some(p) => p,
                None => {
                    return n;
                },
            };
            assert(self.tree()[n as int] == self.nodes@[n as int]@);
            assert(self.tree()[p as int] == self.nodes@[p as int]@);
            if self.parent(p).is_none() || self.nodes[p].start_row != self.nodes[n].start_row
                || !self.resolvable(p) {
                return n;
            }
            n = p;
        }
    }

    fn topmost(&self, i: usize) -> (r: usize)
        requires
            i < self.nodes@.len(),
        ensures
            r == topmost(self.lang, self.tree(), self.bytes@, i as int),
            r < self.nodes@.len(),
    {
        let mut n: usize = i;
        loop
            invariant
                n < self.nodes@.len(),
                topmost(self.lang, self.tree(), self.bytes@, n as int) == topmost(
                    self.lang,
                    self.tree(),
                    self.bytes@,
                    i as int,
                ),
            decreases n,
        {
            assert(self.tree()[n as int] == self.nodes@[n as int]@);
            match self.find_named_before(self.nodes[n].depth, n) {
                Some(p) => {
                    if !self.annotates(p) || !self.touches(p, n) {
                        return n;
                    }
                    n = p;
                },
                None => {
                    return n;
                },
            }
        }
    }

    /// The construct at node `i`: the single answer to what the thing at a row
    /// is, so that a block and an outline cannot drift.
    pub fn extent(&self, i: usize) -> (r: Extent)
        requires
            i < self.nodes@.len(),
            on_rows(self.tree(), usize::MAX - 1),
        ensures
            (r.start as int, r.end as int, r.name as int) == extent_at(
                self.lang,
                self.tree(),
                self.bytes@,
                i as int,
            ),
    {
        let along = self.past_annotations(i);
        let inner = self.unwrapped(along);
        let s = self.widened(inner);
        let first = self.topmost(s);
        assert(self.tree()[s as int] == self.nodes@[s as int]@);
        assert(self.tree()[first as int] == self.nodes@[first as int]@);
        Extent {
            start: self.nodes[first].start_row + 1,
            end: self.last_row(s) + 1,
            name: self.nodes[s].start_row + 1,
        }
    }
}

} // verus!
