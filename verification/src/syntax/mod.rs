//! What the constructs of a source file are: where each opens and closes, what
//! annotates it, and the file's skeleton.
//!
//! Each answer comes in two forms: from a text, which is parsed first, and from
//! the nodes of a text already parsed.

use crate::hashline::landing::row_at;
use crate::hashline::matching::row_of;
use crate::syntax::construct::{end_of, extent_at, lemma_end_from, resolvable, Source};
use crate::syntax::lang::{is_container, is_declaration};
use crate::syntax::tree::{nodes_view, on_rows, parsed, read_nodes, NodeView, SyntaxNode};
use crate::text::{
    chars_of, lemma_breaks_concat, lemma_bytes_encoded, lemma_bytes_prefix, lines, lines_of, rows,
    string_of, trim, trimmed,
};
use std::collections::HashMap;
use vstd::prelude::*;
use vstd::string::*;

pub mod construct;
pub mod lang;
pub mod lang_laws;
pub mod laws;
pub mod outline_laws;
pub mod tree;

pub use lang::Lang;

verus! {

broadcast use vstd::std_specs::hash::group_hash_axioms;

// ---------------------------------------------------------------------------
// The construct a row opens
// ---------------------------------------------------------------------------

/// Whether node `j` lies in node `i`.
pub open spec fn lies_in(nodes: Seq<NodeView>, j: int, i: int) -> bool {
    i < j < end_of(nodes, i)
}

/// Whether what a node holds starts and ends on rows the node spans, and ends
/// no earlier than it starts.
pub open spec fn well_nested(nodes: Seq<NodeView>) -> bool {
    &&& forall|i: int|
        0 <= i < nodes.len() ==> (#[trigger] nodes[i]).start_row <= nodes[i].end_row
    &&& forall|i: int, a: int|
        0 <= a < i < nodes.len() && #[trigger] lies_in(nodes, i, a) ==> nodes[a].start_row
            <= nodes[i].start_row && nodes[i].end_row <= nodes[a].end_row
}

/// How many bytes a node spans.
pub open spec fn size(n: NodeView) -> int {
    n.end_byte - n.start_byte
}

/// Whether node `i` is a construct, other than the whole file, that opens on
/// `row`.
pub open spec fn opens(nodes: Seq<NodeView>, row: int, i: int) -> bool {
    0 < i < nodes.len() && nodes[i].start_row == row && resolvable(nodes[i])
}

/// Whether every node that holds node `i` spans `row`.
pub open spec fn around(nodes: Seq<NodeView>, row: int, i: int) -> bool {
    forall|a: int|
        0 <= a < i && #[trigger] lies_in(nodes, i, a) ==> nodes[a].start_row <= row
            <= nodes[a].end_row
}

/// Whether node `a` displaces node `b` as the construct opening on their shared
/// row: it is larger, or as large and holds it, or as large and comes later
/// without being held by it.
pub open spec fn outranks(nodes: Seq<NodeView>, a: int, b: int) -> bool {
    ||| size(nodes[a]) > size(nodes[b])
    ||| size(nodes[a]) == size(nodes[b]) && if a < b {
        lies_in(nodes, b, a)
    } else {
        !lies_in(nodes, a, b)
    }
}

/// Whether node `i` is considered for `row`: `near` leaves out what is held by
/// a node that does not span the row.
pub open spec fn considered(nodes: Seq<NodeView>, row: int, near: bool, i: int) -> bool {
    opens(nodes, row, i) && (near ==> around(nodes, row, i))
}

/// Whether node `b` is the construct that opens on `row`.
pub open spec fn is_widest(nodes: Seq<NodeView>, row: int, near: bool, b: int) -> bool {
    &&& considered(nodes, row, near, b)
    &&& forall|c: int| #[trigger]
        considered(nodes, row, near, c) && c != b ==> outranks(nodes, b, c)
}

/// The construct that opens on `row`, counted from 0: the largest node starting
/// there.
pub open spec fn widest(nodes: Seq<NodeView>, row: int, near: bool) -> Option<int> {
    if exists|b: int| is_widest(nodes, row, near, b) {
        Some(choose|b: int| is_widest(nodes, row, near, b))
    } else {
        None
    }
}

/// The rows of the construct that opens at `line`.
pub open spec fn block_at(
    lang: Lang,
    nodes: Seq<NodeView>,
    bytes: Seq<u8>,
    line: int,
) -> Option<(int, int)> {
    if line < 1 {
        None
    } else {
        match widest(nodes, line - 1, true) {
            Some(i) => {
                let e = extent_at(lang, nodes, bytes, i);
                Some((e.0, e.1))
            },
            None => None,
        }
    }
}

/// The rows of every construct, by the line it opens on.
pub open spec fn extents_at(
    lang: Lang,
    nodes: Seq<NodeView>,
    bytes: Seq<u8>,
    line: int,
) -> Option<(int, int)> {
    if line < 1 {
        None
    } else {
        match widest(nodes, line - 1, false) {
            Some(i) => {
                let e = extent_at(lang, nodes, bytes, i);
                Some((e.0, e.1))
            },
            None => None,
        }
    }
}

/// A pair of lines as integers.
pub open spec fn pair_view(r: Option<(usize, usize)>) -> Option<(int, int)> {
    match r {
        Some((a, b)) => Some((a as int, b as int)),
        None => None,
    }
}

/// Whether `m` answers for each line what `extents_at` does.
pub open spec fn maps_extents(
    m: Map<usize, (usize, usize)>,
    lang: Lang,
    nodes: Seq<NodeView>,
    bytes: Seq<u8>,
) -> bool {
    forall|line: usize|
        #![trigger m.contains_key(line)]
        #![trigger m[line]]
        match extents_at(lang, nodes, bytes, line as int) {
            Some((s, e)) => m.contains_key(line) && m[line].0 == s && m[line].1 == e,
            None => !m.contains_key(line),
        }
}

// ---------------------------------------------------------------------------
// Lemmas on the order of constructs
// ---------------------------------------------------------------------------

/// What lies in a node ends no later than it does.
pub proof fn lemma_nested(nodes: Seq<NodeView>, i: int, j: int)
    requires
        0 <= i < nodes.len(),
        lies_in(nodes, j, i),
    ensures
        j < nodes.len(),
        end_of(nodes, j) <= end_of(nodes, i),
{
    lemma_end_from(nodes, i, i + 1);
    lemma_end_from(nodes, j, j + 1);
    let e = end_of(nodes, i);
    if end_of(nodes, j) > e {
        assert(nodes[j].depth > nodes[i].depth);
        assert(nodes[e].depth <= nodes[i].depth);
        assert(nodes[e].depth > nodes[j].depth);
    }
}

/// A later node that displaces the best so far displaces what the best did.
pub(crate) proof fn lemma_outranks(nodes: Seq<NodeView>, i: int, b: int, k: int)
    requires
        0 <= b < i < nodes.len(),
        0 <= k < i,
        k != b,
        outranks(nodes, i, b),
        outranks(nodes, b, k),
    ensures
        outranks(nodes, i, k),
{
    if size(nodes[i]) == size(nodes[k]) {
        if lies_in(nodes, i, k) {
            if b < k {
                lemma_nested(nodes, b, k);
            } else {
                assert(!lies_in(nodes, b, k));
            }
            assert(false);
        }
    }
}

/// There is one construct that opens on a row, at most.
proof fn lemma_one_widest(nodes: Seq<NodeView>, row: int, near: bool, b: int)
    requires
        is_widest(nodes, row, near, b),
    ensures
        widest(nodes, row, near) == Some(b),
{
    let c = choose|c: int| is_widest(nodes, row, near, c);
    if c != b {
        assert(outranks(nodes, b, c));
        assert(outranks(nodes, c, b));
    }
}

/// Moving on to the next node, or past a subtree, keeps to nodes whose holders
/// span the row.
proof fn lemma_around(nodes: Seq<NodeView>, row: int, i: int)
    requires
        0 <= i < nodes.len(),
        around(nodes, row, i),
    ensures
        nodes[i].start_row <= row <= nodes[i].end_row ==> around(nodes, row, i + 1),
        around(nodes, row, end_of(nodes, i)),
        !(nodes[i].start_row <= row <= nodes[i].end_row) ==> forall|k: int|
            i < k < end_of(nodes, i) ==> !#[trigger] around(nodes, row, k),
{
    lemma_end_from(nodes, i, i + 1);
    let e = end_of(nodes, i);
    if nodes[i].start_row <= row <= nodes[i].end_row {
        assert forall|a: int| 0 <= a < i + 1 && #[trigger] lies_in(nodes, i + 1, a) implies
            nodes[a].start_row <= row <= nodes[a].end_row by {
            if a < i {
                assert(lies_in(nodes, i, a));
            }
        }
    } else {
        assert forall|k: int| i < k < e implies !#[trigger] around(nodes, row, k) by {
            assert(lies_in(nodes, k, i));
        }
    }
    assert forall|a: int| 0 <= a < e && #[trigger] lies_in(nodes, e, a) implies
        nodes[a].start_row <= row <= nodes[a].end_row by {
        if a < i {
            assert(lies_in(nodes, i, a));
        } else if a > i {
            assert(lies_in(nodes, a, i));
            lemma_nested(nodes, i, a);
        }
    }
}

// ---------------------------------------------------------------------------
// Searching
// ---------------------------------------------------------------------------

/// Whether `b` is the best of the nodes before `i`, or none of them counts.
spec fn best_before(
    nodes: Seq<NodeView>,
    row: int,
    near: bool,
    best: Option<usize>,
    i: int,
) -> bool {
    match best {
        Some(b) => b < i && considered(nodes, row, near, b as int) && forall|c: int|
            0 <= c < i && c != b && #[trigger] considered(nodes, row, near, c) ==> outranks(
                nodes,
                b as int,
                c,
            ),
        None => forall|c: int| 0 <= c < i ==> !#[trigger] considered(nodes, row, near, c),
    }
}

/// Whether `m` holds the best node of `row`, where there is one.
spec fn holds_widest(nodes: Seq<NodeView>, m: Map<usize, usize>, row: usize) -> bool {
    match widest(nodes, row as int, false) {
        Some(b) => m.contains_key(row) && m[row] == b && b < nodes.len(),
        None => !m.contains_key(row),
    }
}

proof fn lemma_best_is_widest(
    nodes: Seq<NodeView>,
    row: int,
    near: bool,
    best: Option<usize>,
)
    requires
        best_before(nodes, row, near, best, nodes.len() as int),
    ensures
        match best {
            Some(b) => widest(nodes, row, near) == Some(b as int),
            None => widest(nodes, row, near) is None,
        },
{
    match best {
        Some(b) => {
            assert(is_widest(nodes, row, near, b as int));
            lemma_one_widest(nodes, row, near, b as int);
        },
        None => {
            assert forall|b: int| !is_widest(nodes, row, near, b) by {
                if is_widest(nodes, row, near, b) {
                    assert(considered(nodes, row, near, b));
                }
            }
        },
    }
}

impl<'a> Source<'a> {
    /// Whether node `i` displaces node `b`, which comes before it.
    fn displaces(&self, i: usize, b: usize) -> (r: bool)
        requires
            b < i < self.nodes@.len(),
        ensures
            r == outranks(self.tree(), i as int, b as int),
    {
        let x = &self.nodes[i];
        let y = &self.nodes[b];
        assert(self.tree()[i as int] == x@ && self.tree()[b as int] == y@);
        let left: u128 = x.end_byte as u128 + y.start_byte as u128;
        let right: u128 = y.end_byte as u128 + x.start_byte as u128;
        if left > right {
            true
        } else if left == right {
            let e = self.subtree_end(b);
            i >= e
        } else {
            false
        }
    }

    /// The best of two: `best`, the best of the nodes before `i`, and node `i`,
    /// which counts.
    fn better(
        &self,
        best: Option<usize>,
        i: usize,
        Ghost(row): Ghost<int>,
        Ghost(near): Ghost<bool>,
    ) -> (r: Option<usize>)
        requires
            i < self.nodes@.len(),
            best_before(self.tree(), row, near, best, i as int),
            considered(self.tree(), row, near, i as int),
        ensures
            best_before(self.tree(), row, near, r, i + 1),
    {
        let ghost t = self.tree();
        match best {
            None => Some(i),
            Some(b) => {
                if self.displaces(i, b) {
                    proof {
                        assert forall|c: int|
                            0 <= c < i + 1 && c != i && #[trigger] considered(
                                t,
                                row,
                                near,
                                c,
                            ) implies outranks(t, i as int, c) by {
                            if c != b {
                                lemma_outranks(t, i as int, b as int, c);
                            }
                        }
                    }
                    Some(i)
                } else {
                    Some(b)
                }
            },
        }
    }

    /// The construct that opens on `row`, looked for only where it can be.
    fn widest_on(&self, row: usize) -> (r: Option<usize>)
        ensures
            match r {
                Some(b) => widest(self.tree(), row as int, true) == Some(b as int) && b
                    < self.nodes@.len(),
                None => widest(self.tree(), row as int, true) is None,
            },
    {
        let ghost t = self.tree();
        let mut best: Option<usize> = None;
        let mut i: usize = 0;
        while i < self.nodes.len()
            invariant
                i <= self.nodes@.len(),
                t == self.tree(),
                t.len() == self.nodes@.len(),
                around(t, row as int, i as int),
                best_before(t, row as int, true, best, i as int),
            decreases self.nodes@.len() - i,
        {
            let n = &self.nodes[i];
            assert(t[i as int] == n@);
            proof {
                lemma_around(t, row as int, i as int);
            }
            let e = self.subtree_end(i);
            // The root opens on the first row, so that row would otherwise name
            // the entire file.
            if i > 0 && n.start_row == row && self.resolvable(i) {
                best = self.better(best, i, Ghost(row as int), Ghost(true));
            } else {
                assert(!considered(t, row as int, true, i as int));
            }
            // A node ending before the row, or starting after it, holds nothing
            // useful.
            if n.end_row >= row && n.start_row <= row {
                i += 1;
            } else {
                assert forall|k: int| i < k < e implies !#[trigger] considered(
                    t,
                    row as int,
                    true,
                    k,
                ) by {
                    assert(!around(t, row as int, k));
                }
                i = e;
            }
        }
        proof {
            lemma_best_is_widest(t, row as int, true, best);
        }
        best
    }

    /// The construct that opens at `line`, as an inclusive 1-based range.
    ///
    /// Resolves to the largest node starting on that row: the opening row of a
    /// function belongs to the whole function, not to its name. A row that
    /// opens nothing yields nothing rather than a guess. Annotations count as
    /// part of what they annotate, so the range covers them whichever row is
    /// named.
    pub fn block(&self, line: usize) -> (r: Option<(usize, usize)>)
        requires
            on_rows(self.tree(), usize::MAX - 1),
        ensures
            pair_view(r) == block_at(self.lang, self.tree(), self.bytes@, line as int),
    {
        if line == 0 {
            return None;
        }
        match self.widest_on(line - 1) {
            Some(i) => {
                let e = self.extent(i);
                Some((e.start, e.end))
            },
            None => None,
        }
    }

    /// The best node of every row, by row.
    fn widest_rows(&self) -> (m: HashMap<usize, usize>)
        ensures
            forall|row: usize| #[trigger] holds_widest(self.tree(), m@, row),
    {
        let ghost t = self.tree();
        let mut m: HashMap<usize, usize> = HashMap::new();
        let mut i: usize = 0;
        while i < self.nodes.len()
            invariant
                i <= self.nodes@.len(),
                t == self.tree(),
                t.len() == self.nodes@.len(),
                forall|row: usize|
                    best_before(
                        t,
                        row as int,
                        false,
                        if #[trigger] m@.contains_key(row) {
                            Some(m@[row])
                        } else {
                            None
                        },
                        i as int,
                    ),
            decreases self.nodes@.len() - i,
        {
            let n = &self.nodes[i];
            assert(t[i as int] == n@);
            let row = n.start_row;
            let ghost before = m@;
            if i > 0 && self.resolvable(i) {
                let best: Option<usize> = match m.get(&row) {
                    Some(b) => Some(*b),
                    None => None,
                };
                assert(best == if before.contains_key(row) {
                    Some(before[row])
                } else {
                    None
                });
                let now = self.better(best, i, Ghost(row as int), Ghost(false));
                if let Some(b) = now {
                    m.insert(row, b);
                }
                assert forall|r: usize|
                    best_before(
                        t,
                        r as int,
                        false,
                        if #[trigger] m@.contains_key(r) {
                            Some(m@[r])
                        } else {
                            None
                        },
                        i + 1,
                    ) by {
                    if r != row {
                        assert(before.contains_key(r) == m@.contains_key(r));
                        assert(!considered(t, r as int, false, i as int));
                    }
                }
            } else {
                assert forall|r: usize|
                    best_before(
                        t,
                        r as int,
                        false,
                        if #[trigger] m@.contains_key(r) {
                            Some(m@[r])
                        } else {
                            None
                        },
                        i + 1,
                    ) by {
                    assert(before.contains_key(r) == m@.contains_key(r));
                    assert(!considered(t, r as int, false, i as int));
                }
            }
            i += 1;
        }
        assert forall|row: usize| #[trigger] holds_widest(t, m@, row) by {
            let best = if m@.contains_key(row) {
                Some(m@[row])
            } else {
                None
            };
            assert(best_before(t, row as int, false, best, t.len() as int));
            lemma_best_is_widest(t, row as int, false, best);
        }
        m
    }

    /// What `block` answers for every row: each row that opens a construct,
    /// mapped to that construct's full extent.
    pub fn extents(&self) -> (m: HashMap<usize, (usize, usize)>)
        requires
            on_rows(self.tree(), usize::MAX - 1),
        ensures
            maps_extents(m@, self.lang, self.tree(), self.bytes@),
    {
        let ghost t = self.tree();
        let best = self.widest_rows();
        let mut m: HashMap<usize, (usize, usize)> = HashMap::new();
        let mut i: usize = 0;
        while i < self.nodes.len()
            invariant
                i <= self.nodes@.len(),
                t == self.tree(),
                t.len() == self.nodes@.len(),
                on_rows(t, usize::MAX - 1),
                forall|row: usize| #[trigger] holds_widest(t, best@, row),
                forall|line: usize| #[trigger]
                    m@.contains_key(line) <==> line >= 1 && match widest(t, line - 1, false) {
                        Some(b) => b < i,
                        None => false,
                    },
                forall|line: usize| #[trigger]
                    m@.contains_key(line) ==> extents_at(
                        self.lang,
                        t,
                        self.bytes@,
                        line as int,
                    ) == Some((m@[line].0 as int, m@[line].1 as int)),
            decreases self.nodes@.len() - i,
        {
            let n = &self.nodes[i];
            assert(t[i as int] == n@);
            let row = n.start_row;
            let ghost before = m@;
            let here = match best.get(&row) {
                Some(b) => *b == i,
                None => false,
            };
            assert(here == (widest(t, row as int, false) == Some(i as int))) by {
                assert(holds_widest(t, best@, row));
            }
            if here {
                let e = self.extent(i);
                m.insert(row + 1, (e.start, e.end));
            }
            proof {
                assert forall|line: usize| #[trigger]
                    m@.contains_key(line) <==> line >= 1 && match widest(t, line - 1, false) {
                        Some(b) => b < i + 1,
                        None => false,
                    } by {
                    assert(before.contains_key(line) == before.contains_key(line));
                    if line >= 1 {
                        if let Some(b) = widest(t, line - 1, false) {
                            if b == i {
                                lemma_widest_row(t, line - 1, false);
                            }
                        }
                    }
                }
                assert forall|line: usize| #[trigger] m@.contains_key(line) implies extents_at(
                    self.lang,
                    t,
                    self.bytes@,
                    line as int,
                ) == Some((m@[line].0 as int, m@[line].1 as int)) by {
                    if !(here && line == row + 1) {
                        assert(before.contains_key(line));
                    }
                }
            }
            i += 1;
        }
        assert forall|line: usize|
            #![trigger m@.contains_key(line)]
            #![trigger m@[line]]
            match extents_at(self.lang, t, self.bytes@, line as int) {
                Some((s, e)) => m@.contains_key(line) && m@[line].0 == s && m@[line].1 == e,
                None => !m@.contains_key(line),
            } by {
            if line >= 1 {
                if let Some(b) = widest(t, line - 1, false) {
                    lemma_widest_row(t, line - 1, false);
                }
            }
        }
        m
    }
}

/// The construct that opens on a row is a node of the tree that starts there.
proof fn lemma_widest_row(nodes: Seq<NodeView>, row: int, near: bool)
    requires
        widest(nodes, row, near) is Some,
    ensures
        0 < widest(nodes, row, near)->0 < nodes.len(),
        nodes[widest(nodes, row, near)->0].start_row == row,
{
    let b = choose|b: int| is_widest(nodes, row, near, b);
    assert(is_widest(nodes, row, near, b));
    assert(considered(nodes, row, near, b));
}

// ---------------------------------------------------------------------------
// Constructs of several rows
// ---------------------------------------------------------------------------

/// Whether a construct of several rows, from `start` to `end`, opens at `line`.
pub open spec fn spans_rows(
    lang: Lang,
    nodes: Seq<NodeView>,
    bytes: Seq<u8>,
    line: int,
    start: int,
    end: int,
) -> bool {
    extents_at(lang, nodes, bytes, line) == Some((start, end)) && end > start
}

/// Whether `m` maps the first row of each construct of several rows to the last
/// row of one that starts there.
pub open spec fn maps_spans(
    m: Map<usize, usize>,
    lang: Lang,
    nodes: Seq<NodeView>,
    bytes: Seq<u8>,
) -> bool {
    &&& forall|start: usize| #[trigger]
        m.contains_key(start) ==> exists|line: int| #[trigger]
            spans_rows(lang, nodes, bytes, line, start as int, m[start] as int)
    &&& forall|line: int, start: usize, end: int| #[trigger]
        spans_rows(lang, nodes, bytes, line, start as int, end) ==> m.contains_key(start)
}

impl<'a> Source<'a> {
    /// Every multi-row construct, as the row it opens on mapped to the row it
    /// closes on. Keyed by the extent's start, annotations included: the number
    /// a patch writes, which is not always the row that named it.
    pub fn spans(&self) -> (m: HashMap<usize, usize>)
        requires
            on_rows(self.tree(), usize::MAX - 1),
        ensures
            maps_spans(m@, self.lang, self.tree(), self.bytes@),
    {
        let ghost t = self.tree();
        let best = self.widest_rows();
        let mut m: HashMap<usize, usize> = HashMap::new();
        let mut i: usize = 0;
        while i < self.nodes.len()
            invariant
                i <= self.nodes@.len(),
                t == self.tree(),
                t.len() == self.nodes@.len(),
                on_rows(t, usize::MAX - 1),
                forall|row: usize| #[trigger] holds_widest(t, best@, row),
                forall|start: usize| #[trigger]
                    m@.contains_key(start) ==> exists|line: int| #[trigger]
                        spans_rows(
                            self.lang,
                            t,
                            self.bytes@,
                            line,
                            start as int,
                            m@[start] as int,
                        ),
                forall|line: int, start: usize, end: int|
                    (#[trigger] spans_rows(
                        self.lang,
                        t,
                        self.bytes@,
                        line,
                        start as int,
                        end,
                    ) && widest(t, line - 1, false)->0 < i) ==> m@.contains_key(start),
            decreases self.nodes@.len() - i,
        {
            let n = &self.nodes[i];
            assert(t[i as int] == n@);
            let row = n.start_row;
            let ghost before = m@;
            let here = match best.get(&row) {
                Some(b) => *b == i,
                None => false,
            };
            assert(here == (widest(t, row as int, false) == Some(i as int))) by {
                assert(holds_widest(t, best@, row));
            }
            if here {
                let e = self.extent(i);
                assert(extents_at(self.lang, t, self.bytes@, row + 1) == Some(
                    (e.start as int, e.end as int),
                ));
                if e.end > e.start {
                    m.insert(e.start, e.end);
                    assert(spans_rows(
                        self.lang,
                        t,
                        self.bytes@,
                        row + 1,
                        e.start as int,
                        e.end as int,
                    ));
                }
            }
            proof {
                assert forall|start: usize| #[trigger] m@.contains_key(start) implies exists|
                    line: int,
                | #[trigger]
                    spans_rows(
                        self.lang,
                        t,
                        self.bytes@,
                        line,
                        start as int,
                        m@[start] as int,
                    ) by {
                    if m@ != before && m@[start] != before[start] || !before.contains_key(start) {
                        assert(spans_rows(
                            self.lang,
                            t,
                            self.bytes@,
                            row + 1,
                            start as int,
                            m@[start] as int,
                        ));
                    } else {
                        assert(before.contains_key(start));
                    }
                }
                assert forall|line: int, start: usize, end: int|
                    (#[trigger] spans_rows(
                        self.lang,
                        t,
                        self.bytes@,
                        line,
                        start as int,
                        end,
                    ) && widest(t, line - 1, false)->0 < i + 1) implies m@.contains_key(start) by {
                    let b = widest(t, line - 1, false)->0;
                    if b == i {
                        lemma_widest_row(t, line - 1, false);
                        assert(line - 1 == row);
                    } else {
                        assert(before.contains_key(start));
                    }
                }
            }
            i += 1;
        }
        assert forall|line: int, start: usize, end: int| #[trigger]
            spans_rows(self.lang, t, self.bytes@, line, start as int, end) implies m@.contains_key(
            start,
        ) by {
            lemma_widest_row(t, line - 1, false);
        }
        m
    }
}

// ---------------------------------------------------------------------------
// What could not be parsed
// ---------------------------------------------------------------------------

/// Whether the parser could not read a node, or put it in to go on.
pub open spec fn failing(n: NodeView) -> bool {
    n.error || n.missing
}

/// Whether every node that holds node `i` is broken without failing itself: the
/// children of one that fails are what the grammar salvaged, not further
/// failures.
pub open spec fn exposed(nodes: Seq<NodeView>, i: int) -> bool {
    forall|a: int|
        0 <= a < i && #[trigger] lies_in(nodes, i, a) ==> nodes[a].broken && !failing(nodes[a])
}

/// Whether node `i` fails in a tree that is broken.
pub open spec fn breaks_at(nodes: Seq<NodeView>, i: int) -> bool {
    0 <= i < nodes.len() && nodes[0].broken && failing(nodes[i]) && exposed(nodes, i)
}

/// Whether `line` is one the parser could not read.
pub open spec fn error_line(nodes: Seq<NodeView>, line: int) -> bool {
    exists|i: int| #[trigger] breaks_at(nodes, i) && nodes[i].start_row + 1 == line
}

/// Whether `v` ascends without repeating.
pub open spec fn ascending(v: Seq<usize>) -> bool {
    forall|i: int, j: int| 0 <= i < j < v.len() ==> v[i] < v[j]
}

proof fn lemma_exposed(nodes: Seq<NodeView>, i: int)
    requires
        0 <= i < nodes.len(),
        exposed(nodes, i),
    ensures
        nodes[i].broken && !failing(nodes[i]) ==> exposed(nodes, i + 1),
        exposed(nodes, end_of(nodes, i)),
        !(nodes[i].broken && !failing(nodes[i])) ==> forall|k: int|
            i < k < end_of(nodes, i) ==> !#[trigger] exposed(nodes, k),
{
    lemma_end_from(nodes, i, i + 1);
    let e = end_of(nodes, i);
    if nodes[i].broken && !failing(nodes[i]) {
        assert forall|a: int| 0 <= a < i + 1 && #[trigger] lies_in(nodes, i + 1, a) implies
            nodes[a].broken && !failing(nodes[a]) by {
            if a < i {
                assert(lies_in(nodes, i, a));
            }
        }
    } else {
        assert forall|k: int| i < k < e implies !#[trigger] exposed(nodes, k) by {
            assert(lies_in(nodes, k, i));
        }
    }
    assert forall|a: int| 0 <= a < e && #[trigger] lies_in(nodes, e, a) implies nodes[a].broken
        && !failing(nodes[a]) by {
        if a < i {
            assert(lies_in(nodes, i, a));
        } else if a > i {
            assert(lies_in(nodes, a, i));
            lemma_nested(nodes, i, a);
        }
    }
}

/// Put `x` in its place, unless it is there.
fn file_row(v: &mut Vec<usize>, x: usize)
    requires
        ascending(old(v)@),
    ensures
        ascending(final(v)@),
        forall|y: usize| #[trigger] final(v)@.contains(y) <==> old(v)@.contains(y) || y == x,
{
    let ghost before = v@;
    let mut at: usize = v.len();
    while at > 0 && v[at - 1] > x
        invariant
            at <= v@.len(),
            *v == *old(v),
            before == v@,
            ascending(v@),
            forall|k: int| at <= k < v@.len() ==> v@[k] > x,
        decreases at,
    {
        at -= 1;
    }
    if at > 0 && v[at - 1] == x {
        assert(v@[at - 1] == x);
        return;
    }
    v.insert(at, x);
    proof {
        assert(v@ == before.insert(at as int, x));
        assert forall|i: int, j: int| 0 <= i < j < v@.len() implies v@[i] < v@[j] by {
            if i < at && j < at {
                assert(before[i] < before[j]);
            } else if i < at && j == at {
                assert(before[i] <= before[at - 1]);
            } else if i < at {
                assert(before[i] < before[j - 1]);
            } else if i == at {
                assert(before[j - 1] > x);
            } else {
                assert(before[i - 1] < before[j - 1]);
            }
        }
        assert forall|y: usize| #[trigger] v@.contains(y) <==> before.contains(y) || y == x by {
            if v@.contains(y) {
                let k = choose|k: int| 0 <= k < v@.len() && v@[k] == y;
                if k < at {
                    assert(before[k] == y);
                } else if k > at {
                    assert(before[k - 1] == y);
                }
            }
            if before.contains(y) {
                let k = choose|k: int| 0 <= k < before.len() && before[k] == y;
                if k < at {
                    assert(v@[k] == y);
                } else {
                    assert(v@[k + 1] == y);
                }
            }
            if y == x {
                assert(v@[at as int] == x);
            }
        }
    }
}

impl<'a> Source<'a> {
    /// Every row that could not be parsed, 1-based and ascending.
    ///
    /// All of them, not just the first: an unbalanced brace makes the whole file
    /// one error opening on row 1, and the row worth reporting is the one
    /// nearest what the caller touched.
    pub fn error_rows(&self) -> (r: Vec<usize>)
        requires
            on_rows(self.tree(), usize::MAX - 1),
        ensures
            ascending(r@),
            forall|line: usize| #[trigger]
                r@.contains(line) <==> error_line(self.tree(), line as int),
    {
        let ghost t = self.tree();
        let mut r: Vec<usize> = Vec::new();
        // The common answer is none, and that one is a flag read, not a walk.
        if self.nodes.len() == 0 || !self.nodes[0].broken {
            proof {
                if self.nodes@.len() > 0 {
                    assert(t[0] == self.nodes@[0]@);
                }
                assert forall|line: usize| #[trigger]
                    r@.contains(line) <==> error_line(t, line as int) by {
                }
            }
            return r;
        }
        assert(t[0] == self.nodes@[0]@);
        let mut i: usize = 0;
        while i < self.nodes.len()
            invariant
                i <= self.nodes@.len(),
                t == self.tree(),
                t.len() == self.nodes@.len(),
                t.len() > 0 && t[0].broken,
                on_rows(t, usize::MAX - 1),
                exposed(t, i as int),
                ascending(r@),
                forall|line: usize| #[trigger]
                    r@.contains(line) <==> exists|k: int|
                        0 <= k < i && #[trigger] breaks_at(t, k) && t[k].start_row + 1 == line,
            decreases self.nodes@.len() - i,
        {
            let n = &self.nodes[i];
            assert(t[i as int] == n@);
            proof {
                lemma_exposed(t, i as int);
            }
            let e = self.subtree_end(i);
            let ghost before = r@;
            if n.error || n.missing {
                file_row(&mut r, n.start_row + 1);
                proof {
                    assert(breaks_at(t, i as int));
                    assert forall|line: usize| #[trigger]
                        r@.contains(line) <==> exists|k: int|
                            0 <= k < e && #[trigger] breaks_at(t, k) && t[k].start_row + 1
                                == line by {
                        assert(r@.contains(line) <==> before.contains(line) || line
                            == n.start_row + 1);
                        if exists|k: int|
                            0 <= k < e && #[trigger] breaks_at(t, k) && t[k].start_row + 1 == line {
                            let k = choose|k: int|
                                0 <= k < e && #[trigger] breaks_at(t, k) && t[k].start_row + 1
                                    == line;
                            if k < i {
                                assert(before.contains(line));
                            }
                        }
                        if before.contains(line) {
                            let k = choose|k: int|
                                0 <= k < i && #[trigger] breaks_at(t, k) && t[k].start_row + 1
                                    == line;
                            assert(0 <= k < e && breaks_at(t, k));
                        }
                    }
                }
                i = e;
            } else {
                let ghost next = if n.broken {
                    i + 1
                } else {
                    e as int
                };
                proof {
                    assert(!breaks_at(t, i as int));
                    assert forall|line: usize| #[trigger]
                        r@.contains(line) <==> exists|k: int|
                            0 <= k < next && #[trigger] breaks_at(t, k) && t[k].start_row + 1
                                == line by {
                        if exists|k: int|
                            0 <= k < next && #[trigger] breaks_at(t, k) && t[k].start_row + 1
                                == line {
                            let k = choose|k: int|
                                0 <= k < next && #[trigger] breaks_at(t, k) && t[k].start_row + 1
                                    == line;
                            assert(k < i);
                            assert(before.contains(line));
                        }
                        if before.contains(line) {
                            let k = choose|k: int|
                                0 <= k < i && #[trigger] breaks_at(t, k) && t[k].start_row + 1
                                    == line;
                            assert(0 <= k < next && breaks_at(t, k));
                        }
                    }
                }
                if n.broken {
                    i += 1;
                } else {
                    i = e;
                }
            }
        }
        assert forall|line: usize| #[trigger]
            r@.contains(line) <==> error_line(t, line as int) by {
            if error_line(t, line as int) {
                let k = choose|k: int| #[trigger] breaks_at(t, k) && t[k].start_row + 1 == line;
                assert(0 <= k < i && breaks_at(t, k));
            }
        }
        r
    }
}

// ---------------------------------------------------------------------------
// The skeleton of a file
// ---------------------------------------------------------------------------

/// One entry in a file's skeleton.
///
/// `line..=end` is what a patch names to replace the whole thing, annotations
/// included. `text` is the row that identifies it, trimmed, because `depth` is
/// the structural nesting and source indentation would double it.
#[derive(Debug, Clone, PartialEq, Eq)]
pub struct Item {
    pub line: usize,
    pub end: usize,
    pub depth: usize,
    pub text: String,
}

/// An entry, with its text as a sequence.
#[verifier::ext_equal]
pub struct ItemView {
    pub line: int,
    pub end: int,
    pub depth: int,
    pub text: Seq<char>,
}

impl View for Item {
    type V = ItemView;

    open spec fn view(&self) -> ItemView {
        ItemView {
            line: self.line as int,
            end: self.end as int,
            depth: self.depth as int,
            text: self.text@,
        }
    }
}

/// The entries, with their texts as sequences.
pub open spec fn items_view(v: Seq<Item>) -> Seq<ItemView> {
    Seq::new(v.len(), |i: int| v[i]@)
}

/// The construct of a declaration, unless it is the one already shown: a
/// wrapper and the thing it wraps are not listed twice.
pub open spec fn listed(
    lang: Lang,
    nodes: Seq<NodeView>,
    bytes: Seq<u8>,
    i: int,
    shown: Option<(int, int)>,
) -> Option<(int, int, int)> {
    let e = extent_at(lang, nodes, bytes, i);
    if is_declaration(lang, nodes[i].kind) && shown != Some((e.0, e.1)) {
        Some(e)
    } else {
        None
    }
}

/// The entries of the siblings from node `i` to before `end`, each followed by
/// the entries inside it. What is not declared is still looked into; what is
/// declared only where it holds other declarations.
pub open spec fn skeleton(
    lang: Lang,
    nodes: Seq<NodeView>,
    bytes: Seq<u8>,
    text: Seq<Seq<char>>,
    i: int,
    end: int,
    depth: int,
    shown: Option<(int, int)>,
) -> Seq<ItemView>
    decreases end - i,
    when 0 <= i && end <= nodes.len()
    via skeleton_decreases
{
    if i >= end {
        Seq::empty()
    } else {
        let e = end_of(nodes, i);
        let kind = nodes[i].kind;
        let here = listed(lang, nodes, bytes, i, shown);
        let entry = match here {
            Some((line, last, name)) => seq![
                ItemView { line, end: last, depth, text: trim(row_at(text, name)) },
            ],
            None => Seq::empty(),
        };
        let inside = if is_container(lang, kind) || !is_declaration(lang, kind) {
            match here {
                Some((line, last, _)) => skeleton(
                    lang,
                    nodes,
                    bytes,
                    text,
                    i + 1,
                    if e <= end {
                        e
                    } else {
                        end
                    },
                    depth + 1,
                    Some((line, last)),
                ),
                None => skeleton(
                    lang,
                    nodes,
                    bytes,
                    text,
                    i + 1,
                    if e <= end {
                        e
                    } else {
                        end
                    },
                    depth,
                    shown,
                ),
            }
        } else {
            Seq::empty()
        };
        let rest = if e < end {
            skeleton(lang, nodes, bytes, text, e, end, depth, shown)
        } else {
            Seq::empty()
        };
        if nodes[i].named {
            entry + inside + rest
        } else {
            rest
        }
    }
}

#[via_fn]
proof fn skeleton_decreases(
    lang: Lang,
    nodes: Seq<NodeView>,
    bytes: Seq<u8>,
    text: Seq<Seq<char>>,
    i: int,
    end: int,
    depth: int,
    shown: Option<(int, int)>,
) {
    if i < end {
        lemma_end_from(nodes, i, i + 1);
    }
}

/// The skeleton of a whole file: what is below the root.
pub open spec fn outline_at(
    lang: Lang,
    nodes: Seq<NodeView>,
    bytes: Seq<u8>,
    content: Seq<char>,
) -> Seq<ItemView> {
    if nodes.len() == 0 {
        Seq::empty()
    } else {
        skeleton(lang, nodes, bytes, lines(content), 1, end_of(nodes, 0), 0, None)
    }
}

impl<'a> Source<'a> {
    fn visit(
        &self,
        text: &[Vec<char>],
        from: usize,
        end: usize,
        depth: usize,
        shown: Option<(usize, usize)>,
        out: &mut Vec<Item>,
    )
        requires
            from <= end <= self.nodes@.len(),
            depth <= from,
            on_rows(self.tree(), usize::MAX - 1),
        ensures
            items_view(final(out)@) == items_view(old(out)@) + skeleton(
                self.lang,
                self.tree(),
                self.bytes@,
                rows(text@),
                from as int,
                end as int,
                depth as int,
                pair_view(shown),
            ),
        decreases end - from,
    {
        let ghost t = self.tree();
        let ghost bytes = self.bytes@;
        let ghost text_rows = rows(text@);
        let ghost shown_view = pair_view(shown);
        let ghost start = items_view(out@);
        let ghost whole = skeleton(
            self.lang,
            t,
            bytes,
            text_rows,
            from as int,
            end as int,
            depth as int,
            shown_view,
        );
        let mut i: usize = from;
        while i < end
            invariant
                from <= i,
                end <= self.nodes@.len(),
                depth <= from,
                t == self.tree(),
                t.len() == self.nodes@.len(),
                self.nodes@.len() == self.nodes.len(),
                bytes == self.bytes@,
                text_rows == rows(text@),
                shown_view == pair_view(shown),
                on_rows(t, usize::MAX - 1),
                i <= self.nodes@.len(),
                items_view(out@) + skeleton(
                    self.lang,
                    t,
                    bytes,
                    text_rows,
                    i as int,
                    end as int,
                    depth as int,
                    shown_view,
                ) == start + whole,
            decreases self.nodes@.len() - i,
        {
            let n = &self.nodes[i];
            assert(t[i as int] == n@);
            let e = self.subtree_end(i);
            let ghost before = items_view(out@);
            let ghost rest = skeleton(
                self.lang,
                t,
                bytes,
                text_rows,
                e as int,
                end as int,
                depth as int,
                shown_view,
            );
            assert(e >= end ==> rest =~= Seq::empty());
            if n.named {
                let container = self.lang.contains(n.kind.as_str());
                let candidate = self.lang.declares(n.kind.as_str());
                let mut deeper: usize = depth;
                let mut below = shown;
                let ghost mut entry: Seq<ItemView> = Seq::empty();
                if candidate {
                    let x = self.extent(i);
                    let again = match shown {
                        Some((a, b)) => a == x.start && b == x.end,
                        None => false,
                    };
                    assert(again == (shown_view == Some((x.start as int, x.end as int))));
                    if !again {
                        let row = row_of(text, x.name);
                        let named_row = trimmed(row.as_slice());
                        let item = Item {
                            line: x.start,
                            end: x.end,
                            depth,
                            text: string_of(named_row.as_slice()),
                        };
                        proof {
                            entry = seq![item@];
                        }
                        out.push(item);
                        assert(items_view(out@) =~= before + entry);
                        deeper = depth + 1;
                        below = Some((x.start, x.end));
                    }
                }
                assert(items_view(out@) =~= before + entry);
                let ghost mut inside: Seq<ItemView> = Seq::empty();
                if container || !candidate {
                    let stop: usize = if e <= end {
                        e
                    } else {
                        end
                    };
                    proof {
                        inside = skeleton(
                            self.lang,
                            t,
                            bytes,
                            text_rows,
                            i + 1,
                            stop as int,
                            deeper as int,
                            pair_view(below),
                        );
                    }
                    self.visit(text, i + 1, stop, deeper, below, out);
                }
                assert(items_view(out@) =~= before + entry + inside);
                assert(before + (entry + inside + rest) =~= before + entry + inside + rest);
            }
            i = e;
        }
        proof {
            assert(skeleton(
                self.lang,
                t,
                bytes,
                text_rows,
                i as int,
                end as int,
                depth as int,
                shown_view,
            ) =~= Seq::empty());
            assert(items_view(out@) =~= start + whole);
        }
    }

    /// The file's declarations, in source order, nested by container.
    pub fn outline(&self, content: &str) -> (r: Vec<Item>)
        requires
            on_rows(self.tree(), usize::MAX - 1),
        ensures
            items_view(r@) == outline_at(self.lang, self.tree(), self.bytes@, content@),
    {
        let mut out: Vec<Item> = Vec::new();
        assert(items_view(out@) =~= Seq::empty());
        if self.nodes.len() == 0 {
            return out;
        }
        let chars = chars_of(content);
        let text = lines_of(chars.as_slice());
        let e = self.subtree_end(0);
        self.visit(text.as_slice(), 1, e, 0, None, &mut out);
        assert(items_view(out@) =~= outline_at(
            self.lang,
            self.tree(),
            self.bytes@,
            content@,
        ));
        out
    }
}

// ---------------------------------------------------------------------------
// From a text
// ---------------------------------------------------------------------------

/// The nodes of a text, with rows that fit once they are counted from 1.
fn read(lang: Lang, content: &str) -> (r: Option<Vec<SyntaxNode>>)
    ensures
        match r {
            Some(v) => {
                &&& parsed(lang, content@, content.spec_bytes()) == Some(nodes_view(v@))
                &&& on_rows(nodes_view(v@), usize::MAX - 1)
                &&& well_nested(nodes_view(v@))
            },
            None => parsed(lang, content@, content.spec_bytes()) is None,
        },
{
    proof {
        let n = content@.len() as int;
        lemma_bytes_encoded(content@);
        lemma_bytes_prefix(content@, 0, n);
        assert(content@.take(n) =~= content@);
        lemma_breaks_concat(content@, Seq::empty());
    }
    read_nodes(lang, content)
}

/// The construct that opens at `line`, as an inclusive 1-based range: what
/// `extents` maps the line to.
pub fn block(lang: Lang, content: &str, line: usize) -> (r: Option<(usize, usize)>)
    ensures
        pair_view(r) == match parsed(lang, content@, content.spec_bytes()) {
            Some(nodes) => block_at(lang, nodes, content.spec_bytes(), line as int),
            None => None,
        },
        pair_view(r) == match parsed(lang, content@, content.spec_bytes()) {
            Some(nodes) => extents_at(lang, nodes, content.spec_bytes(), line as int),
            None => None,
        },
{
    match read(lang, content) {
        Some(nodes) => {
            proof {
                law_block_is_what_extents_says(
                    lang,
                    nodes_view(nodes@),
                    content.spec_bytes(),
                    line as int,
                );
            }
            let source = Source { lang, nodes: nodes.as_slice(), bytes: content.as_bytes() };
            source.block(line)
        },
        None => None,
    }
}

/// What `block` answers for every row, in one parse: each row that opens a
/// construct, mapped to that construct's full extent.
pub fn extents(lang: Lang, content: &str) -> (m: HashMap<usize, (usize, usize)>)
    ensures
        match parsed(lang, content@, content.spec_bytes()) {
            Some(nodes) => maps_extents(m@, lang, nodes, content.spec_bytes()),
            None => m@ == Map::<usize, (usize, usize)>::empty(),
        },
{
    match read(lang, content) {
        Some(nodes) => {
            let source = Source { lang, nodes: nodes.as_slice(), bytes: content.as_bytes() };
            source.extents()
        },
        None => HashMap::new(),
    }
}

/// Every multi-row construct, as the row it opens on mapped to the row it
/// closes on.
pub fn spans(lang: Lang, content: &str) -> (m: HashMap<usize, usize>)
    ensures
        match parsed(lang, content@, content.spec_bytes()) {
            Some(nodes) => maps_spans(m@, lang, nodes, content.spec_bytes()),
            None => m@ == Map::<usize, usize>::empty(),
        },
{
    match read(lang, content) {
        Some(nodes) => {
            let source = Source { lang, nodes: nodes.as_slice(), bytes: content.as_bytes() };
            source.spans()
        },
        None => HashMap::new(),
    }
}

/// Every row that could not be parsed, 1-based and ascending.
pub fn error_rows(lang: Lang, content: &str) -> (r: Vec<usize>)
    ensures
        ascending(r@),
        match parsed(lang, content@, content.spec_bytes()) {
            Some(nodes) => forall|line: usize| #[trigger]
                r@.contains(line) <==> error_line(nodes, line as int),
            None => r@.len() == 0,
        },
{
    match read(lang, content) {
        Some(nodes) => {
            let source = Source { lang, nodes: nodes.as_slice(), bytes: content.as_bytes() };
            source.error_rows()
        },
        None => Vec::new(),
    }
}

/// The file's declarations, in source order, nested by container.
pub fn outline(lang: Lang, content: &str) -> (r: Vec<Item>)
    ensures
        items_view(r@) == match parsed(lang, content@, content.spec_bytes()) {
            Some(nodes) => outline_at(lang, nodes, content.spec_bytes(), content@),
            None => Seq::empty(),
        },
{
    match read(lang, content) {
        Some(nodes) => {
            let source = Source { lang, nodes: nodes.as_slice(), bytes: content.as_bytes() };
            source.outline(content)
        },
        None => {
            let none: Vec<Item> = Vec::new();
            assert(items_view(none@) =~= Seq::empty());
            none
        },
    }
}

// ---------------------------------------------------------------------------
// Laws
// ---------------------------------------------------------------------------

/// Whether an entry of the skeleton is a declaration of the file: the rows are
/// the construct's, and the text is the row that names it.
pub open spec fn is_entry(
    lang: Lang,
    nodes: Seq<NodeView>,
    bytes: Seq<u8>,
    text: Seq<Seq<char>>,
    item: ItemView,
    i: int,
) -> bool {
    let e = extent_at(lang, nodes, bytes, i);
    &&& 0 < i < nodes.len()
    &&& nodes[i].named && is_declaration(lang, nodes[i].kind)
    &&& item.line == e.0 && item.end == e.1 && item.text == trim(row_at(text, e.2))
}

/// Whether an entry of the skeleton is some declaration of the file.
pub open spec fn stands_for_one(
    lang: Lang,
    nodes: Seq<NodeView>,
    bytes: Seq<u8>,
    text: Seq<Seq<char>>,
    item: ItemView,
) -> bool {
    exists|at: int| is_entry(lang, nodes, bytes, text, item, at)
}

/// Whether every entry of a skeleton is a declaration of the file.
pub open spec fn are_entries(
    lang: Lang,
    nodes: Seq<NodeView>,
    bytes: Seq<u8>,
    text: Seq<Seq<char>>,
    items: Seq<ItemView>,
) -> bool {
    forall|k: int|
        0 <= k < items.len() ==> stands_for_one(lang, nodes, bytes, text, #[trigger] items[k])
}

proof fn lemma_entries(
    lang: Lang,
    nodes: Seq<NodeView>,
    bytes: Seq<u8>,
    text: Seq<Seq<char>>,
    i: int,
    end: int,
    depth: int,
    shown: Option<(int, int)>,
)
    requires
        0 < i,
        end <= nodes.len(),
    ensures
        are_entries(
            lang,
            nodes,
            bytes,
            text,
            skeleton(lang, nodes, bytes, text, i, end, depth, shown),
        ),
    decreases end - i,
{
    let whole = skeleton(lang, nodes, bytes, text, i, end, depth, shown);
    if i < end {
        lemma_end_from(nodes, i, i + 1);
        let e = end_of(nodes, i);
        let inner = if e <= end {
            e
        } else {
            end
        };
        let kind = nodes[i].kind;
        let here = listed(lang, nodes, bytes, i, shown);
        let entry = match here {
            Some((line, last, name)) => seq![
                ItemView { line, end: last, depth, text: trim(row_at(text, name)) },
            ],
            None => Seq::empty(),
        };
        let (deeper, under) = match here {
            Some((line, last, _)) => (depth + 1, Some((line, last))),
            None => (depth, shown),
        };
        lemma_entries(lang, nodes, bytes, text, i + 1, inner, deeper, under);
        let inside = if is_container(lang, kind) || !is_declaration(lang, kind) {
            skeleton(lang, nodes, bytes, text, i + 1, inner, deeper, under)
        } else {
            Seq::empty()
        };
        let rest = if e < end {
            skeleton(lang, nodes, bytes, text, e, end, depth, shown)
        } else {
            Seq::empty()
        };
        if e < end {
            lemma_entries(lang, nodes, bytes, text, e, end, depth, shown);
        }
        if nodes[i].named {
            assert(whole == entry + inside + rest);
            if entry.len() > 0 {
                assert(is_entry(lang, nodes, bytes, text, entry[0], i));
            }
            assert forall|k: int| 0 <= k < whole.len() implies stands_for_one(
                lang,
                nodes,
                bytes,
                text,
                #[trigger] whole[k],
            ) by {
                if k < entry.len() {
                    assert(whole[k] == entry[0]);
                } else if k < entry.len() + inside.len() {
                    assert(whole[k] == inside[k - entry.len()]);
                } else {
                    assert(whole[k] == rest[k - entry.len() - inside.len()]);
                }
            }
        } else {
            assert(whole == rest);
        }
    } else {
        assert(whole == Seq::<ItemView>::empty());
    }
}

/// Every entry of an outline is a construct that a block can be named by: its
/// rows are those of a declaration of the file, annotations with the rest, and
/// its text is the row that names it.
pub proof fn law_an_entry_is_a_construct(
    lang: Lang,
    nodes: Seq<NodeView>,
    bytes: Seq<u8>,
    content: Seq<char>,
)
    ensures
        are_entries(
            lang,
            nodes,
            bytes,
            lines(content),
            outline_at(lang, nodes, bytes, content),
        ),
{
    if nodes.len() > 0 {
        lemma_end_from(nodes, 0, 1);
        lemma_entries(lang, nodes, bytes, lines(content), 1, end_of(nodes, 0), 0, None);
    }
}

/// A row's answer does not depend on which asked: where the nodes of a tree are
/// nested in the rows of their holders, `block` gives for each line what
/// `extents` maps it to.
pub proof fn law_block_is_what_extents_says(
    lang: Lang,
    nodes: Seq<NodeView>,
    bytes: Seq<u8>,
    line: int,
)
    requires
        well_nested(nodes),
    ensures
        block_at(lang, nodes, bytes, line) == extents_at(lang, nodes, bytes, line),
{
    let row = line - 1;
    assert forall|i: int| #[trigger] considered(nodes, row, true, i) == considered(
        nodes,
        row,
        false,
        i,
    ) by {
        if opens(nodes, row, i) {
            assert(around(nodes, row, i));
        }
    }
    assert forall|b: int| #[trigger] is_widest(nodes, row, true, b) == is_widest(
        nodes,
        row,
        false,
        b,
    ) by {
        assert(considered(nodes, row, true, b) == considered(nodes, row, false, b));
        assert forall|c: int| considered(nodes, row, true, c) == #[trigger] considered(
            nodes,
            row,
            false,
            c,
        ) by {
        }
    }
    if exists|b: int| is_widest(nodes, row, true, b) {
        let b = choose|b: int| is_widest(nodes, row, true, b);
        lemma_one_widest(nodes, row, true, b);
        assert(is_widest(nodes, row, false, b));
        lemma_one_widest(nodes, row, false, b);
    } else {
        assert forall|b: int| !is_widest(nodes, row, false, b) by {
            assert(!is_widest(nodes, row, true, b));
        }
    }
}

} // verus!
