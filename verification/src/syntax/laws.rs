//! What a block is, stated on the nodes of the tree: which rows it covers, what
//! it takes in above itself, and which row opens one.

use crate::syntax::construct::{
    annotates, annotation_above, extent_at, last_row, lemma_named_before, lemma_named_from,
    lemma_parent, lemma_plain_from, named_before, named_from, next_named, parent, parent_before,
    past_annotations, resolvable, signalled, subject, topmost, touches, unwrapped, widened, wrapped,
};
use crate::syntax::lang::{signals, Lang, Signal};
use crate::syntax::tree::NodeView;
use crate::syntax::{
    block_at, considered, extents_at, is_widest, lies_in, opens, outranks, well_nested, widest,
};
use vstd::prelude::*;
use vstd::string::*;

verus! {

/// Whether any of a node stands on a line, counted from 1. A node that stops at
/// the very start of a row has nothing on it.
pub open spec fn on_line(n: NodeView, line: int) -> bool {
    &&& n.start_row + 1 <= line
    &&& line <= n.end_row || (line == n.end_row + 1 && (n.end_column != 0 || n.end_row
        == n.start_row))
}

/// Whether a node could be read and has a name.
pub open spec fn readable(n: NodeView) -> bool {
    n.named && !n.error && !n.missing
}

/// Whether node `p` is the closest named sibling in front of node `f`.
pub open spec fn in_front(nodes: Seq<NodeView>, p: int, f: int) -> bool {
    &&& 0 <= p < f < nodes.len()
    &&& nodes[p].named && nodes[p].depth == nodes[f].depth
    &&& forall|j: int|
        p < j < f ==> (#[trigger] nodes[j]).depth > nodes[f].depth || (nodes[j].depth
            == nodes[f].depth && !nodes[j].named)
}

proof fn lemma_on_line(n: NodeView, line: int)
    requires
        n.start_row <= n.end_row,
    ensures
        on_line(n, line) == (n.start_row + 1 <= line <= last_row(n) + 1),
{
}

proof fn lemma_in_front(nodes: Seq<NodeView>, p: int, f: int, k: int)
    requires
        in_front(nodes, p, f),
        p < k <= f,
    ensures
        named_before(nodes, nodes[f].depth, k) == Some(p),
    decreases k,
{
    if k - 1 > p {
        assert(nodes[k - 1].depth > nodes[f].depth || (nodes[k - 1].depth == nodes[f].depth
            && !nodes[k - 1].named));
        lemma_in_front(nodes, p, f, k - 1);
    }
}

proof fn lemma_behind(nodes: Seq<NodeView>, p: int, f: int, k: int)
    requires
        in_front(nodes, p, f),
        nodes[f].named,
        p < k <= f,
    ensures
        named_from(nodes, nodes[p].depth, k) == Some(f),
    decreases f - k,
{
    if k < f {
        assert(nodes[k].depth > nodes[f].depth || (nodes[k].depth == nodes[f].depth
            && !nodes[k].named));
        lemma_behind(nodes, p, f, k + 1);
    }
}

/// The lines above a node from its topmost annotation on: each is one of an
/// annotation; and the topmost has none that reaches it above.
proof fn lemma_topmost(lang: Lang, nodes: Seq<NodeView>, bytes: Seq<u8>, i: int)
    requires
        well_nested(nodes),
        0 <= i < nodes.len(),
    ensures
        ({
            let f = topmost(lang, nodes, bytes, i);
            &&& 0 <= f <= i
            &&& nodes[f].depth == nodes[i].depth
            &&& forall|line: int|
                nodes[f].start_row + 1 <= line <= nodes[i].start_row ==> #[trigger]
                    annotated_line(lang, nodes, bytes, nodes[i].depth, line)
            &&& annotation_above(lang, nodes, bytes, f) is None
        }),
    decreases i,
{
    match annotation_above(lang, nodes, bytes, i) {
        Some(p) => {
            lemma_named_before(nodes, nodes[i].depth, i);
            lemma_topmost(lang, nodes, bytes, p);
            let f = topmost(lang, nodes, bytes, i);
            assert forall|line: int|
                nodes[f].start_row + 1 <= line <= nodes[i].start_row implies #[trigger]
                annotated_line(lang, nodes, bytes, nodes[i].depth, line) by {
                if line >= nodes[p].start_row + 1 {
                    assert(nodes[p].start_row <= nodes[p].end_row);
                    lemma_on_line(nodes[p], line);
                    assert(annotation_on(lang, nodes, bytes, nodes[i].depth, p, line));
                } else {
                    assert(annotated_line(lang, nodes, bytes, nodes[p].depth, line));
                }
            }
        },
        None => {},
    }
}

/// Whether node `a`, of a depth, is an annotation that stands on a line.
pub open spec fn annotation_on(
    lang: Lang,
    nodes: Seq<NodeView>,
    bytes: Seq<u8>,
    depth: int,
    a: int,
    line: int,
) -> bool {
    &&& 0 <= a < nodes.len()
    &&& nodes[a].named && nodes[a].depth == depth
    &&& annotates(lang, nodes[a], bytes)
    &&& on_line(nodes[a], line)
}

/// Whether an annotation of a depth stands on a line.
pub open spec fn annotated_line(
    lang: Lang,
    nodes: Seq<NodeView>,
    bytes: Seq<u8>,
    depth: int,
    line: int,
) -> bool {
    exists|a: int| #[trigger] annotation_on(lang, nodes, bytes, depth, a, line)
}

/// Whether the rows `start..=end` are those of the construct at node `s`: it
/// could be read, its last line is the last row, every row above the line it
/// starts on is one of an annotation beside it, and of the node the rows start
/// with, `f`, no annotation in front reaches the row above.
pub open spec fn covers(
    lang: Lang,
    nodes: Seq<NodeView>,
    bytes: Seq<u8>,
    start: int,
    end: int,
    s: int,
    f: int,
) -> bool {
    &&& 0 <= f <= s < nodes.len()
    &&& 0 < s
    &&& readable(nodes[s])
    &&& on_line(nodes[s], end) && !on_line(nodes[s], end + 1)
    &&& nodes[f].start_row + 1 == start && nodes[f].depth == nodes[s].depth
    &&& forall|line: int|
        start <= line <= nodes[s].start_row ==> #[trigger] annotated_line(
            lang,
            nodes,
            bytes,
            nodes[s].depth,
            line,
        )
    &&& forall|p: int, line: int|
        #[trigger] in_front(nodes, p, f) && annotates(lang, nodes[p], bytes) && line >= start - 1
            ==> !#[trigger] on_line(nodes[p], line)
}

proof fn lemma_past(lang: Lang, nodes: Seq<NodeView>, bytes: Seq<u8>, i: int)
    requires
        0 < i < nodes.len(),
        readable(nodes[i]),
    ensures
        i <= past_annotations(lang, nodes, bytes, i) < nodes.len(),
        readable(nodes[past_annotations(lang, nodes, bytes, i)]),
    decreases nodes.len() - i,
{
    if annotates(lang, nodes[i], bytes) {
        lemma_named_from(nodes, nodes[i].depth, i + 1);
        match next_named(nodes, i) {
            Some(k) => if touches(nodes[i], nodes[k]) && resolvable(nodes[k]) {
                lemma_past(lang, nodes, bytes, k);
            },
            None => {},
        }
    }
}

proof fn lemma_unwrapped(lang: Lang, nodes: Seq<NodeView>, bytes: Seq<u8>, i: int)
    requires
        0 < i < nodes.len(),
        readable(nodes[i]),
    ensures
        i <= unwrapped(lang, nodes, bytes, i) < nodes.len(),
        readable(nodes[unwrapped(lang, nodes, bytes, i)]),
    decreases nodes.len() - i,
{
    match wrapped(lang, nodes, bytes, i) {
        Some(k) => {
            lemma_named_from(nodes, nodes[i].depth + 1, i + 1);
            let first = crate::syntax::construct::first_named_child(nodes, i)->Some_0;
            lemma_plain_from(lang, nodes, bytes, nodes[i].depth + 1, first + 1);
            lemma_unwrapped(lang, nodes, bytes, k);
        },
        None => {},
    }
}

/// Whether node `p` is the closest node that holds node `i`.
pub open spec fn holder(nodes: Seq<NodeView>, p: int, i: int) -> bool {
    &&& 0 <= p < i < nodes.len()
    &&& nodes[p].depth < nodes[i].depth
    &&& forall|j: int| p < j < i ==> (#[trigger] nodes[j]).depth >= nodes[i].depth
}

proof fn lemma_holder(nodes: Seq<NodeView>, p: int, i: int, k: int)
    requires
        holder(nodes, p, i),
        p < k <= i,
    ensures
        parent_before(nodes, i, k) == Some(p),
    decreases k,
{
    if k - 1 > p {
        assert(nodes[k - 1].depth >= nodes[i].depth);
        lemma_holder(nodes, p, i, k - 1);
    }
}

/// Where widening ends: on the same row, at a node that could be read, and not
/// short of a holder that starts there too.
proof fn lemma_widened(nodes: Seq<NodeView>, i: int)
    requires
        0 < i < nodes.len(),
        readable(nodes[i]),
    ensures
        ({
            let s = widened(nodes, i);
            &&& 0 < s <= i
            &&& readable(nodes[s])
            &&& nodes[s].start_row == nodes[i].start_row
            &&& nodes[s].depth <= nodes[i].depth
            &&& forall|j: int| s < j <= i ==> (#[trigger] nodes[j]).depth > nodes[s].depth
            &&& forall|p: int| #[trigger]
                holder(nodes, p, s) && nodes[p].start_row == nodes[s].start_row && readable(nodes[p])
                    ==> forall|a: int| 0 <= a < p ==> (#[trigger] nodes[a]).depth >= nodes[p].depth
        }),
    decreases i,
{
    let s = widened(nodes, i);
    lemma_parent(nodes, i, i);
    match parent(nodes, i) {
        Some(p) => {
            lemma_parent(nodes, p, p);
            if parent(nodes, p) is Some && nodes[p].start_row == nodes[i].start_row && resolvable(
                nodes[p],
            ) {
                lemma_widened(nodes, p);
                assert forall|j: int| s < j <= i implies (#[trigger] nodes[j]).depth
                    > nodes[s].depth by {
                    if j > p {
                        assert(nodes[j].depth >= nodes[i].depth);
                    }
                }
            } else {
                assert forall|q: int| #[trigger]
                    holder(nodes, q, s) && nodes[q].start_row == nodes[s].start_row && readable(
                        nodes[q],
                    ) implies forall|a: int|
                    0 <= a < q ==> (#[trigger] nodes[a]).depth >= nodes[q].depth by {
                    lemma_holder(nodes, q, s, s);
                    assert(q == p);
                }
            }
        },
        None => {
            assert forall|q: int| #[trigger] holder(nodes, q, s) implies false by {
                lemma_holder(nodes, q, s, s);
            }
        },
    }
}

/// The construct at a node covers what it says.
proof fn lemma_covers(lang: Lang, nodes: Seq<NodeView>, bytes: Seq<u8>, i: int)
    requires
        well_nested(nodes),
        0 < i < nodes.len(),
        readable(nodes[i]),
    ensures
        ({
            let e = extent_at(lang, nodes, bytes, i);
            let s = widened(nodes, subject(lang, nodes, bytes, i));
            let f = topmost(lang, nodes, bytes, s);
            &&& covers(lang, nodes, bytes, e.0, e.1, s, f)
            &&& e.2 == nodes[s].start_row + 1
        }),
{
    lemma_past(lang, nodes, bytes, i);
    lemma_unwrapped(lang, nodes, bytes, past_annotations(lang, nodes, bytes, i));
    let u = subject(lang, nodes, bytes, i);
    lemma_widened(nodes, u);
    let s = widened(nodes, u);
    lemma_topmost(lang, nodes, bytes, s);
    let f = topmost(lang, nodes, bytes, s);
    let e = extent_at(lang, nodes, bytes, i);
    assert(nodes[s].start_row <= nodes[s].end_row);
    lemma_on_line(nodes[s], e.1);
    lemma_on_line(nodes[s], e.1 + 1);
    assert forall|p: int, line: int|
        #[trigger] in_front(nodes, p, f) && annotates(lang, nodes[p], bytes) && line >= e.0
            - 1 implies !#[trigger] on_line(nodes[p], line) by {
        lemma_in_front(nodes, p, f, f);
        assert(!touches(nodes[p], nodes[f]));
        assert(nodes[p].start_row <= nodes[p].end_row);
        lemma_on_line(nodes[p], line);
    }
}

/// A block is a construct and the annotations directly above it, each reaching
/// the next: no row between the first of them and the construct is without one,
/// so a blank row ends what belongs to it; and the block ends with the last line
/// the construct has anything on.
pub proof fn law_a_block_has_no_gap(
    lang: Lang,
    nodes: Seq<NodeView>,
    bytes: Seq<u8>,
    line: int,
)
    requires
        well_nested(nodes),
    ensures
        block_at(lang, nodes, bytes, line) is Some ==> exists|s: int, f: int| #[trigger]
            covers(
                lang,
                nodes,
                bytes,
                block_at(lang, nodes, bytes, line)->Some_0.0,
                block_at(lang, nodes, bytes, line)->Some_0.1,
                s,
                f,
            ),
        extents_at(lang, nodes, bytes, line) is Some ==> exists|s: int, f: int| #[trigger]
            covers(
                lang,
                nodes,
                bytes,
                extents_at(lang, nodes, bytes, line)->Some_0.0,
                extents_at(lang, nodes, bytes, line)->Some_0.1,
                s,
                f,
            ),
{
    if block_at(lang, nodes, bytes, line) is Some {
        let i = widest(nodes, line - 1, true)->Some_0;
        assert(is_widest(nodes, line - 1, true, i));
        lemma_covers(lang, nodes, bytes, i);
        let s = widened(nodes, subject(lang, nodes, bytes, i));
        let (start, end) = block_at(lang, nodes, bytes, line)->Some_0;
        assert(covers(lang, nodes, bytes, start, end, s, topmost(lang, nodes, bytes, s)));
    }
    if extents_at(lang, nodes, bytes, line) is Some {
        let i = widest(nodes, line - 1, false)->Some_0;
        assert(is_widest(nodes, line - 1, false, i));
        lemma_covers(lang, nodes, bytes, i);
        let s = widened(nodes, subject(lang, nodes, bytes, i));
        let (start, end) = extents_at(lang, nodes, bytes, line)->Some_0;
        assert(covers(lang, nodes, bytes, start, end, s, topmost(lang, nodes, bytes, s)));
    }
}

// ---------------------------------------------------------------------------
// Which row opens one
// ---------------------------------------------------------------------------

/// Whether a node other than the whole file, that could be read, starts on a
/// line.
pub open spec fn opens_line(nodes: Seq<NodeView>, line: int, i: int) -> bool {
    0 < i < nodes.len() && nodes[i].start_row + 1 == line && readable(nodes[i])
}

proof fn lemma_considered(nodes: Seq<NodeView>, row: int, near: bool, i: int)
    requires
        well_nested(nodes),
    ensures
        considered(nodes, row, near, i) == opens_line(nodes, row + 1, i),
{
    if opens(nodes, row, i) {
        assert forall|a: int| 0 <= a < i && #[trigger] lies_in(nodes, i, a) implies
            nodes[a].start_row <= row <= nodes[a].end_row by {
            assert(nodes[i].start_row <= nodes[i].end_row);
        }
    }
}

spec fn best_of(nodes: Seq<NodeView>, row: int, near: bool, b: int, n: int) -> bool {
    &&& 0 <= b < n
    &&& considered(nodes, row, near, b)
    &&& forall|c: int|
        0 <= c < n && c != b && #[trigger] considered(nodes, row, near, c) ==> outranks(
            nodes,
            b,
            c,
        )
}

proof fn lemma_best(nodes: Seq<NodeView>, row: int, near: bool, n: int)
    requires
        0 <= n <= nodes.len(),
        exists|c: int| 0 <= c < n && #[trigger] considered(nodes, row, near, c),
    ensures
        exists|b: int| #[trigger] best_of(nodes, row, near, b, n),
    decreases n,
{
    let i = n - 1;
    if exists|c: int| 0 <= c < i && #[trigger] considered(nodes, row, near, c) {
        lemma_best(nodes, row, near, i);
        let b = choose|b: int| #[trigger] best_of(nodes, row, near, b, i);
        if considered(nodes, row, near, i) && outranks(nodes, i, b) {
            assert forall|c: int|
                0 <= c < n && c != i && #[trigger] considered(nodes, row, near, c) implies outranks(
                nodes,
                i,
                c,
            ) by {
                if c != b {
                    assert(outranks(nodes, b, c));
                    crate::syntax::lemma_outranks(nodes, i, b, c);
                }
            }
            assert(best_of(nodes, row, near, i, n));
        } else {
            assert(best_of(nodes, row, near, b, n));
        }
    } else {
        let c = choose|c: int| 0 <= c < n && #[trigger] considered(nodes, row, near, c);
        assert(best_of(nodes, row, near, c, n));
    }
}

/// A row answers with a block where something that could be read starts on it,
/// and only there: not on a lone closing brace, not on a blank row, and never
/// with the whole file.
pub proof fn law_a_row_that_opens_something_has_a_block(
    lang: Lang,
    nodes: Seq<NodeView>,
    bytes: Seq<u8>,
    line: int,
)
    requires
        well_nested(nodes),
        1 <= line,
    ensures
        block_at(lang, nodes, bytes, line) is Some <==> exists|i: int| #[trigger]
            opens_line(nodes, line, i),
        extents_at(lang, nodes, bytes, line) is Some <==> exists|i: int| #[trigger]
            opens_line(nodes, line, i),
{
    let row = line - 1;
    if exists|i: int| #[trigger] opens_line(nodes, line, i) {
        let i = choose|i: int| #[trigger] opens_line(nodes, line, i);
        lemma_considered(nodes, row, true, i);
        lemma_considered(nodes, row, false, i);
        lemma_best(nodes, row, true, nodes.len() as int);
        lemma_best(nodes, row, false, nodes.len() as int);
        let b = choose|b: int| #[trigger] best_of(nodes, row, true, b, nodes.len() as int);
        assert(is_widest(nodes, row, true, b));
        let c = choose|b: int| #[trigger] best_of(nodes, row, false, b, nodes.len() as int);
        assert(is_widest(nodes, row, false, c));
    }
    if widest(nodes, row, true) is Some {
        let b = choose|b: int| is_widest(nodes, row, true, b);
        lemma_considered(nodes, row, true, b);
        assert(opens_line(nodes, line, b));
    }
    if widest(nodes, row, false) is Some {
        let b = choose|b: int| is_widest(nodes, row, false, b);
        lemma_considered(nodes, row, false, b);
        assert(opens_line(nodes, line, b));
    }
}

/// Whether node `s` is node `i` or holds it.
pub open spec fn holds_or_is(nodes: Seq<NodeView>, s: int, i: int) -> bool {
    s <= i && forall|j: int| s < j <= i ==> (#[trigger] nodes[j]).depth > nodes[s].depth
}

/// In a file without annotations a block starts on the row that was asked for
/// and ends with the outermost node starting there around the largest one: the
/// row of `fn foo() {` is the whole function, not its name.
pub proof fn law_a_bare_block_is_the_largest_construct(
    lang: Lang,
    nodes: Seq<NodeView>,
    bytes: Seq<u8>,
    line: int,
)
    requires
        well_nested(nodes),
        forall|k: int| 0 <= k < nodes.len() ==> !annotates(lang, #[trigger] nodes[k], bytes),
        block_at(lang, nodes, bytes, line) is Some,
    ensures
        ({
            let (start, end) = block_at(lang, nodes, bytes, line)->Some_0;
            &&& start == line
            &&& exists|i: int, s: int| #![trigger opens_line(nodes, line, i), opens_line(nodes, line, s)]
                {
                    &&& opens_line(nodes, line, i)
                    &&& forall|c: int| #[trigger]
                        opens_line(nodes, line, c) ==> nodes[c].end_byte - nodes[c].start_byte
                            <= nodes[i].end_byte - nodes[i].start_byte
                    &&& opens_line(nodes, line, s)
                    &&& holds_or_is(nodes, s, i)
                    &&& on_line(nodes[s], end) && !on_line(nodes[s], end + 1)
                    &&& forall|p: int| #[trigger]
                        holder(nodes, p, s) && opens_line(nodes, line, p) ==> forall|a: int|
                            0 <= a < p ==> (#[trigger] nodes[a]).depth >= nodes[p].depth
                }
        }),
{
    let (start, end) = block_at(lang, nodes, bytes, line)->Some_0;
    let row = line - 1;
    let i = widest(nodes, row, true)->Some_0;
    assert(is_widest(nodes, row, true, i));
    lemma_considered(nodes, row, true, i);
    assert forall|c: int| #[trigger] opens_line(nodes, line, c) implies nodes[c].end_byte
        - nodes[c].start_byte <= nodes[i].end_byte - nodes[i].start_byte by {
        lemma_considered(nodes, row, true, c);
        if c != i {
            assert(outranks(nodes, i, c));
        }
    }
    assert(past_annotations(lang, nodes, bytes, i) == i);
    lemma_named_from(nodes, nodes[i].depth + 1, i + 1);
    assert(wrapped(lang, nodes, bytes, i) is None);
    assert(subject(lang, nodes, bytes, i) == i);
    lemma_widened(nodes, i);
    let s = widened(nodes, i);
    lemma_covers(lang, nodes, bytes, i);
    lemma_named_before(nodes, nodes[s].depth, s);
    assert(annotation_above(lang, nodes, bytes, s) is None);
    assert(topmost(lang, nodes, bytes, s) == s);
    assert(opens_line(nodes, line, i) && opens_line(nodes, line, s));
}

/// An annotation that reaches what follows it names the same construct: asking
/// on its row and on the row of what it is about is asking for one thing.
pub proof fn law_an_annotation_names_what_it_is_about(
    lang: Lang,
    nodes: Seq<NodeView>,
    bytes: Seq<u8>,
    i: int,
    k: int,
    line: int,
)
    requires
        well_nested(nodes),
        in_front(nodes, i, k),
        annotates(lang, nodes[i], bytes),
        readable(nodes[k]),
        on_line(nodes[i], line),
        line >= nodes[k].start_row,
    ensures
        extent_at(lang, nodes, bytes, i) == extent_at(lang, nodes, bytes, k),
{
    lemma_behind(nodes, i, k, i + 1);
    assert(nodes[i].start_row <= nodes[i].end_row);
    lemma_on_line(nodes[i], line);
}

// ---------------------------------------------------------------------------
// What annotates
// ---------------------------------------------------------------------------

/// Whether the text of a node starts with some bytes.
pub open spec fn starts_with_bytes(n: NodeView, bytes: Seq<u8>, head: Seq<u8>) -> bool {
    &&& 0 <= n.start_byte
    &&& n.start_byte + head.len() <= n.end_byte <= bytes.len()
    &&& forall|i: int| 0 <= i < head.len() ==> bytes[n.start_byte + i] == #[trigger] head[i]
}

proof fn lemma_starts_with_bytes(n: NodeView, bytes: Seq<u8>, head: Seq<u8>)
    ensures
        crate::syntax::construct::node_opens(n, bytes, head) == starts_with_bytes(n, bytes, head),
{
    if 0 <= n.start_byte && n.start_byte + head.len() <= n.end_byte <= bytes.len() {
        let part = bytes.subrange(n.start_byte, n.start_byte + head.len());
        if starts_with_bytes(n, bytes, head) {
            assert forall|i: int| 0 <= i < head.len() implies part[i] == head[i] by {
                assert(bytes[n.start_byte + i] == head[i]);
            }
            assert(part =~= head);
        }
        if part == head {
            assert forall|i: int| 0 <= i < head.len() implies bytes[n.start_byte + i]
                == #[trigger] head[i] by {
                assert(part[i] == bytes[n.start_byte + i]);
            }
        }
    }
}

/// What belongs to the construct below it: in Rust an attribute, and a comment
/// that documents what follows, but not one that documents the module around it;
/// in Go a line comment; in JavaScript and TypeScript a decorator and a comment
/// of the `/**` form; in Python a decorator; elsewhere nothing.
pub proof fn law_what_annotates(lang: Lang, n: NodeView, bytes: Seq<u8>)
    ensures
        annotates(lang, n, bytes) == match lang {
            Lang::Rust => n.kind == "attribute_item"@ || (n.outer && (n.kind == "line_comment"@
                || n.kind == "block_comment"@)),
            Lang::Go => n.kind == "comment"@ && starts_with_bytes(n, bytes, seq![0x2fu8, 0x2fu8]),
            Lang::JavaScript | Lang::TypeScript | Lang::Tsx => n.kind == "decorator"@ || (n.kind
                == "comment"@ && starts_with_bytes(n, bytes, seq![0x2fu8, 0x2au8, 0x2au8])),
            Lang::Python => n.kind == "decorator"@,
            Lang::Json | Lang::Markdown => false,
        },
{
    reveal_strlit("//");
    reveal_strlit("/**");
    is_ascii_spec_bytes("//");
    is_ascii_spec_bytes("/**");
    assert(is_ascii("//"));
    assert(is_ascii("/**"));
    assert("//".spec_bytes() =~= seq![0x2fu8, 0x2fu8]);
    assert("/**".spec_bytes() =~= seq![0x2fu8, 0x2au8, 0x2au8]);
    lemma_starts_with_bytes(n, bytes, seq![0x2fu8, 0x2fu8]);
    lemma_starts_with_bytes(n, bytes, seq![0x2fu8, 0x2au8, 0x2au8]);
    let all = signals(lang);
    if annotates(lang, n, bytes) {
        let i = choose|i: int|
            0 <= i < all.len() && signalled(#[trigger] all[i], n, bytes);
        assert(i == 0 || i == 1 || i == 2);
    }
    match lang {
        Lang::Rust => {
            assert(all.len() == 3);
            assert(all[0] == Signal::Kind("attribute_item"));
            assert(all[1] == Signal::Outer("line_comment"));
            assert(all[2] == Signal::Outer("block_comment"));
            assert(signalled(all[0], n, bytes) == (n.kind == "attribute_item"@));
            assert(signalled(all[1], n, bytes) == (n.kind == "line_comment"@ && n.outer));
            assert(signalled(all[2], n, bytes) == (n.kind == "block_comment"@ && n.outer));
        },
        Lang::JavaScript | Lang::TypeScript | Lang::Tsx => {
            assert(all.len() == 2);
            assert(all[0] == Signal::Kind("decorator"));
            assert(all[1] == Signal::Opener("comment", "/**"));
            assert(signalled(all[0], n, bytes) == (n.kind == "decorator"@));
        },
        Lang::Go => {
            assert(all[0] == Signal::Opener("comment", "//"));
        },
        Lang::Python => {
            assert(all[0] == Signal::Kind("decorator"));
            assert(signalled(all[0], n, bytes) == (n.kind == "decorator"@));
        },
        _ => {},
    }
}

} // verus!
