//! What an outline lists and which rows are told as broken, stated on the nodes.

use crate::syntax::construct::{
    annotates, end_of, extent_at, first_named_child, lemma_end_from, named_from, past_annotations,
    plain_from, resolvable, subject, unwrapped, wrapped,
};
use crate::syntax::lang::{is_container, is_declaration, Lang};
use crate::syntax::tree::NodeView;
use crate::syntax::{
    breaks_at, error_line, exposed, failing, lemma_nested, lies_in, listed, outline_at, skeleton,
    ItemView,
};
use crate::text::lines;
use vstd::prelude::*;

verus! {

// ---------------------------------------------------------------------------
// The outline
// ---------------------------------------------------------------------------

/// Whether an outline looks into a node: it is named, and it is a container or
/// no declaration.
pub open spec fn looked_into(lang: Lang, n: NodeView) -> bool {
    n.named && (is_container(lang, n.kind) || !is_declaration(lang, n.kind))
}

/// Whether `items` holds an entry on the rows `start..=end`.
pub open spec fn entry_on(items: Seq<ItemView>, start: int, end: int) -> bool {
    exists|k: int|
        0 <= k < items.len() && (#[trigger] items[k]).line == start && items[k].end == end
}

proof fn lemma_entry_in(a: Seq<ItemView>, b: Seq<ItemView>, c: Seq<ItemView>, start: int, end: int)
    requires
        entry_on(a, start, end) || entry_on(b, start, end) || entry_on(c, start, end),
    ensures
        entry_on(a + b + c, start, end),
{
    let all = a + b + c;
    if entry_on(a, start, end) {
        let k = choose|k: int| 0 <= k < a.len() && (#[trigger] a[k]).line == start && a[k].end == end;
        assert(all[k] == a[k]);
    } else if entry_on(b, start, end) {
        let k = choose|k: int| 0 <= k < b.len() && (#[trigger] b[k]).line == start && b[k].end == end;
        assert(all[a.len() + k] == b[k]);
    } else {
        let k = choose|k: int| 0 <= k < c.len() && (#[trigger] c[k]).line == start && c[k].end == end;
        assert(all[a.len() + b.len() + k] == c[k]);
    }
}

/// A declaration in the part that is walked is listed, or shares its rows with
/// the entry around it.
proof fn lemma_listed(
    lang: Lang,
    nodes: Seq<NodeView>,
    bytes: Seq<u8>,
    text: Seq<Seq<char>>,
    i: int,
    end: int,
    depth: int,
    shown: Option<(int, int)>,
    t: int,
)
    requires
        0 < i <= t < end <= nodes.len(),
        nodes[t].named,
        is_declaration(lang, nodes[t].kind),
        forall|a: int| i <= a < t && #[trigger] lies_in(nodes, t, a) ==> looked_into(lang, nodes[a]),
    ensures
        ({
            let e = extent_at(lang, nodes, bytes, t);
            ||| entry_on(skeleton(lang, nodes, bytes, text, i, end, depth, shown), e.0, e.1)
            ||| shown == Some((e.0, e.1))
        }),
    decreases end - i,
{
    lemma_end_from(nodes, i, i + 1);
    let e = end_of(nodes, i);
    let kind = nodes[i].kind;
    let x = extent_at(lang, nodes, bytes, t);
    let here = listed(lang, nodes, bytes, i, shown);
    let h = extent_at(lang, nodes, bytes, i);
    let entry = match here {
        Some((line, last, name)) => seq![
            ItemView {
                line,
                end: last,
                depth,
                text: crate::text::trim(crate::hashline::landing::row_at(text, name)),
            },
        ],
        None => Seq::empty(),
    };
    let stop = if e <= end {
        e
    } else {
        end
    };
    let inside = if is_container(lang, kind) || !is_declaration(lang, kind) {
        match here {
            Some((line, last, _)) => skeleton(
                lang,
                nodes,
                bytes,
                text,
                i + 1,
                stop,
                depth + 1,
                Some((line, last)),
            ),
            None => skeleton(lang, nodes, bytes, text, i + 1, stop, depth, shown),
        }
    } else {
        Seq::empty()
    };
    let rest = if e < end {
        skeleton(lang, nodes, bytes, text, e, end, depth, shown)
    } else {
        Seq::empty()
    };
    let all = skeleton(lang, nodes, bytes, text, i, end, depth, shown);
    if t == i {
        assert(all == entry + inside + rest);
        if here is Some {
            assert(entry[0].line == x.0 && entry[0].end == x.1);
            assert(entry_on(entry, x.0, x.1));
            lemma_entry_in(entry, inside, rest, x.0, x.1);
        }
    } else if t < e {
        assert(lies_in(nodes, t, i));
        assert(looked_into(lang, nodes[i]));
        assert(all == entry + inside + rest);
        match here {
            Some((line, last, _)) => {
                lemma_listed(
                    lang,
                    nodes,
                    bytes,
                    text,
                    i + 1,
                    stop,
                    depth + 1,
                    Some((line, last)),
                    t,
                );
                if !entry_on(inside, x.0, x.1) {
                    assert(entry[0].line == x.0 && entry[0].end == x.1);
                    assert(entry_on(entry, x.0, x.1));
                }
                lemma_entry_in(entry, inside, rest, x.0, x.1);
            },
            None => {
                lemma_listed(lang, nodes, bytes, text, i + 1, stop, depth, shown, t);
                if entry_on(inside, x.0, x.1) {
                    lemma_entry_in(entry, inside, rest, x.0, x.1);
                }
            },
        }
    } else {
        lemma_listed(lang, nodes, bytes, text, e, end, depth, shown, t);
        if entry_on(rest, x.0, x.1) {
            if nodes[i].named {
                lemma_entry_in(entry, inside, rest, x.0, x.1);
            }
        }
    }
}

/// Every declaration that only containers and plain nodes hold is in the outline,
/// on the rows of its construct.
pub proof fn law_every_declaration_is_listed(
    lang: Lang,
    nodes: Seq<NodeView>,
    bytes: Seq<u8>,
    content: Seq<char>,
    t: int,
)
    requires
        0 < t < nodes.len(),
        lies_in(nodes, t, 0),
        nodes[t].named,
        is_declaration(lang, nodes[t].kind),
        forall|a: int| 0 < a < t && #[trigger] lies_in(nodes, t, a) ==> looked_into(lang, nodes[a]),
    ensures
        entry_on(
            outline_at(lang, nodes, bytes, content),
            extent_at(lang, nodes, bytes, t).0,
            extent_at(lang, nodes, bytes, t).1,
        ),
{
    lemma_end_from(nodes, 0, 1);
    lemma_listed(lang, nodes, bytes, lines(content), 1, end_of(nodes, 0), 0, None, t);
}

/// Whether depths never step down by more than one level at a time, and start no
/// deeper than `depth`.
pub open spec fn steps(items: Seq<ItemView>, depth: int) -> bool {
    &&& forall|k: int| 0 <= k < items.len() ==> (#[trigger] items[k]).depth >= depth
    &&& items.len() > 0 ==> items[0].depth == depth
    &&& forall|k: int|
        0 < k < items.len() ==> (#[trigger] items[k]).depth <= items[k - 1].depth + 1
}

proof fn lemma_steps_concat(a: Seq<ItemView>, b: Seq<ItemView>, depth: int)
    requires
        steps(a, depth),
        steps(b, depth) || (a.len() == 1 && steps(b, depth + 1)),
    ensures
        steps(a + b, depth),
{
    let all = a + b;
    assert forall|k: int| 0 <= k < all.len() implies (#[trigger] all[k]).depth >= depth by {
        if k < a.len() {
            assert(all[k] == a[k]);
        } else {
            assert(all[k] == b[k - a.len()]);
        }
    }
    assert forall|k: int| 0 < k < all.len() implies (#[trigger] all[k]).depth <= all[k - 1].depth
        + 1 by {
        if k < a.len() {
            assert(all[k] == a[k] && all[k - 1] == a[k - 1]);
        } else if k > a.len() {
            assert(all[k] == b[k - a.len()] && all[k - 1] == b[k - a.len() - 1]);
        } else {
            assert(all[k] == b[0] && all[k - 1] == a[k - 1]);
        }
    }
}

proof fn lemma_steps(
    lang: Lang,
    nodes: Seq<NodeView>,
    bytes: Seq<u8>,
    text: Seq<Seq<char>>,
    i: int,
    end: int,
    depth: int,
    shown: Option<(int, int)>,
)
    requires
        0 < i,
        end <= nodes.len(),
    ensures
        steps(skeleton(lang, nodes, bytes, text, i, end, depth, shown), depth),
    decreases end - i,
{
    if i < end {
        lemma_end_from(nodes, i, i + 1);
        let e = end_of(nodes, i);
        let kind = nodes[i].kind;
        let here = listed(lang, nodes, bytes, i, shown);
        let stop = if e <= end {
            e
        } else {
            end
        };
        let rest = if e < end {
            skeleton(lang, nodes, bytes, text, e, end, depth, shown)
        } else {
            Seq::empty()
        };
        if e < end {
            lemma_steps(lang, nodes, bytes, text, e, end, depth, shown);
        }
        assert(steps(rest, depth));
        if nodes[i].named {
            let all = skeleton(lang, nodes, bytes, text, i, end, depth, shown);
            match here {
                Some((line, last, name)) => {
                    let entry = seq![
                        ItemView {
                            line,
                            end: last,
                            depth,
                            text: crate::text::trim(crate::hashline::landing::row_at(text, name)),
                        },
                    ];
                    let inside = if is_container(lang, kind) || !is_declaration(lang, kind) {
                        skeleton(
                            lang,
                            nodes,
                            bytes,
                            text,
                            i + 1,
                            stop,
                            depth + 1,
                            Some((line, last)),
                        )
                    } else {
                        Seq::empty()
                    };
                    if is_container(lang, kind) || !is_declaration(lang, kind) {
                        lemma_steps(
                            lang,
                            nodes,
                            bytes,
                            text,
                            i + 1,
                            stop,
                            depth + 1,
                            Some((line, last)),
                        );
                    }
                    assert(all == entry + inside + rest);
                    lemma_steps_concat(entry, inside, depth);
                    lemma_steps_concat(entry + inside, rest, depth);
                },
                None => {
                    let inside = if is_container(lang, kind) || !is_declaration(lang, kind) {
                        skeleton(lang, nodes, bytes, text, i + 1, stop, depth, shown)
                    } else {
                        Seq::empty()
                    };
                    if is_container(lang, kind) || !is_declaration(lang, kind) {
                        lemma_steps(lang, nodes, bytes, text, i + 1, stop, depth, shown);
                    }
                    let none = Seq::<ItemView>::empty();
                    assert(all == none + inside + rest);
                    assert(none + inside =~= inside);
                    lemma_steps_concat(inside, rest, depth);
                },
            }
        }
    }
}

/// An outline starts at the margin and goes in one level at a time: an entry is
/// one deeper than the one above at most, which is then the one that holds it.
pub proof fn law_an_outline_goes_in_step_by_step(
    lang: Lang,
    nodes: Seq<NodeView>,
    bytes: Seq<u8>,
    content: Seq<char>,
)
    ensures
        steps(outline_at(lang, nodes, bytes, content), 0),
{
    if nodes.len() > 0 {
        lemma_end_from(nodes, 0, 1);
        lemma_steps(lang, nodes, bytes, lines(content), 1, end_of(nodes, 0), 0, None);
    }
}

// ---------------------------------------------------------------------------
// Broken rows
// ---------------------------------------------------------------------------

/// Every node the parser could not read is told, by its own row or by that of a
/// broken node around it; and of two of them, one inside the other, only the
/// outer one is.
pub proof fn law_every_break_is_told_once(nodes: Seq<NodeView>, j: int)
    requires
        0 <= j < nodes.len(),
        nodes[0].broken,
        nodes[j].error || nodes[j].missing,
        forall|a: int| 0 <= a < j && #[trigger] lies_in(nodes, j, a) ==> nodes[a].broken,
    ensures
        exists|i: int|
            #[trigger] breaks_at(nodes, i) && (i == j || lies_in(nodes, j, i)) && error_line(
                nodes,
                nodes[i].start_row + 1,
            ),
        breaks_at(nodes, j) ==> forall|k: int|
            0 <= k < nodes.len() && #[trigger] lies_in(nodes, k, j) ==> !breaks_at(nodes, k),
    decreases j,
{
    if exists|a: int| 0 <= a < j && #[trigger] lies_in(nodes, j, a) && failing(nodes[a]) {
        let a = choose|a: int| 0 <= a < j && #[trigger] lies_in(nodes, j, a) && failing(nodes[a]);
        lemma_nested(nodes, a, j);
        lemma_end_from(nodes, j, j + 1);
        assert forall|b: int| 0 <= b < a && #[trigger] lies_in(nodes, a, b) implies nodes[b].broken by {
            lemma_nested(nodes, b, a);
            assert(lies_in(nodes, j, b));
        }
        law_every_break_is_told_once(nodes, a);
        let i = choose|i: int|
            #[trigger] breaks_at(nodes, i) && (i == a || lies_in(nodes, a, i)) && error_line(
                nodes,
                nodes[i].start_row + 1,
            );
        if i != a {
            lemma_nested(nodes, i, a);
        }
        assert(lies_in(nodes, j, i));
        assert(breaks_at(nodes, i));
    } else {
        assert(exposed(nodes, j));
        assert(breaks_at(nodes, j));
        assert(error_line(nodes, nodes[j].start_row + 1));
    }
}

// ---------------------------------------------------------------------------
// What a wrapper wraps
// ---------------------------------------------------------------------------

/// Whether node `k` is a named child of node `i`.
pub open spec fn named_child(nodes: Seq<NodeView>, i: int, k: int) -> bool {
    &&& 0 <= i < k < nodes.len()
    &&& nodes[k].named && nodes[k].depth == nodes[i].depth + 1
    &&& forall|j: int| i < j < k ==> (#[trigger] nodes[j]).depth > nodes[i].depth
}

proof fn lemma_first_child(nodes: Seq<NodeView>, i: int, c: int, k: int)
    requires
        named_child(nodes, i, c),
        forall|j: int| i < j < c ==> !#[trigger] named_child(nodes, i, j),
        i < k <= c,
    ensures
        named_from(nodes, nodes[i].depth + 1, k) == Some(c),
    decreases c - k,
{
    if k < c {
        assert(!named_child(nodes, i, k));
        assert(nodes[k].depth > nodes[i].depth);
        lemma_first_child(nodes, i, c, k + 1);
    }
}

proof fn lemma_plain_child(
    lang: Lang,
    nodes: Seq<NodeView>,
    bytes: Seq<u8>,
    i: int,
    c: int,
    k: int,
)
    requires
        named_child(nodes, i, c),
        !annotates(lang, nodes[c], bytes),
        i < k <= c,
        forall|j: int|
            k <= j < c && #[trigger] named_child(nodes, i, j) ==> annotates(lang, nodes[j], bytes),
    ensures
        plain_from(lang, nodes, bytes, nodes[i].depth + 1, k) == Some(c),
    decreases c - k,
{
    if k < c {
        assert(nodes[k].depth > nodes[i].depth);
        if nodes[k].named && nodes[k].depth == nodes[i].depth + 1 {
            assert(named_child(nodes, i, k));
        }
        lemma_plain_child(lang, nodes, bytes, i, c, k + 1);
    }
}

/// A node whose first named child is an annotation stands for what the
/// annotations in it are about: a decorated definition is the definition.
pub proof fn law_a_wrapper_is_what_it_wraps(
    lang: Lang,
    nodes: Seq<NodeView>,
    bytes: Seq<u8>,
    i: int,
    first: int,
    k: int,
)
    requires
        !annotates(lang, nodes[i], bytes),
        named_child(nodes, i, first),
        forall|j: int| i < j < first ==> !#[trigger] named_child(nodes, i, j),
        annotates(lang, nodes[first], bytes),
        named_child(nodes, i, k),
        first < k,
        !annotates(lang, nodes[k], bytes),
        !nodes[k].error && !nodes[k].missing,
        forall|j: int|
            first < j < k && #[trigger] named_child(nodes, i, j) ==> annotates(
                lang,
                nodes[j],
                bytes,
            ),
    ensures
        extent_at(lang, nodes, bytes, i) == extent_at(lang, nodes, bytes, k),
{
    lemma_first_child(nodes, i, first, i + 1);
    lemma_plain_child(lang, nodes, bytes, i, k, first + 1);
    assert(first_named_child(nodes, i) == Some(first));
    assert(resolvable(nodes[k]));
    assert(wrapped(lang, nodes, bytes, i) == Some(k));
    assert(past_annotations(lang, nodes, bytes, i) == i);
    assert(past_annotations(lang, nodes, bytes, k) == k);
    assert(unwrapped(lang, nodes, bytes, i) == unwrapped(lang, nodes, bytes, k));
    assert(subject(lang, nodes, bytes, i) == subject(lang, nodes, bytes, k));
}

} // verus!
