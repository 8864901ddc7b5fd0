//! A syntax tree as a list of nodes in the order a reader meets them: each node
//! before its children, children from first to last.

use crate::syntax::lang::Lang;
use crate::syntax::well_nested;
use crate::text::breaks;
use vstd::prelude::*;
use vstd::string::*;

verus! {

/// What the constructs of a file are decided by, of one node.
#[derive(Debug, Clone, PartialEq, Eq)]
pub struct SyntaxNode {
    pub kind: String,
    /// How many nodes hold it.
    pub depth: usize,
    pub named: bool,
    /// What the parser could not read.
    pub error: bool,
    /// What the parser put in to go on.
    pub missing: bool,
    /// Whether it, or anything in it, is one of the two.
    pub broken: bool,
    /// Whether it has a child in the field `outer`.
    pub outer: bool,
    pub start_row: usize,
    pub end_row: usize,
    pub end_column: usize,
    pub start_byte: usize,
    pub end_byte: usize,
}

/// A node, with its kind as a sequence.
#[verifier::ext_equal]
pub struct NodeView {
    pub kind: Seq<char>,
    pub depth: int,
    pub named: bool,
    pub error: bool,
    pub missing: bool,
    pub broken: bool,
    pub outer: bool,
    pub start_row: int,
    pub end_row: int,
    pub end_column: int,
    pub start_byte: int,
    pub end_byte: int,
}

impl View for SyntaxNode {
    type V = NodeView;

    open spec fn view(&self) -> NodeView {
        NodeView {
            kind: self.kind@,
            depth: self.depth as int,
            named: self.named,
            error: self.error,
            missing: self.missing,
            broken: self.broken,
            outer: self.outer,
            start_row: self.start_row as int,
            end_row: self.end_row as int,
            end_column: self.end_column as int,
            start_byte: self.start_byte as int,
            end_byte: self.end_byte as int,
        }
    }
}

/// The nodes of a tree, with their kinds as sequences.
pub open spec fn nodes_view(v: Seq<SyntaxNode>) -> Seq<NodeView> {
    Seq::new(v.len(), |i: int| v[i]@)
}

/// Whether every node lies on rows of a text with `n` line feeds.
pub open spec fn on_rows(nodes: Seq<NodeView>, n: int) -> bool {
    forall|i: int|
        0 <= i < nodes.len() ==> (#[trigger] nodes[i]).start_row <= n && nodes[i].end_row <= n
}

// ---------------------------------------------------------------------------
// The parser
// ---------------------------------------------------------------------------

/// A tree as the parser hands it out.
#[verifier::external_type_specification]
#[verifier::external_body]
pub struct ExTree(tree_sitter::Tree);

/// The nodes of a parsed tree: the root, and after each node its children from
/// first to last, named and anonymous alike.
pub uninterp spec fn tree_nodes(tree: tree_sitter::Tree) -> Seq<NodeView>;

/// What the parser makes of a text in a language: the nodes of the tree, or
/// nothing where it gives none.
pub uninterp spec fn syntax_of(lang: Lang, content: Seq<char>) -> Option<Seq<NodeView>>;

/// `tree_sitter::Parser::parse` on a fresh parser set to the grammar crate's
/// language for `lang`; nothing where the parser does not take that language or
/// gives no tree. The tree depends on the language and the text alone. Its nodes
/// lie on rows of the text, since the lexer counts a row at each line feed, and
/// within the node that holds them, since a node spans what its children do. The
/// parser counts bytes in 32 bits, so a longer text is left out.
#[verifier::external_body]
fn parse_tree(lang: Lang, content: &str) -> (r: Option<tree_sitter::Tree>)
    requires
        content.spec_bytes().len() <= u32::MAX,
    ensures
        match r {
            Some(tree) => {
                &&& syntax_of(lang, content@) == Some(tree_nodes(tree))
                &&& on_rows(tree_nodes(tree), breaks(content@) as int)
                &&& well_nested(tree_nodes(tree))
            },
            None => syntax_of(lang, content@) is None,
        },
{
    let language: tree_sitter::Language = match lang {
        Lang::Rust => tree_sitter_rust::LANGUAGE.into(),
        Lang::Python => tree_sitter_python::LANGUAGE.into(),
        Lang::JavaScript => tree_sitter_javascript::LANGUAGE.into(),
        Lang::TypeScript => tree_sitter_typescript::LANGUAGE_TYPESCRIPT.into(),
        Lang::Tsx => tree_sitter_typescript::LANGUAGE_TSX.into(),
        Lang::Go => tree_sitter_go::LANGUAGE.into(),
        Lang::Json => tree_sitter_json::LANGUAGE.into(),
        Lang::Markdown => tree_sitter_md::LANGUAGE.into(),
    };
    let mut parser = tree_sitter::Parser::new();
    parser.set_language(&language).ok()?;
    parser.parse(content, None)
}

/// The nodes a text has in a language: what the parser makes of it, and nothing
/// where the text is so long that its bytes, or its rows counted from 1, may not
/// fit the 32 bits the parser counts in.
pub open spec fn parsed(lang: Lang, content: Seq<char>, bytes: Seq<u8>) -> Option<Seq<NodeView>> {
    if bytes.len() < u32::MAX {
        syntax_of(lang, content)
    } else {
        None
    }
}

/// `tree_sitter::Node::descendant_count` of the root: how many nodes the tree
/// has, the root among them.
#[verifier::external_body]
fn node_count(tree: &tree_sitter::Tree) -> (n: usize)
    ensures
        n == tree_nodes(*tree).len(),
{
    tree.root_node().descendant_count()
}

/// `tree_sitter::TreeCursor::goto_descendant` from the root, and what the node
/// there says of itself.
#[verifier::external_body]
fn node_at(tree: &tree_sitter::Tree, index: usize) -> (r: SyntaxNode)
    requires
        index < tree_nodes(*tree).len(),
    ensures
        r@ == tree_nodes(*tree)[index as int],
{
    let mut cursor = tree.walk();
    cursor.goto_descendant(index);
    let (depth, node) = (cursor.depth() as usize, cursor.node());
    let (start, end) = (node.start_position(), node.end_position());
    SyntaxNode {
        kind: node.kind().to_string(), depth, named: node.is_named(), error: node.is_error(),
        missing: node.is_missing(), broken: node.has_error(),
        outer: node.child_by_field_name("outer").is_some(),
        start_row: start.row, end_row: end.row, end_column: end.column,
        start_byte: node.start_byte(), end_byte: node.end_byte(),
    }
}

/// The nodes of a text in a language, one after the other.
pub fn read_nodes(lang: Lang, content: &str) -> (r: Option<Vec<SyntaxNode>>)
    ensures
        match r {
            Some(v) => {
                &&& parsed(lang, content@, content.spec_bytes()) == Some(nodes_view(v@))
                &&& on_rows(nodes_view(v@), breaks(content@) as int)
                &&& well_nested(nodes_view(v@))
            },
            None => parsed(lang, content@, content.spec_bytes()) is None,
        },
{
    if content.as_bytes().len() as u64 >= u32::MAX as u64 {
        return None;
    }
    let tree = match parse_tree(lang, content) {
        Some(t) => t,
        None => {
            return None;
        },
    };
    let n = node_count(&tree);
    let mut v: Vec<SyntaxNode> = Vec::new();
    let mut i: usize = 0;
    while i < n
        invariant
            i <= n == tree_nodes(tree).len(),
            v@.len() == i,
            forall|k: int| 0 <= k < i ==> (#[trigger] v@[k])@ == tree_nodes(tree)[k],
        decreases n - i,
    {
        let node = node_at(&tree, i);
        v.push(node);
        i += 1;
    }
    assert(nodes_view(v@) =~= tree_nodes(tree));
    Some(v)
}

} // verus!
