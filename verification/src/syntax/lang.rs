//! The languages a file can be read in, and what their grammars call things.

use crate::text::{chars_of, copy_range, last_index_of, same, split, split_of, after_last, rows};
use vstd::prelude::*;

verus! {

#[derive(Debug, Clone, Copy, PartialEq, Eq, Structural)]
pub enum Lang {
    Rust,
    Python,
    JavaScript,
    TypeScript,
    Tsx,
    Go,
    Json,
    Markdown,
}

// ---------------------------------------------------------------------------
// From a path
// ---------------------------------------------------------------------------

/// The last of `parts` that names something: not empty, and not `.`.
pub open spec fn last_named(parts: Seq<Seq<char>>) -> Option<Seq<char>>
    decreases parts.len(),
{
    if parts.len() == 0 {
        None
    } else if parts.last().len() == 0 || parts.last() == seq!['.'] {
        last_named(parts.drop_last())
    } else {
        Some(parts.last())
    }
}

/// The last name on a path, which `..` is not.
pub open spec fn file_name(path: Seq<char>) -> Option<Seq<char>> {
    match last_named(split(path, '/')) {
        Some(name) => if name == seq!['.', '.'] {
            None
        } else {
            Some(name)
        },
        None => None,
    }
}

/// What follows the last dot of the name a path ends with. A dot that opens
/// the name marks a hidden file, not an extension.
pub open spec fn extension(path: Seq<char>) -> Option<Seq<char>> {
    match file_name(path) {
        Some(name) => if last_index_of(name, '.') > 0 {
            Some(name.skip(last_index_of(name, '.') + 1))
        } else {
            None
        },
        None => None,
    }
}

/// The language a file of that extension is written in.
pub open spec fn lang_of_extension(ext: Seq<char>) -> Option<Lang> {
    if ext == "rs"@ {
        Some(Lang::Rust)
    } else if ext == "py"@ || ext == "pyi"@ {
        Some(Lang::Python)
    } else if ext == "js"@ || ext == "mjs"@ || ext == "cjs"@ || ext == "jsx"@ {
        Some(Lang::JavaScript)
    } else if ext == "ts"@ || ext == "mts"@ || ext == "cts"@ {
        Some(Lang::TypeScript)
    } else if ext == "tsx"@ {
        Some(Lang::Tsx)
    } else if ext == "go"@ {
        Some(Lang::Go)
    } else if ext == "json"@ {
        Some(Lang::Json)
    } else if ext == "md"@ || ext == "markdown"@ {
        Some(Lang::Markdown)
    } else {
        None
    }
}

/// The language of a path.
pub open spec fn lang_of(path: Seq<char>) -> Option<Lang> {
    match extension(path) {
        Some(ext) => lang_of_extension(ext),
        None => None,
    }
}

fn is_text(v: &[char], t: &str) -> (r: bool)
    ensures
        r == (v@ == t@),
{
    let c = chars_of(t);
    same(v, c.as_slice())
}

pub(crate) fn name_of_path(path: &[char]) -> (r: Option<Vec<char>>)
    ensures
        match r {
            Some(v) => file_name(path@) == Some(v@),
            None => file_name(path@) is None,
        },
{
    let parts = split_of(path, '/');
    let ghost all = rows(parts@);
    let mut n: usize = parts.len();
    assert(all.take(n as int) =~= all);
    while n > 0
        invariant
            n <= parts@.len(),
            all == rows(parts@),
            all == split(path@, '/'),
            last_named(all.take(n as int)) == last_named(all),
        decreases n,
    {
        let p = &parts[n - 1];
        let ghost t = all.take(n as int);
        assert(t.drop_last() =~= all.take(n - 1));
        assert(t.last() == p@);
        let dot = p.len() == 1 && p[0] == '.';
        proof {
            if dot {
                assert(p@ =~= seq!['.']);
            }
            assert(seq!['.'][0] == '.');
            assert(seq!['.'].len() == 1);
        }
        if p.len() == 0 || dot {
            n -= 1;
            continue;
        }
        let up = p.len() == 2 && p[0] == '.' && p[1] == '.';
        proof {
            if up {
                assert(p@ =~= seq!['.', '.']);
            }
            assert(seq!['.', '.'][0] == '.' && seq!['.', '.'][1] == '.');
            assert(seq!['.', '.'].len() == 2);
        }
        if up {
            return None;
        }
        let c = copy_range(p.as_slice(), 0, p.len());
        assert(c@ =~= p@);
        return Some(c);
    }
    None
}

fn extension_of(path: &[char]) -> (r: Option<Vec<char>>)
    ensures
        match r {
            Some(v) => extension(path@) == Some(v@),
            None => extension(path@) is None,
        },
{
    match name_of_path(path) {
        None => None,
        Some(name) => {
            let at = after_last(name.as_slice(), '.', name.len());
            assert(name@.take(name@.len() as int) =~= name@);
            if at > 1 {
                let e = copy_range(name.as_slice(), at, name.len());
                assert(e@ =~= name@.skip(at as int));
                Some(e)
            } else {
                None
            }
        },
    }
}

// ---------------------------------------------------------------------------
// What the grammars call things
// ---------------------------------------------------------------------------

/// Whether a kind of node is worth showing in an outline. Everything else is
/// body.
pub open spec fn is_declaration(lang: Lang, kind: Seq<char>) -> bool {
    match lang {
        Lang::Rust => {
            ||| kind == "function_item"@
            ||| kind == "struct_item"@
            ||| kind == "enum_item"@
            ||| kind == "trait_item"@
            ||| kind == "impl_item"@
            ||| kind == "mod_item"@
            ||| kind == "type_item"@
            ||| kind == "const_item"@
            ||| kind == "static_item"@
            ||| kind == "macro_definition"@
            ||| kind == "union_item"@
        },
        Lang::Python => {
            ||| kind == "function_definition"@
            ||| kind == "class_definition"@
            ||| kind == "decorated_definition"@
        },
        Lang::JavaScript | Lang::TypeScript | Lang::Tsx => {
            ||| kind == "function_declaration"@
            ||| kind == "generator_function_declaration"@
            ||| kind == "class_declaration"@
            ||| kind == "method_definition"@
            ||| kind == "lexical_declaration"@
            ||| kind == "variable_declaration"@
            ||| kind == "interface_declaration"@
            ||| kind == "type_alias_declaration"@
            ||| kind == "enum_declaration"@
            ||| kind == "abstract_class_declaration"@
            ||| kind == "export_statement"@
        },
        Lang::Go => {
            ||| kind == "function_declaration"@
            ||| kind == "method_declaration"@
            ||| kind == "type_declaration"@
            ||| kind == "const_declaration"@
            ||| kind == "var_declaration"@
        },
        Lang::Json => kind == "pair"@,
        Lang::Markdown => kind == "atx_heading"@ || kind == "setext_heading"@,
    }
}

/// Whether a kind of node holds other declarations, so that an outline descends
/// into it rather than stopping at the wrapper.
pub open spec fn is_container(lang: Lang, kind: Seq<char>) -> bool {
    match lang {
        Lang::Rust => kind == "impl_item"@ || kind == "mod_item"@ || kind == "trait_item"@,
        Lang::Python => kind == "class_definition"@ || kind == "decorated_definition"@,
        Lang::JavaScript | Lang::TypeScript | Lang::Tsx => {
            ||| kind == "class_declaration"@
            ||| kind == "abstract_class_declaration"@
            ||| kind == "export_statement"@
            ||| kind == "class_body"@
        },
        Lang::Go => kind == "type_declaration"@,
        Lang::Json => false,
        Lang::Markdown => false,
    }
}

/// What makes a node an annotation of what follows it: a kind that always is
/// one, a comment the grammar itself marks as documentation of what follows, or
/// a comment whose opener says so.
pub enum Signal {
    /// Any node of this kind: an attribute, a decorator.
    Kind(&'static str),
    /// A comment the grammar marks as documentation of what follows. A comment
    /// that documents the enclosing module has the same kind without the mark.
    Outer(&'static str),
    /// A comment whose opener says so, where the grammar draws no line.
    Opener(&'static str, &'static str),
}

/// The signals of a language. A construct owns the annotations directly above
/// it, so replacing a function replaces its attributes and its documentation
/// with it.
pub open spec fn signals(lang: Lang) -> Seq<Signal> {
    match lang {
        Lang::Rust => seq![
            Signal::Kind("attribute_item"),
            Signal::Outer("line_comment"),
            Signal::Outer("block_comment"),
        ],
        Lang::Go => seq![Signal::Opener("comment", "//")],
        Lang::JavaScript | Lang::TypeScript | Lang::Tsx => seq![
            Signal::Kind("decorator"),
            Signal::Opener("comment", "/**"),
        ],
        Lang::Python => seq![Signal::Kind("decorator")],
        Lang::Json => Seq::empty(),
        Lang::Markdown => Seq::empty(),
    }
}

impl Lang {
    /// The language of a path, by its extension.
    pub fn of(path: &str) -> (r: Option<Lang>)
        ensures
            r == lang_of(path@),
    {
        let p = chars_of(path);
        let e = match extension_of(p.as_slice()) {
            Some(e) => e,
            None => {
                return None;
            },
        };
        let x = e.as_slice();
        if is_text(x, "rs") {
            Some(Lang::Rust)
        } else if is_text(x, "py") || is_text(x, "pyi") {
            Some(Lang::Python)
        } else if is_text(x, "js") || is_text(x, "mjs") || is_text(x, "cjs") || is_text(x, "jsx") {
            Some(Lang::JavaScript)
        } else if is_text(x, "ts") || is_text(x, "mts") || is_text(x, "cts") {
            Some(Lang::TypeScript)
        } else if is_text(x, "tsx") {
            Some(Lang::Tsx)
        } else if is_text(x, "go") {
            Some(Lang::Go)
        } else if is_text(x, "json") {
            Some(Lang::Json)
        } else if is_text(x, "md") || is_text(x, "markdown") {
            Some(Lang::Markdown)
        } else {
            None
        }
    }

    /// Whether nodes of this kind are worth showing in an outline.
    pub fn declares(self, kind: &str) -> (r: bool)
        ensures
            r == is_declaration(self, kind@),
    {
        let k = chars_of(kind);
        let k = k.as_slice();
        match self {
            Lang::Rust => is_text(k, "function_item") || is_text(k, "struct_item") || is_text(
                k,
                "enum_item",
            ) || is_text(k, "trait_item") || is_text(k, "impl_item") || is_text(k, "mod_item")
                || is_text(k, "type_item") || is_text(k, "const_item") || is_text(
                k,
                "static_item",
            ) || is_text(k, "macro_definition") || is_text(k, "union_item"),
            Lang::Python => is_text(k, "function_definition") || is_text(k, "class_definition")
                || is_text(k, "decorated_definition"),
            Lang::JavaScript | Lang::TypeScript | Lang::Tsx => is_text(k, "function_declaration")
                || is_text(k, "generator_function_declaration") || is_text(
                k,
                "class_declaration",
            ) || is_text(k, "method_definition") || is_text(k, "lexical_declaration") || is_text(
                k,
                "variable_declaration",
            ) || is_text(k, "interface_declaration") || is_text(k, "type_alias_declaration")
                || is_text(k, "enum_declaration") || is_text(k, "abstract_class_declaration")
                || is_text(k, "export_statement"),
            Lang::Go => is_text(k, "function_declaration") || is_text(k, "method_declaration")
                || is_text(k, "type_declaration") || is_text(k, "const_declaration") || is_text(
                k,
                "var_declaration",
            ),
            Lang::Json => is_text(k, "pair"),
            Lang::Markdown => is_text(k, "atx_heading") || is_text(k, "setext_heading"),
        }
    }

    /// Whether nodes of this kind hold other declarations.
    pub fn contains(self, kind: &str) -> (r: bool)
        ensures
            r == is_container(self, kind@),
    {
        let k = chars_of(kind);
        let k = k.as_slice();
        match self {
            Lang::Rust => is_text(k, "impl_item") || is_text(k, "mod_item") || is_text(
                k,
                "trait_item",
            ),
            Lang::Python => is_text(k, "class_definition") || is_text(k, "decorated_definition"),
            Lang::JavaScript | Lang::TypeScript | Lang::Tsx => is_text(k, "class_declaration")
                || is_text(k, "abstract_class_declaration") || is_text(k, "export_statement")
                || is_text(k, "class_body"),
            Lang::Go => is_text(k, "type_declaration"),
            Lang::Json | Lang::Markdown => false,
        }
    }

    /// The signals of this language.
    pub fn annotations(self) -> (r: Vec<Signal>)
        ensures
            r@ == signals(self),
    {
        let mut r: Vec<Signal> = Vec::new();
        match self {
            Lang::Rust => {
                r.push(Signal::Kind("attribute_item"));
                r.push(Signal::Outer("line_comment"));
                r.push(Signal::Outer("block_comment"));
            },
            Lang::Go => {
                r.push(Signal::Opener("comment", "//"));
            },
            Lang::JavaScript | Lang::TypeScript | Lang::Tsx => {
                r.push(Signal::Kind("decorator"));
                r.push(Signal::Opener("comment", "/**"));
            },
            Lang::Python => {
                r.push(Signal::Kind("decorator"));
            },
            Lang::Json | Lang::Markdown => {},
        }
        assert(r@ =~= signals(self));
        r
    }
}

} // verus!
