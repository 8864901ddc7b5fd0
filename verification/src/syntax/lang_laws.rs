//! Which language a file is in and what counts in it.

use crate::syntax::lang::{extension, file_name, is_container, is_declaration, lang_of, Lang};
use crate::text::{last_index_of, lemma_last_index_of, split};
use vstd::prelude::*;
use vstd::string::*;

verus! {

/// Whether a text is one of some.
pub open spec fn one_of(s: Seq<char>, all: Seq<Seq<char>>) -> bool {
    exists|i: int| 0 <= i < all.len() && s == #[trigger] all[i]
}

/// The file endings a language goes by.
pub open spec fn endings(lang: Lang) -> Seq<Seq<char>> {
    match lang {
        Lang::Rust => seq!["rs"@],
        Lang::Python => seq!["py"@, "pyi"@],
        Lang::JavaScript => seq!["js"@, "mjs"@, "cjs"@, "jsx"@],
        Lang::TypeScript => seq!["ts"@, "mts"@, "cts"@],
        Lang::Tsx => seq!["tsx"@],
        Lang::Go => seq!["go"@],
        Lang::Json => seq!["json"@],
        Lang::Markdown => seq!["md"@, "markdown"@],
    }
}

/// What declares in a language.
pub open spec fn declarations(lang: Lang) -> Seq<Seq<char>> {
    match lang {
        Lang::Rust => seq![
            "function_item"@,
            "struct_item"@,
            "enum_item"@,
            "trait_item"@,
            "impl_item"@,
            "mod_item"@,
            "type_item"@,
            "const_item"@,
            "static_item"@,
            "macro_definition"@,
            "union_item"@,
        ],
        Lang::Python => seq!["function_definition"@, "class_definition"@, "decorated_definition"@],
        Lang::JavaScript | Lang::TypeScript | Lang::Tsx => seq![
            "function_declaration"@,
            "generator_function_declaration"@,
            "class_declaration"@,
            "method_definition"@,
            "lexical_declaration"@,
            "variable_declaration"@,
            "interface_declaration"@,
            "type_alias_declaration"@,
            "enum_declaration"@,
            "abstract_class_declaration"@,
            "export_statement"@,
        ],
        Lang::Go => seq![
            "function_declaration"@,
            "method_declaration"@,
            "type_declaration"@,
            "const_declaration"@,
            "var_declaration"@,
        ],
        Lang::Json => seq!["pair"@],
        Lang::Markdown => seq!["atx_heading"@, "setext_heading"@],
    }
}

/// What an outline looks into in a language.
pub open spec fn containers(lang: Lang) -> Seq<Seq<char>> {
    match lang {
        Lang::Rust => seq!["impl_item"@, "mod_item"@, "trait_item"@],
        Lang::Python => seq!["class_definition"@, "decorated_definition"@],
        Lang::JavaScript | Lang::TypeScript | Lang::Tsx => seq![
            "class_declaration"@,
            "abstract_class_declaration"@,
            "export_statement"@,
            "class_body"@,
        ],
        Lang::Go => seq!["type_declaration"@],
        Lang::Json => Seq::empty(),
        Lang::Markdown => Seq::empty(),
    }
}

/// Each kind of node that declares is taken for one, and every container is one
/// to look into, in each language.
pub proof fn law_what_declares_and_what_holds(lang: Lang, kind: Seq<char>)
    ensures
        one_of(kind, declarations(lang)) ==> is_declaration(lang, kind),
        one_of(kind, containers(lang)) ==> is_container(lang, kind),
        is_declaration(lang, kind) ==> one_of(kind, declarations(lang)),
        is_container(lang, kind) ==> one_of(kind, containers(lang)),
{
    let d = declarations(lang);
    let c = containers(lang);
    if is_declaration(lang, kind) {
        assert(kind == d[0] || kind == d[1] || kind == d[2] || kind == d[3] || kind == d[4] || kind
            == d[5] || kind == d[6] || kind == d[7] || kind == d[8] || kind == d[9] || kind
            == d[10]);
    }
    if is_container(lang, kind) {
        assert(kind == c[0] || kind == c[1] || kind == c[2] || kind == c[3]);
    }
}

/// The last part of a path is what stands behind its last slash.
proof fn lemma_last_part(dir: Seq<char>, name: Seq<char>)
    requires
        forall|i: int| 0 <= i < name.len() ==> #[trigger] name[i] != '/',
    ensures
        split(dir + seq!['/'] + name, '/').last() == name,
        split(name, '/') == seq![name],
{
    crate::worktree_laws::lemma_split_slash(dir, name);
    crate::text::lemma_index_of_is(name, '/', name.len() as int);
    assert(split(name, '/') =~= seq![name]);
}

/// A file is in a language by what stands behind the last dot of its name,
/// wherever it lies; a name that only starts with a dot has no such ending.
pub proof fn law_a_language_is_known_by_the_ending(
    dir: Seq<char>,
    stem: Seq<char>,
    ending: Seq<char>,
    lang: Lang,
)
    requires
        stem.len() > 0,
        forall|i: int| 0 <= i < stem.len() ==> #[trigger] stem[i] != '/',
        forall|i: int| 0 <= i < ending.len() ==> #[trigger] ending[i] != '/' && ending[i] != '.',
        ending.len() > 0,
    ensures
        lang_of(dir + seq!['/'] + (stem + seq!['.'] + ending)) == Some(lang) <==> one_of(
            ending,
            endings(lang),
        ),
        lang_of(stem + seq!['.'] + ending) == lang_of(
            dir + seq!['/'] + (stem + seq!['.'] + ending),
        ),
        lang_of(dir + seq!['/'] + (seq!['.'] + ending)) is None,
{
    let name = stem + seq!['.'] + ending;
    assert forall|i: int| 0 <= i < name.len() implies #[trigger] name[i] != '/' by {
        if i < stem.len() {
            assert(name[i] == stem[i]);
        } else if i > stem.len() {
            assert(name[i] == ending[i - stem.len() - 1]);
        }
    }
    lemma_last_part(dir, name);
    lemma_last_index_of(name, '.');
    assert(name[stem.len() as int] == '.');
    let at = last_index_of(name, '.');
    if at > stem.len() {
        assert(name[at] == ending[at - stem.len() - 1]);
    }
    assert(at == stem.len());
    assert(name.skip(at + 1) =~= ending);
    assert(name.len() >= 3);
    let path = dir + seq!['/'] + name;
    assert(file_name(path) == Some(name));
    assert(seq![name].last() == name);
    assert(file_name(name) == Some(name));
    assert(extension(path) == Some(ending));
    assert(extension(name) == Some(ending));
    lemma_endings(ending, lang);
    let bare = seq!['.'] + ending;
    assert forall|i: int| 0 <= i < bare.len() implies #[trigger] bare[i] != '/' by {
        if i > 0 {
            assert(bare[i] == ending[i - 1]);
        }
    }
    lemma_last_part(dir, bare);
    lemma_last_index_of(bare, '.');
    assert(bare[0] == '.');
    let b = last_index_of(bare, '.');
    if b > 0 {
        assert(bare[b] == ending[b - 1]);
    }
    assert(b == 0);
}

proof fn lemma_endings(ending: Seq<char>, lang: Lang)
    ensures
        crate::syntax::lang::lang_of_extension(ending) == Some(lang) <==> one_of(
            ending,
            endings(lang),
        ),
{
    reveal_strlit("rs");
    reveal_strlit("py");
    reveal_strlit("pyi");
    reveal_strlit("js");
    reveal_strlit("mjs");
    reveal_strlit("cjs");
    reveal_strlit("jsx");
    reveal_strlit("ts");
    reveal_strlit("mts");
    reveal_strlit("cts");
    reveal_strlit("tsx");
    reveal_strlit("go");
    reveal_strlit("json");
    reveal_strlit("md");
    reveal_strlit("markdown");
    let all = endings(lang);
    if one_of(ending, all) {
        let i = choose|i: int| 0 <= i < all.len() && ending == #[trigger] all[i];
        assert(i == 0 || i == 1 || i == 2 || i == 3);
        assert(ending.len() >= 2);
        assert(ending[0] == all[i][0] && ending[1] == all[i][1]);
    }
    if crate::syntax::lang::lang_of_extension(ending) == Some(lang) {
        assert(ending == all[0] || ending == all[1] || ending == all[2] || ending == all[3]);
    }
}

} // verus!
