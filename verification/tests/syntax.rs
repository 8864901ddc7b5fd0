use pi::syntax::lang::Lang;
use pi::syntax::{block, error_rows, extents, outline, spans};

const RUST: &str = "\
/// Adds.
#[inline]
fn add(a: u32, b: u32) -> u32 {
    a + b
}

struct P {
    x: u32,
}

impl P {
    fn new() -> P {
        P { x: 0 }
    }
}
";

#[test]
fn a_path_names_its_language() {
    assert_eq!(Lang::of("src/a.rs"), Some(Lang::Rust));
    assert_eq!(Lang::of("a.pyi"), Some(Lang::Python));
    assert_eq!(Lang::of("a.mjs"), Some(Lang::JavaScript));
    assert_eq!(Lang::of("a.ts"), Some(Lang::TypeScript));
    assert_eq!(Lang::of("a.tsx"), Some(Lang::Tsx));
    assert_eq!(Lang::of("a.go"), Some(Lang::Go));
    assert_eq!(Lang::of("a.json"), Some(Lang::Json));
    assert_eq!(Lang::of("README.md"), Some(Lang::Markdown));
    assert_eq!(Lang::of("a.txt"), None);
    assert_eq!(Lang::of(".rs"), None, "a hidden file has no extension");
    assert_eq!(Lang::of("rs"), None);
}

#[test]
fn a_function_takes_what_annotates_it_along() {
    // Asked on the row that names it, on its body's brace or on its doc comment.
    assert_eq!(block(Lang::Rust, RUST, 3), Some((1, 5)));
    assert_eq!(block(Lang::Rust, RUST, 1), Some((1, 5)));
    assert_eq!(block(Lang::Rust, RUST, 0), None);
    assert_eq!(block(Lang::Rust, RUST, 6), None, "nothing starts on a blank row");
    assert_eq!(block(Lang::Rust, RUST, 99), None);
}

#[test]
fn the_block_at_a_row_is_what_the_extents_say() {
    let all = extents(Lang::Rust, RUST);
    assert_eq!(all.get(&3), Some(&(1, 5)));
    assert_eq!(all.get(&7), Some(&(7, 9)));
    assert_eq!(all.get(&11), Some(&(11, 15)));
    assert_eq!(all.get(&12), Some(&(12, 14)));
    for line in 0..=20 {
        assert_eq!(block(Lang::Rust, RUST, line), all.get(&line).copied(), "row {line}");
    }
    let ends = spans(Lang::Rust, RUST);
    assert_eq!(ends.get(&11), Some(&15));
}

#[test]
fn an_outline_is_the_declarations_and_their_nesting() {
    let items: Vec<(usize, usize, usize, String)> = outline(Lang::Rust, RUST)
        .into_iter()
        .map(|i| (i.line, i.end, i.depth, i.text))
        .collect();
    assert_eq!(
        items,
        vec![
            (1, 5, 0, "fn add(a: u32, b: u32) -> u32 {".to_string()),
            (7, 9, 0, "struct P {".to_string()),
            (11, 15, 0, "impl P {".to_string()),
            (12, 14, 1, "fn new() -> P {".to_string()),
        ]
    );
}

#[test]
fn the_same_text_reads_otherwise_in_another_language() {
    let py = "class A:\n    def f(self):\n        return 1\n";
    assert_eq!(block(Lang::Python, py, 1), Some((1, 3)));
    assert_eq!(block(Lang::Python, py, 2), Some((2, 3)));
    assert!(!error_rows(Lang::Rust, py).is_empty());
    assert!(error_rows(Lang::Python, py).is_empty());
}

#[test]
fn broken_rows_are_named_in_order() {
    assert!(error_rows(Lang::Rust, RUST).is_empty());
    let broken = "fn a() {}\nfn b( {}\nfn c() {}\n";
    let rows = error_rows(Lang::Rust, broken);
    assert!(rows.contains(&2), "{rows:?}");
    let mut sorted = rows.clone();
    sorted.sort_unstable();
    sorted.dedup();
    assert_eq!(rows, sorted);
}

#[test]
fn a_markdown_section_runs_to_the_next_heading() {
    let md = "# One\n\ntext\n\n# Two\n\nmore\n";
    let items: Vec<(usize, String)> =
        outline(Lang::Markdown, md).into_iter().map(|i| (i.line, i.text)).collect();
    assert_eq!(items, vec![(1, "# One".to_string()), (5, "# Two".to_string())]);
}

#[test]
fn an_empty_file_has_no_outline() {
    assert!(outline(Lang::Rust, "").is_empty());
    assert!(extents(Lang::Json, "").is_empty());
}
