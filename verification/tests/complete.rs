use pi::tui::complete::{at_prefix, candidates, FileEntry, TOP, WALK_CAP};

// What a walk of a workspace finds: src/lib/mod.rs, src/main.rs, README.md, with
// target/ and .git/ left out by the walk itself.
fn found(list: &[(&str, bool)]) -> Vec<(String, bool)> {
    list.iter().map(|(p, d)| (p.to_string(), *d)).collect()
}

fn children() -> Vec<(String, bool)> {
    found(&[("src", true), ("README.md", false), (".gitignore", false)])
}

fn everything() -> Vec<(String, bool)> {
    found(&[
        ("src", true),
        ("src/lib", true),
        ("src/lib/mod.rs", false),
        ("src/main.rs", false),
        ("README.md", false),
        (".gitignore", false),
    ])
}

fn names(v: &[FileEntry]) -> Vec<&str> {
    v.iter().map(|e| e.path.as_str()).collect()
}

#[test]
fn the_at_token_must_start_the_word() {
    assert_eq!(at_prefix("@src/f", 6), Some((0, 6, "src/f")));
    assert_eq!(at_prefix("hey @src/f", 10), Some((4, 10, "src/f")));
    // An email is not a path.
    assert_eq!(at_prefix("a@b", 3), None);
    // The newline ends the token, as any delimiter.
    assert_eq!(at_prefix("@a\n@b", 4), Some((3, 4, "")));
}

#[test]
fn bare_at_lists_the_root_folders_first() {
    let got = candidates("", "/w", &children());
    // `.git` itself is hidden but not other dot-files, so the gitignore file is
    // a plain candidate here too.
    assert_eq!(names(&got), vec!["src", "README.md", ".gitignore"]);
    assert!(got[0].dir);
}

#[test]
fn a_query_ranks_the_name_match_ahead_of_the_path_hit() {
    // "lib" the folder's own name (prefix, dir bonus) against "lib/mod.rs",
    // which only matches in the whole path.
    let got = candidates("li", "/w", &everything());
    assert_eq!(names(&got), vec!["src/lib", "src/lib/mod.rs"]);
}

#[test]
fn a_scoped_query_lists_the_scope_children_only() {
    let below = found(&[("lib", true), ("main.rs", false)]);
    assert_eq!(names(&candidates("src/", "/w", &below)), vec!["src/lib", "src/main.rs"]);
    assert_eq!(names(&candidates("src/ma", "/w", &below)), vec!["src/main.rs"]);
}

#[test]
fn scopes_that_leave_the_workspace_complete_nothing() {
    assert!(candidates("/et", "/w", &everything()).is_empty());
    assert!(candidates("~/notes", "/w", &everything()).is_empty());
    assert!(candidates("../out", "/w", &everything()).is_empty());
    assert!(candidates("src/../../out", "/w", &everything()).is_empty());
}

#[test]
fn a_match_does_not_mind_the_case() {
    // The query and the names are both read in lower case.
    let got = candidates("READ", "/w", &everything());
    assert_eq!(names(&got), vec!["README.md"]);
    let upper = found(&[("ÄRGER.md", false)]);
    assert_eq!(names(&candidates("är", "/w", &upper)), vec!["ÄRGER.md"]);
}

#[test]
fn the_menu_is_short_and_the_walk_is_bounded() {
    let many: Vec<(String, bool)> = (0..3000).map(|i| (format!("f{i:04}"), false)).collect();
    let got = candidates("", "/w", &many);
    assert_eq!(got.len(), TOP);
    assert_eq!(got[0].path, "f0000");
    // Past the cap nothing is looked at.
    let late = format!("f{:04}", WALK_CAP);
    assert!(candidates(&late, "/w", &many).is_empty());
    let last = format!("f{:04}", WALK_CAP - 1);
    assert_eq!(names(&candidates(&last, "/w", &many)), vec![last.as_str()]);
}

#[test]
fn a_workspace_without_a_root_completes_nothing() {
    assert!(candidates("a", "", &everything()).is_empty());
}
