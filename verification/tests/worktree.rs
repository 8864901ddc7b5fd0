use pi::worktree::{
    add_args, choices, current, enter, entered, holding, list, stderr_of, taken, vetted, Entered, NoEntry,
    Refusal, Way, Worktree, DIR,
};

// What `git worktree list --porcelain` prints of a repository with one worktree.
const LISTED: &str = "worktree /home/u/repo\nHEAD 1111\nbranch refs/heads/main\n\n\
    worktree /home/u/repo/.worktrees/feature-one\nHEAD 2222\nbranch refs/heads/feature-one\n\n";

#[test]
fn a_new_name_gets_a_branch_and_a_checkout() {
    let trees = list("worktree /home/u/repo\nHEAD 1111\nbranch refs/heads/main\n");
    let (name, path) = match enter(&trees, "feature-one") {
        Ok(Way::Add { name, path }) => (name, path),
        other => panic!("{other:?}"),
    };
    assert!(path.ends_with(".worktrees/feature-one"));
    assert_eq!(
        add_args(false, &path, &name),
        ["worktree", "add", "-b", "feature-one", "/home/u/repo/.worktrees/feature-one"]
    );
    let trees = list(LISTED);
    let (at, how) = entered(&trees, &name, &path, false).unwrap();
    let tree = &trees[at];
    assert!(matches!(how, Entered::Created));
    assert_eq!(tree.branch.as_deref(), Some("feature-one"));
    assert!(!tree.main);
    assert!(tree.path.ends_with(".worktrees/feature-one"));
}

#[test]
fn entering_the_same_name_twice_goes_back_to_it() {
    let trees = list(LISTED);
    assert_eq!(enter(&trees, "feature-one"), Ok(Way::Go(1)));
    assert_eq!(trees[1].branch.as_deref(), Some("feature-one"));
}

#[test]
fn an_existing_branch_is_checked_out_rather_than_recreated() {
    assert_eq!(
        add_args(true, "/r/.worktrees/already", "already"),
        ["worktree", "add", "/r/.worktrees/already", "already"]
    );
    let trees = list("worktree /r\n\nworktree /r/.worktrees/already\nbranch refs/heads/already\n");
    let (_, how) = entered(&trees, "already", "/r/.worktrees/already", true).unwrap();
    assert!(matches!(how, Entered::Checkout));
}

#[test]
fn the_main_checkout_leads_the_list_and_answers_to_its_directory_name() {
    let trees = list(LISTED);
    assert_eq!(trees.len(), 2);
    assert!(trees[0].main);
    assert_eq!(trees[0].name, "repo");
    assert_eq!(trees[0].branch.as_deref(), Some("main"));
    assert_eq!(trees[1].name, "feature-one");
}

#[test]
fn a_nested_name_keeps_both_halves() {
    let trees = list("worktree /r\n\nworktree /r/.worktrees/feat/one\nbranch refs/heads/feat/one\n");
    assert!(trees[1].path.ends_with(".worktrees/feat/one"));
    assert_eq!(trees[1].branch.as_deref(), Some("feat/one"));
    assert!(trees.iter().any(|t| t.name == "feat/one"));
}

#[test]
fn a_worktree_reaches_the_main_checkout_and_its_siblings() {
    // From within a worktree the main checkout is still the first listed, which
    // is what lets `/worktree <repo>` get back out.
    let trees = list(LISTED);
    assert_eq!(trees.len(), 2);
    assert_eq!(trees[0].path, "/home/u/repo");
    assert!(trees[0].main);
    assert_eq!(enter(&trees, "repo"), Ok(Way::Go(0)));
}

#[test]
fn a_worktree_created_from_inside_another_is_its_sibling() {
    // Not nested under the one it was asked from: `.worktrees` hangs off the
    // repository, and asking from anywhere in it means the same place.
    let trees = list(LISTED);
    let way = enter(&trees, "two").unwrap();
    assert_eq!(
        way,
        Way::Add { name: "two".into(), path: "/home/u/repo/.worktrees/two".into() }
    );
}

#[test]
fn a_subdirectory_is_held_by_the_checkout_it_is_in() {
    let trees = list("worktree /r\n\nworktree /r/.worktrees/one\nbranch refs/heads/one\n");
    let deep = "/r/.worktrees/one/crates/cli";
    // The main checkout contains `.worktrees`, so equality would miss and a
    // plain prefix test would answer with the wrong one.
    let held = holding(&trees, deep).expect("a checkout holds it");
    assert_eq!(held.name, "one");
    assert_eq!(current(&trees, deep).as_deref(), Some("one"));
    assert_eq!(current(&trees, "/r"), None, "the main checkout names nothing");
    // A name that only starts alike is not below it.
    assert_eq!(holding(&trees, "/r/.worktrees/one-more").expect("the repository").name, "r");
    assert!(holding(&trees, "/elsewhere").is_none());
}

#[test]
fn a_name_that_would_leave_the_worktrees_directory_is_refused() {
    let trees = list(LISTED);
    for bad in ["", "..", "../escape", "/etc", "a//b", "-b", "a b", "a;rm"] {
        assert!(enter(&trees, bad).is_err(), "accepted `{bad}`");
    }
}

#[test]
fn a_refusal_says_which_word_was_wrong() {
    assert_eq!(vetted("  ").unwrap_err(), Refusal::Empty);
    assert_eq!(vetted("").unwrap_err().message(), "a worktree needs a name");
    assert_eq!(vetted("-b").unwrap_err().message(), "`-b` cannot start with `/` or `-`");
    assert_eq!(vetted("../x").unwrap_err().message(), "`../x` is not a path under .worktrees/");
    assert_eq!(vetted("a b").unwrap_err().message(), "` ` is not allowed in a worktree name");
    assert_eq!(vetted(" feat/one// ").as_deref(), Ok("feat/one"));
    assert_eq!(DIR, ".worktrees");
}

#[test]
fn a_directory_in_the_way_is_reported_rather_than_entered() {
    assert!(taken("/r/.worktrees/taken").contains("not a registered worktree"));
}

#[test]
fn outside_a_repository_there_is_nowhere_to_go() {
    let err = enter(&list(""), "one").unwrap_err();
    assert_eq!(err, NoEntry::NotARepository);
    assert_eq!(err.message(), "not a git repository");
}

#[test]
fn a_checkout_put_elsewhere_is_reported() {
    let trees = list("worktree /r\n\nworktree /elsewhere/one\nbranch refs/heads/one\n");
    assert_eq!(trees[1].name, "/elsewhere/one");
    assert_eq!(
        entered(&trees, "one", "/r/.worktrees/one", false).unwrap_err(),
        "git put the checkout somewhere other than /r/.worktrees/one — is .worktrees a symlink?"
    );
}

#[test]
fn a_detached_checkout_has_no_branch() {
    let trees = list("worktree /r\nHEAD 1\ndetached\n");
    assert_eq!(trees[0].branch, None);
}

#[test]
fn git_is_quoted_by_its_last_line() {
    assert_eq!(stderr_of("hint: x\nfatal: not a git repository\n\n"), "fatal: not a git repository");
    assert_eq!(stderr_of(" \n"), "git failed");
}

#[test]
fn a_menu_names_the_branch_of_a_checkout() {
    let tree = |name: &str, branch: Option<&str>| Worktree {
        path: format!("/r/{name}"),
        name: name.into(),
        branch: branch.map(String::from),
        main: false,
    };
    assert_eq!(
        choices(&[tree("a", Some("main")), tree("b", None)]),
        [("a".to_string(), "main".to_string()), ("b".to_string(), "detached HEAD".to_string())]
    );
}

#[test]
fn a_repository_at_the_root_takes_no_second_slash() {
    let trees = list("worktree /\nHEAD 1111\nbranch refs/heads/main\n");
    assert_eq!(
        enter(&trees, "one"),
        Ok(Way::Add { name: "one".into(), path: "/.worktrees/one".into() })
    );
    let trees = list("worktree /\nHEAD 1111\n\nworktree /.worktrees/one\nbranch refs/heads/one\n");
    assert_eq!(trees[1].name, "one");
    let trees = list("worktree /r/\nHEAD 1111\n");
    assert_eq!(
        enter(&trees, "one"),
        Ok(Way::Add { name: "one".into(), path: "/r/.worktrees/one".into() })
    );
}

#[test]
fn a_path_is_held_step_by_step() {
    let trees = list("worktree a\n");
    assert_eq!(holding(&trees, "a/b").map(|t| t.path.as_str()), Some("a"));
    assert_eq!(holding(&trees, "a//b/.").map(|t| t.path.as_str()), Some("a"));
    // A `.` that opens a path is a step of its own; one inside it is none.
    assert!(holding(&trees, "./a").is_none());
    assert!(holding(&trees, "/a").is_none());
    let trees = list("worktree ./a/./b\n");
    assert_eq!(holding(&trees, "./a/b/c").map(|t| t.path.as_str()), Some("./a/./b"));
    assert!(holding(&trees, "a/b/c").is_none());
    // Everything lies below the empty path.
    let trees = list("x\nworktree \nx");
    assert_eq!(trees[0].path, "");
    for path in ["/r", "a", "./a", ""] {
        assert!(holding(&trees, path).is_some(), "{path}");
    }
}

#[test]
fn a_name_is_the_text_below_the_directory() {
    let names = |rest: &str| {
        let listed = format!("worktree /r\n\nworktree {rest}\nbranch refs/heads/x\n");
        list(&listed)[1].name.clone()
    };
    assert_eq!(names("/r/.worktrees/feat/one"), "feat/one");
    assert_eq!(names("/r//.worktrees//feat//one/"), "feat//one");
    assert_eq!(names("/r/./.worktrees/./a/./b/."), "a/./b");
    assert_eq!(names("/r/.worktrees"), "");
    assert_eq!(names("/elsewhere/a/"), "/elsewhere/a/");
}
