use pi::hashline::edits::{apply, Anchor, Applied, Edit, Refusal};
use pi::hashline::{NoBlocks, Table};

// What a parser would say: a line starting `fn ` covers up to the next one, so
// a fixture can leave a blank inside the first block, where a head sits.
fn sections(content: &str) -> Table {
    let lines: Vec<&str> = content.lines().collect();
    let opens: Vec<usize> = (1..=lines.len())
        .filter(|n| lines[n - 1].trim_start().starts_with("fn "))
        .collect();
    let blocks = opens
        .iter()
        .enumerate()
        .map(|(i, &n)| (n, n, opens.get(i + 1).map_or(lines.len() + 1, |&m| m) - 1))
        .collect();
    Table { blocks }
}

fn edit(anchor: Anchor, new: &str) -> Edit {
    Edit {
        anchor,
        new: new.into(),
        replace_all: false,
        whole_block: false,
    }
}

fn replace(old: &str, new: &str) -> Edit {
    edit(Anchor::Replace(old.into()), new)
}

fn after(anchor: &str, new: &str) -> Edit {
    edit(Anchor::After(anchor.into()), new)
}

fn before(anchor: &str, new: &str) -> Edit {
    edit(Anchor::Before(anchor.into()), new)
}

fn ok(content: &str, edits: &[Edit]) -> Applied {
    apply("a.rs", content, edits, &NoBlocks).expect("applies")
}

#[test]
fn a_fragment_inside_a_line_is_replaced() {
    let out = ok(
        "let mut x = 1;\nlet y = 2;\n",
        &[replace("let mut x", "let x")],
    );
    assert_eq!(out.content, "let x = 1;\nlet y = 2;\n");
    assert_eq!(out.landed[0].took_at, 1);
    assert_eq!(out.landed[0].took, vec!["let mut x = 1;".to_string()]);
}

#[test]
fn a_missing_anchor_points_at_the_nearest_line() {
    let err = apply(
        "a.rs",
        "fn one() {\n}\n",
        &[replace("fn two() {", "x")],
        &NoBlocks,
    )
    .unwrap_err();
    assert!(matches!(err, Refusal::NoMatch { line: 1, .. }), "{err:?}");
}

#[test]
fn an_anchor_naming_two_places_is_refused_with_both() {
    let err = apply(
        "a.rs",
        "let a = 1;\nlet a = 2;\n",
        &[replace("let a = ", "let b = ")],
        &NoBlocks,
    )
    .unwrap_err();
    match err {
        Refusal::Ambiguous { n, detail, .. } => {
            assert_eq!(n, 2);
            assert!(detail.contains("line 1"), "{detail}");
            assert!(detail.contains("line 2"), "{detail}");
        }
        other => panic!("{other:?}"),
    }
}

#[test]
fn replace_all_takes_every_occurrence() {
    let mut edit = replace("let a = ", "let b = ");
    edit.replace_all = true;
    let out = ok("let a = 1;\nlet a = 2;\n", &[edit]);
    assert_eq!(out.content, "let b = 1;\nlet b = 2;\n");
    assert_eq!(out.landed.len(), 2);
}

#[test]
fn an_insert_after_a_line_lands_at_the_next_line_start() {
    let out = ok("a;\nb;\n", &[after("a;\n", "new;\n")]);
    assert_eq!(out.content, "a;\nnew;\nb;\n");
    // The insert is named by the row it lands on: line 2 in the original,
    // line 2 in the result.
    assert_eq!((out.landed[0].took_at, out.landed[0].start), (2, 2));
    assert_eq!(out.landed[0].gave(), 1);
    assert!(out.landed[0].took.is_empty(), "an insert displaces nothing");
}

#[test]
fn an_insert_inside_a_line_stays_on_it() {
    let out = ok("let x = 1;\n", &[after("let x", " /* here */")]);
    assert_eq!(out.content, "let x /* here */ = 1;\n");
}

#[test]
fn an_insert_before_lands_before_the_match() {
    let out = ok("fn f() {}\n", &[before("fn f", "/// doc\n")]);
    assert_eq!(out.content, "/// doc\nfn f() {}\n");
}

#[test]
fn a_crlf_file_answers_an_lf_anchor_and_keeps_its_endings() {
    let out = ok("a;\r\nb;\r\n", &[replace("a;\n", "a2;\n")]);
    assert_eq!(out.content, "a2;\r\nb;\r\n");
}

#[test]
fn an_insert_into_a_crlf_file_lands_with_its_endings() {
    let out = ok("a;\r\n", &[after("a;\r\n", "new;\n")]);
    assert_eq!(out.content, "a;\r\nnew;\r\n");
}

#[test]
fn a_byte_order_mark_is_matched_through_and_kept() {
    let out = ok("\u{FEFF}# Title\ntext\n", &[replace("# Title", "# T")]);
    assert_eq!(out.content, "\u{FEFF}# T\ntext\n");
}

#[test]
fn a_whole_block_is_replaced_from_its_first_line() {
    let mut edit = replace("fn f()", "fn f() {\n    c;\n}\n");
    edit.whole_block = true;
    let out = apply("a.rs", "fn f() {\n    a;\n}\n\nfn g() {\n    b;\n}\n", &[edit], &sections("fn f() {\n    a;\n}\n\nfn g() {\n    b;\n}\n"))
    .expect("applies");
    assert_eq!(out.content, "fn f() {\n    c;\n}\n\nfn g() {\n    b;\n}\n");
    assert_eq!(out.landed[0].took, vec!["fn f() {", "    a;", "}"]);
}

#[test]
fn a_block_that_ends_in_a_blank_line_gives_the_blank_back() {
    let mut edit = replace("fn f()", "fn f() {\n}\n");
    edit.whole_block = true;
    let out = apply("a.rs", "fn f() {\n    a;\n}\n\nfn g() {\n}\n", &[edit], &sections("fn f() {\n    a;\n}\n\nfn g() {\n}\n"))
    .expect("applies");
    assert_eq!(out.content, "fn f() {\n}\n\nfn g() {\n}\n");
}

#[test]
fn deleting_a_whole_block_leaves_no_blank_line() {
    let mut edit = replace("fn f()", "");
    edit.whole_block = true;
    let out = apply("a.rs", "fn f() {\n    a;\n}\nfn g() {\n}\n", &[edit], &sections("fn f() {\n    a;\n}\nfn g() {\n}\n"))
    .expect("applies");
    assert_eq!(out.content, "fn g() {\n}\n");
}

#[test]
fn an_insert_after_a_block_lands_past_its_last_line() {
    let mut edit = after("fn f()", "fn g() {\n}\n");
    edit.whole_block = true;
    let out = apply("a.rs", "fn f() {\n    a;\n}\n", &[edit], &sections("fn f() {\n    a;\n}\n")).expect("applies");
    assert_eq!(out.content, "fn f() {\n    a;\n}\nfn g() {\n}\n");
}

#[test]
fn a_line_pasted_from_a_view_drops_its_address() {
    // `read` and `grep` print `2:` in front of a line, and that is what
    // gets copied back into an anchor.
    let out = ok(
        "a;\n// TODO: rename\n",
        &[replace("2:// TODO: rename", "// renamed")],
    );
    assert_eq!(out.content, "a;\n// renamed\n");
}

#[test]
fn an_address_that_is_really_in_the_file_still_matches() {
    // The retry is a fallback, not a rewrite: text that really says `2:`
    // is matched as written.
    let out = ok("2: real\n", &[replace("2: real", "real")]);
    assert_eq!(out.content, "real\n");
}

#[test]
fn an_anchor_pasted_from_a_view_keeps_its_address_out_of_the_match() {
    let mut edit = replace("1-3:fn f() {", "fn f() {\n}\n");
    edit.whole_block = true;
    let out = apply("a.rs", "fn f() {\n    a;\n}\n", &[edit], &sections("fn f() {\n    a;\n}\n")).expect("applies");
    assert_eq!(out.content, "fn f() {\n}\n");
}

#[test]
fn a_whole_block_without_a_parser_is_refused() {
    let mut edit = replace("fn f()", "x");
    edit.whole_block = true;
    let err = apply("a.rs", "fn f() {\n}\n", &[edit], &NoBlocks).unwrap_err();
    assert!(matches!(err, Refusal::NoBlock { .. }), "{err:?}");
}

#[test]
fn an_empty_anchor_is_refused() {
    let err = apply("a.rs", "x\n", &[replace("", "y")], &NoBlocks).unwrap_err();
    assert!(
        matches!(err, Refusal::EmptyAnchor { index: 0, .. }),
        "{err:?}"
    );
}

#[test]
fn inserting_nothing_is_refused() {
    let err = apply("a.rs", "x\n", &[after("x", "")], &NoBlocks).unwrap_err();
    assert!(
        matches!(err, Refusal::EmptyInsert { index: 0, .. }),
        "{err:?}"
    );
}

#[test]
fn an_insert_inside_a_replaced_region_is_refused() {
    let edits = [
        replace("let a = 1;\nlet b = 2;\n", "let a = 3;\n"),
        after("let a", " // x"),
    ];
    let err = apply("a.rs", "let a = 1;\nlet b = 2;\n", &edits, &NoBlocks).unwrap_err();
    assert!(matches!(err, Refusal::InsertInside { .. }), "{err:?}");
}

#[test]
fn overlapping_replacements_are_refused() {
    let edits = [
        replace("let a = 1;\nlet b", "X"),
        replace("let b = 2;", "Y"),
    ];
    let err = apply("a.rs", "let a = 1;\nlet b = 2;\n", &edits, &NoBlocks).unwrap_err();
    assert!(matches!(err, Refusal::Overlap { .. }), "{err:?}");
}

#[test]
fn a_later_edit_does_not_see_an_earlier_one() {
    // `two` exists only once the first edit lands, so a call matched
    // incrementally would take it; this one must not.
    let edits = [replace("one", "two"), replace("two", "three")];
    let err = apply("a.rs", "one\n", &edits, &NoBlocks).unwrap_err();
    assert!(matches!(err, Refusal::NoMatch { index: 1, .. }), "{err:?}");
}

#[test]
fn an_edit_that_changes_nothing_is_refused() {
    let err = apply("a.rs", "x\n", &[replace("x", "x")], &NoBlocks).unwrap_err();
    assert!(matches!(err, Refusal::Unchanged { .. }), "{err:?}");
}

#[test]
fn a_call_with_no_edits_is_refused() {
    assert_eq!(
        apply("a.rs", "x\n", &[], &NoBlocks).unwrap_err(),
        Refusal::NoEdits
    );
}

#[test]
fn an_anchor_that_is_only_an_address_matches_nothing() {
    // A view prints a blank row as `3:`, and that is what gets copied
    // back: with the address taken off, nothing is left to match.
    let src = "a;\n\nb;\n";
    for anchor in ["2:", "2:\n", "  2:"] {
        let err = apply("a.rs", src, &[replace(anchor, "c;")], &NoBlocks).unwrap_err();
        assert!(matches!(err, Refusal::NoMatch { .. }), "`{anchor}`: {err:?}");
    }
}

#[test]
fn a_whole_block_anchor_of_only_an_address_names_no_block() {
    let mut edit = replace("2:", "x");
    edit.whole_block = true;
    let err = apply("a.rs", "fn f() {\n}\n", &[edit], &sections("fn f() {\n}\n")).unwrap_err();
    assert!(matches!(err, Refusal::NoBlock { .. }), "{err:?}");
}

#[test]
fn a_refusal_over_many_candidates_names_a_few_and_counts_the_rest() {
    let src: String = (1..=20).map(|i| format!("a(); // {i}\n")).collect();
    let err = apply("a.rs", &src, &[replace("a();", "b();")], &NoBlocks).unwrap_err();
    match err {
        Refusal::Ambiguous { n, detail, .. } => {
            assert_eq!(n, 20);
            assert_eq!(detail.lines().count(), 9, "{detail}");
            assert!(detail.ends_with("… and 12 more"), "{detail}");
        }
        other => panic!("{other:?}"),
    }
}

#[test]
fn two_replacements_over_the_same_text_are_an_overlap() {
    let edits = [replace("x", "1"), replace("x", "2")];
    let err = apply("a.rs", "x\n", &edits, &NoBlocks).unwrap_err();
    assert!(matches!(err, Refusal::Overlap { .. }), "{err:?}");
}

#[test]
fn emptying_a_row_in_a_crlf_file_says_the_break_is_left() {
    let out = ok("a;\r\nb;\r\n", &[replace("b;", "")]);
    assert_eq!(out.content, "a;\r\n\r\n");
    assert_eq!(out.left_blank, vec![0]);
}
#[test]
fn replacing_non_ascii_anchor_does_not_panic() {
    let out = ok("hello 小可爱\n", &[replace("小可爱", "猫")]);
    assert_eq!(out.content, "hello 猫\n");
    assert_eq!(out.landed[0].took, vec!["hello 小可爱".to_string()]);
}

#[test]
fn every_refusal_has_a_tag_and_says_what_to_do() {
    let err = apply("a.rs", "x\n", &[], &NoBlocks).unwrap_err();
    assert_eq!(err.tag(), "NO_EDITS");
    assert!(err.is_shape());
    assert_eq!(err.message(), "no edits: name at least one replacement");

    let err = apply("a.rs", "x\n", &[replace("", "y")], &NoBlocks).unwrap_err();
    assert_eq!(err.tag(), "EMPTY_ANCHOR");
    assert!(err.is_shape());
    assert_eq!(
        err.message(),
        "in a.rs, edits[0]: the anchor is empty — name the text to find"
    );

    let err = apply("a.rs", "x\n", &[after("x", "")], &NoBlocks).unwrap_err();
    assert_eq!(err.tag(), "EMPTY_INSERT");
    assert!(err.is_shape());
    assert_eq!(err.message(), "in a.rs, edits[0]: inserting nothing changes nothing");

    let err = apply("a.rs", "fn one() {\n}\n", &[replace("fn two() {", "x")], &NoBlocks).unwrap_err();
    assert_eq!(err.tag(), "NO_MATCH");
    assert!(!err.is_shape());
    assert_eq!(
        err.message(),
        "no match in a.rs for edits[0] — the closest real line is 1: `fn one() {`. Nothing was written."
    );

    let err = apply("a.rs", "x\nx\n", &[replace("x", "y")], &NoBlocks).unwrap_err();
    assert_eq!(err.tag(), "AMBIGUOUS");
    assert!(err.message().starts_with("edits[0] matches 2 places in a.rs:\n"), "{err:?}");

    let edits = [replace("ab", "1"), replace("bc", "2")];
    let err = apply("a.rs", "abc\n", &edits, &NoBlocks).unwrap_err();
    assert_eq!(err.tag(), "OVERLAP");
    assert_eq!(
        err.message(),
        "edits[0] and edits[1] overlap in a.rs — merge them into one edit or target disjoint regions"
    );

    let edits = [before("b", "1"), after("a", "2")];
    let err = apply("a.rs", "ab\n", &edits, &NoBlocks).unwrap_err();
    assert_eq!(err.tag(), "INSERT_INSIDE");
    assert_eq!(
        err.message(),
        "edits[0] and edits[1] meet at one byte in a.rs — the order would be a guess; merge them into one edit"
    );

    let mut block = replace("fn h()", "x");
    block.whole_block = true;
    let err = apply("a.rs", "fn f() {\n}\n", &[block], &sections("fn f() {\n}\n")).unwrap_err();
    assert_eq!(err.tag(), "NO_BLOCK");
    assert_eq!(
        err.message(),
        "in a.rs, edits[0]: no block opens with `fn h()` — the file opens: `fn f() {`"
    );

    let mut block = replace("fn", "x");
    block.whole_block = true;
    let err = apply("a.rs", "fn f() {\n}\nfn g() {\n}\n", &[block], &sections("fn f() {\n}\nfn g() {\n}\n")).unwrap_err();
    assert_eq!(err.tag(), "AMBIGUOUS_BLOCK");
    assert_eq!(
        err.message(),
        "in a.rs, edits[0]: `fn` opens 2 blocks — give more of the opening line"
    );

    let err = apply("a.rs", "x\n", &[replace("x", "x")], &NoBlocks).unwrap_err();
    assert_eq!(err.tag(), "UNCHANGED");
    assert_eq!(
        err.message(),
        "a.rs: nothing changed — the edits reproduce what is already there"
    );
}

#[test]
fn edits_land_in_any_order() {
    let content = "one\ntwo\nthree\n";
    let a = replace("one", "1");
    let b = after("two", " and a half");
    let c = replace("three", "3");
    let want = ok(content, &[a.clone(), b.clone(), c.clone()]).content;
    assert_eq!(want, "1\ntwo and a half\n3\n");
    assert_eq!(ok(content, &[c.clone(), a.clone(), b.clone()]).content, want);
    assert_eq!(ok(content, &[b, c, a]).content, want);
}

#[test]
fn the_report_names_lines_of_the_result() {
    let content = "a\nb\nc\n";
    let out = ok(content, &[before("b", "x\ny\n"), replace("c", "z")]);
    assert_eq!(out.content, "a\nx\ny\nb\nz\n");
    assert_eq!((out.landed[0].start, out.landed[0].end, out.landed[0].took_at), (2, 3, 2));
    assert_eq!((out.landed[1].start, out.landed[1].end, out.landed[1].took_at), (5, 5, 3));
    assert_eq!(out.landed[1].took, vec!["c"]);
}

#[test]
fn a_line_is_measured_against_every_line_of_the_anchor() {
    let content = "alpha\nbeta\ngamma\n";
    let err = apply("a.rs", content, &[replace("zzz\ngamna\n", "x")], &NoBlocks).unwrap_err();
    assert!(matches!(err, Refusal::NoMatch { line: 3, .. }), "{err:?}");
}

#[test]
fn a_row_that_keeps_text_is_not_left_blank() {
    let out = ok("foo bar\n", &[replace(" bar", "")]);
    assert_eq!(out.content, "foo\n");
    assert_eq!(out.left_blank, Vec::<usize>::new());
}

#[test]
fn a_row_emptied_by_two_edits_is_left_blank_once() {
    let out = ok("foo bar\nbaz\n", &[replace("foo", ""), replace(" bar", "")]);
    assert_eq!(out.content, "\nbaz\n");
    assert_eq!(out.left_blank, vec![1]);
}

#[test]
fn edits_in_another_order_land_on_the_same_lines() {
    let content = "a;\nb;\nc;\n";
    let one = replace("a;", "a;\naa;");
    let two = replace("c;", "C;");
    let there = ok(content, &[one.clone(), two.clone()]);
    let back = ok(content, &[two, one]);
    assert_eq!(there.content, "a;\naa;\nb;\nC;\n");
    assert_eq!(there.content, back.content);
    assert_eq!(there.landed, back.landed);
    assert_eq!((there.landed[1].start, there.landed[1].took_at), (4, 3));
}

#[test]
fn a_block_keeps_its_own_line_ending_in_a_file_that_mixes_them() {
    let lf = "use x;\r\nfn f() {\n    a;\n}\n";
    let mut edit = replace("fn f()", "fn f() {\n    c;\n}\n");
    edit.whole_block = true;
    let out = apply("a.rs", lf, &[edit.clone()], &sections(lf)).expect("applies");
    assert_eq!(out.content, "use x;\r\nfn f() {\n    c;\n}\n");

    let crlf = "use x;\nfn f() {\r\n    a;\r\n}\r\n";
    let out = apply("a.rs", crlf, &[edit], &sections(crlf)).expect("applies");
    assert_eq!(out.content, "use x;\nfn f() {\r\n    c;\r\n}\r\n");
}

#[test]
fn a_row_emptied_and_filled_again_is_not_left_blank() {
    let out = ok("foo\nbar\n", &[replace("foo", ""), before("\nbar", "x")]);
    assert_eq!(out.content, "x\nbar\n");
    assert_eq!(out.left_blank, Vec::<usize>::new());
}
