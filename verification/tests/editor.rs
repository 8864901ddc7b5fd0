use pi::tui::editor::{decode, encode, Editor};

/// An editor with the two painted gutters a real Ui would set, so view
/// tests see the prompt a user would.
fn typed(s: &str) -> Editor {
    let mut e = Editor::default();
    e.set_prompts("› ".into(), "!".into());
    e.insert_str(s);
    e
}

#[test]
fn typing_and_backspacing_stay_on_char_boundaries() {
    let mut e = typed("中文abc");
    e.backspace();
    assert_eq!(e.text(), "中文ab");
    e.left();
    e.backspace();
    // A byte-counting caret would split 文 and panic here.
    assert_eq!(e.text(), "中文b");
}

#[test]
fn a_word_delete_takes_the_space_in_front_of_the_word() {
    let mut e = typed("fix the bug");
    e.kill_word_back();
    assert_eq!(e.text(), "fix the ");
    e.kill_word_back();
    assert_eq!(e.text(), "fix ");
}

#[test]
fn home_and_end_stay_within_one_line_of_a_multi_line_prompt() {
    let mut e = typed("first\nsecond");
    e.home();
    assert_eq!(e.text()[e.cursor()..].chars().next(), Some('s'));
    e.end();
    assert_eq!(e.cursor(), e.text().len());
}

#[test]
fn up_browses_history_but_moves_the_caret_when_there_are_lines_to_move_through() {
    let mut e = typed("older");
    e.take();
    let mut e2 = e;
    e2.insert_str("draft");
    e2.up();
    assert_eq!(e2.text(), "older");
    e2.down();
    // The half-typed line comes back rather than being lost to the browse.
    assert_eq!(e2.text(), "draft");

    let mut m = typed("one\ntwo");
    m.up();
    // Still the same buffer: Up moved within it instead of recalling.
    assert_eq!(m.text(), "one\ntwo");
    assert!(m.cursor() < 4);
}

#[test]
fn a_bang_line_puts_the_bang_in_the_prompt() {
    let e = typed("!git status");
    let (rows, caret) = e.view(40);
    assert_eq!(rows[0], "!git status", "the bang takes the icon's place");
    assert_eq!(caret, (0, 11), "the bang column plus the ten characters");

    let plain = typed("git status");
    assert_eq!(plain.view(40).0[0], "› git status");
}

#[test]
fn deleting_the_bang_returns_the_plain_prompt() {
    let mut e = typed("!git");
    e.home();
    e.delete();
    assert_eq!(e.view(40).0[0], "› git");
}
#[test]
fn a_bang_line_wraps_with_the_bang_in_the_gutter() {
    let e = typed("!abcdefgh");
    // Width 6 leaves 5 columns after the one-column bang gutter, so the
    // body wraps exactly as it would under the plain two-column gutter.
    let (rows, caret) = e.view(6);
    assert_eq!(rows.len(), 2);
    assert_eq!(caret, (1, 4), "one gutter column + the last row's 3 chars");
}

#[test]
fn history_does_not_keep_a_second_copy_of_a_repeated_line() {
    let mut e = typed("cargo test");
    e.take();
    e.insert_str("cargo test");
    e.take();
    assert_eq!(e.history().len(), 1);
}

#[test]
fn a_wrapped_line_puts_the_caret_on_the_row_it_belongs_to() {
    let mut e = typed("abcdefgh");
    // Width 6 leaves 4 columns after the gutter.
    let (rows, caret) = e.view(6);
    assert_eq!(rows.len(), 2);
    assert_eq!(caret, (1, 6), "the caret is past the end of the second row");
    e.home();
    assert_eq!(e.view(6).1, (0, 2), "and back in the gutter's shadow");
}

#[test]
fn a_caret_exactly_on_a_wrap_starts_the_next_row() {
    let mut e = typed("abcdefgh");
    for _ in 0..4 {
        e.left();
    }
    // Column 4 of a 4-wide row does not exist; it is column 0 of the next.
    assert_eq!(e.view(6).1, (1, 2));
}

#[test]
fn an_explicit_newline_starts_a_row_of_its_own() {
    let (rows, caret) = typed("one\ntwo").view(40);
    assert_eq!(rows.len(), 2);
    assert!(rows[1].starts_with("  two"));
    assert_eq!(caret, (1, 5));
}

#[test]
fn moving_between_lines_never_lands_inside_a_character() {
    let mut e = typed("中文中文\nx");
    e.end();
    e.up();
    // Landing mid-character would panic on the next insert.
    assert!(e.text().is_char_boundary(e.cursor()));
    e.insert('!');
    assert!(e.text().contains('!'));
}

#[test]
fn the_two_kills_cut_only_the_line_the_caret_is_on() {
    let mut e = typed("first\nsecond");
    e.home();
    e.right();
    e.kill_to_end();
    assert_eq!(e.text(), "first\ns");
    e.kill_to_start();
    assert_eq!(e.text(), "first\n");
}

#[test]
fn history_survives_the_round_trip_through_a_file() {
    // A multi-line prompt is one entry, not several: read back a line at a
    // time it would come apart into fragments that recall separately.
    let entries = vec!["one".to_string(), "two\nlines".to_string()];
    assert_eq!(decode(&encode(&entries)), entries);
}

#[test]
fn a_recalled_line_of_several_rows_does_not_trap_up() {
    let mut e = typed("oldest");
    e.take();
    e.insert_str("one\ntwo");
    e.take();
    e.insert_str("draft");
    e.up();
    assert_eq!(e.text(), "one\ntwo");
    // The caret is on the last row: Up goes through the rows first.
    e.up();
    assert_eq!(e.text(), "one\ntwo");
    e.up();
    assert_eq!(e.text(), "oldest");
    e.down();
    assert_eq!(e.text(), "one\ntwo");
    // Down moves within it, and stays on its last row.
    e.down();
    assert_eq!((e.text(), e.cursor()), ("one\ntwo", 7));
}

#[test]
fn a_draft_of_several_rows_comes_back_from_its_first_row() {
    let mut e = typed("older");
    e.take();
    e.insert_str("one\ntwo");
    e.up();
    assert_eq!(e.text(), "one\ntwo");
    e.up();
    assert_eq!(e.text(), "older");
    e.down();
    assert_eq!(e.text(), "one\ntwo");
}

#[test]
fn no_painted_row_is_wider_than_the_screen() {
    for text in ["plain text that wraps", "!a command that wraps", "中文中文中文", "a\n中b\n\ncd"] {
        for width in 4..20 {
            for row in typed(text).view(width).0 {
                let wide = row.chars().map(|c| if c.is_ascii() || c == '›' { 1 } else { 2 });
                assert!(wide.sum::<usize>() <= width, "{row:?} at {width}");
            }
        }
    }
}
