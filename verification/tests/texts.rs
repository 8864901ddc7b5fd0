use pi::render::{in_out, short};
use pi::text::{char_bytes, chars_of, digit, lines_of, split_of, string_of, white, words_of};
use pi::tui::complete::at_prefix;
use pi::tui::editor::{decode, encode, Editor};
use pi::tui::status::{elapsed, frame};
use pi::width::{columns_of, control};

fn all_chars() -> impl Iterator<Item = char> {
    (0..=0x10FFFFu32).filter_map(char::from_u32)
}

#[test]
fn white_space_is_what_std_says_it_is() {
    for c in all_chars() {
        assert_eq!(white(c), c.is_whitespace(), "{:x}", c as u32);
        assert_eq!(digit(c), c.is_ascii_digit());
        assert_eq!(char_bytes(c), c.len_utf8());
        assert_eq!(control(c), c.is_control(), "{:x}", c as u32);
    }
}

#[test]
fn columns_are_what_a_terminal_spends() {
    assert_eq!(columns_of('a'), 1);
    assert_eq!(columns_of('中'), 2);
    assert_eq!(columns_of('\u{301}'), 0);
    assert_eq!(columns_of('\u{7}'), 0);
}

#[test]
fn a_text_comes_apart_as_std_takes_it_apart() {
    for s in ["", "\n", "a", "a\n", "a\r\nb", "\n\nx\r", "one\ntwo\r\n\r\nthree", "a\rb\nc"] {
        let got: Vec<String> =
            lines_of(&chars_of(s)).iter().map(|l| string_of(l)).collect();
        let want: Vec<String> = s.lines().map(|l| l.to_string()).collect();
        assert_eq!(got, want, "{s:?}");
        let got: Vec<String> = split_of(&chars_of(s), '\n').iter().map(|l| string_of(l)).collect();
        let want: Vec<String> = s.split('\n').map(|l| l.to_string()).collect();
        assert_eq!(got, want, "{s:?}");
        let got: Vec<String> = words_of(&chars_of(s)).iter().map(|l| string_of(l)).collect();
        let want: Vec<String> = s.split_whitespace().map(|l| l.to_string()).collect();
        assert_eq!(got, want, "{s:?}");
    }
}

#[test]
fn counts_read_short() {
    assert_eq!(short(0), "0");
    assert_eq!(short(1000), "1.0k");
    assert_eq!(short(12_000), "12.0k");
    assert_eq!(short(1_000_000), "1.0m");
    assert_eq!(in_out(8_400, 0), "8.4k in / - out");
    assert_eq!(elapsed(59), "59s");
    assert_eq!(elapsed(60), "1m00s");
    assert_eq!(frame(10), frame(0));
}

#[test]
fn a_token_is_found_behind_wide_characters() {
    // Offsets are bytes: each of these takes three.
    assert_eq!(at_prefix("中 @文", 8), Some((4, 8, "文")));
}

fn typed(s: &str) -> Editor {
    let mut e = Editor::default();
    e.set_prompts("› ".into(), "!".into());
    e.insert_str(s);
    e
}

#[test]
fn a_typed_character_can_be_taken_back() {
    let mut e = typed("héllo");
    e.left();
    e.insert('中');
    e.backspace();
    assert_eq!(e.text(), "héllo");
    assert_eq!(e.cursor(), 5);
}

#[test]
fn an_entry_survives_whatever_it_holds() {
    let entries: Vec<String> =
        ["\\n is not a newline", "back\\slash\\", "two\nlines\n", "\\\\n"].iter().map(|s| s.to_string()).collect();
    assert_eq!(decode(&encode(&entries)), entries);
}

#[test]
fn wrapped_rows_hold_the_whole_text() {
    let text = "中文 and some more text that wraps\nand a second line";
    let e = typed(text);
    for width in [3usize, 7, 12, 80] {
        let (rows, _) = e.view(width);
        let joined: String = rows.iter().map(|r| r.chars().skip(2).collect::<String>()).collect();
        assert_eq!(joined, text.replace('\n', ""), "at width {width}");
    }
}

#[test]
fn words_are_walked_both_ways() {
    let mut e = typed("one two  three");
    e.word_left();
    assert_eq!(e.cursor(), 9);
    e.word_left();
    assert_eq!(e.cursor(), 4);
    e.word_right();
    assert_eq!(e.cursor(), 7);
    e.home();
    e.word_next();
    assert_eq!(e.cursor(), 4);
}

#[test]
fn history_is_seeded_and_browsed() {
    let mut e = typed("draft");
    e.seed_history(vec!["a".into(), "b".into()]);
    e.up();
    e.up();
    assert_eq!(e.text(), "a");
    e.up();
    assert_eq!(e.text(), "a", "there is nothing older");
    e.down();
    e.down();
    assert_eq!(e.text(), "draft");
    e.clear();
    assert!(e.is_empty());
}
