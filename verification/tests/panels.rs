use pi::tui::intent::Intent;
use pi::tui::keys::{Action, Code, Key};
use pi::tui::line::Role;
use pi::tui::panel::{self, Marks, SettingRow, Took};
use pi::tui::settings;
use pi::tui::shelf;

fn press(c: char) -> Key {
    Key::plain(Code::Char(c))
}

fn act(panel: &mut panel::Panel, action: Action) -> Took {
    panel.press(Some(action), Key::plain(Code::Other), 0)
}

fn typed(panel: &mut panel::Panel, text: &str) {
    for c in text.chars() {
        panel.press(None, press(c), 0);
    }
}

fn intent(took: Took) -> Intent {
    match took {
        Took::Intent(i) => i,
        Took::Close => panic!("the panel closed"),
    }
}

fn close(took: Took) {
    assert!(matches!(took, Took::Close), "the panel did not close");
}

fn typed_close(panel: &mut panel::Panel, c: char) -> Took {
    panel.press(None, press(c), 0)
}

fn marks() -> Marks {
    Marks { changed: "●".into(), note: " — ".into() }
}

fn row(path: &str, value: &str, changed: bool) -> SettingRow {
    SettingRow { path: path.into(), value: value.into(), changed }
}

// The default modal settings: escape `jk`, and a window of half a second.
fn opened(rows: Vec<SettingRow>) -> panel::Panel {
    panel::Panel::new(rows, Some(('j', 'k')), 500)
}

fn rows() -> Vec<SettingRow> {
    vec![row("base_url", "http://x", false), row("model", "flash", true)]
}

#[test]
fn panel_an_empty_panel_has_nothing_to_edit() {
    let mut p = opened(Vec::new());
    act(&mut p, Action::MenuAccept);
    assert!(!p.editing());
    assert_eq!(p.editing_value(), "", "rather than indexing past the end");
}

#[test]
fn modifiers_keep_the_browsing_letters_dead() {
    // Ctrl+R is not `r`: the fixed vocabulary answers bare letters only.
    let mut p = opened(rows());
    let ctrl = |c: char| Key { code: Code::Char(c), command: true };
    let took = p.press(None, ctrl('r'), 0);
    assert!(matches!(took, Took::Intent(Intent::Nothing)), "not a revert");
    assert!(!matches!(p.press(None, ctrl('q'), 0), Took::Close));
}

#[test]
fn a_pair_arms_under_an_edit_and_not_beside_one() {
    // `hl` as the pair: an `h` while browsing arms nothing, so `i` opens the
    // edit with the value whole and `l` lands as a letter — not as the close
    // that eats the value's last character and submits.
    let mut p = panel::Panel::new(rows(), Some(('h', 'l')), 500);
    typed(&mut p, "h");
    p.press(None, press('i'), 0);
    let whole = p.editing_value().to_string();
    typed(&mut p, "l");
    assert!(p.editing(), "the edit is still open, not submitted");
    assert_eq!(p.editing_value(), format!("{whole}l"));
}

// The panel opens browsing: j and k move, i opens the row, q closes.
#[test]
fn normal_mode_moves_and_closes() {
    let mut p = opened(rows());
    typed(&mut p, "j");
    assert_eq!(p.editing_value(), "flash", "j moved down");
    typed(&mut p, "k");
    assert_eq!(p.editing_value(), "http://x", "k moved back up");
    close(typed_close(&mut p, 'q'));
}

// i opens the row; the escape pair takes its first half back off and keeps the
// edit as the session's. The panel stays in Insert until the commit answers —
// the loop's refresh closes it.
#[test]
fn i_opens_the_row_and_jk_keeps_it() {
    let mut p = opened(rows());
    typed(&mut p, "ji");
    assert!(p.editing());
    assert_eq!(p.editing_value(), "flash", "pre-filled with what it holds");
    typed(&mut p, "yj");
    match intent(typed_close(&mut p, 'k')) {
        Intent::SettingEdit(path, value) => {
            assert_eq!((path.as_str(), value.as_str()), ("model", "flashy"));
        }
        other => panic!("kept {other:?}"),
    }
    assert!(p.editing(), "the commit answers before Insert closes");
}

// Space and r settle a row the session and the file disagree on.
#[test]
fn space_and_r_settle_a_row() {
    let mut p = opened(rows());
    typed(&mut p, "j");
    assert!(matches!(
        intent(typed_close(&mut p, ' ')),
        Intent::SettingWrite(ref path) if path == "model"
    ));
    assert!(matches!(
        intent(typed_close(&mut p, 'r')),
        Intent::SettingRevert(ref path) if path == "model"
    ));
}

// Esc drops the edit and lands back in Normal mode with the row as it was; the
// panel closes only from there.
#[test]
fn esc_discards_the_edit_before_it_leaves_the_panel() {
    let mut p = opened(rows());
    typed(&mut p, "ji");
    typed(&mut p, "y");
    assert!(matches!(act(&mut p, Action::MenuDismiss), Took::Intent(Intent::Nothing)));
    assert!(!p.editing());
    assert_eq!(p.editing_value(), "flash", "the row as it was");
    assert!(matches!(act(&mut p, Action::MenuDismiss), Took::Close));
}

// An edit that changed nothing asks for nothing: leaving Insert just closes the
// edit line.
#[test]
fn an_unchanged_edit_keeps_nothing() {
    let mut p = opened(rows());
    act(&mut p, Action::MenuAccept);
    assert_eq!(p.editing_value(), "http://x", "pre-filled, untouched");
    assert!(matches!(intent(act(&mut p, Action::MenuAccept)), Intent::Nothing));
    assert!(!p.editing());
}

#[test]
fn accepting_a_row_opens_it_and_accepting_again_commits_it() {
    let mut p = opened(rows());
    act(&mut p, Action::MenuNext);
    act(&mut p, Action::MenuAccept);
    assert_eq!(p.editing_value(), "flash", "pre-filled with what it holds");
    typed(&mut p, "y");
    match intent(act(&mut p, Action::MenuAccept)) {
        Intent::SettingEdit(path, value) => {
            assert_eq!((path.as_str(), value.as_str()), ("model", "flashy"));
        }
        other => panic!("committed {other:?}"),
    }
}

#[test]
fn refresh_keeps_the_cursor_on_the_same_path() {
    let mut p = opened(rows());
    act(&mut p, Action::MenuNext);
    let after = vec![row("model", "deepseek", false), row("base_url", "http://y", false)];
    p.refresh(after);
    assert_eq!(p.editing_value(), "deepseek", "the same path, wherever it moved to");
    act(&mut p, Action::MenuAccept);
    typed(&mut p, "x");
    assert!(matches!(
        intent(act(&mut p, Action::MenuAccept)),
        Intent::SettingEdit(ref path, _) if path == "model"
    ));
}

// The cursor moves only while a row is being browsed: `j` is a letter the moment
// a value is being typed.
#[test]
fn typing_a_value_pins_the_cursor() {
    let mut p = opened(rows());
    act(&mut p, Action::MenuAccept);
    assert_eq!(p.editing_value(), "http://x");
    act(&mut p, Action::MenuNext);
    act(&mut p, Action::MenuNext);
    typed(&mut p, "!");
    assert!(matches!(
        intent(act(&mut p, Action::MenuAccept)),
        Intent::SettingEdit(ref path, ref t) if path == "base_url" && t == "http://x!"
    ));
}

// Dismiss is two steps: the edit first, the panel only once there is nothing
// left inside it to cancel.
#[test]
fn dismiss_leaves_the_edit_before_it_leaves_the_panel() {
    let mut p = opened(rows());
    act(&mut p, Action::MenuAccept);
    assert!(matches!(act(&mut p, Action::MenuDismiss), Took::Intent(Intent::Nothing)));
    assert!(!p.editing());
    assert!(matches!(act(&mut p, Action::MenuDismiss), Took::Close));
}

#[test]
fn a_browsing_panel_swallows_a_key_it_does_not_know() {
    let mut p = opened(rows());
    assert!(matches!(p.press(None, press('a'), 0), Took::Intent(Intent::Nothing)));
}

fn selected(line: &pi::tui::line::Line) -> bool {
    line.spans.iter().any(|s| s.style.role == Role::Selected)
}

#[test]
fn only_the_focused_row_is_highlighted() {
    let mut p = opened(vec![row("a", "1", false), row("b", "2", false), row("c", "3", false)]);
    let (rows, caret) = p.view(&marks(), 80);
    assert!(caret.is_none());
    assert!(selected(&rows[0]));
    assert!(!selected(&rows[1]));
    assert!(!selected(&rows[2]));

    act(&mut p, Action::MenuNext);
    let (rows, caret) = p.view(&marks(), 80);
    assert!(caret.is_none());
    assert!(!selected(&rows[0]));
    assert!(selected(&rows[1]));
    assert!(!selected(&rows[2]));

    act(&mut p, Action::MenuAccept);
    let (rows, caret) = p.view(&marks(), 80);
    assert!(caret.is_some());
    assert!(!selected(&rows[1]));
}

// The row being rewritten is the edit line: painted like the input, the caret
// riding it after the value, and no separate line below.
#[test]
fn the_row_being_rewritten_is_the_edit_line() {
    let mut p = opened(rows());
    typed(&mut p, "i");
    typed(&mut p, "z");
    let (rows, caret) = p.view(&marks(), 80);
    let (row, col) = caret.expect("the caret rides the edited row");
    assert_eq!(row, 0, "on the row itself, not a line below");
    assert_eq!(col, 22, "one column past the value, at the end of `base_url = http://xz`");
    assert!(
        rows[0].plain().contains("base_url = http://xz"),
        "the row is the line: {}",
        rows[0].plain()
    );
    assert!(!selected(&rows[0]), "the row's selection stands down for the caret");
    assert_eq!(rows.len(), 3, "rows, then the footer — no edit line below");
}

// The caret's column is measured from what is really on the line, so a wide path
// or a wide value cannot push it off the value's end — the bug class this whole
// rendering exists to rule out.
#[test]
fn the_caret_survives_wide_paths_and_values() {
    let mut p = opened(vec![row("模型.name", "http://x", false)]);
    typed(&mut p, "i");
    typed(&mut p, "中");
    let (rows, caret) = p.view(&marks(), 80);
    let (r, col) = caret.expect("the caret rides the edited row");
    assert_eq!(r, 0);
    // "› 模型.name = http://x中", each wide character two columns.
    assert_eq!(col, 24, "one column past the value, however wide the path");
    assert!(rows[0].plain().contains("模型.name = http://x中"));
}

// A value longer than the row wraps, the continuation indented under the lead
// like the input line, and the caret lands on the row it wraps onto.
#[test]
fn a_wrapped_value_keeps_the_caret_on_its_own_row() {
    let mut p = opened(rows());
    typed(&mut p, "i");
    let long = "x".repeat(100);
    typed(&mut p, &long);
    let (rows, caret) = p.view(&marks(), 24);
    let (r, col) = caret.expect("the caret rides the edited row");
    // The caret row's own rendered width is exactly where the caret sits: a
    // wrapped value may land the caret anywhere, but never past the text
    // actually on its row.
    assert_eq!(rows[r].columns(), col, "the caret is at the end of its own row");
    assert!(r > 0, "the value wrapped");
}

// A row the session has left behind carries the mark, so normal mode's space and
// r have something to point at.
#[test]
fn a_row_the_session_left_the_file_carries_the_mark() {
    let p = opened(rows());
    let (rows, _) = p.view(&marks(), 80);
    assert!(!rows[0].plain().contains("●"), "the file agrees on {}", rows[0].plain());
    assert!(rows[1].plain().contains("●"), "the file does not hold {}", rows[1].plain());
}

#[test]
fn a_refused_commit_is_shown_and_the_edit_stays() {
    let mut p = opened(rows());
    typed(&mut p, "iz");
    p.refuse("no such host".into());
    assert!(p.editing());
    let (rows, _) = p.view(&marks(), 80);
    assert!(rows.iter().any(|r| r.plain().contains("no such host")));
}

#[test]
fn a_late_second_half_is_a_letter() {
    let mut p = opened(rows());
    p.press(None, press('i'), 0);
    p.press(None, press('j'), 1000);
    // Past the window the pair is two letters.
    assert!(matches!(p.press(None, press('k'), 1501), Took::Intent(Intent::Nothing)));
    assert_eq!(p.editing_value(), "http://xjk");
}

// ---------------------------------------------------------------- settings

fn pairs() -> Vec<(String, String)> {
    vec![("base_url".into(), "http://x".into()), ("model".into(), "flash".into())]
}

#[test]
fn settings_an_empty_panel_has_nothing_to_edit() {
    let mut p = settings::Panel::new(Vec::new());
    p.begin_edit();
    assert!(!p.editing());
}

#[test]
fn refresh_keeps_the_selection_on_the_same_path() {
    let mut p = settings::Panel::new(pairs());
    p.next();
    assert_eq!(p.at, 1);
    let after = pairs()
        .into_iter()
        .map(|(path, _)| {
            let value = if path == "model" { "deepseek".into() } else { "http://y".into() };
            (path, value)
        })
        .collect();
    p.refresh(after);
    assert_eq!(p.at, 1, "the edited row stays selected");
    assert_eq!(p.rows[1].1, "deepseek", "the committed value shows");
}

#[test]
fn a_secret_is_never_on_the_screen() {
    let secret = "sk-very-secret".to_string();
    let p = settings::Panel::new(vec![("models.flash.api_key".into(), secret.clone())]);
    assert!(!p.view(80).iter().any(|r| r.contains(&secret)));
    assert_ne!(settings::mask("api_key", &secret), secret);
    assert_eq!(settings::mask("model", "flash"), "flash");
}

// ------------------------------------------------------------------- shelf

fn notes(n: usize) -> Vec<shelf::Row> {
    (0..n)
        .map(|i| shelf::Row {
            id: i as u64 + 1,
            day: "2026-09-07".into(),
            text: format!("note {i}"),
        })
        .collect()
}

#[test]
fn an_empty_shelf_has_nothing_to_rewrite_or_take_away() {
    let mut p = shelf::Panel::new(Vec::new());
    assert_eq!(p.focused(), None);
    p.begin_edit();
    assert!(!p.editing(), "nothing to edit");
    p.next();
    assert_eq!(p.focused(), None);
}

/// Deleting the last row leaves the cursor on what is now last, rather than one
/// past the end where nothing would be focused on a full shelf.
#[test]
fn the_cursor_survives_the_row_under_it_going() {
    let mut p = shelf::Panel::new(notes(3));
    p.next();
    p.next();
    assert_eq!(p.focused(), Some(3));
    p.refresh(notes(2));
    assert_eq!(p.focused(), Some(2), "the last row, not past it");

    p.refresh(Vec::new());
    assert_eq!(p.focused(), None);
}

/// The cursor moves only while browsing: `j` is a letter once a note is being
/// typed, and the layer that binds it is off then.
#[test]
fn typing_a_note_pins_the_cursor() {
    let mut p = shelf::Panel::new(notes(3));
    p.begin_edit();
    assert_eq!(p.editing_value(), "note 0");
    p.next();
    p.next();
    assert_eq!(p.cursor(), 0);
    p.finish_edit();
    p.next();
    assert_eq!(p.cursor(), 1);
}
