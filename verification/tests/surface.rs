use pi::tui::bar::{body, lane_bar, live, next_checkout, refresh_tabs, tool_row, LaneState, Mark, Tab, Turn};
use pi::tui::intent::{read, secret_settings_set, split_editor, Intent};
use pi::tui::keys::{Action, Code, Key, Mode};
use pi::tui::line::{Line, Role, Style};
use pi::tui::looping::{Loops, Round};
use pi::tui::menu::Candidate;
use pi::tui::pane::{hold_back, Event, Pane};
use pi::tui::row::Row;
use pi::tui::screen::window;
use pi::tui::scroll::{absorb_growth, ScrollbackRows};
use pi::tui::surface::{
    arm_view, clip_text, close_run, fits_note, history_file, land_edit, land_rewind, let_through,
    mark_round, open_rewind, recovery, replay, rewind_turn, route, say_of, settle_compact, settle_run,
    step_loop, Compacted, Fate, Job, Node, Outcome, Ran, Rewound, Route,
};
use pi::tui::thinking::Thinking;
use pi::tui::transcript::{scrollback_from, Block, Body, Entry};
use pi::tui::ui::{Around, Input, Ui, FLASH};

fn said(text: &str) -> Line {
    Line::of(text, Style::of(Role::Plain))
}

fn thinking() -> Thinking {
    Thinking { next: 1, streaming: None, folded: true, last: true }
}

/// A closed reasoning block of id `id` and `n` lines in the scrollback.
fn block(id: u64, n: usize, folded: bool) -> Row {
    Row::reasoning(id, (1..=n).map(|i| said(&format!("line {i}"))).collect(), folded)
}

fn plain(rows: &[Line]) -> Vec<String> {
    rows.iter().map(|l| l.plain()).collect()
}

/// What the screen shows for a run in the middle of reasoning.
fn shown(t: &Thinking, partial: &str) -> Vec<String> {
    plain(&body(t, &Vec::new(), true, partial, &said(partial), 80, 9))
}

#[test]
fn a_secret_settings_set_is_detected_by_its_path() {
    assert!(secret_settings_set("/settings set api_key x"));
    assert!(secret_settings_set("/settings set models.flash.api_key x"));
    assert!(!secret_settings_set("/settings set models.flash.context_window 1000"));
    assert!(!secret_settings_set("/settings get api_key"));
    assert!(!secret_settings_set("/cost"));
}

/// Both scrollback producers draw block ids from one counter: two blocks sharing
/// a number is two blocks a lookup cannot tell apart.
#[test]
fn rebuilt_reasoning_blocks_get_ids_of_their_own() {
    let mut history = vec![Entry::User { id: 1, body: Body::Prompt("go".into()) }];
    for n in 0..3 {
        history.push(Entry::Assistant {
            id: 2 + n,
            blocks: vec![Block::Reasoning(vec![format!("thought {n}")])],
        });
    }
    let mut t = thinking();
    let (rows, _) = scrollback_from(&history, &[], "⚙", &mut t);
    let ids: Vec<u64> = rows.iter().filter_map(|r| r.block()).collect();
    assert_eq!(ids.len(), 3, "{} rows, {ids:?}", rows.len());
    let mut sorted = ids.clone();
    sorted.sort_unstable();
    sorted.dedup();
    assert_eq!(sorted.len(), 3, "two blocks share a number: {ids:?}");
    // And the counter moved, so a block streamed after the rebuild cannot land
    // on one of these.
    assert!(!ids.contains(&t.take_id()), "{ids:?}");
}

#[test]
fn a_pending_tool_row_spins_and_names_its_argument() {
    assert_eq!(tool_row(0, "read", "a.rs"), "⠋ read a.rs");
    // A tool with nothing worth showing keeps the row to a name.
    assert_eq!(tool_row(5, "spinner", ""), "⠴ spinner");
}

#[test]
fn a_shut_window_is_one_row_whatever_it_holds() {
    // Including the line still arriving: it is reasoning too, and putting it on
    // screen is the window this row exists to replace.
    let t = thinking();
    assert_eq!(shown(&t, "half a sentence"), vec!["thinking..."]);
}

#[test]
fn an_unfolded_block_streams_its_line_live() {
    // One switch on the last block: folded, the live row is the placeholder;
    // unfolded, it is the reasoning itself.
    let mut t = thinking();
    t.start(&mut Vec::new());
    t.last = false;
    assert_eq!(shown(&t, "half a sentence"), vec!["half a sentence"]);
    t.last = true;
    assert_eq!(shown(&t, "half a sentence"), vec!["thinking..."]);
}

#[test]
fn a_counted_block_needs_no_live_placeholder() {
    // The count row in the scrollback already stands for the folded block; a
    // second "thinking..." live row would show it twice.
    let mut t = thinking();
    t.start(&mut Vec::new());
    let scrollback = vec![block(1, 1, true)];
    let rows = body(&t, &scrollback, true, "half a sentence", &said("half a sentence"), 80, 9);
    assert!(rows.is_empty());
}

#[test]
fn toggling_moves_the_last_block_and_nothing_else() {
    // `ctrl+t` flips the block that is last now, and only it: the block pushed
    // out of last by the new one folds back to the switch.
    let mut t = thinking();
    let mut scrollback = vec![Row::reasoning(9, vec![said("old")], false)];
    t.start(&mut scrollback);
    scrollback.push(Row::reasoning(1, vec![said("new")], true));
    t.toggle_current(&mut scrollback);
    assert!(t.folded);
    assert!(scrollback[0].folded() == Some(true));
    assert!(scrollback[1].folded() == Some(false));
}

#[test]
fn a_finished_block_keeps_its_fold_until_the_next_question() {
    // An unfold survives the answer — a finished block is still last — and folds
    // back to the switch the moment a new input is submitted.
    let mut t = thinking();
    t.start(&mut Vec::new());
    let mut scrollback = vec![block(1, 1, t.birth_fold())];
    t.toggle_current(&mut scrollback);
    assert!(scrollback[0].folded() == Some(false));
    t.close_block();
    // Still last until the next question is asked.
    assert!(scrollback[0].folded() == Some(false));
    t.fold_previous(&mut scrollback);
    // The submitted question pushes it out of last: it folds to the switch.
    assert!(scrollback[0].folded() == Some(true));
    assert!(!t.birth_fold());
}

#[test]
fn a_finished_block_follows_a_global_unfold() {
    // The fold follows the switch both ways: a screen the global key opened
    // keeps its block open once the next question takes over.
    let mut t = Thinking { folded: false, ..thinking() };
    t.start(&mut Vec::new());
    let mut scrollback = vec![block(1, 1, t.birth_fold())];
    t.close_block();
    t.fold_previous(&mut scrollback);
    assert!(scrollback[0].folded() == Some(false));
}

#[test]
fn a_new_block_in_the_same_answer_folds_the_previous_and_inherits_the_flip() {
    // A second reasoning block in the same answer is the new last: the first one
    // folds back to the switch, and the second is born the way `ctrl+t` left the
    // last block.
    let mut t = thinking();
    t.start(&mut Vec::new());
    let mut scrollback = vec![block(1, 1, t.birth_fold())];
    t.toggle_current(&mut scrollback);
    assert!(scrollback[0].folded() == Some(false));
    t.close_block();
    t.start(&mut scrollback);
    scrollback.push(block(2, 1, t.birth_fold()));
    assert!(scrollback[0].folded() == Some(true));
    assert!(scrollback[1].folded() == Some(false));
}

#[test]
fn a_flip_before_the_first_line_lands_on_birth() {
    // `ctrl+t` on a block with no entry yet flips the last value, not the
    // switch: it outlives close_block, and it is not a one-shot.
    let mut t = thinking();
    t.start(&mut Vec::new());
    let mut scrollback: Vec<Row> = Vec::new();
    t.toggle_current(&mut scrollback);
    assert!(t.folded, "the switch itself is not touched");
    assert!(!t.birth_fold());
    t.close_block();
    assert!(!t.birth_fold());
    assert!(!t.birth_fold());
}

#[test]
fn the_live_placeholder_follows_the_streaming_entry() {
    // Once the block has an entry, the live region reads its own state, not the
    // last value: a block the user unfolded streams its lines even though the
    // switch still says folded.
    let mut t = thinking();
    t.start(&mut Vec::new());
    assert!(t.holds(true, &Vec::new()));
    let scrollback = vec![block(1, 1, false)];
    assert!(!t.holds(true, &scrollback));
}

#[test]
fn a_global_flip_takes_the_current_block_with_it() {
    // Everything else unfolded, the current block folded on its own. The global
    // key folds the whole screen — the current block keeps its fold, because the
    // fold is where the rest are going.
    let mut t = Thinking { folded: false, ..thinking() };
    t.start(&mut Vec::new());
    let mut scrollback = vec![Row::reasoning(1, vec![said("new")], true)];
    t.flip_all(&mut scrollback);
    assert!(t.folded);
    assert!(scrollback[0].folded() == Some(true));
}

#[test]
fn flipping_every_block_moves_the_switch_with_them() {
    // The global key folds or unfolds every block, the current one with the
    // rest, and moves the switch with them: rows and switch never disagree, so
    // the screen always folds back to a single state.
    let mut t = thinking();
    t.start(&mut Vec::new());
    let mut scrollback = vec![block(1, 1, true)];
    t.toggle_current(&mut scrollback); // unfold the current block on its own
    t.close_block();
    t.flip_all(&mut scrollback); // global fold
    assert!(!t.folded);
    assert!(scrollback.iter().all(|e| e.folded() == Some(false)));
    // The switch moved with them, so the next block is born unfolded.
    assert!(!t.birth_fold());
    // And a second global press folds the whole screen back.
    t.flip_all(&mut scrollback);
    assert!(t.folded);
    assert!(scrollback.iter().all(|e| e.folded() == Some(true)));
}

#[test]
fn the_answer_is_never_folded() {
    let t = thinking();
    assert!(!t.holds(false, &Vec::new()));
    let rows = body(&t, &Vec::new(), false, "hello", &said("hello"), 80, 9);
    assert_eq!(plain(&rows), vec!["hello"]);
}

#[test]
fn a_long_paragraph_is_trimmed_to_the_room_it_is_given() {
    let t = thinking();
    let long = "x".repeat(500);
    let rows = body(&t, &Vec::new(), false, &long, &said(&long), 80, 3);
    assert_eq!(rows.len(), 3);
}

#[test]
fn a_flip_applies_to_each_new_last_block_until_flipped_back() {
    // `ctrl+t` controls the last thinking block, whatever it is: the first one
    // is born unfolded, and each new block that takes over as last is born
    // unfolded too, while the one it displaces folds back to the switch.
    let mut t = thinking();

    // Startup: the key names a block that does not exist yet.
    t.toggle_current(&mut Vec::new());
    assert!(!t.birth_fold());

    // The first thinking block arrives and is the last one.
    t.start(&mut Vec::new());
    let mut scrollback = vec![block(1, 1, t.birth_fold())];
    assert!(scrollback[0].folded() == Some(false));
    t.close_block();

    // A tool call ends the block; the next thinking block is the new last, born
    // unfolded, and the first one folds back to the switch.
    t.start(&mut scrollback);
    scrollback.push(block(2, 1, t.birth_fold()));
    assert!(scrollback[0].folded() == Some(true));
    assert!(scrollback[1].folded() == Some(false));
}

/// One frame of the scrolled-up view: what the window shows, through the same
/// growth absorption a frame applies.
fn frame(
    content: &[String],
    room: usize,
    scroll: &mut usize,
    last_total: &mut Option<usize>,
) -> Vec<String> {
    let total = content.len();
    *scroll = absorb_growth(*scroll, *last_total, total);
    let (rows, s) = window(content.iter().map(|s| said(s)).collect(), 80, room, *scroll);
    *scroll = s;
    *last_total = Some(total);
    plain(&rows)
}

#[test]
fn a_scrolled_up_view_holds_until_the_user_scrolls_back() {
    // Scrolled two rows up from ten rows of history, rows 5-8 stay put as output
    // arrives below; only the user's own scroll moves them.
    let mut content: Vec<String> = (1..=10).map(|n| n.to_string()).collect();
    let (room, mut scroll, mut last_total) = (4usize, 0usize, None);
    scroll = scroll.saturating_add(2);
    let first = frame(&content, room, &mut scroll, &mut last_total);
    assert_eq!(first, vec!["5", "6", "7", "8"]);
    for n in 11..=15 {
        content.push(n.to_string());
        assert_eq!(
            frame(&content, room, &mut scroll, &mut last_total),
            first,
            "row {n} arriving moved the scrolled-up window"
        );
    }
    scroll = scroll.saturating_sub(1);
    assert_eq!(frame(&content, room, &mut scroll, &mut last_total), vec!["6", "7", "8", "9"]);
}

#[test]
fn rows_gone_below_the_window_leave_the_view_put() {
    // Rows removed below the window shrink the tail; the negative delta is
    // absorbed like a positive one and the window stays put.
    let mut content: Vec<String> = (1..=10).map(|n| n.to_string()).collect();
    let (room, mut scroll, mut last_total) = (4usize, 0usize, None);
    scroll = scroll.saturating_add(2);
    assert_eq!(frame(&content, room, &mut scroll, &mut last_total), vec!["5", "6", "7", "8"]);
    for n in 11..=15 {
        content.push(n.to_string());
        frame(&content, room, &mut scroll, &mut last_total);
    }
    content.truncate(10);
    assert_eq!(frame(&content, room, &mut scroll, &mut last_total), vec!["5", "6", "7", "8"]);
}

// ------------------------------------------------------------------ the bar

fn tabs(list: &[(Mark, &str)]) -> Vec<Tab> {
    list.iter().map(|(mark, name)| Tab { mark: *mark, name: name.to_string() }).collect()
}

fn test_ui(width: u16, height: u16) -> Ui {
    Ui::new(width, height, "›", ":")
}

fn around<'a>() -> Around<'a> {
    Around {
        bound: None,
        running: false,
        lane_running: false,
        now: 0,
        completions: &[],
        checkouts: &[],
        worktree: None,
    }
}

/// The bar reads as a row of names, not a scatter: the sign column holds only
/// what a lane is doing — the one in front says so in colour, and never with the
/// input prompt's own `\u{203a}`.
#[test]
fn the_lane_bar_separates_names_the_way_every_other_line_does() {
    let t = tabs(&[(Mark::Front, "pi-rs"), (Mark::Idle, "f1"), (Mark::Done, "f2")]);
    let bar = lane_bar(&t, 0, 80).expect("two lanes make a bar").plain();
    assert_eq!(bar, "pi-rs \u{b7} f1 \u{b7} \u{2713} f2");

    // Wide enough for the names, far too narrow once escapes are counted as
    // columns — the whole row still has to survive.
    let narrow = lane_bar(&t, 0, 30).expect("a bar").plain();
    assert!(!narrow.contains('\u{2026}'), "clipped a row that fits: {narrow}");
}

/// The input prompt's icon belongs to the line you type on.
#[test]
fn the_lane_bar_never_wears_the_input_prompt() {
    let t = tabs(&[(Mark::Front, "pi-rs"), (Mark::Idle, "f1")]);
    let bar = lane_bar(&t, 0, 80).expect("two lanes make a bar").plain();
    assert!(!bar.contains('›'), "the bar wears the prompt icon: {bar}");
}

/// The input line is the bottom row, and the bar sits above it as the edge of
/// the history.
#[test]
fn the_bar_sits_above_the_input_line() {
    let mut ui = test_ui(40, 8);
    let t = tabs(&[(Mark::Front, "pi-rs"), (Mark::Idle, "f1")]);
    let mut pane = Pane::new();
    let f = ui.flush(&mut pane, &around(), &t, &[], &said(""));
    assert!(f.input.last().expect("a drawn frame").starts_with('›'), "{:?}", f.input);
    assert_eq!(f.bar.expect("the bar").plain().trim(), "pi-rs \u{b7} f1");
}

/// A flash answers the keypress on the bar row and leaves no trace in the
/// transcript: it outranks the lane strip while it is up, and the strip comes
/// back on its own once the window passes.
#[test]
fn a_flash_takes_the_bar_row_and_gives_it_back() {
    let mut ui = test_ui(40, 8);
    let t = tabs(&[(Mark::Front, "pi-rs"), (Mark::Idle, "f1")]);
    let mut pane = Pane::new();
    let before = pane.scrollback.len();

    ui.say_flash("the only checkout there is", 0);
    let f = ui.flush(&mut pane, &around(), &t, &[], &said(""));
    assert_eq!(f.bar.expect("a bar").plain().trim(), "the only checkout there is");
    assert_eq!(pane.scrollback.len(), before, "a flash is not part of the transcript");

    // Past the window: the next frame is the one that drops it, which is what an
    // idle screen relies on.
    let late = Around { now: FLASH, ..around() };
    let f = ui.flush(&mut pane, &late, &t, &[], &said(""));
    assert_eq!(f.bar.expect("a bar").plain().trim(), "pi-rs \u{b7} f1");
    assert!(ui.flash.is_none(), "the expired flash was dropped");
}

/// The same notice landing again with nothing between it and the last one is one
/// row and a count, and only an unbroken run folds.
#[test]
fn the_same_notice_twice_running_is_one_row_and_a_count() {
    let mut pane = Pane::new();
    let shown = |pane: &Pane, i: usize| pane.scrollback[i].line(0, 80).0.plain();

    pane.say(said("nothing to rewind to"));
    pane.say(said("nothing to rewind to"));
    pane.say(said("nothing to rewind to"));
    assert_eq!(pane.scrollback.len(), 1);
    assert_eq!(shown(&pane, 0), "nothing to rewind to \u{d7}3");

    // Broken by another line, the next repeat starts its own row rather than
    // reaching back over it.
    pane.say(said("stopped"));
    pane.say(said("nothing to rewind to"));
    assert_eq!(pane.scrollback.len(), 3);
    assert_eq!(shown(&pane, 2), "nothing to rewind to");
}

/// `ctrl+o` walks the checkouts in a ring. Every checkout on disk is in it, not
/// only the open ones — the main one first, and a lane in it carries no name.
#[test]
fn ctrl_o_walks_to_the_next_checkout_and_wraps() {
    let trees: Vec<String> = ["pi-rs", "f1", "f2"].iter().map(|n| n.to_string()).collect();
    // The main checkout is the one a lane names as None.
    assert_eq!(next_checkout(&trees, None).as_deref(), Some("f1"));
    assert_eq!(next_checkout(&trees, Some("f1")).as_deref(), Some("f2"));
    // And round the end, back to the main one.
    assert_eq!(next_checkout(&trees, Some("f2")).as_deref(), Some("pi-rs"));
}

/// Nowhere to go is said, not walked to: one checkout has no next.
#[test]
fn a_lone_checkout_has_no_next() {
    assert_eq!(next_checkout(&["pi-rs".to_string()], None), None);
}

/// The view travels with its lane, but the editor is the surface's, so a draft
/// would outlive the switch.
#[test]
fn switching_checkouts_does_not_carry_a_draft_across() {
    let mut ui = test_ui(80, 24);
    ui.editor.set_line("half a thought meant for this lane");

    ui.leave_lane();

    assert_eq!(ui.editor.text(), "", "the draft stays with the lane it was typed at");
}

/// A flash belongs to the lane it answered.
#[test]
fn a_flash_does_not_follow_the_surface_to_another_lane() {
    let mut ui = test_ui(80, 24);
    let t = tabs(&[(Mark::Idle, "pi-rs"), (Mark::Front, "f1")]);
    ui.say_flash("nothing running to stop", 0);
    ui.leave_lane();
    assert!(ui.flash.is_none(), "the flash was left behind");
    let mut pane = Pane::new();
    let f = ui.flush(&mut pane, &around(), &t, &[], &said(""));
    assert_eq!(f.bar.expect("the strip").plain().trim(), "pi-rs \u{b7} f1");
}

/// And the key that asks for the switch still names the right destination.
#[test]
fn ctrl_o_asks_for_the_next_checkout() {
    let mut ui = test_ui(80, 24);
    let trees: Vec<String> = ["pi-rs", "f1"].iter().map(|n| n.to_string()).collect();
    let mut pane = Pane::new();
    let a = Around { bound: Some(Action::LaneNext), checkouts: &trees, ..around() };
    let ctrl_o = Input::Key(Key { code: Code::Char('o'), command: true });
    let intent = ui.key(&mut pane, ctrl_o, &a);
    assert!(matches!(&intent, Intent::Worktree(name) if name == "f1"), "{intent:?}");
}

/// The completion list is off during a run: a live menu would take Esc away from
/// the interrupt and leave the turn with no way to be stopped.
#[test]
fn esc_still_interrupts_a_run_with_a_command_word_in_the_editor() {
    let mut ui = test_ui(80, 24);
    ui.editor.set_line("/new");
    let offered = vec![Candidate {
        line: "/new".into(),
        show: "/new".into(),
        help: "a fresh session".into(),
        more: false,
    }];
    let mut pane = Pane::new();

    // The same line does offer a completion when nothing is running, so this
    // test fails if the guard goes rather than passing vacuously.
    assert!(!ui.menu(false, &offered).is_empty());
    assert!(ui.menu(true, &offered).is_empty(), "the editor is a queue during a run");

    let a = Around {
        bound: Some(Action::RunInterrupt),
        running: true,
        lane_running: true,
        completions: &offered,
        ..around()
    };
    let intent = ui.key(&mut pane, Input::Key(Key::plain(Code::Esc)), &a);
    assert!(matches!(intent, Intent::Interrupt), "{intent:?}");
}

/// The history area is what is left after the menu, the bar and the input.
#[test]
fn the_newest_row_survives_a_frame_with_the_lane_bar_on_it() {
    let mut ui = test_ui(40, 8);
    let t = tabs(&[(Mark::Front, "pi-rs"), (Mark::Idle, "f1")]);
    let mut pane = Pane::new();
    for i in 0..10 {
        pane.push_row(Row::notice(said(&format!("row-{i}"))));
    }
    let f = ui.flush(&mut pane, &around(), &t, &[], &said(""));
    assert_eq!(f.bar.as_ref().expect("the bar is on this frame").plain().trim(), "pi-rs · f1");
    let rows: Vec<String> = f.rows.iter().map(|(l, _)| l.plain()).collect();
    assert!(
        rows.iter().any(|r| r.trim() == "row-9"),
        "the newest row was pushed off the bottom: {rows:?}"
    );
    // Rows, bar and input fill the screen and no more.
    assert_eq!(f.rows.len() + 1 + f.input.len(), 8);
}

/// A run that begins no turn — a `!` command — spends no tokens, and a row of
/// dashes under it reads as a model call that cost nothing.
#[test]
fn a_bang_command_shows_no_token_counts() {
    let mut pane = Pane::new();
    arm_view(&mut pane, false, 0);
    let rows = plain(&live(&pane, true, &["0s".to_string()], &said(""), 0, 80, 10)).join("\n");
    assert!(rows.contains("esc to stop"), "the run is on: {rows}");
    assert!(!rows.contains(" in / "), "nothing was spent: {rows}");
}

/// The live region follows the lane's turn, not the clock beside it.
#[test]
fn the_live_region_ends_with_the_turn_and_not_with_the_clock() {
    let mut pane = Pane::new();
    arm_view(&mut pane, false, 0);
    let parts = ["3s".to_string()];
    assert!(
        plain(&live(&pane, true, &parts, &said(""), 0, 80, 10))
            .iter()
            .any(|r| r.contains("esc to stop")),
        "a running lane shows the line it can be stopped from"
    );
    assert!(
        !plain(&live(&pane, false, &parts, &said(""), 0, 80, 10))
            .iter()
            .any(|r| r.contains("esc to stop")),
        "the clock is still set; the turn is what says the run is over"
    );
}

#[test]
fn the_editor_setting_splits_into_a_program_and_its_arguments() {
    assert_eq!(split_editor("nvim"), ("nvim".into(), vec![]));
    assert_eq!(split_editor("code -w"), ("code".into(), vec!["-w".to_string()]));
    // Blank is what an unset variable already filtered out; `vi` is the same
    // answer either way rather than a program named "".
    assert_eq!(split_editor("   "), ("vi".into(), vec![]));
}

// --------------------------------------------------------------- modal keys

fn vim_ui() -> Ui {
    let mut ui = test_ui(80, 24);
    ui.set_vim(true, "jk", 500);
    ui
}

fn press(ui: &mut Ui, bound: Option<Action>, c: char, now: u64) -> Intent {
    let mut pane = Pane::new();
    let a = Around { bound, now, ..around() };
    ui.key(&mut pane, Input::Key(Key::plain(Code::Char(c))), &a)
}

fn mode(ui: &Ui) -> Option<Mode> {
    ui.vim.as_ref().map(|v| v.mode)
}

/// The sequence is read where unbound characters are typed, and its first half
/// is a real `j` on a real line until the `k` arrives.
#[test]
fn jk_leaves_insert_and_takes_its_first_half_back_off_the_line() {
    let mut ui = vim_ui();
    press(&mut ui, None, 'j', 0);
    assert_eq!(ui.editor.text(), "j", "a lone j is a j");
    assert_eq!(mode(&ui), Some(Mode::Insert));

    press(&mut ui, None, 'k', 10);
    assert_eq!(ui.editor.text(), "", "the j goes with the mode change");
    assert_eq!(mode(&ui), Some(Mode::Normal));
}

/// Outside the window the two characters are just two characters.
#[test]
fn a_j_left_behind_does_not_arm_a_later_k() {
    let mut ui = vim_ui();
    press(&mut ui, None, 'j', 0);
    press(&mut ui, None, 'k', 1000);
    assert_eq!(ui.editor.text(), "jk");
    assert_eq!(mode(&ui), Some(Mode::Insert));
}

/// A command between the halves breaks the sequence.
#[test]
fn a_bound_key_between_the_halves_breaks_the_sequence() {
    let mut ui = vim_ui();
    let mut pane = Pane::new();
    press(&mut ui, None, 'j', 0);
    let a = Around { bound: Some(Action::MoveCharLeft), now: 5, ..around() };
    ui.key(&mut pane, Input::Key(Key::plain(Code::Other)), &a);
    press(&mut ui, None, 'k', 10);

    assert_eq!(ui.editor.text(), "kj", "the caret had moved before the k");
    assert_eq!(mode(&ui), Some(Mode::Insert));
}

fn normal(ui: &mut Ui) {
    ui.vim.as_mut().unwrap().mode = Mode::Normal;
}

/// Normal has to refuse the keys it does not bind.
#[test]
fn an_unbound_character_types_nothing_in_normal() {
    let mut ui = vim_ui();
    ui.editor.set_line("hello");
    normal(&mut ui);

    press(&mut ui, None, 'z', 0);
    assert_eq!(ui.editor.text(), "hello");

    // And the keys it does bind still command.
    press(&mut ui, Some(Action::MoveLineStart), '0', 0);
    press(&mut ui, Some(Action::DeleteCharForward), 'x', 0);
    assert_eq!(ui.editor.text(), "ello");
}

/// The way back, and what `a` does that `i` does not.
#[test]
fn i_and_a_return_to_insert_on_either_side_of_the_caret() {
    let mut ui = vim_ui();
    ui.editor.set_line("ab");
    normal(&mut ui);

    press(&mut ui, Some(Action::MoveLineStart), '0', 0);
    press(&mut ui, Some(Action::ModeInsert), 'i', 0);
    assert_eq!(mode(&ui), Some(Mode::Insert));
    press(&mut ui, None, 'Z', 0);
    assert_eq!(ui.editor.text(), "Zab", "i types where the caret is");

    normal(&mut ui);
    press(&mut ui, Some(Action::MoveLineStart), '0', 0);
    press(&mut ui, Some(Action::ModeInsertAfter), 'a', 0);
    press(&mut ui, None, 'Y', 0);
    assert_eq!(ui.editor.text(), "ZYab", "a types past it");
}

/// `x` and `D` delete and stay in Normal; these delete the same ranges and
/// leave. The landing is the whole difference, so it is asserted twice.
#[test]
fn s_and_c_delete_their_range_and_land_in_insert() {
    let mut ui = vim_ui();
    ui.editor.set_line("abcd");
    normal(&mut ui);

    press(&mut ui, Some(Action::MoveLineStart), '0', 0);
    press(&mut ui, Some(Action::ChangeChar), 's', 0);
    assert_eq!(ui.editor.text(), "bcd");
    assert_eq!(mode(&ui), Some(Mode::Insert));
    press(&mut ui, None, 'Z', 0);
    assert_eq!(ui.editor.text(), "Zbcd", "s types where the character was");

    normal(&mut ui);
    press(&mut ui, Some(Action::MoveLineStart), '0', 0);
    press(&mut ui, Some(Action::MoveCharRight), 'l', 0);
    press(&mut ui, Some(Action::ChangeToLineEnd), 'C', 0);
    assert_eq!(ui.editor.text(), "Z");
    assert_eq!(mode(&ui), Some(Mode::Insert));
    press(&mut ui, None, 'Y', 0);
    assert_eq!(ui.editor.text(), "ZY", "C leaves the caret where it cut");
}

/// The mode outlives a submitted line, which is the whole reason it has to be
/// visible: the gutter says which one is up.
#[test]
fn the_gutter_says_which_mode_is_up() {
    let mut ui = vim_ui();
    let prompt = |ui: &Ui| ui.editor.view(40).0[0].clone();
    let insert = prompt(&ui);
    normal(&mut ui);
    ui.show_mode();
    assert_ne!(prompt(&ui), insert);
    ui.leave_normal();
    assert_eq!(prompt(&ui), insert);
}

/// Turning the keys off is the one thing that moves the mode without a
/// keystroke.
#[test]
fn turning_the_keys_off_drops_the_mode_rather_than_parking_it() {
    let mut ui = vim_ui();
    normal(&mut ui);

    ui.set_vim(false, "jk", 500);
    assert!(ui.vim.is_none());

    ui.set_vim(true, "jk", 500);
    assert_eq!(mode(&ui), Some(Mode::Insert));
}

// ------------------------------------------------------------------ looping

/// What decides another round is the tree, so a pass that believes it is
/// finished is overruled by the file it just changed.
#[test]
fn a_loop_goes_round_while_the_tree_keeps_changing() {
    let mut lane = Loops::new();
    lane.loop_start("/code-review high".into());

    lane.loop_running();
    lane.note_write();
    let again = lane.loop_step(true, None).expect("a loop is in force");
    assert!(
        matches!(&again, Round::Again { goal, next: 2 } if goal == "/code-review high"),
        "the goal goes back verbatim, as the round it now is",
    );

    // The same file again. What a loop like this does most of the time is keep
    // working the files it has already touched.
    lane.loop_running();
    lane.note_write();
    assert!(matches!(lane.loop_step(true, None), Some(Round::Again { next: 3, .. })));

    // Nothing changed: a pass with nothing to do has nothing to do next time
    // either.
    lane.loop_running();
    assert!(matches!(lane.loop_step(true, None), Some(Round::Quiet)));
    assert!(lane.looping.is_none(), "and the loop is gone");
    assert!(lane.loop_step(true, None).is_none(), "a later turn is not a round");
}

/// A line typed between rounds ends a turn too. Counting it would move the loop
/// on work it never ran — and end it, if that line wrote nothing.
#[test]
fn a_turn_the_loop_did_not_start_is_not_one_of_its_rounds() {
    let mut lane = Loops::new();
    lane.loop_start("go".into());

    // Somebody else's turn settling, mid-loop.
    assert!(lane.loop_step(true, None).is_none(), "not the loop's round");
    assert!(lane.looping.is_some(), "and the loop is untouched");
    assert_eq!(lane.looping.as_ref().map(|l| l.round), Some(0));

    lane.loop_running();
    lane.note_write();
    assert!(matches!(lane.loop_step(true, None), Some(Round::Again { next: 2, .. })));
}

/// Esc is the only brake when `loop_max_turns` is unset, so it has to stop the
/// loop and not merely the round it caught.
#[test]
fn a_cut_round_takes_the_loop_with_it() {
    let mut lane = Loops::new();
    lane.loop_start("go".into());
    lane.loop_running();
    lane.note_write();
    assert!(matches!(lane.loop_step(false, None), Some(Round::Cut)));
    assert!(lane.looping.is_none());
}

/// The ceiling exists for the one shape convergence cannot catch: a round that
/// undoes the last one changes files forever.
#[test]
fn a_loop_stops_at_the_configured_ceiling_with_work_still_left() {
    let mut lane = Loops::new();
    lane.loop_start("go".into());
    lane.loop_running();
    lane.note_write();
    assert!(matches!(lane.loop_step(true, Some(1)), Some(Round::Capped(1))));
    assert!(lane.looping.is_none());

    // Unset, the same round goes on: the ceiling is a config, not a default.
    lane.loop_start("go".into());
    lane.loop_running();
    lane.note_write();
    assert!(matches!(lane.loop_step(true, None), Some(Round::Again { .. })));
}

/// A round can outlive the loop that queued it — the surface drops those, and
/// nothing about them may arm a loop that is over.
#[test]
fn a_loop_that_has_ended_cannot_be_revived_by_a_stale_round() {
    let mut lane = Loops::new();
    lane.loop_start("go".into());
    lane.loop_running();
    assert!(matches!(lane.loop_step(true, None), Some(Round::Quiet)));

    // What a `LoopRound` still sitting in the queue would do on its way through:
    // neither of these may bring the loop back.
    lane.loop_running();
    lane.note_write();
    assert!(lane.looping.is_none(), "no loop to mark as running");
    assert!(lane.loop_step(true, None).is_none(), "and none to step");
}

/// A loop whose goal is another loop would arm itself every round.
#[test]
fn a_loop_cannot_be_read_as_its_own_goal() {
    assert!(matches!(read("/loop go"), Intent::Loop(_)));
}

// ----------------------------------------------------------------- the door

#[test]
fn a_working_lane_queues_or_refuses_and_an_idle_one_admits() {
    let mut ui = test_ui(80, 24);
    let mut pane = Pane::new();
    let go = || Intent::Submit("go".into());
    assert!(let_through(&mut ui, &mut pane, go(), false, Fate::Refused("no".into()), 0).is_some());
    assert!(let_through(&mut ui, &mut pane, go(), true, Fate::Now, 0).is_some());
    assert!(let_through(&mut ui, &mut pane, go(), true, Fate::Queued, 0).is_none());
    assert_eq!(pane.queued.len(), 1);
    assert!(let_through(&mut ui, &mut pane, go(), true, Fate::Refused("not now".into()), 7).is_none());
    assert_eq!(ui.flash, Some(("not now".into(), 7)));
    assert!(pane.take_queued(true).is_none());
    assert!(matches!(pane.take_queued(false), Some(Intent::Submit(l)) if l == "go"));
    assert!(pane.take_queued(false).is_none());
}

fn texts(pane: &Pane) -> Vec<String> {
    let mut it = ScrollbackRows::new(&pane.scrollback, 80);
    let mut out = Vec::new();
    while let Some((l, _)) = it.next() {
        out.push(l.plain());
    }
    out
}

#[test]
fn a_loop_is_armed_run_and_stopped() {
    let mut ui = test_ui(80, 24);
    let mut pane = Pane::new();
    let mut loops = Loops::new();

    // Nothing to stop yet.
    route(&mut ui, &mut pane, &mut loops, Intent::Loop("  ".into()), 1);
    assert!(ui.flash.as_ref().unwrap().0.starts_with("no loop here"));

    let r = route(&mut ui, &mut pane, &mut loops, Intent::Submit("/loop fix it".into()), 2);
    assert_eq!(r, Route::Done);
    assert!(matches!(pane.queued.last(), Some(Intent::LoopRound(g)) if g == "fix it"));

    // A second loop is refused, and so is a loop of a loop.
    route(&mut ui, &mut pane, &mut loops, Intent::Loop("other".into()), 3);
    assert_eq!(ui.flash.as_ref().unwrap().0, "`fix it` is already looping here — /loop to stop it first");

    let queued = pane.take_queued(false).unwrap();
    match route(&mut ui, &mut pane, &mut loops, queued, 4) {
        Route::Run { intent: Intent::Line(l), from_loop: true, remember: false } => assert_eq!(l, "fix it"),
        other => panic!("{other:?}"),
    }
    assert_eq!(mark_round(&mut loops, true), None);
    loops.note_write();
    assert_eq!(step_loop(&mut pane, &mut loops, true, None).as_deref(), Some("loop round 2"));
    assert!(matches!(pane.queued.last(), Some(Intent::LoopRound(_))));

    // Stopped between rounds: the queued round goes with it.
    route(&mut ui, &mut pane, &mut loops, Intent::Loop("".into()), 5);
    assert!(pane.queued.is_empty());
    assert_eq!(texts(&pane).last().unwrap(), "loop stopped after 1 round(s) of `fix it`");

    // A round left behind does nothing.
    let before = texts(&pane);
    assert_eq!(route(&mut ui, &mut pane, &mut loops, Intent::LoopRound("fix it".into()), 6), Route::Done);
    assert_eq!(texts(&pane), before);

    route(&mut ui, &mut pane, &mut loops, Intent::Loop("/loop again".into()), 7);
    assert_eq!(ui.flash.as_ref().unwrap().0, "a loop cannot be its own goal");
}

#[test]
fn the_rounds_say_how_they_went() {
    let news = |finished: bool, wrote: bool, cap: Option<usize>| {
        let mut loops = Loops::new();
        let mut pane = Pane::new();
        loops.loop_start("go".into());
        loops.loop_running();
        if wrote {
            loops.note_write();
        }
        step_loop(&mut pane, &mut loops, finished, cap).unwrap()
    };
    assert_eq!(news(true, false, None), "loop done — that round changed nothing");
    assert_eq!(
        news(true, true, Some(1)),
        "loop stopped at loop_max_turns (1) — rounds were still changing files"
    );
    assert_eq!(news(false, true, None), "loop stopped");
    let mut loops = Loops::new();
    loops.loop_start("/cost".into());
    assert_eq!(
        mark_round(&mut loops, false).as_deref(),
        Some("loop ended — `/cost` starts no turn to measure")
    );
    assert!(loops.looping.is_none());
}

#[test]
fn the_surface_answers_what_is_its_own() {
    let mut ui = test_ui(80, 24);
    let mut pane = Pane::new();
    let mut loops = Loops::new();
    let mut go = |i: Intent| route(&mut ui, &mut pane, &mut loops, i, 0);
    assert_eq!(go(Intent::Nothing), Route::Done);
    assert_eq!(go(Intent::Interrupt), Route::Stop { unsend: false });
    assert_eq!(go(Intent::Unsend), Route::Stop { unsend: true });
    assert_eq!(go(Intent::OpenRewind), Route::OpenRewind);
    assert_eq!(go(Intent::Rewind(4)), Route::Rewind(4));
    assert_eq!(go(Intent::EditExternally), Route::EditExternally);
    assert_eq!(
        go(Intent::CommitSetting("model".into(), "x".into())),
        Route::CommitSetting("model".into(), "x".into())
    );
    assert_eq!(go(Intent::Submit("/settings".into())), Route::OpenSettings);
    assert!(matches!(
        go(Intent::Submit("/settings get model".into())),
        Route::Run { intent: Intent::Settings(_), from_loop: false, remember: true }
    ));
    assert!(matches!(go(Intent::New), Route::Run { intent: Intent::New, remember: false, .. }));
    drop(go);
    // A submitted line is echoed before it is read.
    assert!(texts(&pane).iter().any(|r| r.contains("/settings get model")));
}

#[test]
fn news_from_another_lane_names_it() {
    let mut pane = Pane::new();
    say_of(&mut pane, true, None, "done", Role::Plain);
    say_of(&mut pane, false, None, "done", Role::Plain);
    say_of(&mut pane, false, Some("f1"), "done", Role::Plain);
    say_of(&mut pane, false, Some("f1"), "stopped", Role::Muted);
    assert_eq!(texts(&pane), ["done", "the main checkout: done", "f1: done", "f1: stopped"]);
}

// ----------------------------------------------------------------- settling

fn job() -> Job {
    Job {
        turn: true,
        came_back: true,
        recovered: true,
        ok: false,
        unsend: false,
        front: true,
    }
}

#[test]
fn a_stopped_command_of_the_users_is_not_a_cancelled_request() {
    assert!(settle_run(&job()).note_outcome, "a stopped turn still has to be named");
    assert!(!settle_run(&Job { turn: false, ..job() }).note_outcome);
    assert!(!settle_run(&Job { unsend: true, ..job() }).note_outcome);
}

#[test]
fn settling_saves_only_what_came_back() {
    assert!(!settle_run(&Job { recovered: false, ..job() }).save);
    let away = settle_run(&Job { front: false, unsend: true, ..job() });
    assert!(!away.finish_turn);
    assert!(settle_run(&Job { ok: true, ..job() }).count);
    assert_eq!(settle_compact(true, false, true), Compacted::Report { save: true });
    assert_eq!(settle_compact(false, true, true), Compacted::Stopped);
    assert_eq!(settle_compact(false, false, true), Compacted::Fits);
    assert_eq!(settle_compact(false, false, false), Compacted::Lost);
    assert_eq!(
        fits_note(9000, 20000),
        "nothing to compact — 9000 tokens, all inside the 20000 kept as working context"
    );
    assert_eq!(
        recovery("turn", None),
        "the turn did not finish — back to the transcript as last saved"
    );
    assert_eq!(
        recovery("turn", Some("gone")),
        "the turn did not finish and its transcript could not be read back (gone) — /new or /resume to use this checkout again"
    );
}

#[test]
fn a_run_that_ends_leaves_nothing_running() {
    let mut pane = Pane::new();
    arm_view(&mut pane, false, 5);
    pane.on_event(Event::ToolStart { id: "1".into(), name: "bash".into(), summary: "ls".into() });
    pane.on_event(Event::TextDelta("half a line".into()));
    close_run(&mut pane, "⚙", &Outcome::Failed("no route".into()));
    assert!(pane.tools.is_empty() && pane.started.is_none() && pane.partial.is_empty());
    assert_eq!(texts(&pane).last().unwrap(), "error no route");
    let mut pane = Pane::new();
    close_run(&mut pane, "⚙", &Outcome::Cancelled);
    assert_eq!(texts(&pane), ["stopped"]);
    close_run(&mut pane, "⚙", &Outcome::Done);
    assert_eq!(texts(&pane), ["stopped"]);
}

#[test]
fn a_backlog_reads_as_if_it_had_been_watched() {
    let events = || {
        vec![
            Event::TextDelta("one ".into()),
            Event::TextDelta("line\nand ".into()),
            Event::TextDelta("more".into()),
            Event::Done { run: None },
        ]
    };
    let mut watched = Pane::new();
    for e in events() {
        watched.on_event(e);
    }
    let mut held = Vec::new();
    for e in events() {
        hold_back(&mut held, e);
    }
    assert!(held.len() < 4, "deltas join while nobody looks");
    let mut away = Pane::new();
    replay(&mut away, held);
    assert_eq!(texts(&away), texts(&watched));
    assert_eq!(texts(&away), ["one line", "and more"]);
}

// ---------------------------------------------------------------- rewinding

#[test]
fn a_prompt_taken_back_lands_in_an_empty_line_only() {
    let mut ui = test_ui(80, 24);
    let mut pane = Pane::new();
    land_rewind(&mut ui, &mut pane, &Rewound::Unsent("ask again".into()), 0);
    assert_eq!(ui.editor.text(), "ask again");
    assert_eq!(texts(&pane).last().unwrap(), "unsent — the message is back in the editor");
    land_rewind(&mut ui, &mut pane, &Rewound::Unsent("older".into()), 0);
    assert_eq!(ui.editor.text(), "ask again", "the newer intent stands");
    assert_eq!(
        texts(&pane).last().unwrap(),
        "unsent — the line you were typing stands; Up recalls it"
    );
    land_rewind(&mut ui, &mut pane, &Rewound::Kept(Some("y".repeat(70))), 0);
    let at = format!("rewound — the transcript now ends at {}…", "y".repeat(59));
    let shown: String = texts(&pane).last().unwrap().clone();
    assert_eq!(shown, at);
    land_rewind(&mut ui, &mut pane, &Rewound::Kept(None), 0);
    assert_eq!(texts(&pane).last().unwrap(), "rewound");
    land_rewind(&mut ui, &mut pane, &Rewound::Failed("disk full".into()), 0);
    assert_eq!(texts(&pane).last().unwrap(), "warning: the transcript was not saved: disk full");
    land_rewind(&mut ui, &mut pane, &Rewound::Nothing, 9);
    assert_eq!(ui.flash, Some(("nothing to rewind to".into(), 9)));
    assert_eq!(clip_text("short", 60), "short");
}

#[test]
fn the_selector_lists_every_point() {
    let mut ui = test_ui(80, 24);
    open_rewind(&mut ui, &[], 2);
    assert_eq!(ui.flash, Some(("nothing to rewind to".into(), 2)));
    let nodes = [
        Node { id: 1, show: "ask".into(), ask: true },
        Node { id: 2, show: "answer".into(), ask: false },
    ];
    open_rewind(&mut ui, &nodes, 3);
    assert_eq!(ui.rewind.len(), 2);
    assert_eq!(ui.rewind[0].help(), "you — unsends it");
    assert_eq!(ui.rewind[1].help(), "model — carries on from here");
    assert_eq!(ui.picked, Some(1), "the newest is beside the line");
}

// -------------------------------------------------------- the user's editor

#[test]
fn the_users_editor_hands_the_line_back() {
    let mut ui = test_ui(80, 24);
    let mut pane = Pane::new();
    let keep = land_edit(&mut ui, &mut pane, &Ran::Saved("new line\n\n".into()), None, "/tmp/x", 1);
    assert!(!keep);
    assert_eq!(ui.editor.text(), "new line");
    assert!(ui.flash.is_none());
    let keep = land_edit(&mut ui, &mut pane, &Ran::Exited("1".into()), None, "/tmp/x", 2);
    assert!(!keep);
    assert_eq!(ui.flash.as_ref().unwrap().0, "editor exited 1 — the line is unchanged");
    assert!(land_edit(&mut ui, &mut pane, &Ran::Unread("gone".into()), None, "/tmp/x", 3));
    assert_eq!(ui.flash.as_ref().unwrap().0, "saved at /tmp/x — could not read it back: gone");
    land_edit(&mut ui, &mut pane, &Ran::NotStarted("ENOENT".into()), None, "/tmp/x", 4);
    assert_eq!(ui.flash.as_ref().unwrap().0, "could not run the editor: ENOENT");
    land_edit(&mut ui, &mut pane, &Ran::Lost("panicked".into()), None, "/tmp/x", 5);
    assert_eq!(ui.flash.as_ref().unwrap().0, "the editor did not run: panicked");
    // A save that succeeded is still a save when the screen comes back badly.
    let keep = land_edit(&mut ui, &mut pane, &Ran::Saved("kept".into()), Some("EIO"), "/tmp/x", 6);
    assert!(keep);
    assert_eq!(ui.editor.text(), "kept");
    assert_eq!(ui.flash.as_ref().unwrap().0, "the screen did not come back: EIO — line at /tmp/x");
}

#[test]
fn the_history_file_keeps_the_last_thousand_lines() {
    let mut ui = test_ui(80, 24);
    let lines: Vec<String> = (0..1200).map(|i| format!("line {i}")).collect();
    ui.editor.seed_history(lines);
    let body = history_file(&ui.editor);
    assert_eq!(body.lines().count(), 1000);
    assert_eq!(body.lines().next(), Some("line 200"));
    assert_eq!(body.lines().last(), Some("line 1199"));
}

#[test]
fn a_lane_that_ended_out_of_sight_wears_its_mark() {
    let lane = |name: &str, turn: Turn| LaneState { name: name.into(), turn };
    let lanes = [
        lane("a", Turn::Ended { ok: true }),
        lane("b", Turn::Running),
        lane("c", Turn::Ended { ok: true }),
        lane("d", Turn::Ended { ok: false }),
        lane("e", Turn::Idle),
    ];
    let marks: Vec<Mark> = refresh_tabs(&lanes, 0).iter().map(|t| t.mark).collect();
    assert_eq!(marks, [Mark::Front, Mark::Running, Mark::Done, Mark::Failed, Mark::Idle]);
}

#[test]
fn a_reopened_view_keeps_the_conversation_under_its_banner() {
    let mut pane = Pane::opening("1.0", &["AGENTS.md".into()]);
    pane.say(said("what was said before"));
    pane.reopen("2.0", &[]);
    assert_eq!(texts(&pane), ["π 2.0", "what was said before"]);
    assert_eq!(pane.opened, 1);
}

#[test]
fn block_ids_rise_over_a_whole_history() {
    let history = vec![
        Entry::Assistant {
            id: 1,
            blocks: vec![
                Block::Reasoning(vec!["a".into()]),
                Block::Text("said".into()),
                Block::Reasoning(vec!["b".into()]),
            ],
        },
        Entry::User { id: 2, body: Body::Prompt("go on".into()) },
        Entry::Assistant { id: 3, blocks: vec![Block::Reasoning(vec!["c".into()])] },
    ];
    let mut t = thinking();
    let first = t.next;
    let (rows, _) = scrollback_from(&history, &[], "⚙", &mut t);
    let ids: Vec<u64> = rows.iter().filter_map(|r| r.block()).collect();
    assert_eq!(ids, vec![first, first + 1, first + 2]);
    assert_eq!(t.next, first + 3);
}

#[test]
fn a_rewind_shows_the_conversation_and_then_says_what_it_left() {
    let mut ui = test_ui(80, 24);
    let mut pane = Pane::new();
    pane.say(Line::of("forgotten", Style::of(Role::Muted)));
    let history = vec![
        Entry::User { id: 1, body: Body::Prompt("go".into()) },
        Entry::Assistant { id: 2, blocks: vec![Block::Text("done".into())] },
    ];
    let left = Rewound::Kept(Some("done".into()));
    rewind_turn(&mut ui, &mut pane, &left, Some((history.as_slice(), &[][..])), "⚙", 0);
    let shown = texts(&pane);
    assert_eq!(shown.last().unwrap(), "rewound — the transcript now ends at done");
    assert_eq!(shown.len(), 3, "{shown:?}");
    assert!(!shown.iter().any(|r| r.contains("forgotten")), "{shown:?}");

    // Nothing was cut, or the cut was not saved: the screen stands.
    for out in [Rewound::Nothing, Rewound::Failed("disk full".into())] {
        let mut pane = Pane::new();
        pane.say(Line::of("kept", Style::of(Role::Muted)));
        rewind_turn(&mut ui, &mut pane, &out, Some((history.as_slice(), &[][..])), "⚙", 0);
        assert_eq!(texts(&pane)[0], "kept");
    }
    // A lane without a session has nothing to rebuild from.
    let mut pane = Pane::new();
    pane.say(Line::of("kept", Style::of(Role::Muted)));
    rewind_turn(&mut ui, &mut pane, &Rewound::Kept(None), None, "⚙", 0);
    assert_eq!(texts(&pane), ["kept", "rewound"]);
}

#[test]
fn a_shell_line_wears_the_bare_bang() {
    let mut ui = test_ui(80, 24);
    ui.show_mode();
    ui.editor.insert_str("!a");
    assert_eq!(ui.editor.view(40), (vec!["!a".to_string()], (0, 2)));
    // And a wrapped one stays inside the width.
    ui.editor.insert_str("bcdefgh");
    let (rows, _) = ui.editor.view(6);
    assert_eq!(rows, ["!abcde", " fgh"]);
}
