//! The one keyboard: what a press does to the line, the menus and the view, and
//! what it asks the loop for.

use crate::text::{blank, chars_of, is_blank, same_str, string_of, texts};
use crate::tui::bar::{next_checkout, next_of, opt_view};
use crate::tui::editor::{
    after_down, after_up, gutter, next_word, prompt_of, remembered, Editor, EditorView,
};
use crate::tui::intent::{line_intent, secret_settings_set, sets_secret, Intent, IntentView};
use crate::tui::keys::{
    back_deleted, edit, edited, fore_deleted, stepped, types, Action, Code, Key, Mode,
};
use crate::tui::menu::{
    bottom_up, candidates_view, completions, copy_menu, menu_view, Candidate, CandidateView,
    MenuEntry, MenuView,
};
use crate::tui::pane::{Pane, PaneView};
use crate::tui::panel::since;
use crate::tui::scroll::{half_scroll_step, page_scroll_step, scrolled};
use crate::tui::settings::{one_down, one_up, Panel, PanelView};
use crate::tui::thinking::{all_folded, current_flipped, flipped, Thinking};
use crate::tui::vim::{after_typed, escape_pair_of, Typed, Vim};
use crate::width::row_columns;
use vstd::prelude::*;
use vstd::string::*;

verus! {

/// How close two presses must be to read as one deliberate one, in
/// milliseconds. A latching flag looks simpler and is wrong: clear one
/// half-typed line, type another, clear that, and the second clear would read
/// as the second half.
pub const DOUBLE_TAP: u64 = 500;

/// How long a flash stays on the bar row, in milliseconds.
pub const FLASH: u64 = 3000;

/// Whether a press lands inside the double-tap window of the previous one.
pub open spec fn tapped(last: Option<u64>, now: u64) -> bool {
    last matches Some(at) && since(at, now) < DOUBLE_TAP
}

/// Whether a press lands inside the double-tap window of the previous one; the
/// press is recorded either way.
pub fn double_tap(last: &mut Option<u64>, now: u64) -> (r: bool)
    ensures
        r == tapped(*old(last), now),
        *final(last) == Some(now),
{
    let hit = match *last {
        Some(at) => {
            let ago: u64 = if now >= at {
                now - at
            } else {
                0
            };
            ago < DOUBLE_TAP
        },
        None => false,
    };
    *last = Some(now);
    hit
}

/// What reaches the keyboard.
#[derive(Debug)]
pub enum Input {
    Resize(u16, u16),
    Paste(String),
    /// The wheel, up or down.
    Wheel(bool),
    Key(Key),
    /// Anything else, the release of a key with the rest: acting on it would
    /// double every keystroke where both are reported.
    Ignored,
}

/// What the keyboard needs to know of the rest.
pub struct Around<'a> {
    /// What the press is bound to.
    pub bound: Option<Action>,
    /// Whether the line is a queue for a run rather than a command line.
    pub running: bool,
    /// Whether the lane in front is working.
    pub lane_running: bool,
    /// The clock, in milliseconds.
    pub now: u64,
    /// What the line could still become, best first.
    pub completions: &'a [Candidate],
    /// The checkouts there are, the main one first.
    pub checkouts: &'a [String],
    /// The worktree of the lane in front.
    pub worktree: Option<&'a str>,
}

/// What the keyboard needs to know, with its texts as sequences.
#[verifier::ext_equal]
pub struct AroundView {
    pub bound: Option<Action>,
    pub running: bool,
    pub lane_running: bool,
    pub now: u64,
    pub completions: Seq<CandidateView>,
    pub checkouts: Seq<Seq<char>>,
    pub worktree: Option<Seq<char>>,
}

impl<'a> View for Around<'a> {
    type V = AroundView;

    open spec fn view(&self) -> AroundView {
        AroundView {
            bound: self.bound,
            running: self.running,
            lane_running: self.lane_running,
            now: self.now,
            completions: candidates_view(self.completions@),
            checkouts: texts(self.checkouts@),
            worktree: opt_view(self.worktree),
        }
    }
}

/// The one keyboard, the line being typed, and whatever menu is open over it.
pub struct Ui {
    pub editor: Editor,
    pub width: u16,
    pub height: u16,
    /// Which row of the open list is highlighted. `None` anchors a fresh list on
    /// its bottom row, the best match, beside the input line.
    pub picked: Option<usize>,
    /// The text the list was dismissed at. Any edit changes the text and the
    /// list comes back.
    pub dismissed_at: Option<String>,
    /// The open settings panel. While it is open it owns the menu rows and
    /// intercepts the menu keys before the editor does.
    pub settings: Option<Panel>,
    /// When the screen was last asked to clear.
    pub last_l: Option<u64>,
    pub last_interrupt: Option<u64>,
    /// When Esc was last pressed, for the rewind selector's double-tap.
    pub last_esc: Option<u64>,
    /// The rewind selector's rows, newest last. Empty is closed.
    pub rewind: Vec<MenuEntry>,
    pub spinner: usize,
    /// The modal keys, or none while they are off.
    pub vim: Option<Vim>,
    /// A note answering the last keypress, and when it landed.
    pub flash: Option<(String, u64)>,
    /// Whether the screen is to be cleared before the next frame.
    pub clear: bool,
    /// The prompt's icon, and the one it wears in Normal.
    pub icon: String,
    pub icon_normal: String,
}

/// The keyboard, with its texts as sequences.
#[verifier::ext_equal]
pub struct UiView {
    pub editor: EditorView,
    pub width: u16,
    pub height: u16,
    pub picked: Option<usize>,
    pub dismissed_at: Option<Seq<char>>,
    pub settings: Option<PanelView>,
    pub last_l: Option<u64>,
    pub last_interrupt: Option<u64>,
    pub last_esc: Option<u64>,
    pub rewind: Seq<MenuView>,
    pub spinner: int,
    pub vim: Option<Vim>,
    pub flash: Option<(Seq<char>, u64)>,
    pub clear: bool,
    pub icon: Seq<char>,
    pub icon_normal: Seq<char>,
}

impl View for Ui {
    type V = UiView;

    open spec fn view(&self) -> UiView {
        UiView {
            editor: self.editor.state(),
            width: self.width,
            height: self.height,
            picked: self.picked,
            dismissed_at: match self.dismissed_at {
                Some(s) => Some(s@),
                None => None,
            },
            settings: match self.settings {
                Some(p) => Some(p.state()),
                None => None,
            },
            last_l: self.last_l,
            last_interrupt: self.last_interrupt,
            last_esc: self.last_esc,
            rewind: menu_view(self.rewind@),
            spinner: self.spinner as int,
            vim: self.vim,
            flash: match self.flash {
                Some((s, at)) => Some((s@, at)),
                None => None,
            },
            clear: self.clear,
            icon: self.icon@,
            icon_normal: self.icon_normal@,
        }
    }
}

/// What a press left: the keyboard, the view, and what it asks for.
#[verifier::ext_equal]
pub struct Keyed {
    pub ui: UiView,
    pub pane: PaneView,
    pub intent: IntentView,
}

/// Nothing asked for.
pub open spec fn still(ui: UiView, pane: PaneView) -> Keyed {
    Keyed { ui, pane, intent: IntentView::Nothing }
}

/// Something asked for.
pub open spec fn asking(ui: UiView, pane: PaneView, intent: IntentView) -> Keyed {
    Keyed { ui, pane, intent }
}

/// What the line could still become: a completion while a command word is being
/// typed, or, with the rewind selector open, the messages a conversation can be
/// rewound to. Never during a run, when the editor is a queue, not a command
/// line.
pub open spec fn menu_of(ui: UiView, running: bool, offered: Seq<CandidateView>) -> Seq<MenuView> {
    if running || ui.settings is Some {
        Seq::empty()
    } else if ui.rewind.len() > 0 {
        ui.rewind
    } else if ui.dismissed_at == Some(ui.editor.text) {
        Seq::empty()
    } else {
        bottom_up(offered)
    }
}

/// Which row of a menu of `n` is highlighted, clamped: the list shrinks as the
/// word grows.
pub open spec fn picked_in(picked: Option<usize>, n: int) -> int {
    let last = if n > 0 {
        n - 1
    } else {
        0
    };
    match picked {
        Some(at) => if at < last {
            at as int
        } else {
            last
        },
        None => last,
    }
}

/// The highlighted row, if there is one.
pub open spec fn highlighted_of(ui: UiView, a: AroundView) -> Option<MenuView> {
    let menu = menu_of(ui, a.running, a.completions);
    if menu.len() == 0 {
        None
    } else {
        Some(menu[picked_in(ui.picked, menu.len() as int)])
    }
}

/// A flash on the bar row.
pub open spec fn flashed(ui: UiView, text: Seq<char>, now: u64) -> UiView {
    UiView { flash: Some((text, now)), ..ui }
}

/// The surface once it has left a lane: the draft, the flash and the rewind's
/// rows stay behind.
pub open spec fn left_lane(ui: UiView) -> UiView {
    UiView { editor: dropped(ui.editor), flash: None, rewind: Seq::empty(), ..ui }
}

/// The line handed over and remembered.
pub open spec fn taken(e: EditorView) -> EditorView {
    EditorView {
        text: Seq::empty(),
        caret: 0,
        history: remembered(e.history, e.text),
        at: remembered(e.history, e.text).len() as int,
        draft: Seq::empty(),
        ..e
    }
}

/// The line dropped.
pub open spec fn dropped(e: EditorView) -> EditorView {
    EditorView { text: Seq::empty(), caret: 0, at: e.history.len() as int, ..e }
}

/// The mode put where it can be seen: in the gutter's icon.
pub open spec fn mode_shown(ui: UiView) -> UiView {
    let icon = if ui.vim matches Some(v) && v.mode == Mode::Normal {
        ui.icon_normal
    } else {
        ui.icon
    };
    UiView {
        editor: EditorView {
            prompt: icon.push(' '),
            prompt_bang: seq!['!'],
            ..ui.editor
        },
        ..ui
    }
}

/// Back to Insert. The half-typed escape character goes with the mode.
pub open spec fn normal_left(ui: UiView) -> UiView {
    mode_shown(
        UiView {
            vim: match ui.vim {
                Some(v) => Some(Vim { mode: Mode::Insert, last: None, ..v }),
                None => None,
            },
            ..ui
        },
    )
}

/// A key that means something breaks the escape sequence.
pub open spec fn sequence_broken(ui: UiView) -> UiView {
    UiView {
        vim: match ui.vim {
            Some(v) => Some(Vim { last: None, ..v }),
            None => None,
        },
        ..ui
    }
}

/// The keyboard with another line.
pub open spec fn with_line_of(ui: UiView, e: EditorView) -> UiView {
    UiView { editor: e, ..ui }
}

/// One key, three meanings: stop the run, clear the line, or, pressed twice
/// inside the window, leave.
pub open spec fn cleared(ui: UiView, pane: PaneView, a: AroundView) -> Keyed {
    let q = UiView { last_interrupt: Some(a.now), ..ui };
    if tapped(ui.last_interrupt, a.now) {
        asking(q, pane, IntentView::Quit)
    } else if a.running {
        asking(q, pane, IntentView::Interrupt)
    } else if ui.editor.text.len() == 0 {
        still(flashed(q, "press it again to quit"@, a.now), pane)
    } else {
        still(with_line_of(q, dropped(ui.editor)), pane)
    }
}

/// A line to run, unless it is blank.
pub open spec fn submission(line: Seq<char>) -> IntentView {
    if blank(line) {
        IntentView::Nothing
    } else {
        IntentView::Submit(line)
    }
}

/// Whether a line may enter the recall history.
pub open spec fn recallable(line: Seq<char>) -> bool {
    !(line_intent(line) matches IntentView::Settings(rest) && sets_secret(rest))
}

/// Enter: while a menu is open it runs what the menu highlights; otherwise the
/// line, remembered unless it holds a secret.
pub open spec fn submitted(ui: UiView, pane: PaneView, a: AroundView) -> Keyed {
    match highlighted_of(ui, a) {
        Some(MenuView::Message { id, .. }) => asking(
            UiView { rewind: Seq::empty(), ..ui },
            pane,
            IntentView::Rewind(id),
        ),
        Some(MenuView::Completion(c)) => asking(
            with_line_of(ui, taken(ui.editor)),
            pane,
            submission(c.line),
        ),
        None => asking(
            with_line_of(
                ui,
                if recallable(ui.editor.text) {
                    taken(ui.editor)
                } else {
                    dropped(ui.editor)
                },
            ),
            pane,
            submission(ui.editor.text),
        ),
    }
}

/// What an action that asks the loop for something, or may, does.
pub open spec fn loop_action(ui: UiView, pane: PaneView, a: AroundView, act: Action) -> Option<
    Keyed,
> {
    match act {
        Action::LineClear => Some(cleared(ui, pane, a)),
        Action::LineSubmit => Some(submitted(ui, pane, a)),
        Action::EditExternally => Some(asking(ui, pane, IntentView::EditExternally)),
        Action::RunInterrupt => Some(
            asking(
                ui,
                pane,
                if ui.editor.text.len() == 0 && a.lane_running && !pane.committed {
                    IntentView::Unsend
                } else {
                    IntentView::Interrupt
                },
            ),
        ),
        Action::Rewind => Some(
            if ui.editor.text.len() > 0 {
                still(ui, pane)
            } else if tapped(ui.last_esc, a.now) {
                asking(UiView { last_esc: None, ..ui }, pane, IntentView::OpenRewind)
            } else {
                still(UiView { last_esc: Some(a.now), ..ui }, pane)
            },
        ),
        Action::LaneNext => Some(
            match next_of(a.checkouts, a.worktree) {
                Some(name) => asking(ui, pane, IntentView::Worktree(name)),
                None => still(flashed(ui, "the only checkout there is"@, a.now), pane),
            },
        ),
        Action::AppClearScreen => Some(
            if tapped(ui.last_l, a.now) {
                asking(UiView { last_l: None, ..ui }, pane, IntentView::New)
            } else {
                still(UiView { last_l: Some(a.now), clear: true, ..ui }, pane)
            },
        ),
        Action::AppExit => Some(
            if ui.editor.text.len() == 0 {
                asking(ui, pane, IntentView::Quit)
            } else {
                still(with_line_of(ui, fore_deleted(ui.editor)), pane)
            },
        ),
        _ => None,
    }
}

/// What an action on the line does to it, mode changes with the rest.
pub open spec fn line_action(ui: UiView, act: Action) -> Option<UiView> {
    let e = ui.editor;
    match act {
        Action::InsertNewline => Some(with_line_of(ui, e.inserted(seq!['\n']))),
        Action::MoveWordNext => Some(with_line_of(ui, e.moved(next_word(e.text, e.caret)))),
        Action::HistoryOlder => Some(with_line_of(ui, after_up(e))),
        Action::HistoryNewer => Some(with_line_of(ui, after_down(e))),
        Action::ModeInsert => Some(normal_left(ui)),
        Action::ModeInsertAfter => Some(normal_left(with_line_of(ui, stepped(e)))),
        Action::ModeInsertLineStart => Some(
            normal_left(with_line_of(ui, edited(e, Action::MoveLineStart)->Some_0)),
        ),
        Action::ModeInsertLineEnd => Some(
            normal_left(with_line_of(ui, edited(e, Action::MoveLineEnd)->Some_0)),
        ),
        Action::ChangeChar => Some(normal_left(with_line_of(ui, fore_deleted(e)))),
        Action::ChangeToLineEnd => Some(
            normal_left(with_line_of(ui, edited(e, Action::DeleteToLineEnd)->Some_0)),
        ),
        _ => match edited(e, act) {
            Some(line) => Some(with_line_of(ui, line)),
            None => None,
        },
    }
}

/// What an action on the view does to it.
pub open spec fn view_action(ui: UiView, pane: PaneView, act: Action) -> Option<PaneView> {
    let page = if ui.height >= 5 {
        ui.height - 4
    } else {
        1
    };
    let half = if ui.height >= 2 {
        ui.height as int / 2
    } else {
        1
    };
    match act {
        Action::ScrollPageUp => Some(scrolled(pane, true, page)),
        Action::ScrollPageDown => Some(scrolled(pane, false, page)),
        Action::ScrollHalfUp => Some(scrolled(pane, true, half)),
        Action::ScrollHalfDown => Some(scrolled(pane, false, half)),
        Action::ThinkFold => Some(
            PaneView {
                thinking: Thinking { last: !pane.thinking.last, ..pane.thinking },
                rows: current_flipped(pane.thinking, pane.rows, !pane.thinking.last),
                ..pane
            },
        ),
        // A fold-all reflows blocks above the view too; re-baseline.
        Action::ThinkFoldAll => Some(
            PaneView {
                thinking: flipped(pane.thinking),
                rows: all_folded(pane.rows, !pane.thinking.folded),
                counted: None,
                ..pane
            },
        ),
        _ => None,
    }
}

/// What an action on the menu does.
pub open spec fn menu_action(ui: UiView, pane: PaneView, a: AroundView, act: Action) -> Keyed {
    let n = menu_of(ui, a.running, a.completions).len() as int;
    let last = if n > 0 {
        n - 1
    } else {
        0
    };
    let at = picked_in(ui.picked, n);
    match act {
        Action::MenuAccept => match highlighted_of(ui, a) {
            Some(MenuView::Message { id, .. }) => asking(
                UiView { rewind: Seq::empty(), ..ui },
                pane,
                IntentView::Rewind(id),
            ),
            // Something still expected after it wants a space first.
            Some(MenuView::Completion(c)) => {
                let line = ui.editor.showing(c.line);
                still(
                    UiView {
                        editor: if c.more {
                            line.inserted(seq![' '])
                        } else {
                            line
                        },
                        picked: None,
                        ..ui
                    },
                    pane,
                )
            },
            None => still(ui, pane),
        },
        Action::MenuNext => still(
            UiView {
                picked: Some(
                    (if at < last {
                        at + 1
                    } else {
                        last
                    }) as usize,
                ),
                ..ui
            },
            pane,
        ),
        Action::MenuPrevious => still(
            UiView {
                picked: Some(
                    (if at > 0 {
                        at - 1
                    } else {
                        0
                    }) as usize,
                ),
                ..ui
            },
            pane,
        ),
        // The completion list is recorded against the text, so any edit brings
        // it back; the rewind selector dismisses without recording.
        Action::MenuDismiss => still(
            UiView {
                rewind: Seq::empty(),
                dismissed_at: if ui.rewind.len() > 0 {
                    ui.dismissed_at
                } else {
                    Some(ui.editor.text)
                },
                ..ui
            },
            pane,
        ),
        _ => still(ui, pane),
    }
}

/// What an unbound press types: nothing in Normal, and the second half of the
/// escape sequence takes the first back off the line.
pub open spec fn typed_in(ui: UiView, key: Key, now: u64) -> UiView {
    match types(key) {
        None => ui,
        Some(c) => match ui.vim {
            None => with_line_of(ui, ui.editor.inserted(seq![c])),
            Some(v) => {
                let (w, meant) = after_typed(v, c, now);
                let q = UiView { vim: Some(w), ..ui };
                match meant {
                    Typed::Ignore => q,
                    Typed::Escape => mode_shown(with_line_of(q, back_deleted(ui.editor))),
                    Typed::Insert => with_line_of(q, ui.editor.inserted(seq![c])),
                }
            },
        },
    }
}

/// What the settings panel makes of a press while it is open; nothing where it
/// leaves the press to the rest.
pub open spec fn settings_action(ui: UiView, pane: PaneView, a: AroundView, key: Key) -> Option<
    Keyed,
> {
    match ui.settings {
        None => None,
        Some(p) => {
            let with = |q: PanelView| UiView { settings: Some(q), ..ui };
            let focused = 0 <= p.at < p.rows.len();
            match a.bound {
                Some(Action::MenuNext) => Some(
                    still(
                        with(
                            if p.editing is None {
                                PanelView { at: one_down(p.at, p.rows.len() as int), ..p }
                            } else {
                                p
                            },
                        ),
                        pane,
                    ),
                ),
                Some(Action::MenuPrevious) => Some(
                    still(
                        with(
                            if p.editing is None {
                                PanelView { at: one_up(p.at), ..p }
                            } else {
                                p
                            },
                        ),
                        pane,
                    ),
                ),
                Some(Action::MenuAccept) => Some(
                    match p.editing {
                        Some(e) => asking(
                            ui,
                            pane,
                            if focused {
                                IntentView::CommitSetting(p.rows[p.at].0, e.text)
                            } else {
                                IntentView::Nothing
                            },
                        ),
                        None => still(
                            with(
                                if focused {
                                    PanelView {
                                        editing: Some(
                                            crate::tui::settings::blank_editor().showing(
                                                p.rows[p.at].1,
                                            ),
                                        ),
                                        error: None,
                                        ..p
                                    }
                                } else {
                                    p
                                },
                            ),
                            pane,
                        ),
                    },
                ),
                Some(Action::MenuDismiss) => Some(
                    match p.editing {
                        Some(_) => still(with(PanelView { editing: None, ..p }), pane),
                        None => still(UiView { settings: None, ..ui }, pane),
                    },
                ),
                _ => match p.editing {
                    None => None,
                    Some(e) => Some(
                        match types(key) {
                            Some(c) => still(
                                with(PanelView { editing: Some(e.inserted(seq![c])), ..p }),
                                pane,
                            ),
                            None => if a.bound == Some(Action::DeleteCharBack) {
                                still(
                                    with(PanelView { editing: Some(back_deleted(e)), ..p }),
                                    pane,
                                )
                            } else {
                                still(ui, pane)
                            },
                        },
                    ),
                },
            }
        },
    }
}

/// Whether an action leaves the rewind selector open.
pub open spec fn keeps_rewind(bound: Option<Action>) -> bool {
    match bound {
        Some(Action::MenuDismiss) => true,
        Some(Action::MenuAccept) => true,
        Some(Action::MenuNext) => true,
        Some(Action::MenuPrevious) => true,
        Some(Action::LineSubmit) => true,
        _ => false,
    }
}

/// What a press does once no panel has taken it.
pub open spec fn surface_action(ui: UiView, pane: PaneView, a: AroundView, key: Key) -> Keyed {
    let q = if keeps_rewind(a.bound) {
        ui
    } else {
        UiView { rewind: Seq::empty(), ..ui }
    };
    match a.bound {
        None => still(typed_in(q, key, a.now), pane),
        Some(act) => match loop_action(q, pane, a, act) {
            Some(k) => k,
            None => match line_action(q, act) {
                Some(u) => still(u, pane),
                None => match view_action(q, pane, act) {
                    Some(p) => still(q, p),
                    None => menu_action(q, pane, a, act),
                },
            },
        },
    }
}

/// What a press does. Any key other than Esc breaks the rewind double-tap, and
/// one that means something breaks the escape sequence.
pub open spec fn pressed(ui: UiView, pane: PaneView, a: AroundView, key: Key) -> Keyed {
    let q = if key.code == Code::Esc {
        ui
    } else {
        UiView { last_esc: None, ..ui }
    };
    let r = if a.bound is Some {
        sequence_broken(q)
    } else {
        q
    };
    match settings_action(r, pane, a, key) {
        Some(k) => k,
        None => surface_action(r, pane, a, key),
    }
}

/// A pasted text: carriage returns are line breaks.
pub open spec fn pasted(s: Seq<char>) -> Seq<char> {
    Seq::new(
        s.len(),
        |i: int|
            if s[i] == '\r' {
                '\n'
            } else {
                s[i]
            },
    )
}

/// What reaches the keyboard, with its texts as sequences.
#[verifier::ext_equal]
pub enum InputView {
    Resize(u16, u16),
    Paste(Seq<char>),
    Wheel(bool),
    Key(Key),
    Ignored,
}

impl View for Input {
    type V = InputView;

    open spec fn view(&self) -> InputView {
        match self {
            Input::Resize(w, h) => InputView::Resize(*w, *h),
            Input::Paste(s) => InputView::Paste(s@),
            Input::Wheel(up) => InputView::Wheel(*up),
            Input::Key(k) => InputView::Key(*k),
            Input::Ignored => InputView::Ignored,
        }
    }
}

/// What an input does.
pub open spec fn keyed(ui: UiView, pane: PaneView, a: AroundView, input: InputView) -> Keyed {
    match input {
        // Re-measuring starts at the new width: the re-wrap is a change of
        // layout, not output, and must not move the view.
        InputView::Resize(w, h) => still(
            UiView { width: w, height: h, ..ui },
            PaneView { counted: None, ..pane },
        ),
        InputView::Paste(s) => still(
            with_line_of(
                sequence_broken(UiView { last_esc: None, ..ui }),
                ui.editor.inserted(pasted(s)),
            ),
            pane,
        ),
        InputView::Wheel(up) => still(ui, scrolled(pane, up, 1)),
        InputView::Key(k) => pressed(ui, pane, a, k),
        InputView::Ignored => still(ui, pane),
    }
}

impl Ui {
    /// The line and the panel's line are ones an editor made.
    pub open spec fn valid(&self) -> bool {
        self.editor.state().valid() && (self.settings matches Some(p) ==> p.valid())
    }

    /// A keyboard with nothing typed.
    pub fn new(width: u16, height: u16, icon: &str, icon_normal: &str) -> (r: Ui)
        ensures
            r.valid(),
            r@ == mode_shown(
                UiView {
                    editor: crate::tui::settings::blank_editor(),
                    width,
                    height,
                    picked: None,
                    dismissed_at: None,
                    settings: None,
                    last_l: None,
                    last_interrupt: None,
                    last_esc: None,
                    rewind: Seq::empty(),
                    spinner: 0,
                    vim: None,
                    flash: None,
                    clear: false,
                    icon: icon@,
                    icon_normal: icon_normal@,
                },
            ),
    {
        let mut r = Ui {
            editor: Editor::default(),
            width,
            height,
            picked: None,
            dismissed_at: None,
            settings: None,
            last_l: None,
            last_interrupt: None,
            last_esc: None,
            rewind: Vec::new(),
            spinner: 0,
            vim: None,
            flash: None,
            clear: false,
            icon: icon.to_owned(),
            icon_normal: icon_normal.to_owned(),
        };
        assert(r@.rewind =~= Seq::empty());
        r.show_mode();
        r
    }

    /// Put the mode where it can be seen. This is what pays for the mode never
    /// resetting itself: a mode that persists and cannot be seen would be a
    /// trap.
    pub fn show_mode(&mut self)
        requires
            old(self).valid(),
        ensures
            final(self).valid(),
            final(self)@ == mode_shown(old(self)@),
    {
        let normal = match self.vim {
            Some(v) => match v.mode {
                Mode::Normal => true,
                Mode::Insert => false,
            },
            None => false,
        };
        let mut prompt = if normal {
            self.icon_normal.clone()
        } else {
            self.icon.clone()
        };
        prompt.push(' ');
        // The bare bang: the gutter of a `!` line is one column.
        let bang = "!".to_owned();
        proof {
            reveal_strlit("!");
            assert(bang@ =~= seq!['!']);
        }
        self.editor.set_prompts(prompt, bang);
    }

    /// Back to Insert.
    pub fn leave_normal(&mut self)
        requires
            old(self).valid(),
        ensures
            final(self).valid(),
            final(self)@ == normal_left(old(self)@),
    {
        let ghost before = self@;
        self.vim = match self.vim {
            Some(v) => Some(Vim { mode: Mode::Insert, last: None, ..v }),
            None => None,
        };
        self.show_mode();
    }

    /// Follow what the config says about the modal keys. Turning them off drops
    /// the state rather than parking it: coming back later in Normal, with no
    /// keystroke between having asked to go there, is the one surprise this has
    /// to rule out.
    pub fn set_vim(&mut self, enabled: bool, escape: &str, window: u64)
        requires
            old(self).valid(),
        ensures
            final(self).valid(),
            final(self)@ == mode_shown(
                UiView {
                    vim: if enabled {
                        Some(
                            Vim {
                                escape: escape_pair_of(escape@),
                                window,
                                mode: match old(self)@.vim {
                                    Some(v) => v.mode,
                                    None => Mode::Insert,
                                },
                                last: match old(self)@.vim {
                                    Some(v) => v.last,
                                    None => None,
                                },
                            },
                        )
                    } else {
                        None
                    },
                    ..old(self)@
                },
            ),
    {
        self.vim = if enabled {
            match self.vim {
                Some(v) => {
                    let mut v = v;
                    v.configure(escape, window);
                    Some(v)
                },
                None => Some(Vim::new(escape, window)),
            }
        } else {
            None
        };
        self.show_mode();
    }

    /// Answer one keypress on the bar row and leave nothing behind. The
    /// scrollback is a transcript, and what a press did not do is not part of
    /// one.
    pub fn say_flash(&mut self, line: &str, now: u64)
        requires
            old(self).valid(),
        ensures
            final(self).valid(),
            final(self)@ == flashed(old(self)@, line@, now),
    {
        self.flash = Some((line.to_owned(), now));
    }

    /// Leave the lane in front: the draft belongs to the lane it was typed at,
    /// and neither the flash nor the selector's rows follow the surface to the
    /// next checkout.
    pub fn leave_lane(&mut self)
        requires
            old(self).valid(),
        ensures
            final(self).valid(),
            final(self)@ == left_lane(old(self)@),
    {
        self.editor.clear();
        self.flash = None;
        self.rewind = Vec::new();
        assert(self@.rewind =~= Seq::empty());
    }

    /// Open the rewind selector on the given messages, newest selected first.
    pub fn open_rewind(&mut self, rows: Vec<MenuEntry>)
        requires
            old(self).valid(),
        ensures
            final(self).valid(),
            final(self)@ == (UiView {
                picked: Some(
                    (if rows@.len() > 0 {
                        rows@.len() - 1
                    } else {
                        0
                    }) as usize,
                ),
                rewind: menu_view(rows@),
                ..old(self)@
            }),
    {
        self.picked = Some(
            if rows.len() > 0 {
                rows.len() - 1
            } else {
                0
            },
        );
        self.rewind = rows;
    }

    /// What the line could still become.
    pub fn menu(&self, running: bool, offered: &[Candidate]) -> (r: Vec<MenuEntry>)
        ensures
            menu_view(r@) == menu_of(self@, running, candidates_view(offered@)),
    {
        let none: Vec<MenuEntry> = Vec::new();
        assert(menu_view(none@) =~= Seq::empty());
        if running || self.settings.is_some() {
            // The panel owns this space; the completion list waits.
            return none;
        }
        if self.rewind.len() > 0 {
            return copy_menu(self.rewind.as_slice());
        }
        if let Some(at) = &self.dismissed_at {
            if same_str(at.as_str(), self.editor.text()) {
                return none;
            }
        }
        completions(offered)
    }

    /// The highlighted row, clamped: the list shrinks as the word grows.
    pub fn highlighted(&self, a: &Around) -> (r: Option<MenuEntry>)
        ensures
            (match r {
                Some(m) => Some(m@),
                None => None,
            }) == highlighted_of(self@, a@),
    {
        let menu = self.menu(a.running, a.completions);
        let ghost all = menu_view(menu@);
        assert(all.len() == menu@.len());
        if menu.len() == 0 {
            return None;
        }
        let last: usize = menu.len() - 1;
        let at: usize = match self.picked {
            Some(at) => if at < last {
                at
            } else {
                last
            },
            None => last,
        };
        assert(all[at as int] == menu@[at as int]@);
        Some(menu[at].copy())
    }

    /// The line handed over: remembered, or dropped.
    fn take_line(&mut self, remember: bool) -> (r: String)
        requires
            old(self).valid(),
        ensures
            final(self).valid(),
            r@ == old(self)@.editor.text,
            final(self)@ == with_line_of(
                old(self)@,
                if remember {
                    taken(old(self)@.editor)
                } else {
                    dropped(old(self)@.editor)
                },
            ),
    {
        if remember {
            self.editor.take()
        } else {
            let line = self.editor.text().to_owned();
            self.editor.clear();
            line
        }
    }

    fn interrupt_or_clear(&mut self, a: &Around) -> (r: Intent)
        requires
            old(self).valid(),
        ensures
            final(self).valid(),
            forall|pane: PaneView| #[trigger]
                cleared(old(self)@, pane, a@) == (Keyed { ui: final(self)@, pane, intent: r@ }),
    {
        if double_tap(&mut self.last_interrupt, a.now) {
            return Intent::Quit;
        }
        if a.running {
            return Intent::Interrupt;
        }
        if self.editor.is_empty() {
            self.say_flash("press it again to quit", a.now);
        } else {
            self.editor.clear();
        }
        Intent::Nothing
    }

    fn submit_line(&mut self, a: &Around) -> (r: Intent)
        requires
            old(self).valid(),
        ensures
            final(self).valid(),
            forall|pane: PaneView| #[trigger]
                submitted(old(self)@, pane, a@) == (Keyed { ui: final(self)@, pane, intent: r@ }),
    {
        // The menu reads the editor, so pick before draining it.
        let line = match self.highlighted(a) {
            Some(MenuEntry::Message { id, .. }) => {
                self.rewind = Vec::new();
                assert(self@.rewind =~= Seq::empty());
                return Intent::Rewind(id);
            },
            Some(MenuEntry::Completion(c)) => {
                // The completion's line is what runs; the typed prefix that
                // produced it goes.
                let _ = self.take_line(true);
                c.line
            },
            None => {
                // A secret value must not reach the recall history, which is
                // written to disk in the clear.
                let remember = !secret_settings_set(self.editor.text());
                self.take_line(remember)
            },
        };
        let v = chars_of(line.as_str());
        if is_blank(v.as_slice()) {
            Intent::Nothing
        } else {
            Intent::Submit(line)
        }
    }

    fn act_for_loop(&mut self, pane: &Pane, a: &Around, act: Action) -> (r: Option<Intent>)
        requires
            old(self).valid(),
        ensures
            final(self).valid(),
            match loop_action(old(self)@, pane@, a@, act) {
                Some(k) => final(self)@ == k.ui && k.pane == pane@ && (r matches Some(i) && i@
                    == k.intent),
                None => r is None && final(self)@ == old(self)@,
            },
    {
        match act {
            Action::LineClear => {
                assert(cleared(old(self)@, pane@, a@).pane == pane@);
                Some(self.interrupt_or_clear(a))
            },
            Action::LineSubmit => {
                assert(submitted(old(self)@, pane@, a@).pane == pane@);
                Some(self.submit_line(a))
            },
            Action::EditExternally => Some(Intent::EditExternally),
            Action::RunInterrupt => {
                // Esc before the model has moved means "I didn't mean to send
                // that"; an empty editor, or unsending overwrites a line.
                if self.editor.is_empty() && a.lane_running && !pane.committed {
                    Some(Intent::Unsend)
                } else {
                    Some(Intent::Interrupt)
                }
            },
            Action::Rewind => {
                if !self.editor.is_empty() {
                    return Some(Intent::Nothing);
                }
                if double_tap(&mut self.last_esc, a.now) {
                    self.last_esc = None;
                    return Some(Intent::OpenRewind);
                }
                Some(Intent::Nothing)
            },
            Action::LaneNext => {
                match next_checkout(a.checkouts, a.worktree) {
                    Some(name) => Some(Intent::Worktree(name)),
                    None => {
                        self.say_flash("the only checkout there is", a.now);
                        Some(Intent::Nothing)
                    },
                }
            },
            Action::AppClearScreen => {
                if double_tap(&mut self.last_l, a.now) {
                    self.last_l = None;
                    return Some(Intent::New);
                }
                self.clear = true;
                Some(Intent::Nothing)
            },
            Action::AppExit => {
                if self.editor.is_empty() {
                    Some(Intent::Quit)
                } else {
                    self.editor.delete();
                    Some(Intent::Nothing)
                }
            },
            _ => None,
        }
    }

    fn act_on_line(&mut self, act: Action) -> (r: bool)
        requires
            old(self).valid(),
        ensures
            final(self).valid(),
            match line_action(old(self)@, act) {
                Some(u) => r && final(self)@ == u,
                None => !r && final(self)@ == old(self)@,
            },
    {
        match act {
            Action::InsertNewline => self.editor.insert('\n'),
            Action::MoveWordNext => self.editor.word_next(),
            Action::HistoryOlder => self.editor.up(),
            Action::HistoryNewer => self.editor.down(),
            Action::ModeInsert => self.leave_normal(),
            Action::ModeInsertAfter => {
                self.editor.right();
                self.leave_normal();
            },
            Action::ModeInsertLineStart => {
                self.editor.home();
                self.leave_normal();
            },
            Action::ModeInsertLineEnd => {
                self.editor.end();
                self.leave_normal();
            },
            Action::ChangeChar => {
                self.editor.delete();
                self.leave_normal();
            },
            Action::ChangeToLineEnd => {
                self.editor.kill_to_end();
                self.leave_normal();
            },
            _ => {
                return edit(&mut self.editor, act);
            },
        }
        true
    }

    fn act_on_view(&self, pane: &mut Pane, act: Action) -> (r: bool)
        requires
            old(pane).valid(),
        ensures
            final(pane).valid(),
            match view_action(self@, old(pane)@, act) {
                Some(p) => r && final(pane)@ == p,
                None => !r && final(pane)@ == old(pane)@,
            },
    {
        match act {
            Action::ScrollPageUp => pane.scroll_view(true, page_scroll_step(self.height)),
            Action::ScrollPageDown => pane.scroll_view(false, page_scroll_step(self.height)),
            Action::ScrollHalfUp => pane.scroll_view(true, half_scroll_step(self.height)),
            Action::ScrollHalfDown => pane.scroll_view(false, half_scroll_step(self.height)),
            Action::ThinkFold => {
                pane.thinking.toggle_current(&mut pane.scrollback);
            },
            Action::ThinkFoldAll => {
                pane.thinking.flip_all(&mut pane.scrollback);
                pane.counted = None;
            },
            _ => {
                return false;
            },
        }
        true
    }

    fn act_on_menu(&mut self, a: &Around, act: Action) -> (r: Intent)
        requires
            old(self).valid(),
        ensures
            final(self).valid(),
            forall|pane: PaneView| #[trigger]
                menu_action(old(self)@, pane, a@, act) == (Keyed {
                    ui: final(self)@,
                    pane,
                    intent: r@,
                }),
    {
        match act {
            Action::MenuAccept => {
                match self.highlighted(a) {
                    Some(MenuEntry::Message { id, .. }) => {
                        self.rewind = Vec::new();
                        assert(self@.rewind =~= Seq::empty());
                        return Intent::Rewind(id);
                    },
                    Some(MenuEntry::Completion(c)) => {
                        self.editor.set_line(c.line.as_str());
                        if c.more {
                            self.editor.insert(' ');
                        }
                        self.picked = None;
                    },
                    None => {},
                }
            },
            Action::MenuNext => {
                let menu = self.menu(a.running, a.completions);
                assert(menu_view(menu@).len() == menu@.len());
                let last: usize = if menu.len() > 0 {
                    menu.len() - 1
                } else {
                    0
                };
                let at: usize = match self.picked {
                    Some(at) => if at < last {
                        at
                    } else {
                        last
                    },
                    None => last,
                };
                self.picked = Some(
                    if at < last {
                        at + 1
                    } else {
                        last
                    },
                );
            },
            Action::MenuPrevious => {
                let menu = self.menu(a.running, a.completions);
                assert(menu_view(menu@).len() == menu@.len());
                let last: usize = if menu.len() > 0 {
                    menu.len() - 1
                } else {
                    0
                };
                let at: usize = match self.picked {
                    Some(at) => if at < last {
                        at
                    } else {
                        last
                    },
                    None => last,
                };
                self.picked = Some(
                    if at > 0 {
                        at - 1
                    } else {
                        0
                    },
                );
            },
            Action::MenuDismiss => {
                assert(self@.rewind.len() == self.rewind@.len());
                if self.rewind.len() == 0 {
                    self.dismissed_at = Some(self.editor.text().to_owned());
                }
                self.rewind = Vec::new();
                assert(self@.rewind =~= Seq::empty());
            },
            _ => {},
        }
        Intent::Nothing
    }

    fn type_in(&mut self, key: Key, now: u64)
        requires
            old(self).valid(),
        ensures
            final(self).valid(),
            final(self)@ == typed_in(old(self)@, key, now),
    {
        let c = match key.typed() {
            Some(c) => c,
            None => {
                return;
            },
        };
        match self.vim {
            None => self.editor.insert(c),
            Some(v) => {
                let mut v = v;
                let meant = v.typed(c, now);
                self.vim = Some(v);
                match meant {
                    Typed::Ignore => {},
                    Typed::Escape => {
                        // The sequence's first half is already on screen: take
                        // it back.
                        self.editor.backspace();
                        self.show_mode();
                    },
                    Typed::Insert => self.editor.insert(c),
                }
            },
        }
    }

    /// The settings panel owns the menu keys while it is open; a printable key
    /// edits the value being typed.
    fn act_on_settings(&mut self, a: &Around, key: Key) -> (r: Option<Intent>)
        requires
            old(self).valid(),
        ensures
            final(self).valid(),
            forall|pane: PaneView| match #[trigger] settings_action(old(self)@, pane, a@, key) {
                Some(k) => final(self)@ == k.ui && k.pane == pane && (r matches Some(i) && i@
                    == k.intent),
                None => r is None && final(self)@ == old(self)@,
            },
    {
        let mut close = false;
        match &mut self.settings {
            None => {
                return None;
            },
            Some(panel) => {
                match a.bound {
                    Some(Action::MenuNext) => panel.next(),
                    Some(Action::MenuPrevious) => panel.previous(),
                    Some(Action::MenuAccept) => {
                        if panel.editing() {
                            return Some(
                                match panel.path() {
                                    Some(path) => {
                                        let value = panel.editing_value().to_owned();
                                        Intent::CommitSetting(path, value)
                                    },
                                    None => Intent::Nothing,
                                },
                            );
                        }
                        panel.begin_edit();
                    },
                    Some(Action::MenuDismiss) => {
                        close = panel.dismiss();
                    },
                    _ => {
                        if !panel.editing() {
                            return None;
                        }
                        if let Some(c) = key.typed() {
                            panel.insert(c);
                        } else if let Some(Action::DeleteCharBack) = a.bound {
                            panel.backspace();
                        }
                    },
                }
            },
        }
        if close {
            self.settings = None;
        }
        Some(Intent::Nothing)
    }

    fn act_on_surface(&mut self, pane: &mut Pane, a: &Around, key: Key) -> (r: Intent)
        requires
            old(self).valid(),
            old(pane).valid(),
        ensures
            final(self).valid(),
            final(pane).valid(),
            surface_action(old(self)@, old(pane)@, a@, key) == (Keyed {
                ui: final(self)@,
                pane: final(pane)@,
                intent: r@,
            }),
    {
        let keeps = match a.bound {
            Some(Action::MenuDismiss) => true,
            Some(Action::MenuAccept) => true,
            Some(Action::MenuNext) => true,
            Some(Action::MenuPrevious) => true,
            Some(Action::LineSubmit) => true,
            _ => false,
        };
        if !keeps {
            self.rewind = Vec::new();
            assert(self@.rewind =~= Seq::empty());
        }
        match a.bound {
            None => {
                // Unbound and printable is the one thing no table has to say,
                // except in Normal, where it is the table saying no.
                self.type_in(key, a.now);
                Intent::Nothing
            },
            Some(act) => {
                if let Some(intent) = self.act_for_loop(pane, a, act) {
                    return intent;
                }
                if self.act_on_line(act) {
                    return Intent::Nothing;
                }
                if self.act_on_view(pane, act) {
                    return Intent::Nothing;
                }
                assert(menu_action(self@, pane@, a@, act).pane == pane@);
                self.act_on_menu(a, act)
            },
        }
    }

    /// What an input does to the line, the menus and the view, and what it asks
    /// the loop for.
    pub fn key(&mut self, pane: &mut Pane, input: Input, a: &Around) -> (r: Intent)
        requires
            old(self).valid(),
            old(pane).valid(),
        ensures
            final(self).valid(),
            final(pane).valid(),
            keyed(old(self)@, old(pane)@, a@, input@) == (Keyed {
                ui: final(self)@,
                pane: final(pane)@,
                intent: r@,
            }),
    {
        match input {
            Input::Resize(w, h) => {
                self.width = w;
                self.height = h;
                pane.counted = None;
                Intent::Nothing
            },
            Input::Paste(text) => {
                self.last_esc = None;
                self.break_sequence();
                let v = chars_of(text.as_str());
                let mut clean: Vec<char> = Vec::new();
                let mut i: usize = 0;
                while i < v.len()
                    invariant
                        i <= v@.len(),
                        v@ == text@,
                        clean@ == pasted(text@).take(i as int),
                    decreases v@.len() - i,
                {
                    let c = v[i];
                    clean.push(
                        if c == '\r' {
                            '\n'
                        } else {
                            c
                        },
                    );
                    i += 1;
                    assert(pasted(text@).take(i as int) =~= pasted(text@).take(i - 1).push(
                        pasted(text@)[i - 1],
                    ));
                }
                assert(pasted(text@).take(i as int) =~= pasted(text@));
                let s = string_of(clean.as_slice());
                self.editor.insert_str(s.as_str());
                Intent::Nothing
            },
            Input::Wheel(up) => {
                pane.scroll_view(up, 1);
                Intent::Nothing
            },
            Input::Ignored => Intent::Nothing,
            Input::Key(key) => {
                match key.code {
                    Code::Esc => {},
                    _ => {
                        self.last_esc = None;
                    },
                }
                if a.bound.is_some() {
                    self.break_sequence();
                }
                let ghost now = self@;
                assert(settings_action(now, pane@, a@, key) == settings_action(
                    now,
                    pane@,
                    a@,
                    key,
                ));
                if let Some(intent) = self.act_on_settings(a, key) {
                    return intent;
                }
                self.act_on_surface(pane, a, key)
            },
        }
    }

    /// A key that means something breaks the escape sequence: a first half, a
    /// command, then the second half is a character and two commands, not a mode
    /// change.
    fn break_sequence(&mut self)
        requires
            old(self).valid(),
        ensures
            final(self).valid(),
            final(self)@ == sequence_broken(old(self)@),
    {
        self.vim = match self.vim {
            Some(v) => Some(Vim { last: None, ..v }),
            None => None,
        };
    }
}

// ---------------------------------------------------------------------------
// Laws
// ---------------------------------------------------------------------------

/// Whatever the mode, what stands in front of the line is no wider than its
/// gutter, for icons of one column.
pub proof fn law_the_shown_mode_fits_its_gutter(ui: UiView)
    requires
        row_columns(ui.icon) <= 1,
        row_columns(ui.icon_normal) <= 1,
    ensures
        ({
            let e = mode_shown(ui).editor;
            row_columns(prompt_of(e)) <= gutter(e.text)
        }),
{
    assert(ui.icon.push(' ').drop_last() =~= ui.icon);
    assert(ui.icon_normal.push(' ').drop_last() =~= ui.icon_normal);
    assert(seq!['!'].drop_last() =~= Seq::<char>::empty());
    assert(row_columns(Seq::<char>::empty()) == 0);
    assert(seq!['!'].last() == '!');
    assert(row_columns(seq!['!']) == 1);
}

/// The completion list is off during a run: a live menu would take Esc away
/// from the interrupt and leave the turn with no way to be stopped.
pub proof fn law_no_menu_during_a_run(ui: UiView, offered: Seq<CandidateView>)
    ensures
        menu_of(ui, true, offered).len() == 0,
{
}

/// Esc stops a run, whatever is typed: with a prompt that nothing has answered
/// and an empty line it takes the prompt back, otherwise it interrupts.
pub proof fn law_the_interrupt_key_stops_the_run(ui: UiView, pane: PaneView, a: AroundView, key: Key)
    requires
        a.bound == Some(Action::RunInterrupt),
        ui.settings is None,
    ensures
        pressed(ui, pane, a, key).intent == IntentView::Interrupt || pressed(
            ui,
            pane,
            a,
            key,
        ).intent == IntentView::Unsend,
        ui.editor.text.len() > 0 || pane.committed ==> pressed(ui, pane, a, key).intent
            == IntentView::Interrupt,
{
}

/// Any key other than Esc breaks the rewind double-tap: an armed press that
/// typing interrupted must not fire later.
pub proof fn law_typing_disarms_the_rewind(ui: UiView, pane: PaneView, a: AroundView, key: Key)
    requires
        key.code != Code::Esc,
        a.bound != Some(Action::Rewind),
    ensures
        pressed(ui, pane, a, key).ui.last_esc is None,
{
    let q = UiView { last_esc: None, ..ui };
    let r = if a.bound is Some {
        sequence_broken(q)
    } else {
        q
    };
    assert(r.last_esc is None);
}

/// An unbound character types nothing in Normal.
pub proof fn law_normal_keeps_the_line(ui: UiView, pane: PaneView, a: AroundView, key: Key)
    requires
        a.bound is None,
        ui.settings is None,
        ui.vim matches Some(v) && v.mode == Mode::Normal,
    ensures
        pressed(ui, pane, a, key).ui.editor == ui.editor,
        pressed(ui, pane, a, key).intent == IntentView::Nothing,
{
}

/// A secret never enters the recall history: submitting the line that sets one
/// leaves the history as it was.
pub proof fn law_a_secret_is_not_remembered(ui: UiView, pane: PaneView, a: AroundView)
    requires
        !recallable(ui.editor.text),
        highlighted_of(ui, a) is None,
    ensures
        submitted(ui, pane, a).ui.editor.history == ui.editor.history,
{
}

/// Leaving takes two presses inside the window: one press alone never quits.
pub proof fn law_one_press_never_quits(ui: UiView, pane: PaneView, a: AroundView)
    requires
        !tapped(ui.last_interrupt, a.now),
    ensures
        cleared(ui, pane, a).intent != IntentView::Quit,
        tapped(cleared(ui, pane, a).ui.last_interrupt, a.now),
{
}

/// Dismissing the completion list lasts until the next edit: at the text it was
/// dismissed at there is no list, and at any other there is.
pub proof fn law_a_dismissed_list_comes_back(ui: UiView, pane: PaneView, a: AroundView, text: Seq<char>)
    requires
        ui.rewind.len() == 0,
        ui.settings is None,
        !a.running,
    ensures
        ({
            let q = menu_action(ui, pane, a, Action::MenuDismiss).ui;
            &&& menu_of(q, false, a.completions).len() == 0
            &&& text != ui.editor.text ==> menu_of(
                with_line_of(q, ui.editor.showing(text)),
                false,
                a.completions,
            ) == bottom_up(a.completions)
        }),
{
}

/// The sequence leaves Insert and takes its first half back off the line: typed
/// in time, its two characters leave the line as it was.
pub proof fn law_the_sequence_leaves_the_line_as_it_was(
    ui: UiView,
    first: char,
    second: char,
    now: u64,
)
    requires
        ui.editor.valid(),
        ui.vim matches Some(v) && v.mode == Mode::Insert && v.escape == Some((first, second))
            && v.last is None && v.window > 0,
    ensures
        ({
            let a = Key { code: Code::Char(first), command: false };
            let b = Key { code: Code::Char(second), command: false };
            let q = typed_in(typed_in(ui, a, now), b, now);
            &&& q.editor.text == ui.editor.text
            &&& q.editor.caret == ui.editor.caret
            &&& q.vim matches Some(w) && w.mode == Mode::Normal
        }),
{
    let e = ui.editor;
    let f = e.inserted(seq![first]);
    assert(back_deleted(f).text =~= e.text);
}

} // verus!
