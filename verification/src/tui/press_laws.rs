//! What a press does, stated on the line, the menu and what is asked for.

use crate::text::blank;
use crate::tui::intent::IntentView;
use crate::tui::keys::{Action, Code, Key};
use crate::tui::menu::{CandidateView, MenuView};
use crate::tui::pane::PaneView;
use crate::tui::panel_laws::letter;
use crate::tui::ui::{
    highlighted_of, keyed, menu_action, menu_of, pasted, pressed, recallable, AroundView, InputView,
    UiView,
};
use vstd::prelude::*;
use vstd::string::*;

verus! {

// ---------------------------------------------------------------------------
// Sending
// ---------------------------------------------------------------------------

/// Sending hands the line over and empties it; a line of white alone asks for
/// nothing. The line is the newest of the history, unless it was already or sets
/// a key.
pub proof fn law_sending_hands_the_line_over(
    ui: UiView,
    pane: PaneView,
    a: AroundView,
    key: Key,
)
    requires
        a.bound == Some(Action::LineSubmit),
        ui.settings is None,
        menu_of(ui, a.running, a.completions).len() == 0,
    ensures
        ({
            let k = pressed(ui, pane, a, key);
            let text = ui.editor.text;
            let was = ui.editor.history;
            &&& k.pane == pane
            &&& k.ui.editor.text.len() == 0 && k.ui.editor.caret == 0
            &&& k.intent == if blank(text) {
                IntentView::Nothing
            } else {
                IntentView::Submit(text)
            }
            &&& !recallable(text) || blank(text) ==> k.ui.editor.history == was
            &&& recallable(text) && !blank(text) && was.len() > 0 && was.last() == text
                ==> k.ui.editor.history == was
            &&& recallable(text) && !blank(text) && (was.len() == 0 || was.last() != text)
                ==> k.ui.editor.history.len() == was.len() + 1 && k.ui.editor.history.last() == text
                && k.ui.editor.history.drop_last() == was
        }),
{
    let k = pressed(ui, pane, a, key);
    let text = ui.editor.text;
    let was = ui.editor.history;
    if recallable(text) && !blank(text) && (was.len() == 0 || was.last() != text) {
        assert(k.ui.editor.history.drop_last() =~= was);
    }
}

/// Sending while candidates are offered sends the one that is marked: the best,
/// unless another was picked.
pub proof fn law_sending_takes_the_marked_candidate(
    ui: UiView,
    pane: PaneView,
    a: AroundView,
    key: Key,
)
    requires
        a.bound == Some(Action::LineSubmit),
        ui.settings is None,
        ui.rewind.len() == 0,
        !a.running,
        ui.dismissed_at != Some(ui.editor.text),
        a.completions.len() > 0,
        ui.picked is None,
    ensures
        pressed(ui, pane, a, key).intent == if blank(a.completions[0].line) {
            IntentView::Nothing
        } else {
            IntentView::Submit(a.completions[0].line)
        },
{
}

// ---------------------------------------------------------------------------
// One key, three meanings
// ---------------------------------------------------------------------------

/// The clear key stops a run, else empties the line, else says that it takes
/// another press to leave; a second press within half a second leaves, whatever
/// is on.
pub proof fn law_the_clear_key_stops_empties_or_leaves(
    ui: UiView,
    pane: PaneView,
    a: AroundView,
    key: Key,
)
    requires
        a.bound == Some(Action::LineClear),
        ui.settings is None,
    ensures
        ({
            let k = pressed(ui, pane, a, key);
            let again = ui.last_interrupt matches Some(at) && (a.now < at || a.now - at < 500);
            &&& again ==> k.intent == IntentView::Quit
            &&& !again && a.running ==> k.intent == IntentView::Interrupt && k.ui.editor
                == ui.editor
            &&& !again && !a.running && ui.editor.text.len() > 0 ==> k.intent == IntentView::Nothing
                && k.ui.editor.text.len() == 0 && k.ui.editor.history == ui.editor.history
                && k.ui.flash == ui.flash
            &&& !again && !a.running && ui.editor.text.len() == 0 ==> k.intent
                == IntentView::Nothing && k.ui.flash is Some
            &&& k.ui.last_interrupt == Some(a.now)
            &&& k.pane == pane
        }),
{
}

/// Two presses of the rewind key within half a second, on an empty line, open the
/// messages to go back to; with a line being typed it does nothing.
pub proof fn law_two_presses_open_the_rewind(
    ui: UiView,
    pane: PaneView,
    a: AroundView,
    key: Key,
)
    requires
        a.bound == Some(Action::Rewind),
        ui.settings is None,
        key.code == Code::Esc,
    ensures
        ({
            let k = pressed(ui, pane, a, key);
            let again = ui.last_esc matches Some(at) && (a.now < at || a.now - at < 500);
            &&& ui.editor.text.len() > 0 ==> k.intent == IntentView::Nothing && k.ui.editor
                == ui.editor
            &&& ui.editor.text.len() == 0 && again ==> k.intent == IntentView::OpenRewind
                && k.ui.last_esc is None
            &&& ui.editor.text.len() == 0 && !again ==> k.intent == IntentView::Nothing
                && k.ui.last_esc == Some(a.now)
        }),
{
}

/// The exit key leaves on an empty line, and takes the character behind the caret
/// from any other.
pub proof fn law_the_exit_key_leaves_an_empty_line(
    ui: UiView,
    pane: PaneView,
    a: AroundView,
    key: Key,
)
    requires
        a.bound == Some(Action::AppExit),
        ui.settings is None,
        ui.editor.valid(),
    ensures
        ({
            let k = pressed(ui, pane, a, key);
            let e = ui.editor;
            &&& e.text.len() == 0 ==> k.intent == IntentView::Quit
            &&& e.text.len() > 0 ==> k.intent == IntentView::Nothing && k.ui.editor.caret == e.caret
            &&& 0 < e.text.len() && e.caret < e.text.len() ==> k.ui.editor.text == e.text.remove(
                e.caret,
            )
            &&& 0 < e.text.len() == e.caret ==> k.ui.editor.text == e.text
        }),
{
    let e = ui.editor;
    if e.caret < e.text.len() {
        let k = pressed(ui, pane, a, key);
        assert(k.ui.editor.text =~= e.text.remove(e.caret));
    }
}

// ---------------------------------------------------------------------------
// The menu
// ---------------------------------------------------------------------------

/// Accepting a candidate puts its line in the editor, with a space behind it
/// where something is still expected, and asks for nothing yet.
pub proof fn law_accepting_puts_the_candidate_in_the_line(
    ui: UiView,
    pane: PaneView,
    a: AroundView,
    c: CandidateView,
)
    requires
        highlighted_of(ui, a) == Some(MenuView::Completion(c)),
    ensures
        ({
            let k = menu_action(ui, pane, a, Action::MenuAccept);
            let line = if c.more {
                c.line.push(' ')
            } else {
                c.line
            };
            &&& k.intent == IntentView::Nothing
            &&& k.ui.editor.text == line && k.ui.editor.caret == line.len()
            &&& k.ui.picked is None
        }),
{
    let k = menu_action(ui, pane, a, Action::MenuAccept);
    if c.more {
        assert(k.ui.editor.text =~= c.line.push(' '));
    }
}

/// The mark goes one entry at a time, from the bottom, and stops at both ends.
pub proof fn law_the_mark_goes_one_entry_at_a_time(
    ui: UiView,
    pane: PaneView,
    a: AroundView,
)
    requires
        0 < menu_of(ui, a.running, a.completions).len() <= usize::MAX,
    ensures
        ({
            let menu = menu_of(ui, a.running, a.completions);
            let n = menu.len();
            let up = menu_action(ui, pane, a, Action::MenuPrevious).ui;
            let down = menu_action(ui, pane, a, Action::MenuNext).ui;
            &&& ui.picked is None ==> highlighted_of(ui, a) == Some(menu.last())
            &&& ui.picked is None && n > 1 ==> highlighted_of(up, a) == Some(menu[n - 2])
            &&& ui.picked is None ==> highlighted_of(down, a) == Some(menu.last())
            &&& forall|i: usize| #[trigger]
                marks(ui, i) && i + 1 < n ==> highlighted_of(ui, a) == Some(menu[i as int])
                    && highlighted_of(down, a) == Some(menu[i + 1])
            &&& forall|i: usize| #[trigger]
                marks(ui, i) && 0 < i < n ==> highlighted_of(up, a) == Some(menu[i - 1])
        }),
{
}

/// Whether entry `i` of the menu was picked.
pub open spec fn marks(ui: UiView, i: usize) -> bool {
    ui.picked == Some(i)
}

// ---------------------------------------------------------------------------
// The rest
// ---------------------------------------------------------------------------

/// Pasted text goes in at the caret as it is, but for its line breaks, which are
/// the line's own; it asks for nothing.
pub proof fn law_pasted_text_goes_in_at_the_caret(
    ui: UiView,
    pane: PaneView,
    a: AroundView,
    s: Seq<char>,
)
    requires
        ui.editor.valid(),
    ensures
        ({
            let k = keyed(ui, pane, a, InputView::Paste(s));
            let e = ui.editor;
            let text = k.ui.editor.text;
            &&& k.intent == IntentView::Nothing && k.pane == pane
            &&& text.len() == e.text.len() + s.len()
            &&& k.ui.editor.caret == e.caret + s.len()
            &&& text.take(e.caret) == e.text.take(e.caret)
            &&& text.skip(e.caret + s.len()) == e.text.skip(e.caret)
            &&& forall|i: int|
                0 <= i < s.len() ==> text[e.caret + i] == if #[trigger] s[i] == '\r' {
                    '\n'
                } else {
                    s[i]
                }
        }),
{
    let e = ui.editor;
    let text = keyed(ui, pane, a, InputView::Paste(s)).ui.editor.text;
    assert(text == e.text.take(e.caret) + pasted(s) + e.text.skip(e.caret));
    assert(text.take(e.caret) =~= e.text.take(e.caret));
    assert(text.skip(e.caret + s.len()) =~= e.text.skip(e.caret));
}

/// The wheel moves the view one row, and not below the newest.
pub proof fn law_the_wheel_moves_one_row(ui: UiView, pane: PaneView, a: AroundView)
    requires
        0 <= pane.scroll < usize::MAX,
    ensures
        ({
            let up = keyed(ui, pane, a, InputView::Wheel(true));
            let down = keyed(ui, pane, a, InputView::Wheel(false));
            &&& up.pane.scroll == pane.scroll + 1 && up.pane.rows == pane.rows
            &&& pane.scroll > 0 ==> down.pane.scroll == pane.scroll - 1
            &&& pane.scroll == 0 ==> down.pane.scroll == 0
            &&& up.ui == ui && down.ui == ui && up.intent == IntentView::Nothing
        }),
{
}

/// A letter goes into the line at the caret where no panel is open and the keys
/// type; the messages to go back to are put away.
pub proof fn law_a_letter_goes_into_the_line(ui: UiView, pane: PaneView, a: AroundView, c: char)
    requires
        a.bound is None,
        ui.settings is None,
        ui.vim is None,
        ui.editor.valid(),
    ensures
        ({
            let k = pressed(ui, pane, a, letter(c));
            let e = ui.editor;
            &&& k.intent == IntentView::Nothing && k.pane == pane
            &&& k.ui.editor.text == e.text.insert(e.caret, c)
            &&& k.ui.editor.caret == e.caret + 1
            &&& k.ui.rewind.len() == 0
        }),
{
    let e = ui.editor;
    let k = pressed(ui, pane, a, letter(c));
    assert(k.ui.editor.text =~= e.text.insert(e.caret, c));
}

/// While a setting is edited nothing that is pressed reaches the line or the
/// rows.
pub proof fn law_an_open_edit_keeps_the_keys(ui: UiView, pane: PaneView, a: AroundView, key: Key)
    requires
        ui.settings is Some,
        ui.settings->Some_0.editing is Some,
    ensures
        pressed(ui, pane, a, key).ui.editor == ui.editor,
        pressed(ui, pane, a, key).pane == pane,
        pressed(ui, pane, a, key).intent != IntentView::Quit,
{
}

/// The selector stays open under the keys that move in it, and any key that is
/// none of the menu's closes it; any key but escape ends the wait for a second
/// press.
pub proof fn law_any_other_key_closes_the_selector(
    ui: UiView,
    pane: PaneView,
    a: AroundView,
    key: Key,
)
    requires
        ui.settings is None,
    ensures
        ({
            let k = pressed(ui, pane, a, key);
            &&& a.bound == Some(Action::MenuNext) || a.bound == Some(Action::MenuPrevious)
                ==> k.ui.rewind == ui.rewind
            &&& a.bound != Some(Action::MenuNext) && a.bound != Some(Action::MenuPrevious)
                && a.bound != Some(Action::MenuDismiss) && a.bound != Some(Action::MenuAccept)
                && a.bound != Some(Action::LineSubmit) ==> k.ui.rewind.len() == 0
            &&& key.code != Code::Esc && a.bound != Some(Action::Rewind) ==> k.ui.last_esc is None
        }),
{
}

} // verus!
