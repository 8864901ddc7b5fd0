//! What keys do in the settings panel, stated key by key.

use crate::tui::intent::IntentView;
use crate::tui::keys::{Action, Code, Key};
use crate::tui::panel::{closes, pressed, PanelView, TookView};
use vstd::prelude::*;

verus! {

/// A key that types a character and nothing else.
pub open spec fn letter(c: char) -> Key {
    Key { code: Code::Char(c), command: false }
}

/// While browsing, a letter moves, opens, writes, takes back or leaves; none of
/// them changes a value, and the cursor only the first two.
pub proof fn law_letters_browse_the_panel(p: PanelView, now: u64)
    requires
        p.editing is None,
        0 <= p.at < p.rows.len(),
    ensures
        ({
            let nothing = TookView::Intent(IntentView::Nothing);
            let path = p.rows[p.at].path;
            let n = p.rows.len();
            &&& pressed(p, None, letter('j'), now) == (
                PanelView {
                    at: if p.at + 1 < n {
                        p.at + 1
                    } else {
                        p.at
                    },
                    ..p
                },
                nothing,
            )
            &&& pressed(p, None, letter('k'), now) == (
                PanelView {
                    at: if p.at > 0 {
                        p.at - 1
                    } else {
                        0
                    },
                    ..p
                },
                nothing,
            )
            &&& pressed(p, None, letter('q'), now) == (p, TookView::Close)
            &&& pressed(p, None, letter(' '), now) == (
                p,
                TookView::Intent(IntentView::SettingWrite(path)),
            )
            &&& pressed(p, None, letter('r'), now) == (
                p,
                TookView::Intent(IntentView::SettingRevert(path)),
            )
            &&& pressed(p, None, letter('i'), now).0.editing is Some && pressed(
                p,
                None,
                letter('i'),
                now,
            ).0.editing->Some_0.text == p.rows[p.at].value
            &&& pressed(p, None, letter('e'), now) == pressed(p, None, letter('i'), now)
            &&& pressed(p, None, letter('x'), now) == (p, nothing)
        }),
{
}

/// While a value is edited, a letter goes into it at the caret, unless it closes
/// the pair; the rows stay as they are.
pub proof fn law_letters_go_into_the_value(p: PanelView, c: char, now: u64)
    requires
        p.editing is Some,
        p.editing->Some_0.valid(),
        !closes(p, c, now),
    ensures
        ({
            let (q, took) = pressed(p, None, letter(c), now);
            let e = p.editing->Some_0;
            &&& took == TookView::Intent(IntentView::Nothing)
            &&& q.rows == p.rows && q.at == p.at && q.refused == p.refused
            &&& q.editing is Some
            &&& q.editing->Some_0.text.len() == e.text.len() + 1
            &&& q.editing->Some_0.caret == e.caret + 1
            &&& q.editing->Some_0.text[e.caret] == c
            &&& q.editing->Some_0.text.take(e.caret) == e.text.take(e.caret)
            &&& q.editing->Some_0.text.skip(e.caret + 1) == e.text.skip(e.caret)
        }),
{
    let e = p.editing->Some_0;
    let t = e.inserted(seq![c]).text;
    assert(t.take(e.caret) =~= e.text.take(e.caret));
    assert(t.skip(e.caret + 1) =~= e.text.skip(e.caret));
}

/// Accepting hands the value over where it is another than the row's, and the
/// edit stays open until it is taken; an unchanged one is just closed.
pub proof fn law_accepting_hands_over_what_changed(p: PanelView, key: Key, now: u64)
    requires
        p.editing is Some,
        0 <= p.at < p.rows.len(),
    ensures
        ({
            let (q, took) = pressed(p, Some(Action::MenuAccept), key, now);
            let text = p.editing->Some_0.text;
            &&& text != p.rows[p.at].value ==> took == TookView::Intent(
                IntentView::SettingEdit(p.rows[p.at].path, text),
            ) && q.editing == p.editing
            &&& text == p.rows[p.at].value ==> took == TookView::Intent(IntentView::Nothing)
                && q.editing is None && q.refused is None
            &&& q.rows == p.rows && q.at == p.at
        }),
{
}

/// The pair closes an edit only where its second half comes within the window of
/// its first.
pub proof fn law_the_pair_closes_within_its_window(
    p: PanelView,
    first: char,
    second: char,
    then: u64,
    now: u64,
)
    requires
        p.editing is Some,
        p.escape == Some((first, second)),
        p.pair is None,
        then <= now,
    ensures
        ({
            let q = pressed(p, None, letter(first), then).0;
            &&& q.pair == Some((first, then))
            &&& closes(q, second, now) == (now - then < p.window)
        }),
{
}

/// Only the first half of the pair waits for the other: any other letter that does
/// not close it leaves none waiting, and the first half typed again waits anew.
pub proof fn law_only_the_first_half_waits(
    p: PanelView,
    first: char,
    second: char,
    c: char,
    now: u64,
)
    requires
        p.editing is Some,
        p.escape == Some((first, second)),
        !closes(p, c, now),
    ensures
        c == first ==> pressed(p, None, letter(c), now).0.pair == Some((c, now)),
        c != first ==> pressed(p, None, letter(c), now).0.pair is None,
{
}

} // verus!
