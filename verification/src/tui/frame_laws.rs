//! How the rows of the screen are shared out.

use crate::tui::frame::{editor_rows, editor_top, history_rows, menu_rows, part, unflashed};
use crate::tui::keys::Action;
use crate::tui::pane::PaneView;
use crate::tui::ui::{view_action, UiView};
use vstd::prelude::*;

verus! {

/// The line gets every row it needs, up to all but one and the bar's; the menu
/// gets what it needs of what is left over one row; the conversation gets the
/// rest. So where all of them fit, each is whole.
pub proof fn law_the_line_comes_first(height: int, input: int, bar: int, menu: int)
    requires
        input >= 1,
        menu >= 0,
        bar == 0 || bar == 1,
        height >= 2 + bar,
    ensures
        input + bar + 1 <= height ==> editor_rows(height, input, bar) == input,
        input + bar + 1 > height ==> editor_rows(height, input, bar) == height - 1 - bar
            && menu_rows(height, input, bar, menu) == 0 && history_rows(height, input, bar, menu)
            == 1,
        input + bar + 1 + menu <= height ==> menu_rows(height, input, bar, menu) == menu
            && history_rows(height, input, bar, menu) == height - input - bar - menu,
        input + bar + 1 <= height < input + bar + 1 + menu ==> menu_rows(height, input, bar, menu)
            == height - input - bar - 1 && history_rows(height, input, bar, menu) == 1,
{
}

/// A line taller than its rows is shown from the row that has the caret on the
/// last of them; any other from its first.
pub proof fn law_a_tall_line_ends_on_the_caret(height: int, input: int, caret: int, bar: int)
    requires
        0 <= caret < input,
        bar == 0 || bar == 1,
        height >= 2 + bar,
    ensures
        caret < editor_rows(height, input, bar) ==> editor_top(height, input, caret, bar) == 0,
        caret >= editor_rows(height, input, bar) ==> editor_top(height, input, caret, bar)
            + editor_rows(height, input, bar) == caret + 1,
{
}

/// The part of some rows from one on that fits is those rows in order.
pub proof fn law_a_part_is_the_rows_from_its_top<A>(rows: Seq<A>, top: int, n: int)
    requires
        0 <= top,
        0 <= n,
    ensures
        top + n <= rows.len() ==> part(rows, top, n).len() == n && forall|i: int|
            0 <= i < n ==> #[trigger] part(rows, top, n)[i] == rows[top + i],
        top <= rows.len() < top + n ==> part(rows, top, n) == rows.skip(top),
        rows.len() < top ==> part(rows, top, n).len() == 0,
{
    if top <= rows.len() < top + n {
        assert(part(rows, top, n) =~= rows.skip(top));
    }
}

/// A flash stands until its time has passed, counted from when it was said.
pub proof fn law_a_flash_stands_for_its_time(ui: UiView, text: Seq<char>, at: u64, now: u64)
    requires
        ui.flash == Some((text, at)),
        at <= now,
    ensures
        now - at < 3000 ==> unflashed(ui, now).flash == Some((text, at)),
        now - at >= 3000 ==> unflashed(ui, now).flash is None,
        unflashed(ui, now).editor == ui.editor,
{
}

/// A page is the rows of the screen but four, half a page half of them; up and
/// down again is back where it was.
pub proof fn law_a_page_is_the_screen_but_four_rows(ui: UiView, pane: PaneView)
    requires
        ui.height >= 5,
        0 <= pane.scroll,
        pane.scroll + ui.height <= usize::MAX,
    ensures
        ({
            let up = view_action(ui, pane, Action::ScrollPageUp);
            let half = view_action(ui, pane, Action::ScrollHalfUp);
            &&& up is Some && half is Some
            &&& up->Some_0.scroll == pane.scroll + ui.height - 4
            &&& half->Some_0.scroll == pane.scroll + ui.height as int / 2
            &&& view_action(ui, up->Some_0, Action::ScrollPageDown) == Some(pane)
            &&& view_action(ui, half->Some_0, Action::ScrollHalfDown) == Some(pane)
            &&& pane.scroll < ui.height - 4 ==> view_action(
                ui,
                pane,
                Action::ScrollPageDown,
            )->Some_0.scroll == 0
        }),
{
}

} // verus!
