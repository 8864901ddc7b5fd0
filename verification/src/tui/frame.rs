//! One frame of the whole surface: the history, the menu, the bar and the line
//! being typed, from the top down.

use crate::text::texts;
use crate::tui::bar::{cropped_cells, labels, lane_bar, live, live_form, tabs_view, Tab, TabView};
use crate::tui::bar::clip;
use crate::tui::editor::{painted, painted_caret};
use crate::tui::line::{lines_view, one_span, plain_style, Line, Role, SpanView, Style};
use crate::tui::menu::{head_width, item_form, menu_items, menu_view};
use crate::tui::pane::{Pane, PaneView};
use crate::tui::panel::since;
use crate::tui::screen::{cells, clamped, shown, spans_of, tagged_view, usable};
use crate::tui::scroll::{askable, content, measured};
use crate::tui::settings::panel_rows;
use crate::tui::ui::{menu_of, picked_in, Around, AroundView, Ui, UiView, FLASH};
use vstd::prelude::*;
use vstd::string::*;

verus! {

/// How the rows of the screen are shared out, from the bottom up: the input line
/// is pinned, the bar and the menu sit above it, and the history fills what is
/// left.
#[derive(Debug, Clone, Copy, PartialEq, Eq, Structural)]
pub struct Heights {
    /// The rows of the input line that are shown.
    pub editor: usize,
    /// The first of them.
    pub top: usize,
    /// The caret's row among those shown.
    pub caret: usize,
    pub menu: usize,
    pub history: usize,
}

/// `a - b`, or 0.
pub open spec fn less(a: int, b: int) -> int {
    if a >= b {
        a - b
    } else {
        0
    }
}

/// The smaller of two.
pub open spec fn least(a: int, b: int) -> int {
    if a <= b {
        a
    } else {
        b
    }
}

/// The rows of the input line that are shown: a paste taller than the terminal
/// must not push the editor off the bottom.
pub open spec fn editor_rows(height: int, input: int, bar: int) -> int {
    least(input, less(height, 1 + bar))
}

/// The first row of the input line that is shown: it scrolls to keep the caret's
/// row visible.
pub open spec fn editor_top(height: int, input: int, caret: int, bar: int) -> int {
    less(caret + 1, editor_rows(height, input, bar))
}

/// The rows of the menu that are shown. It leaves the bar its row, and the
/// history at least one.
pub open spec fn menu_rows(height: int, input: int, bar: int, menu: int) -> int {
    least(menu, less(height, editor_rows(height, input, bar) + bar + 1))
}

/// The rows left for the history.
pub open spec fn history_rows(height: int, input: int, bar: int, menu: int) -> int {
    let left = less(
        height,
        editor_rows(height, input, bar) + menu_rows(height, input, bar, menu) + bar,
    );
    if left >= 1 {
        left
    } else {
        1
    }
}

/// Share out the rows of a screen of `height` rows between an input line of
/// `input` rows with the caret on row `caret`, the bar, and a menu of `menu`
/// rows.
pub fn heights(height: u16, input: usize, caret: usize, bar: bool, menu: usize) -> (r: Heights)
    requires
        caret < usize::MAX,
    ensures
        ({
            let b = if bar {
                1int
            } else {
                0int
            };
            &&& r.editor == editor_rows(height as int, input as int, b)
            &&& r.top == editor_top(height as int, input as int, caret as int, b)
            &&& r.caret == less(caret as int, r.top as int)
            &&& r.menu == menu_rows(height as int, input as int, b, menu as int)
            &&& r.history == history_rows(height as int, input as int, b, menu as int)
        }),
{
    let height: usize = height as usize;
    let bar_h: usize = if bar {
        1
    } else {
        0
    };
    let free: usize = height.saturating_sub(1 + bar_h);
    let editor: usize = if input <= free {
        input
    } else {
        free
    };
    let top: usize = (caret + 1).saturating_sub(editor);
    let room: usize = height.saturating_sub(editor + bar_h + 1);
    let menu_h: usize = if menu <= room {
        menu
    } else {
        room
    };
    let left: usize = height.saturating_sub(editor + menu_h + bar_h);
    Heights {
        editor,
        top,
        caret: caret.saturating_sub(top),
        menu: menu_h,
        history: if left >= 1 {
            left
        } else {
            1
        },
    }
}

/// The part of the rows from `top`, at most `n` of them.
pub open spec fn part<A>(rows: Seq<A>, top: int, n: int) -> Seq<A> {
    let from = least(top, rows.len() as int);
    rows.subrange(from, least(from + n, rows.len() as int))
}

/// One frame.
pub struct Frame {
    /// The history's rows, each with the row of the scrollback it is of.
    pub rows: Vec<(Line, Option<usize>)>,
    /// The panel's rows, or the menu's.
    pub menu: Vec<String>,
    /// Whether those are the panel's.
    pub panel: bool,
    /// Which row of the menu is highlighted.
    pub picked: usize,
    pub bar: Option<Line>,
    /// The rows of the input line that are shown.
    pub input: Vec<String>,
    /// The column of the caret.
    pub column: u16,
    pub heights: Heights,
}

/// The bar row: a flash while it is up, the lane strip otherwise.
pub open spec fn bar_form(
    ui: UiView,
    tabs: Seq<TabView>,
    now: u64,
    width: int,
) -> Option<Seq<SpanView>> {
    match ui.flash {
        Some((text, at)) if since(at, now) < FLASH => Some(
            spans_of(
                cropped_cells(cells(one_span(text, plain_style(Role::Muted))), width),
            ),
        ),
        _ => if tabs.len() < 2 {
            None
        } else {
            Some(
                spans_of(
                    cropped_cells(cells(labels(tabs, ui.spinner, tabs.len() as int)), width),
                ),
            )
        },
    }
}

/// The keyboard with an expired flash dropped.
pub open spec fn unflashed(ui: UiView, now: u64) -> UiView {
    UiView {
        flash: match ui.flash {
            Some((text, at)) if since(at, now) < FLASH => Some((text, at)),
            _ => None,
        },
        ..ui
    }
}

/// The rows over the input line: the panel's while it is open, the menu's
/// otherwise.
pub open spec fn over_rows(ui: UiView, a: AroundView, width: int) -> Seq<Seq<char>> {
    match ui.settings {
        Some(p) => panel_rows(p, width),
        None => {
            let menu = menu_of(ui, a.running, a.completions);
            Seq::new(
                menu.len(),
                |i: int| item_form(menu[i], head_width(menu, menu.len() as int)),
            )
        },
    }
}

/// The columns the surface draws in.
pub open spec fn usable_of(width: u16) -> int {
    if width >= 2 {
        width - 1
    } else {
        1
    }
}

impl Ui {
    /// The bar row while a flash is up, and the only place an expired one is
    /// dropped: every frame passes through here.
    pub fn flash_line(&mut self, now: u64, width: usize) -> (r: Option<Line>)
        requires
            old(self).valid(),
        ensures
            final(self).valid(),
            final(self)@ == unflashed(old(self)@, now),
            match r {
                Some(line) => old(self)@.flash matches Some((text, at)) && since(at, now) < FLASH
                    && line@ == spans_of(
                    cropped_cells(
                        cells(one_span(text, plain_style(Role::Muted))),
                        width as int,
                    ),
                ),
                None => !(old(self)@.flash matches Some((text, at)) && since(at, now) < FLASH),
            },
    {
        let up = match &self.flash {
            Some((_, at)) => {
                let ago: u64 = if now >= *at {
                    now - *at
                } else {
                    0
                };
                ago < FLASH
            },
            None => false,
        };
        if !up {
            self.flash = None;
        }
        match &self.flash {
            Some((text, _)) => Some(clip(&Line::of(text.as_str(), Style::of(Role::Muted)), width)),
            None => None,
        }
    }

    fn bar(&mut self, tabs: &[Tab], now: u64, width: usize) -> (r: Option<Line>)
        requires
            old(self).valid(),
        ensures
            final(self).valid(),
            final(self)@ == unflashed(old(self)@, now),
            (match r {
                Some(l) => Some(l@),
                None => None,
            }) == bar_form(old(self)@, tabs_view(tabs@), now, width as int),
    {
        assert(tabs_view(tabs@).len() == tabs@.len());
        // A flash outranks the lane strip: it is gone in a moment, where the
        // strip is always a keystroke away.
        match self.flash_line(now, width) {
            Some(l) => Some(l),
            None => lane_bar(tabs, self.spinner, width),
        }
    }

    fn over(&self, a: &Around, width: usize) -> (r: (Vec<String>, usize))
        requires
            self.valid(),
        ensures
            texts(r.0@) == over_rows(self@, a@, width as int),
            r.1 == picked_in(
                self@.picked,
                menu_of(self@, a@.running, a@.completions).len() as int,
            ),
    {
        let menu = self.menu(a.running, a.completions);
        let ghost all = menu_view(menu@);
        assert(all.len() == menu@.len());
        let last: usize = if menu.len() > 0 {
            menu.len() - 1
        } else {
            0
        };
        let picked: usize = match self.picked {
            Some(at) => if at < last {
                at
            } else {
                last
            },
            None => last,
        };
        match &self.settings {
            Some(p) => (p.view(width), picked),
            None => (menu_items(menu.as_slice()), picked),
        }
    }

    /// Lay out one frame. The input line is last, so the caret sits on the
    /// bottom rows and depends only on the pinned rows, never on how the history
    /// wraps. `parts` is what the status line's segments say, and `answer` the
    /// stream's open line as the renderer styles it.
    pub fn flush(
        &mut self,
        pane: &mut Pane,
        a: &Around,
        tabs: &[Tab],
        parts: &[String],
        answer: &Line,
    ) -> (r: Frame)
        requires
            old(self).valid(),
            old(pane).valid(),
        ensures
            final(self).valid(),
            final(pane).valid(),
            final(self)@ == unflashed(old(self)@, a@.now),
            ({
                let ui = old(self)@;
                let width = usable_of(ui.width);
                let bar = bar_form(ui, tabs_view(tabs@), a@.now, width);
                let b = if bar is Some {
                    1int
                } else {
                    0int
                };
                let input = painted(ui.editor, width);
                let caret = painted_caret(ui.editor, width).0 % 0x10000;
                let over = over_rows(ui, a@, width);
                let room = history_rows(
                    ui.height as int,
                    input.len() as int,
                    b,
                    over.len() as int,
                );
                let tail = live_form(
                    old(pane)@,
                    a@.lane_running,
                    texts(parts@),
                    answer@,
                    ui.spinner,
                    width,
                    room,
                );
                let p = measured(old(pane)@, tail.len() as int, width);
                let all = content(p.rows, tail, width);
                let top = editor_top(ui.height as int, input.len() as int, caret, b);
                &&& (match r.bar {
                    Some(l) => Some(l@),
                    None => None,
                }) == bar
                &&& r.panel == (ui.settings is Some)
                &&& texts(r.menu@) == over
                &&& r.picked == picked_in(
                    ui.picked,
                    menu_of(ui, a@.running, a@.completions).len() as int,
                )
                &&& r.heights.history == room
                &&& r.heights.menu == menu_rows(
                    ui.height as int,
                    input.len() as int,
                    b,
                    over.len() as int,
                )
                &&& r.heights.editor == editor_rows(ui.height as int, input.len() as int, b)
                &&& r.heights.top == top
                &&& r.heights.caret == less(caret, top)
                &&& texts(r.input@) == part(input, top, r.heights.editor as int)
                &&& r.column == painted_caret(ui.editor, width).1 % 0x10000
                &&& tagged_view(r.rows@) == shown(all, room, askable(p.scroll, room))
                &&& final(pane)@ == (PaneView {
                    scroll: clamped(all.len() as int, room, askable(p.scroll, room)),
                    ..p
                })
            }),
    {
        let width = usable(self.width);
        let (over, picked) = self.over(a, width);
        let (input, caret) = self.editor.view(width);
        let bar = self.bar(tabs, a.now, width);
        assert(texts(input@).len() == input@.len());
        assert(texts(over@).len() == over@.len());
        let h = heights(
            self.height,
            input.len(),
            caret.0 as usize,
            bar.is_some(),
            over.len(),
        );
        let mut shown_input: Vec<String> = Vec::new();
        let ghost all_input = texts(input@);
        let mut i: usize = if h.top <= input.len() {
            h.top
        } else {
            input.len()
        };
        let from: usize = i;
        while i < input.len() && i - from < h.editor
            invariant
                from <= i <= input@.len(),
                i - from <= h.editor,
                all_input == texts(input@),
                texts(shown_input@) == all_input.subrange(from as int, i as int),
            decreases input@.len() - i,
        {
            let ghost before = texts(shown_input@);
            let s = input[i].clone();
            assert(all_input[i as int] == s@);
            shown_input.push(s);
            assert(texts(shown_input@) =~= before.push(s@));
            assert(texts(shown_input@) =~= all_input.subrange(from as int, i + 1));
            i += 1;
        }
        assert(texts(shown_input@) =~= part(all_input, h.top as int, h.editor as int));
        let tail = live(pane, a.lane_running, parts, answer, self.spinner, width, h.history);
        assert(lines_view(tail@).len() == tail@.len());
        let rows = pane.frame(tail.as_slice(), width, h.history);
        Frame {
            rows,
            menu: over,
            panel: self.settings.is_some(),
            picked,
            bar,
            input: shown_input,
            column: caret.1,
            heights: h,
        }
    }
}

// ---------------------------------------------------------------------------
// Laws
// ---------------------------------------------------------------------------

/// The rows a frame pins and the history it leaves room for are as many as the
/// screen has, on a screen with a row for each.
pub proof fn law_the_rows_fill_the_screen(height: int, input: int, bar: int, menu: int)
    requires
        input >= 0,
        menu >= 0,
        bar == 0 || bar == 1,
        height >= 1 + bar,
    ensures
        editor_rows(height, input, bar) + bar + menu_rows(height, input, bar, menu) + history_rows(
            height,
            input,
            bar,
            menu,
        ) == height,
        history_rows(height, input, bar, menu) >= 1,
{
}

/// The caret's row is always among the rows of the input line that are shown.
pub proof fn law_the_caret_stays_in_view(height: int, input: int, caret: int, bar: int)
    requires
        0 <= caret < input,
        bar == 0 || bar == 1,
        height >= 2 + bar,
    ensures
        editor_top(height, input, caret, bar) <= caret < editor_top(height, input, caret, bar)
            + editor_rows(height, input, bar),
{
}

/// The newest row survives whatever else is on the frame: with nothing scrolled,
/// the last row shown is the last row there is.
pub proof fn law_the_newest_row_survives<T>(
    all: Seq<(Seq<SpanView>, T)>,
    height: int,
    input: int,
    bar: int,
    menu: int,
)
    requires
        all.len() > 0,
    ensures
        shown(all, history_rows(height, input, bar, menu), 0).len() > 0,
        shown(all, history_rows(height, input, bar, menu), 0).last() == all.last(),
{
    crate::tui::screen::law_window_ends_on_the_newest(all, history_rows(height, input, bar, menu));
}

/// A flash takes the bar row and gives it back on its own: once its time has
/// passed, the frame drops it.
pub proof fn law_a_flash_gives_the_row_back(ui: UiView, tabs: Seq<TabView>, now: u64, width: int)
    requires
        ui.flash matches Some((_, at)) && since(at, now) >= FLASH,
    ensures
        unflashed(ui, now).flash is None,
        bar_form(ui, tabs, now, width) == bar_form(UiView { flash: None, ..ui }, tabs, now, width),
{
}

} // verus!
