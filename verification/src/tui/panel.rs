//! The panel: the settings rows drawn over the menu, one open at a time.
//!
//! It rides the menu's own bindings, so a user's bindings follow without a
//! second table; the browsing keys (`j`, `i`, `q`, space, `r`) are a fixed
//! vocabulary beside it.

use crate::text::{capped, chars_of, copy_range, push_all, push_text, rows, same_str, string_of};
use crate::tui::editor::{Editor, EditorView};
use crate::tui::intent::{Intent, IntentView};
use crate::tui::keys::{back_deleted, edit, edited, types, Action, Key};
use crate::tui::line::{lines_view, one_span, plain_style, Line, Role, SpanView, Style};
use crate::tui::screen::{fit, fitted};
use crate::tui::settings::{blank_editor, mask, masked, one_down, one_up, step_down};
use crate::width::{columns, columns_of, row_columns};
use vstd::prelude::*;
use vstd::string::*;

verus! {

/// A setting: its path, the value in force for the session, and whether the
/// file still holds another one.
#[derive(Debug, Clone, PartialEq, Eq)]
pub struct SettingRow {
    pub path: String,
    pub value: String,
    pub changed: bool,
}

/// A setting, with its texts as sequences.
#[verifier::ext_equal]
pub struct SettingView {
    pub path: Seq<char>,
    pub value: Seq<char>,
    pub changed: bool,
}

impl View for SettingRow {
    type V = SettingView;

    open spec fn view(&self) -> SettingView {
        SettingView { path: self.path@, value: self.value@, changed: self.changed }
    }
}

/// Settings, with their texts as sequences.
pub open spec fn settings_view(v: Seq<SettingRow>) -> Seq<SettingView> {
    Seq::new(v.len(), |i: int| v[i]@)
}

/// The marks the panel is drawn with.
pub struct Marks {
    /// Behind a row whose value the file does not hold.
    pub changed: String,
    /// Between what mode is up and what its keys are.
    pub note: String,
}

/// The rows a panel shows, the cursor, and the row being rewritten.
pub struct Panel {
    rows: Vec<SettingRow>,
    at: usize,
    // The pair that leaves Insert; with none, Enter and Esc are the only way
    // out.
    escape: Option<(char, char)>,
    window: u64,
    // The character that may be the pair's first half, and when it landed. The
    // character is on screen already, so nothing is held pending.
    pair: Option<(char, u64)>,
    // Some while a row is being rewritten; browsing otherwise.
    editing: Option<Editor>,
    // What the last commit refused, shown under the rows.
    refused: Option<String>,
}

/// The panel, with its texts as sequences.
#[verifier::ext_equal]
pub struct PanelView {
    pub rows: Seq<SettingView>,
    pub at: int,
    pub escape: Option<(char, char)>,
    pub window: u64,
    pub pair: Option<(char, u64)>,
    pub editing: Option<EditorView>,
    pub refused: Option<Seq<char>>,
}

/// What the panel made of a press.
#[derive(Debug, PartialEq, Eq)]
pub enum Took {
    /// Handled, and this is what it asks the loop for.
    Intent(Intent),
    /// Handled, and the panel is done: the caller drops it.
    Close,
}

/// What the panel made of a press, with its texts as sequences.
#[verifier::ext_equal]
pub enum TookView {
    Intent(IntentView),
    Close,
}

impl View for Took {
    type V = TookView;

    open spec fn view(&self) -> TookView {
        match self {
            Took::Intent(i) => TookView::Intent(i@),
            Took::Close => TookView::Close,
        }
    }
}

/// What is being typed, or the focused row's own text when nothing is.
pub open spec fn value_in(p: PanelView) -> Seq<char> {
    match p.editing {
        Some(e) => e.text,
        None => if 0 <= p.at < p.rows.len() {
            p.rows[p.at].value
        } else {
            ""@
        },
    }
}

/// The panel with the focused row open, pre-filled with what it holds.
pub open spec fn opened(p: PanelView) -> PanelView {
    if 0 <= p.at < p.rows.len() {
        PanelView {
            editing: Some(blank_editor().showing(p.rows[p.at].value)),
            refused: None,
            ..p
        }
    } else {
        p
    }
}

/// Whether a character closes the escape pair: it is the second half, and the
/// first landed within the window.
pub open spec fn closes(p: PanelView, c: char, now: u64) -> bool {
    match (p.escape, p.pair) {
        (Some((first, second)), Some((half, at))) => c == second && half == first && since(at, now)
            < p.window,
        _ => false,
    }
}

/// How long ago `at` was.
pub open spec fn since(at: u64, now: u64) -> int {
    if now >= at {
        now - at
    } else {
        0
    }
}

/// The pair after a character: closed, armed by its first half, or cleared.
pub open spec fn paired(p: PanelView, c: char, now: u64) -> PanelView {
    PanelView {
        pair: match p.escape {
            Some((first, _)) => if !closes(p, c, now) && c == first {
                Some((c, now))
            } else {
                None
            },
            None => None,
        },
        ..p
    }
}

/// Leaving Insert with the edit kept. A value that did not change is just
/// dropped; one that did goes to the session as a claim, and the panel stays in
/// Insert until the commit answers.
pub open spec fn submitted(p: PanelView) -> (PanelView, TookView) {
    let text = value_in(p);
    if 0 <= p.at < p.rows.len() && p.rows[p.at].value != text {
        (p, TookView::Intent(IntentView::SettingEdit(p.rows[p.at].path, text)))
    } else {
        (
            PanelView { editing: None, refused: None, ..p },
            TookView::Intent(IntentView::Nothing),
        )
    }
}

/// Nothing asked for.
pub open spec fn quiet(p: PanelView) -> (PanelView, TookView) {
    (p, TookView::Intent(IntentView::Nothing))
}

/// What a bare letter does while browsing, if it does anything.
pub open spec fn browsed(p: PanelView, c: char) -> Option<(PanelView, TookView)> {
    let focused = 0 <= p.at < p.rows.len();
    if c == 'j' {
        Some(quiet(PanelView { at: one_down(p.at, p.rows.len() as int), ..p }))
    } else if c == 'k' {
        Some(quiet(PanelView { at: one_up(p.at), ..p }))
    } else if c == 'i' || c == 'e' {
        Some(quiet(opened(p)))
    } else if c == 'q' {
        Some((p, TookView::Close))
    } else if c == ' ' {
        Some(
            (
                p,
                TookView::Intent(
                    if focused {
                        IntentView::SettingWrite(p.rows[p.at].path)
                    } else {
                        IntentView::Nothing
                    },
                ),
            ),
        )
    } else if c == 'r' {
        Some(
            (
                p,
                TookView::Intent(
                    if focused {
                        IntentView::SettingRevert(p.rows[p.at].path)
                    } else {
                        IntentView::Nothing
                    },
                ),
            ),
        )
    } else {
        None
    }
}

/// What a press types into the row being rewritten. A character either
/// completes the escape pair, which takes its first half back off and keeps the
/// edit, or lands in the line.
pub open spec fn typed_into(
    p: PanelView,
    bound: Option<Action>,
    key: Key,
    now: u64,
) -> (PanelView, TookView) {
    match p.editing {
        None => quiet(p),
        Some(e) => {
            let typed = types(key);
            let closed = typed matches Some(c) && closes(p, c, now);
            let q = match typed {
                Some(c) => paired(p, c, now),
                None => p,
            };
            let line = match (bound, typed) {
                (Some(a), _) if edited(e, a) is Some => edited(e, a)->Some_0,
                (_, Some(c)) => if closed {
                    back_deleted(e)
                } else {
                    e.inserted(seq![c])
                },
                _ => e,
            };
            let r = PanelView { editing: Some(line), ..q };
            if closed {
                submitted(r)
            } else {
                quiet(r)
            }
        },
    }
}

/// What a press does to the panel.
pub open spec fn pressed(
    p: PanelView,
    bound: Option<Action>,
    key: Key,
    now: u64,
) -> (PanelView, TookView) {
    // A press that means something breaks a half-typed escape pair.
    let q = if bound is Some {
        PanelView { pair: None, ..p }
    } else {
        p
    };
    let browsing = q.editing is None;
    let letter = if browsing {
        match types(key) {
            Some(c) => browsed(q, c),
            None => None,
        }
    } else {
        None
    };
    match letter {
        Some(r) => r,
        None => match bound {
            Some(Action::MenuNext) => if browsing {
                quiet(PanelView { at: one_down(q.at, q.rows.len() as int), ..q })
            } else {
                quiet(q)
            },
            Some(Action::MenuPrevious) => if browsing {
                quiet(PanelView { at: one_up(q.at), ..q })
            } else {
                quiet(q)
            },
            Some(Action::MenuAccept) => if browsing {
                quiet(opened(q))
            } else {
                submitted(q)
            },
            Some(Action::MenuDismiss) | Some(Action::LineClear) => if browsing {
                (q, TookView::Close)
            } else {
                quiet(PanelView { editing: None, refused: None, ..q })
            },
            _ => typed_into(q, bound, key, now),
        },
    }
}

impl Panel {
    /// The panel, with its texts as sequences.
    pub closed spec fn state(&self) -> PanelView {
        PanelView {
            rows: settings_view(self.rows@),
            at: self.at as int,
            escape: self.escape,
            window: self.window,
            pair: self.pair,
            editing: match self.editing {
                Some(e) => Some(e.state()),
                None => None,
            },
            refused: match self.refused {
                Some(s) => Some(s@),
                None => None,
            },
        }
    }

    /// The line being typed is one an editor made.
    pub closed spec fn valid(&self) -> bool {
        self.editing matches Some(e) ==> e.state().valid()
    }

    /// A panel over the rows: the pair that leaves Insert, and how long after
    /// its first half the second still closes it, in milliseconds.
    pub fn new(rows: Vec<SettingRow>, escape: Option<(char, char)>, window: u64) -> (r: Panel)
        ensures
            r.valid(),
            r.state() == (PanelView {
                rows: settings_view(rows@),
                at: 0,
                escape,
                window,
                pair: None,
                editing: None,
                refused: None,
            }),
    {
        Panel { rows, at: 0, escape, window, pair: None, editing: None, refused: None }
    }

    /// Whether a row is being rewritten.
    pub fn editing(&self) -> (r: bool)
        ensures
            r == (self.state().editing is Some),
    {
        self.editing.is_some()
    }

    /// What is being typed, or the focused row's own text when nothing is.
    pub fn editing_value(&self) -> (r: &str)
        ensures
            r@ == value_in(self.state()),
    {
        match &self.editing {
            Some(e) => e.text(),
            None => {
                if self.at < self.rows.len() {
                    self.rows[self.at].value.as_str()
                } else {
                    ""
                }
            },
        }
    }

    /// Replace the rows after a commit changed what they are a view of, and
    /// close the edit that changed them. The cursor stays on the path it was
    /// on, wherever that moved to.
    pub fn refresh(&mut self, rows: Vec<SettingRow>)
        ensures
            final(self).valid(),
            final(self).state() == (PanelView {
                rows: settings_view(rows@),
                at: if 0 <= old(self).state().at < old(self).state().rows.len() {
                    path_place(
                        settings_view(rows@),
                        old(self).state().rows[old(self).state().at].path,
                        0,
                    )
                } else {
                    0
                },
                editing: None,
                refused: None,
                ..old(self).state()
            }),
    {
        let ghost new = settings_view(rows@);
        let mut at: usize = 0;
        if self.at < self.rows.len() {
            let path = self.rows[self.at].path.as_str();
            let mut i: usize = 0;
            while i < rows.len()
                invariant_except_break
                    at == 0,
                    path_place(new, path@, i as int) == path_place(new, path@, 0),
                invariant
                    i <= rows@.len(),
                    new == settings_view(rows@),
                ensures
                    at == path_place(new, path@, 0),
                decreases rows@.len() - i,
            {
                if same_str(rows[i].path.as_str(), path) {
                    at = i;
                    break;
                }
                i += 1;
            }
        }
        self.at = at;
        self.rows = rows;
        self.editing = None;
        self.refused = None;
    }

    /// Show what the last commit refused, keeping the edit open.
    pub fn refuse(&mut self, why: String)
        requires
            old(self).valid(),
        ensures
            final(self).valid(),
            final(self).state() == (PanelView { refused: Some(why@), ..old(self).state() }),
    {
        self.refused = Some(why);
    }

    fn begin_edit(&mut self)
        requires
            old(self).valid(),
        ensures
            final(self).valid(),
            final(self).state() == opened(old(self).state()),
    {
        if self.at < self.rows.len() {
            let mut e = Editor::default();
            e.set_line(self.rows[self.at].value.as_str());
            self.editing = Some(e);
            self.refused = None;
        }
    }

    fn down(&mut self)
        requires
            old(self).valid(),
        ensures
            final(self).valid(),
            final(self).state() == (PanelView {
                at: one_down(old(self).state().at, old(self).state().rows.len() as int),
                ..old(self).state()
            }),
    {
        self.at = step_down(self.at, self.rows.len());
    }

    fn up(&mut self)
        requires
            old(self).valid(),
        ensures
            final(self).valid(),
            final(self).state() == (PanelView {
                at: one_up(old(self).state().at),
                ..old(self).state()
            }),
    {
        if self.at > 0 {
            self.at = self.at - 1;
        }
    }

    /// A character while Insert is up: whether it closes the pair.
    fn typed_char(&mut self, c: char, now: u64) -> (r: bool)
        requires
            old(self).valid(),
        ensures
            final(self).valid(),
            r == closes(old(self).state(), c, now),
            final(self).state() == paired(old(self).state(), c, now),
    {
        let closed = match (self.escape, self.pair) {
            (Some((first, second)), Some((half, at))) => {
                let ago: u64 = if now >= at {
                    now - at
                } else {
                    0
                };
                c == second && half == first && ago < self.window
            },
            _ => false,
        };
        self.pair = match self.escape {
            Some((first, _)) => if !closed && c == first {
                Some((c, now))
            } else {
                None
            },
            None => None,
        };
        closed
    }

    fn submit_edit(&mut self) -> (r: Took)
        requires
            old(self).valid(),
        ensures
            final(self).valid(),
            (final(self).state(), r@) == submitted(old(self).state()),
    {
        let text = self.editing_value().to_owned();
        if self.at < self.rows.len() && !same_str(self.rows[self.at].value.as_str(), text.as_str()) {
            let path = self.rows[self.at].path.clone();
            return Took::Intent(Intent::SettingEdit(path, text));
        }
        self.editing = None;
        self.refused = None;
        Took::Intent(Intent::Nothing)
    }

    fn focused_path(&self) -> (r: Option<String>)
        ensures
            match r {
                Some(p) => 0 <= self.state().at < self.state().rows.len() && p@
                    == self.state().rows[self.state().at].path,
                None => self.state().at >= self.state().rows.len(),
            },
    {
        if self.at < self.rows.len() {
            Some(self.rows[self.at].path.clone())
        } else {
            None
        }
    }

    /// What a bare letter does while browsing, if it does anything.
    fn browse(&mut self, c: char) -> (r: Option<Took>)
        requires
            old(self).valid(),
        ensures
            final(self).valid(),
            match browsed(old(self).state(), c) {
                Some((p, t)) => final(self).state() == p && (r matches Some(took) && took@ == t),
                None => r is None && final(self).state() == old(self).state(),
            },
    {
        if c == 'j' {
            self.down();
            Some(Took::Intent(Intent::Nothing))
        } else if c == 'k' {
            self.up();
            Some(Took::Intent(Intent::Nothing))
        } else if c == 'i' || c == 'e' {
            self.begin_edit();
            Some(Took::Intent(Intent::Nothing))
        } else if c == 'q' {
            Some(Took::Close)
        } else if c == ' ' {
            // Space writes the session value to the file, r takes it back.
            Some(
                Took::Intent(
                    match self.focused_path() {
                        Some(p) => Intent::SettingWrite(p),
                        None => Intent::Nothing,
                    },
                ),
            )
        } else if c == 'r' {
            Some(
                Took::Intent(
                    match self.focused_path() {
                        Some(p) => Intent::SettingRevert(p),
                        None => Intent::Nothing,
                    },
                ),
            )
        } else {
            None
        }
    }

    fn type_into(&mut self, bound: Option<Action>, key: Key, now: u64) -> (r: Took)
        requires
            old(self).valid(),
        ensures
            final(self).valid(),
            (final(self).state(), r@) == typed_into(old(self).state(), bound, key, now),
    {
        let ghost before = self.state();
        if self.editing.is_none() {
            return Took::Intent(Intent::Nothing);
        }
        let typed = key.typed();
        // The pair is decided before the editor is borrowed, so the two halves
        // of the state never argue.
        let closed = match typed {
            Some(c) => self.typed_char(c, now),
            None => false,
        };
        match &mut self.editing {
            Some(e) => {
                let done = match bound {
                    Some(a) => edit(e, a),
                    None => false,
                };
                if !done {
                    if let Some(c) = typed {
                        if closed {
                            e.backspace();
                        } else {
                            e.insert(c);
                        }
                    }
                }
            },
            None => {},
        }
        if closed {
            return self.submit_edit();
        }
        Took::Intent(Intent::Nothing)
    }

    /// What this press does to the panel.
    ///
    /// Browsing keys come before the bound table: `j`, `i`, `q` and the row's
    /// own verbs are a fixed vocabulary, not a rebindable layer. Bare letters
    /// only: ctrl and alt keep a letter a letter. Dismissing is two steps: the
    /// edit first, the panel only once there is nothing left inside it to
    /// cancel.
    pub fn press(&mut self, bound: Option<Action>, key: Key, now: u64) -> (r: Took)
        requires
            old(self).valid(),
        ensures
            final(self).valid(),
            (final(self).state(), r@) == pressed(old(self).state(), bound, key, now),
    {
        if bound.is_some() {
            self.pair = None;
        }
        if self.editing.is_none() {
            if let Some(c) = key.typed() {
                if let Some(took) = self.browse(c) {
                    return took;
                }
            }
        }
        match bound {
            Some(Action::MenuNext) => {
                if self.editing.is_none() {
                    self.down();
                }
                Took::Intent(Intent::Nothing)
            },
            Some(Action::MenuPrevious) => {
                if self.editing.is_none() {
                    self.up();
                }
                Took::Intent(Intent::Nothing)
            },
            Some(Action::MenuAccept) => {
                if self.editing.is_none() {
                    self.begin_edit();
                    return Took::Intent(Intent::Nothing);
                }
                self.submit_edit()
            },
            Some(Action::MenuDismiss) | Some(Action::LineClear) => {
                if self.editing.is_some() {
                    self.editing = None;
                    self.refused = None;
                    Took::Intent(Intent::Nothing)
                } else {
                    Took::Close
                }
            },
            _ => self.type_into(bound, key, now),
        }
    }
}

/// Where a path stands among the rows, or 0.
pub open spec fn path_place(rows: Seq<SettingView>, path: Seq<char>, from: int) -> int
    decreases rows.len() - from,
{
    if from < 0 || from >= rows.len() {
        0
    } else if rows[from].path == path {
        from
    } else {
        path_place(rows, path, from + 1)
    }
}

// ---------------------------------------------------------------------------
// Drawing
// ---------------------------------------------------------------------------

/// The rows of the line being rewritten so far, and where the caret is on them.
#[verifier::ext_equal]
pub struct Edited {
    pub rows: Seq<Seq<char>>,
    pub row: Seq<char>,
    pub used: int,
    pub caret: (int, int),
}

/// The rows with one more character on them: continuation rows are indented
/// under the lead, and a caret exactly on the break lands at the start of the
/// new row.
pub open spec fn edit_step(e: Edited, c: char, here: bool, lead: int, width: int) -> Edited {
    let wraps = e.used + columns(c) > width && e.row.len() > 0;
    let rows = if wraps {
        e.rows.push(e.row)
    } else {
        e.rows
    };
    let row = if wraps {
        Seq::new(lead as nat, |i: int| ' ')
    } else {
        e.row
    };
    let used = if wraps {
        lead
    } else {
        e.used
    };
    Edited {
        rows,
        row: row.push(c),
        used: capped(used + columns(c)),
        caret: if here {
            (rows.len() as int, used)
        } else {
            e.caret
        },
    }
}

/// The rows of the first `n` characters of the line being rewritten.
pub open spec fn edit_laid(line: Seq<char>, lead: int, caret: int, width: int, n: int) -> Edited
    decreases n,
{
    if n <= 0 {
        Edited { rows: Seq::empty(), row: Seq::empty(), used: 0, caret: (0, 0) }
    } else {
        edit_step(
            edit_laid(line, lead, caret, width, n - 1),
            line[n - 1],
            n - 1 == caret,
            lead,
            width,
        )
    }
}

/// The rows of the line being rewritten.
pub open spec fn edit_rows(line: Seq<char>, lead: int, caret: int, width: int) -> Seq<Seq<char>> {
    let e = edit_laid(line, lead, caret, width, line.len() as int);
    e.rows.push(e.row)
}

/// The row and the column of the caret in the line being rewritten.
pub open spec fn edit_caret(line: Seq<char>, lead: int, caret: int, width: int) -> (int, int) {
    let e = edit_laid(line, lead, caret, width, line.len() as int);
    if caret == line.len() {
        (e.rows.len() as int, e.used)
    } else {
        e.caret
    }
}

fn spaces(n: usize) -> (r: Vec<char>)
    ensures
        r@ == Seq::new(n as nat, |i: int| ' '),
{
    let mut r: Vec<char> = Vec::new();
    let mut i: usize = 0;
    while i < n
        invariant
            i <= n,
            r@ == Seq::new(i as nat, |k: int| ' '),
        decreases n - i,
    {
        r.push(' ');
        i += 1;
        assert(r@ =~= Seq::new(i as nat, |k: int| ' '));
    }
    r
}

/// How many columns a text takes, as far as they can be counted.
fn measure(s: &[char]) -> (n: usize)
    ensures
        n == capped(row_columns(s@)),
{
    let mut n: usize = 0;
    let mut i: usize = 0;
    assert(s@.take(0) =~= Seq::empty());
    while i < s.len()
        invariant
            i <= s@.len(),
            row_columns(s@.take(i as int)) >= 0,
            n == capped(row_columns(s@.take(i as int))),
        decreases s@.len() - i,
    {
        assert(s@.take(i + 1).drop_last() =~= s@.take(i as int));
        assert(s@.take(i + 1).last() == s@[i as int]);
        n = n.saturating_add(columns_of(s[i]));
        i += 1;
    }
    assert(s@.take(i as int) =~= s@);
    n
}

/// The row being rewritten, wrapped like the input line: continuation rows
/// indent under the lead, and the caret lands on the row its place wraps onto,
/// its column the display columns before it there.
fn wrap_edit(line: &[char], lead_w: usize, caret: usize, width: usize) -> (r: (
    Vec<Vec<char>>,
    usize,
    usize,
))
    requires
        caret <= line@.len(),
    ensures
        rows(r.0@) == edit_rows(line@, lead_w as int, caret as int, width as int),
        (r.1 as int, r.2 as int) == edit_caret(line@, lead_w as int, caret as int, width as int),
{
    let mut done: Vec<Vec<char>> = Vec::new();
    let mut row: Vec<char> = Vec::new();
    let mut used: usize = 0;
    let mut at: (usize, usize) = (0, 0);
    let mut i: usize = 0;
    assert(rows(done@) =~= Seq::empty());
    while i < line.len()
        invariant
            i <= line@.len(),
            edit_laid(line@, lead_w as int, caret as int, width as int, i as int) == (Edited {
                rows: rows(done@),
                row: row@,
                used: used as int,
                caret: (at.0 as int, at.1 as int),
            }),
        decreases line@.len() - i,
    {
        let c = line[i];
        let w = columns_of(c);
        let wide = w > width || used > width - w;
        assert(wide == (used + w > width));
        if wide && row.len() > 0 {
            let ghost before = rows(done@);
            let ghost last = row@;
            done.push(row);
            assert(rows(done@) =~= before.push(last));
            row = spaces(lead_w);
            used = lead_w;
        }
        if i == caret {
            at = (done.len(), used);
        }
        assert(rows(done@).len() == done@.len());
        row.push(c);
        used = used.saturating_add(w);
        i += 1;
    }
    let ghost before = rows(done@);
    let ghost last = row@;
    let n = done.len();
    done.push(row);
    assert(rows(done@) =~= before.push(last));
    assert(before.len() == n);
    if caret == line.len() {
        (done, n, used)
    } else {
        (done, at.0, at.1)
    }
}

/// One row as it paints, without the mark the list puts in front of it.
pub open spec fn setting_text(row: SettingView, mark: Seq<char>) -> Seq<char> {
    row.path + " = "@ + masked(row.path, row.value) + (if row.changed {
        " "@ + mark
    } else {
        Seq::empty()
    })
}

/// What the row being rewritten starts with.
pub open spec fn edit_lead(path: Seq<char>) -> Seq<char> {
    "›"@ + " "@ + path + " = "@
}

/// The screen rows of one row of the panel.
pub open spec fn row_drawn(p: PanelView, i: int, mark: Seq<char>, width: int) -> Seq<Seq<SpanView>> {
    let row = p.rows[i];
    match p.editing {
        Some(e) if i == p.at => {
            let lead = edit_lead(row.path);
            let laid = edit_rows(
                lead + e.text,
                capped(row_columns(lead)),
                lead.len() + e.caret,
                width,
            );
            Seq::new(laid.len(), |k: int| one_span(laid[k], plain_style(Role::Input)))
        },
        _ => {
            let text = (if i == p.at {
                "›"@
            } else {
                " "@
            }) + " "@ + setting_text(row, mark);
            fitted(
                one_span(
                    text,
                    plain_style(
                        if i == p.at {
                            Role::Selected
                        } else {
                            Role::Plain
                        },
                    ),
                ),
                width,
            )
        },
    }
}

/// The screen rows of the first `n` rows of the panel.
pub open spec fn rows_drawn(p: PanelView, n: int, mark: Seq<char>, width: int) -> Seq<Seq<SpanView>>
    decreases n,
{
    if n <= 0 {
        Seq::empty()
    } else {
        rows_drawn(p, n - 1, mark, width) + row_drawn(p, n - 1, mark, width)
    }
}

/// What mode is up and what its keys are.
pub open spec fn footer(p: PanelView, note: Seq<char>) -> Seq<char> {
    match p.editing {
        None => "  normal"@ + note
            + "j/k move · i edit · space write file · r revert · q close"@,
        Some(_) => "  insert"@ + note + (match p.escape {
            Some((a, b)) => "enter or "@ + seq![a, b],
            None => "enter"@,
        }) + " keeps · esc discards"@,
    }
}

/// The screen rows of the panel: its rows, what the last commit refused, and
/// what its keys are.
pub open spec fn panel_drawn(
    p: PanelView,
    mark: Seq<char>,
    note: Seq<char>,
    width: int,
) -> Seq<Seq<SpanView>> {
    rows_drawn(p, p.rows.len() as int, mark, width) + (match p.refused {
        Some(why) => fitted(
            one_span("  ✗ "@ + why, plain_style(Role::Plain)),
            width,
        ),
        None => Seq::empty(),
    }) + fitted(one_span(footer(p, note), plain_style(Role::Plain)), width)
}

/// Where the caret is: on the row being rewritten.
pub open spec fn panel_caret(p: PanelView, mark: Seq<char>, width: int) -> Option<(int, int)> {
    match p.editing {
        Some(e) if 0 <= p.at < p.rows.len() => {
            let lead = edit_lead(p.rows[p.at].path);
            let (r, c) = edit_caret(
                lead + e.text,
                capped(row_columns(lead)),
                lead.len() + e.caret,
                width,
            );
            Some((rows_drawn(p, p.at, mark, width).len() + r, c))
        },
        _ => None,
    }
}

fn append_lines(out: &mut Vec<Line>, more: Vec<Line>)
    ensures
        lines_view(final(out)@) == lines_view(old(out)@) + lines_view(more@),
{
    let ghost before = lines_view(out@);
    let ghost all = lines_view(more@);
    let mut more = more;
    out.append(&mut more);
    assert(lines_view(out@) =~= before + all);
}

impl Panel {
    /// The row being rewritten, painted as itself: its value sits on the row,
    /// in the clear, and the caret rides it.
    fn draw_edit(&self, e: &Editor, i: usize, width: usize) -> (r: (Vec<Line>, usize, usize))
        requires
            e.state().valid(),
            i < self.rows@.len(),
        ensures
            ({
                let lead = edit_lead(self.rows@[i as int].path@);
                let text = lead + e.state().text;
                let laid = edit_rows(
                    text,
                    capped(row_columns(lead)),
                    lead.len() + e.state().caret,
                    width as int,
                );
                &&& lines_view(r.0@) == Seq::new(
                    laid.len(),
                    |k: int| one_span(laid[k], plain_style(Role::Input)),
                )
                &&& (r.1 as int, r.2 as int) == edit_caret(
                    text,
                    capped(row_columns(lead)),
                    lead.len() + e.state().caret,
                    width as int,
                )
            }),
    {
        let ghost lead = edit_lead(self.rows@[i as int].path@);
        let mut line = chars_of("›");
        push_text(&mut line, " ");
        push_text(&mut line, self.rows[i].path.as_str());
        push_text(&mut line, " = ");
        assert(line@ == lead);
        // The lead is whatever is really on the line: its width is measured
        // from it, never assumed.
        let lead_w = measure(line.as_slice());
        let text = chars_of(e.text());
        let at = e.caret();
        let head = copy_range(text.as_slice(), 0, at);
        let ghost full = lead + text@;
        push_all(&mut line, head.as_slice());
        let caret_at = line.len();
        let tail = copy_range(text.as_slice(), at, text.len());
        push_all(&mut line, tail.as_slice());
        assert(line@ =~= full);
        let (laid, row, col) = wrap_edit(line.as_slice(), lead_w, caret_at, width);
        let ghost want = rows(laid@);
        let mut r: Vec<Line> = Vec::new();
        let mut k: usize = 0;
        while k < laid.len()
            invariant
                k <= laid@.len(),
                want == rows(laid@),
                lines_view(r@) == Seq::new(
                    k as nat,
                    |j: int| one_span(want[j], plain_style(Role::Input)),
                ),
            decreases laid@.len() - k,
        {
            let ghost before = lines_view(r@);
            let s = string_of(laid[k].as_slice());
            assert(want[k as int] == s@);
            let l = Line::of(s.as_str(), Style::of(Role::Input));
            r.push(l);
            assert(lines_view(r@) =~= before.push(l@));
            assert(lines_view(r@) =~= Seq::new(
                (k + 1) as nat,
                |j: int| one_span(want[j], plain_style(Role::Input)),
            ));
            k += 1;
        }
        assert(want.len() == laid@.len());
        (r, row, col)
    }

    fn draw_row(&self, i: usize, mark: &str, width: usize) -> (r: Vec<Line>)
        requires
            i < self.rows@.len(),
            self.state().editing is None || i != self.state().at,
        ensures
            lines_view(r@) == row_drawn(self.state(), i as int, mark@, width as int),
    {
        let here = i == self.at;
        let mut text = if here {
            "›".to_owned()
        } else {
            " ".to_owned()
        };
        text.append(" ");
        text.append(self.rows[i].path.as_str());
        text.append(" = ");
        let shown = mask(self.rows[i].path.as_str(), self.rows[i].value.as_str());
        text.append(shown.as_str());
        if self.rows[i].changed {
            text.append(" ");
            text.append(mark);
        }
        let role = if here {
            Role::Selected
        } else {
            Role::Plain
        };
        assert(self.state().rows[i as int] == self.rows@[i as int]@);
        assert(text@ =~= (if here {
            "›"@
        } else {
            " "@
        }) + " "@ + setting_text(self.state().rows[i as int], mark@));
        fit(&Line::of(text.as_str(), Style::of(role)), width)
    }

    /// The rows to paint, the selected one marked, then whatever the last commit
    /// refused, then the one line of chrome: what mode is up and what its keys
    /// are. And where the caret is, while a row is being rewritten.
    ///
    /// Wrapped here: the panel is sized by counting rows, and a row wrapped
    /// later would be one the count misses.
    pub fn view(&self, marks: &Marks, width: usize) -> (r: (Vec<Line>, Option<(usize, usize)>))
        requires
            self.valid(),
        ensures
            lines_view(r.0@) == panel_drawn(
                self.state(),
                marks.changed@,
                marks.note@,
                width as int,
            ),
            match r.1 {
                Some((row, col)) => panel_caret(self.state(), marks.changed@, width as int)
                    == Some((row as int, col as int)),
                None => panel_caret(self.state(), marks.changed@, width as int) is None,
            },
    {
        let ghost p = self.state();
        let mut out: Vec<Line> = Vec::new();
        let mut caret: Option<(usize, usize)> = None;
        let mut i: usize = 0;
        assert(lines_view(out@) =~= Seq::empty());
        while i < self.rows.len()
            invariant
                i <= self.rows@.len(),
                self.valid(),
                p == self.state(),
                lines_view(out@) == rows_drawn(p, i as int, marks.changed@, width as int),
                match caret {
                    Some((row, col)) => panel_caret(p, marks.changed@, width as int) == Some(
                        (row as int, col as int),
                    ) && p.editing is Some && p.at < i,
                    None => p.editing is None || p.at >= i,
                },
            decreases self.rows@.len() - i,
        {
            assert(p.rows[i as int] == self.rows@[i as int]@);
            let mut drawn = false;
            if i == self.at {
                if let Some(e) = &self.editing {
                    let (lines, row, col) = self.draw_edit(e, i, width);
                    let ghost before = lines_view(out@);
                    assert(before.len() == out@.len());
                    let from = out.len();
                    append_lines(&mut out, lines);
                    proof {
                        let lead = edit_lead(p.rows[i as int].path);
                        lemma_edit_caret(
                            lead + p.editing->Some_0.text,
                            capped(row_columns(lead)),
                            lead.len() + p.editing->Some_0.caret,
                            width as int,
                        );
                        assert(lines_view(out@).len() == out@.len());
                    }
                    assert(from + row <= out.len());
                    caret = Some((from + row, col));
                    drawn = true;
                }
            }
            if !drawn {
                let lines = self.draw_row(i, marks.changed.as_str(), width);
                append_lines(&mut out, lines);
            }
            i += 1;
        }
        if let Some(why) = &self.refused {
            let mut text = "  ✗ ".to_owned();
            text.append(why.as_str());
            let lines = fit(&Line::of(text.as_str(), Style::of(Role::Plain)), width);
            append_lines(&mut out, lines);
        } else {
            assert(lines_view(out@) + Seq::<Seq<SpanView>>::empty() =~= lines_view(out@));
        }
        let mut line = if self.editing.is_none() {
            "  normal".to_owned()
        } else {
            "  insert".to_owned()
        };
        line.append(marks.note.as_str());
        if self.editing.is_none() {
            line.append("j/k move · i edit · space write file · r revert · q close");
        } else {
            match self.escape {
                Some((a, b)) => {
                    line.append("enter or ");
                    line.push(a);
                    line.push(b);
                },
                None => {
                    line.append("enter");
                },
            }
            line.append(" keeps · esc discards");
        }
        assert(line@ =~= footer(p, marks.note@));
        let lines = fit(&Line::of(line.as_str(), Style::of(Role::Plain)), width);
        append_lines(&mut out, lines);
        (out, caret)
    }
}

/// The caret of the line being rewritten is on one of its rows.
proof fn lemma_edit_caret(line: Seq<char>, lead: int, caret: int, width: int)
    requires
        0 <= caret <= line.len(),
    ensures
        0 <= edit_caret(line, lead, caret, width).0 < edit_rows(line, lead, caret, width).len(),
{
    lemma_laid_caret(line, lead, caret, width, line.len() as int);
}

proof fn lemma_laid_caret(line: Seq<char>, lead: int, caret: int, width: int, n: int)
    requires
        0 <= n <= line.len(),
    ensures
        0 <= edit_laid(line, lead, caret, width, n).caret.0 <= edit_laid(
            line,
            lead,
            caret,
            width,
            n,
        ).rows.len(),
    decreases n,
{
    if n > 0 {
        lemma_laid_caret(line, lead, caret, width, n - 1);
    }
}

// ---------------------------------------------------------------------------
// Laws
// ---------------------------------------------------------------------------

/// Typing a value pins the cursor: no press moves it while a row is being
/// rewritten.
pub proof fn law_an_edit_pins_the_cursor(p: PanelView, bound: Option<Action>, key: Key, now: u64)
    requires
        p.editing is Some,
    ensures
        pressed(p, bound, key, now).0.at == p.at,
        pressed(p, bound, key, now).0.rows == p.rows,
{
}

/// Dismissing an edit never closes the panel; dismissing a browsed panel does.
pub proof fn law_dismiss_leaves_the_edit_before_the_panel(p: PanelView, key: Key, now: u64)
    requires
        types(key) is None,
    ensures
        ({
            let (q, took) = pressed(p, Some(Action::MenuDismiss), key, now);
            &&& (took is Close) == (p.editing is None)
            &&& q.editing is None
            &&& q.rows == p.rows && q.at == p.at
        }),
{
}

/// Leaving an edit that changed nothing asks for nothing, and closes it.
pub proof fn law_an_unchanged_edit_keeps_nothing(p: PanelView)
    requires
        0 <= p.at < p.rows.len(),
        value_in(p) == p.rows[p.at].value,
    ensures
        submitted(p).1 == TookView::Intent(IntentView::Nothing),
        submitted(p).0.editing is None,
{
}

/// The escape pair takes its first half back off: typing both halves in time
/// leaves the line as it was, and submits it.
pub proof fn law_the_pair_takes_its_first_half_back(
    p: PanelView,
    first: char,
    second: char,
    now: u64,
)
    requires
        p.editing is Some,
        p.editing->Some_0.valid(),
        p.escape == Some((first, second)),
        p.window > 0,
        first != second,
    ensures
        ({
            let a = Key { code: crate::tui::keys::Code::Char(first), command: false };
            let b = Key { code: crate::tui::keys::Code::Char(second), command: false };
            let half = typed_into(p, None, a, now).0;
            let whole = PanelView { editing: p.editing, pair: None, ..p };
            typed_into(half, None, b, now) == submitted(whole)
        }),
{
    let e = p.editing->Some_0;
    let f = e.inserted(seq![first]);
    assert(back_deleted(f).text =~= e.text);
    assert(back_deleted(f) =~= e);
    let a = Key { code: crate::tui::keys::Code::Char(first), command: false };
    let b = Key { code: crate::tui::keys::Code::Char(second), command: false };
    let half = typed_into(p, None, a, now).0;
    assert(half.editing == Some(f));
    assert(half.pair == Some((first, now)));
    let whole = PanelView { editing: p.editing, pair: None, ..p };
    assert(closes(half, second, now));
    assert(PanelView { editing: Some(back_deleted(f)), ..paired(half, second, now) } =~= whole);
}

} // verus!
