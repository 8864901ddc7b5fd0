//! The settings panel: every path the config has, and the one being typed.
//!
//! It rides the menu's own bindings, so a user's key bindings follow without a
//! second table.

use crate::text::{chars_of, same_str, texts};
use crate::tui::editor::{painted, Editor, EditorView};
use crate::tui::intent::{is_secret, leaf_of, secret_path};
use crate::tui::keys::back_deleted;
use vstd::prelude::*;
use vstd::string::*;

verus! {

/// The rows of the panel: each path and the value, the way a file would write
/// it.
pub struct Panel {
    pub rows: Vec<(String, String)>,
    pub at: usize,
    /// Some while a value is being typed; browsing otherwise.
    editing: Option<Editor>,
    /// What the last commit refused, shown under the rows.
    error: Option<String>,
}

/// The panel, with its texts as sequences.
#[verifier::ext_equal]
pub struct PanelView {
    pub rows: Seq<(Seq<char>, Seq<char>)>,
    pub at: int,
    pub editing: Option<EditorView>,
    pub error: Option<Seq<char>>,
}

/// Rows, with their texts as sequences.
pub open spec fn pairs_view(v: Seq<(String, String)>) -> Seq<(Seq<char>, Seq<char>)> {
    Seq::new(v.len(), |i: int| (v[i].0@, v[i].1@))
}

/// An empty line.
pub open spec fn blank_editor() -> EditorView {
    EditorView {
        text: Seq::empty(),
        caret: 0,
        history: Seq::empty(),
        at: 0,
        draft: Seq::empty(),
        prompt: Seq::empty(),
        prompt_bang: Seq::empty(),
    }
}

/// One step down, but not past the last of `n` rows.
pub open spec fn one_down(at: int, n: int) -> int {
    if at + 1 < n {
        at + 1
    } else if n >= 1 {
        n - 1
    } else {
        0
    }
}

/// One step up, but not past the first row.
pub open spec fn one_up(at: int) -> int {
    if at > 0 {
        at - 1
    } else {
        0
    }
}

/// Where a path stands among the rows, or 0.
pub open spec fn place_of(rows: Seq<(Seq<char>, Seq<char>)>, path: Seq<char>, from: int) -> int
    decreases rows.len() - from,
{
    if from < 0 || from >= rows.len() {
        0
    } else if rows[from].0 == path {
        from
    } else {
        place_of(rows, path, from + 1)
    }
}

/// What a row shows of its value: a secret shows whether it is set.
pub open spec fn masked(path: Seq<char>, value: Seq<char>) -> Seq<char> {
    if is_secret(leaf_of(path)) {
        if value.len() == 0 {
            "<unset>"@
        } else {
            "<set>"@
        }
    } else {
        value
    }
}

/// One row of the list: the selected one is marked, and the one being typed
/// shows that it is.
pub open spec fn list_row(p: PanelView, i: int) -> Seq<char> {
    let (path, value) = p.rows[i];
    let shown = if p.editing is Some && i == p.at {
        "…"@
    } else {
        masked(path, value)
    };
    (if i == p.at {
        "›"@
    } else {
        " "@
    }) + " "@ + path + " = "@ + shown
}

/// The rows to paint: the list, the line being typed, and what was refused.
pub open spec fn panel_rows(p: PanelView, width: int) -> Seq<Seq<char>> {
    Seq::new(p.rows.len(), |i: int| list_row(p, i)) + (match p.editing {
        Some(e) => painted(e, width),
        None => Seq::empty(),
    }) + (match p.error {
        Some(err) => seq!["  ✗ "@ + err],
        None => Seq::empty(),
    })
}

impl Panel {
    /// The panel, with its texts as sequences.
    pub closed spec fn state(&self) -> PanelView {
        PanelView {
            rows: pairs_view(self.rows@),
            at: self.at as int,
            editing: match self.editing {
                Some(e) => Some(e.state()),
                None => None,
            },
            error: match self.error {
                Some(e) => Some(e@),
                None => None,
            },
        }
    }
}

/// What a row shows of its value.
pub fn mask(path: &str, value: &str) -> (r: String)
    ensures
        r@ == masked(path@, value@),
{
    let v = chars_of(path);
    if secret_path(v.as_slice()) {
        if value.is_empty() {
            "<unset>".to_owned()
        } else {
            "<set>".to_owned()
        }
    } else {
        value.to_owned()
    }
}

impl Panel {
    /// The line being typed is one an editor made.
    pub closed spec fn valid(&self) -> bool {
        self.editing matches Some(e) ==> e.state().valid()
    }

    /// A panel over the rows, nothing being typed.
    pub fn new(rows: Vec<(String, String)>) -> (r: Panel)
        ensures
            r.valid(),
            r.state() == (PanelView { rows: pairs_view(rows@), at: 0, editing: None, error: None }),
    {
        Panel { rows, at: 0, editing: None, error: None }
    }

    /// Whether a value is being typed.
    pub fn editing(&self) -> (r: bool)
        ensures
            r == (self.state().editing is Some),
    {
        self.editing.is_some()
    }

    /// Where the cursor is.
    pub fn cursor(&self) -> (r: usize)
        ensures
            r == self.state().at,
    {
        self.at
    }

    /// The path under the cursor.
    pub fn path(&self) -> (r: Option<String>)
        ensures
            match r {
                Some(p) => 0 <= self.state().at < self.state().rows.len() && p@
                    == self.state().rows[self.state().at].0,
                None => self.state().at >= self.state().rows.len(),
            },
    {
        if self.at < self.rows.len() {
            Some(self.rows[self.at].0.clone())
        } else {
            None
        }
    }

    /// Enter the editing state for the selected row, pre-filled with the
    /// current value. The secret value shows in clear here: a pasted key has to
    /// be checkable. A panel with nothing in it has nothing to edit.
    pub fn begin_edit(&mut self)
        requires
            old(self).valid(),
        ensures
            final(self).valid(),
            final(self).state() == if 0 <= old(self).state().at < old(self).state().rows.len() {
                PanelView {
                    editing: Some(
                        blank_editor().showing(old(self).state().rows[old(self).state().at].1),
                    ),
                    error: None,
                    ..old(self).state()
                }
            } else {
                old(self).state()
            },
    {
        if self.at < self.rows.len() {
            let mut e = Editor::default();
            e.set_line(self.rows[self.at].1.as_str());
            self.editing = Some(e);
            self.error = None;
        }
    }

    /// The value being typed, or the current row's if none is.
    pub fn editing_value(&self) -> (r: &str)
        requires
            self.state().editing is None ==> 0 <= self.state().at < self.state().rows.len(),
        ensures
            r@ == match self.state().editing {
                Some(e) => e.text,
                None => self.state().rows[self.state().at].1,
            },
    {
        match &self.editing {
            Some(e) => e.text(),
            None => self.rows[self.at].1.as_str(),
        }
    }

    /// A printable key goes into the edit line.
    pub fn insert(&mut self, c: char)
        requires
            old(self).valid(),
        ensures
            final(self).valid(),
            final(self).state() == (PanelView {
                editing: match old(self).state().editing {
                    Some(e) => Some(e.inserted(seq![c])),
                    None => None,
                },
                ..old(self).state()
            }),
    {
        match &mut self.editing {
            Some(e) => {
                e.insert(c);
            },
            None => {},
        }
    }

    /// Delete the character before the caret of the edit line.
    pub fn backspace(&mut self)
        requires
            old(self).valid(),
        ensures
            final(self).valid(),
            final(self).state() == (PanelView {
                editing: match old(self).state().editing {
                    Some(e) => Some(back_deleted(e)),
                    None => None,
                },
                ..old(self).state()
            }),
    {
        match &mut self.editing {
            Some(e) => {
                e.backspace();
            },
            None => {},
        }
    }

    /// The commit stuck; leave the edit and clear the error.
    pub fn finish_edit(&mut self)
        ensures
            final(self).valid(),
            final(self).state() == (PanelView { editing: None, error: None, ..old(self).state() }),
    {
        self.editing = None;
        self.error = None;
    }

    /// Replace the rows after a commit changed the tree, keeping the selection
    /// on the row it was on when the path still exists.
    pub fn refresh(&mut self, rows: Vec<(String, String)>)
        requires
            old(self).valid(),
        ensures
            final(self).valid(),
            final(self).state() == (PanelView {
                rows: pairs_view(rows@),
                at: if 0 <= old(self).state().at < old(self).state().rows.len() {
                    place_of(pairs_view(rows@), old(self).state().rows[old(self).state().at].0, 0)
                } else {
                    0
                },
                ..old(self).state()
            }),
    {
        let ghost new = pairs_view(rows@);
        let mut at: usize = 0;
        if self.at < self.rows.len() {
            let path = self.rows[self.at].0.as_str();
            let mut i: usize = 0;
            while i < rows.len()
                invariant_except_break
                    at == 0,
                    place_of(new, path@, i as int) == place_of(new, path@, 0),
                invariant
                    i <= rows@.len(),
                    new == pairs_view(rows@),
                ensures
                    at == place_of(new, path@, 0),
                decreases rows@.len() - i,
            {
                if same_str(rows[i].0.as_str(), path) {
                    at = i;
                    break;
                }
                i += 1;
            }
        }
        self.rows = rows;
        self.at = at;
    }

    /// Show what the last commit refused, keeping the edit open.
    pub fn refuse(&mut self, why: String)
        requires
            old(self).valid(),
        ensures
            final(self).valid(),
            final(self).state() == (PanelView { error: Some(why@), ..old(self).state() }),
    {
        self.error = Some(why);
    }

    /// Drop the edit in progress, or close the panel when browsing.
    pub fn dismiss(&mut self) -> (r: bool)
        ensures
            final(self).valid(),
            r == (old(self).state().editing is None),
            final(self).state() == (PanelView { editing: None, ..old(self).state() }),
    {
        if self.editing.is_some() {
            self.editing = None;
            false
        } else {
            true
        }
    }

    /// One row down, while browsing.
    pub fn next(&mut self)
        requires
            old(self).valid(),
        ensures
            final(self).valid(),
            final(self).state() == if old(self).state().editing is None {
                PanelView {
                    at: one_down(old(self).state().at, old(self).state().rows.len() as int),
                    ..old(self).state()
                }
            } else {
                old(self).state()
            },
    {
        if self.editing.is_none() {
            self.at = step_down(self.at, self.rows.len());
        }
    }

    /// One row up, while browsing.
    pub fn previous(&mut self)
        requires
            old(self).valid(),
        ensures
            final(self).valid(),
            final(self).state() == if old(self).state().editing is None {
                PanelView { at: one_up(old(self).state().at), ..old(self).state() }
            } else {
                old(self).state()
            },
    {
        if self.editing.is_none() && self.at > 0 {
            self.at = self.at - 1;
        }
    }

    /// The rows to paint: path and rendered value, the selected one marked, and
    /// the editing line if one is open. A secret value shows as `<set>` or
    /// `<unset>` in the list; only the editing line carries the clear text.
    pub fn view(&self, width: usize) -> (r: Vec<String>)
        requires
            self.valid(),
        ensures
            texts(r@) == panel_rows(self.state(), width as int),
    {
        let ghost p = self.state();
        let mut r: Vec<String> = Vec::new();
        let mut i: usize = 0;
        while i < self.rows.len()
            invariant
                i <= self.rows@.len(),
                p == self.state(),
                texts(r@) == Seq::new(i as nat, |k: int| list_row(p, k)),
            decreases self.rows@.len() - i,
        {
            let ghost before = texts(r@);
            let mut line = if i == self.at {
                "›".to_owned()
            } else {
                " ".to_owned()
            };
            line.append(" ");
            line.append(self.rows[i].0.as_str());
            line.append(" = ");
            if self.editing.is_some() && i == self.at {
                line.append("…");
            } else {
                let shown = mask(self.rows[i].0.as_str(), self.rows[i].1.as_str());
                line.append(shown.as_str());
            }
            assert(p.rows[i as int] == (self.rows@[i as int].0@, self.rows@[i as int].1@));
            assert(line@ == list_row(p, i as int));
            r.push(line);
            assert(texts(r@) =~= before.push(line@));
            assert(texts(r@) =~= Seq::new((i + 1) as nat, |k: int| list_row(p, k)));
            i += 1;
        }
        let ghost list = texts(r@);
        if let Some(e) = &self.editing {
            let (mut lines, _) = e.view(width);
            let ghost more = texts(lines@);
            r.append(&mut lines);
            assert(texts(r@) =~= list + more);
        }
        let ghost now = texts(r@);
        if let Some(err) = &self.error {
            let mut line = "  ✗ ".to_owned();
            line.append(err.as_str());
            r.push(line);
            assert(texts(r@) =~= now.push(line@));
        }
        assert(texts(r@) =~= panel_rows(p, width as int));
        r
    }
}

/// One step down, but not past the last of `n` rows.
pub fn step_down(at: usize, n: usize) -> (r: usize)
    ensures
        r == one_down(at as int, n as int),
{
    if n == 0 {
        0
    } else if at < n - 1 {
        at + 1
    } else {
        n - 1
    }
}

/// The cursor never leaves the rows: moving it keeps it on one of them.
pub proof fn law_the_cursor_stays_on_a_row(at: int, n: int)
    requires
        0 <= at < n,
    ensures
        0 <= one_down(at, n) < n,
        0 <= one_up(at) < n,
        one_up(one_down(at, n)) == at || one_down(at, n) == at,
{
}

/// Refreshing keeps the selection on the same path, wherever it moved to.
pub proof fn law_refresh_keeps_the_path(
    rows: Seq<(Seq<char>, Seq<char>)>,
    path: Seq<char>,
    k: int,
    from: int,
)
    requires
        0 <= from <= k < rows.len(),
        rows[k].0 == path,
    ensures
        from <= place_of(rows, path, from) <= k,
        rows[place_of(rows, path, from)].0 == path,
    decreases k - from,
{
    if rows[from].0 != path {
        law_refresh_keeps_the_path(rows, path, k, from + 1);
    }
}

/// A secret is never spelled out in the list: what a row shows of it says only
/// whether it is set.
pub proof fn law_secrets_stay_masked(path: Seq<char>, value: Seq<char>)
    requires
        is_secret(leaf_of(path)),
    ensures
        masked(path, value) == "<set>"@ || masked(path, value) == "<unset>"@,
        value.len() > 0 ==> masked(path, value) == "<set>"@,
{
}

} // verus!
