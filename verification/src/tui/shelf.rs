//! The shelf panel: what this workspace remembers, and the note being
//! rewritten.
//!
//! Movement and dismissal are the menu's own bindings, as the settings panel
//! does. Only the two verbs a shelf has and a menu does not, rewrite a row and
//! take one away, are its own.

use crate::text::texts;
use crate::tui::editor::{painted, Editor, EditorView};
use crate::tui::keys::back_deleted;
use crate::tui::settings::{blank_editor, one_down, one_up, step_down};
use vstd::prelude::*;
use vstd::string::*;

verus! {

/// One note on the shelf.
#[derive(Debug, Clone, PartialEq, Eq)]
pub struct Row {
    pub id: u64,
    pub day: String,
    pub text: String,
}

/// One note, with its texts as sequences.
#[verifier::ext_equal]
pub struct NoteView {
    pub id: u64,
    pub day: Seq<char>,
    pub text: Seq<char>,
}

impl View for Row {
    type V = NoteView;

    open spec fn view(&self) -> NoteView {
        NoteView { id: self.id, day: self.day@, text: self.text@ }
    }
}

/// Notes, with their texts as sequences.
pub open spec fn notes_view(v: Seq<Row>) -> Seq<NoteView> {
    Seq::new(v.len(), |i: int| v[i]@)
}

/// The rows of the shelf, the cursor, and the note being rewritten.
pub struct Panel {
    rows: Vec<Row>,
    at: usize,
    // Some while a note is being rewritten; browsing otherwise.
    editing: Option<Editor>,
}

/// The shelf, with its texts as sequences.
#[verifier::ext_equal]
pub struct ShelfView {
    pub rows: Seq<NoteView>,
    pub at: int,
    pub editing: Option<EditorView>,
}

/// What an empty shelf says.
pub open spec fn empty_shelf() -> Seq<char> {
    "  nothing on the shelf here — `/mem <what to keep>` puts something on it"@
}

/// One row of the list: the selected one is marked, and the one being
/// rewritten shows that it is.
pub open spec fn shelf_row(p: ShelfView, i: int) -> Seq<char> {
    (if i == p.at {
        "›"@
    } else {
        " "@
    }) + " "@ + p.rows[i].day + "  "@ + (if p.editing is Some && i == p.at {
        "…"@
    } else {
        p.rows[i].text
    })
}

/// The rows to paint: the list, and the line being typed.
pub open spec fn shelf_rows(p: ShelfView, width: int) -> Seq<Seq<char>> {
    if p.rows.len() == 0 {
        seq![empty_shelf()]
    } else {
        Seq::new(p.rows.len(), |i: int| shelf_row(p, i)) + (match p.editing {
            Some(e) => painted(e, width),
            None => Seq::empty(),
        })
    }
}

/// The cursor kept on a row: on whatever took the place of the row that went.
pub open spec fn kept_on(at: int, n: int) -> int {
    if n == 0 {
        0
    } else if at < n {
        at
    } else {
        n - 1
    }
}

impl Panel {
    /// The shelf, with its texts as sequences.
    pub closed spec fn state(&self) -> ShelfView {
        ShelfView {
            rows: notes_view(self.rows@),
            at: self.at as int,
            editing: match self.editing {
                Some(e) => Some(e.state()),
                None => None,
            },
        }
    }

    /// The line being typed is one an editor made.
    pub closed spec fn valid(&self) -> bool {
        self.editing matches Some(e) ==> e.state().valid()
    }

    /// A shelf of these notes.
    pub fn new(rows: Vec<Row>) -> (r: Panel)
        ensures
            r.valid(),
            r.state() == (ShelfView { rows: notes_view(rows@), at: 0, editing: None }),
    {
        Panel { rows, at: 0, editing: None }
    }

    /// Whether a note is being rewritten.
    pub fn editing(&self) -> (r: bool)
        ensures
            r == (self.state().editing is Some),
    {
        self.editing.is_some()
    }

    /// Where the cursor is.
    pub fn cursor(&self) -> (r: usize)
        ensures
            r == self.state().at,
    {
        self.at
    }

    /// What to call the note under the cursor. A shelf can be empty, and an
    /// empty one has nothing to rewrite or take away.
    pub fn focused(&self) -> (r: Option<u64>)
        ensures
            r == if 0 <= self.state().at < self.state().rows.len() {
                Some(self.state().rows[self.state().at].id)
            } else {
                None
            },
    {
        if self.at < self.rows.len() {
            Some(self.rows[self.at].id)
        } else {
            None
        }
    }

    /// Rewrite the note under the cursor, pre-filled with what it says.
    pub fn begin_edit(&mut self)
        requires
            old(self).valid(),
        ensures
            final(self).valid(),
            final(self).state() == if 0 <= old(self).state().at < old(self).state().rows.len() {
                ShelfView {
                    editing: Some(
                        blank_editor().showing(old(self).state().rows[old(self).state().at].text),
                    ),
                    ..old(self).state()
                }
            } else {
                old(self).state()
            },
    {
        if self.at < self.rows.len() {
            let mut e = Editor::default();
            e.set_line(self.rows[self.at].text.as_str());
            self.editing = Some(e);
        }
    }

    /// What is being typed, or the row's own text when nothing is.
    pub fn editing_value(&self) -> (r: &str)
        ensures
            r@ == match self.state().editing {
                Some(e) => e.text,
                None => if 0 <= self.state().at < self.state().rows.len() {
                    self.state().rows[self.state().at].text
                } else {
                    ""@
                },
            },
    {
        match &self.editing {
            Some(e) => e.text(),
            None => {
                if self.at < self.rows.len() {
                    self.rows[self.at].text.as_str()
                } else {
                    ""
                }
            },
        }
    }

    /// A printable key goes into the edit line.
    pub fn insert(&mut self, c: char)
        requires
            old(self).valid(),
        ensures
            final(self).valid(),
            final(self).state() == (ShelfView {
                editing: match old(self).state().editing {
                    Some(e) => Some(e.inserted(seq![c])),
                    None => None,
                },
                ..old(self).state()
            }),
    {
        match &mut self.editing {
            Some(e) => {
                e.insert(c);
            },
            None => {},
        }
    }

    /// Delete the character before the caret of the edit line.
    pub fn backspace(&mut self)
        requires
            old(self).valid(),
        ensures
            final(self).valid(),
            final(self).state() == (ShelfView {
                editing: match old(self).state().editing {
                    Some(e) => Some(back_deleted(e)),
                    None => None,
                },
                ..old(self).state()
            }),
    {
        match &mut self.editing {
            Some(e) => {
                e.backspace();
            },
            None => {},
        }
    }

    /// Leave the edit.
    pub fn finish_edit(&mut self)
        ensures
            final(self).valid(),
            final(self).state() == (ShelfView { editing: None, ..old(self).state() }),
    {
        self.editing = None;
    }

    /// Replace the rows, keeping the cursor where the eye is: on whatever took
    /// the place of the row that went.
    pub fn refresh(&mut self, rows: Vec<Row>)
        requires
            old(self).valid(),
        ensures
            final(self).valid(),
            final(self).state() == (ShelfView {
                rows: notes_view(rows@),
                at: kept_on(old(self).state().at, rows@.len() as int),
                ..old(self).state()
            }),
    {
        self.rows = rows;
        let n = self.rows.len();
        if self.at >= n {
            self.at = if n == 0 {
                0
            } else {
                n - 1
            };
        }
    }

    /// Drop the edit in progress, or close the panel when browsing.
    pub fn dismiss(&mut self) -> (r: bool)
        ensures
            final(self).valid(),
            r == (old(self).state().editing is None),
            final(self).state() == (ShelfView { editing: None, ..old(self).state() }),
    {
        if self.editing.is_some() {
            self.editing = None;
            false
        } else {
            true
        }
    }

    /// One row down, while browsing.
    pub fn next(&mut self)
        requires
            old(self).valid(),
        ensures
            final(self).valid(),
            final(self).state() == if old(self).state().editing is None {
                ShelfView {
                    at: one_down(old(self).state().at, old(self).state().rows.len() as int),
                    ..old(self).state()
                }
            } else {
                old(self).state()
            },
    {
        if self.editing.is_none() {
            self.at = step_down(self.at, self.rows.len());
        }
    }

    /// One row up, while browsing.
    pub fn previous(&mut self)
        requires
            old(self).valid(),
        ensures
            final(self).valid(),
            final(self).state() == if old(self).state().editing is None {
                ShelfView { at: one_up(old(self).state().at), ..old(self).state() }
            } else {
                old(self).state()
            },
    {
        if self.editing.is_none() && self.at > 0 {
            self.at = self.at - 1;
        }
    }

    /// The rows to paint: each note with its day, the selected one marked, and
    /// the line being typed.
    pub fn view(&self, width: usize) -> (r: Vec<String>)
        requires
            self.valid(),
        ensures
            texts(r@) == shelf_rows(self.state(), width as int),
    {
        let ghost p = self.state();
        let mut r: Vec<String> = Vec::new();
        if self.rows.len() == 0 {
            r.push(
                "  nothing on the shelf here — `/mem <what to keep>` puts something on it".to_owned(),
            );
            assert(texts(r@) =~= shelf_rows(p, width as int));
            return r;
        }
        let mut i: usize = 0;
        while i < self.rows.len()
            invariant
                i <= self.rows@.len(),
                p == self.state(),
                texts(r@) == Seq::new(i as nat, |k: int| shelf_row(p, k)),
            decreases self.rows@.len() - i,
        {
            let ghost before = texts(r@);
            let mut line = if i == self.at {
                "›".to_owned()
            } else {
                " ".to_owned()
            };
            line.append(" ");
            line.append(self.rows[i].day.as_str());
            line.append("  ");
            if self.editing.is_some() && i == self.at {
                line.append("…");
            } else {
                line.append(self.rows[i].text.as_str());
            }
            assert(p.rows[i as int] == self.rows@[i as int]@);
            assert(line@ == shelf_row(p, i as int));
            r.push(line);
            assert(texts(r@) =~= before.push(line@));
            assert(texts(r@) =~= Seq::new((i + 1) as nat, |k: int| shelf_row(p, k)));
            i += 1;
        }
        let ghost list = texts(r@);
        if let Some(e) = &self.editing {
            let (mut lines, _) = e.view(width);
            let ghost more = texts(lines@);
            r.append(&mut lines);
            assert(texts(r@) =~= list + more);
        }
        assert(texts(r@) =~= shelf_rows(p, width as int));
        r
    }
}

/// The cursor survives the row under it going: on a shelf with notes it is
/// always on one of them.
pub proof fn law_the_cursor_survives_a_refresh(at: int, n: int)
    requires
        at >= 0,
        n > 0,
    ensures
        0 <= kept_on(at, n) < n,
        at < n ==> kept_on(at, n) == at,
{
}

} // verus!
