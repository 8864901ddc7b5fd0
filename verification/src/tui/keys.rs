//! What a key press is, and the actions a press can be bound to.

use crate::tui::editor::{line_begin, line_end, word_end, word_start, Editor, EditorView};
use vstd::prelude::*;

verus! {

/// What a press can be bound to.
#[derive(Debug, Clone, Copy, PartialEq, Eq, Structural)]
pub enum Action {
    LineClear,
    LineSubmit,
    EditExternally,
    RunInterrupt,
    Rewind,
    LaneNext,
    AppClearScreen,
    AppExit,
    InsertNewline,
    DeleteCharBack,
    DeleteCharForward,
    DeleteWordBack,
    DeleteToLineEnd,
    DeleteToLineStart,
    MoveCharLeft,
    MoveCharRight,
    MoveWordLeft,
    MoveWordRight,
    MoveWordNext,
    MoveLineStart,
    MoveLineEnd,
    HistoryOlder,
    HistoryNewer,
    ModeInsert,
    ModeInsertAfter,
    ModeInsertLineStart,
    ModeInsertLineEnd,
    ChangeChar,
    ChangeToLineEnd,
    ScrollPageUp,
    ScrollPageDown,
    ScrollHalfUp,
    ScrollHalfDown,
    ThinkFold,
    ThinkFoldAll,
    MenuAccept,
    MenuNext,
    MenuPrevious,
    MenuDismiss,
}

/// Which of the modal keys' two modes is up.
#[derive(Debug, Clone, Copy, PartialEq, Eq, Structural)]
pub enum Mode {
    Insert,
    Normal,
}

/// The key that was pressed.
#[derive(Debug, Clone, Copy, PartialEq, Eq, Structural)]
pub enum Code {
    Esc,
    Char(char),
    Other,
}

/// One press of a key.
#[derive(Debug, Clone, Copy, PartialEq, Eq, Structural)]
pub struct Key {
    pub code: Code,
    /// Whether ctrl or alt was held, which keeps a letter from being typed.
    pub command: bool,
}

/// The character a press types, if it types one.
pub open spec fn types(k: Key) -> Option<char> {
    match k.code {
        Code::Char(c) => if k.command {
            None
        } else {
            Some(c)
        },
        _ => None,
    }
}

impl Key {
    /// A press of one key on its own.
    pub fn plain(code: Code) -> (r: Key)
        ensures
            r == (Key { code, command: false }),
    {
        Key { code, command: false }
    }

    /// The character the press types, if it types one.
    pub fn typed(&self) -> (r: Option<char>)
        ensures
            r == types(*self),
    {
        match self.code {
            Code::Char(c) => if self.command {
                None
            } else {
                Some(c)
            },
            _ => None,
        }
    }
}

/// The line with the character before the caret gone.
pub open spec fn back_deleted(e: EditorView) -> EditorView {
    if e.caret > 0 {
        e.cut(e.caret - 1, e.caret)
    } else {
        e
    }
}

/// The line with the character behind the caret gone.
pub open spec fn fore_deleted(e: EditorView) -> EditorView {
    if e.caret < e.text.len() {
        e.cut(e.caret, e.caret + 1)
    } else {
        e
    }
}

/// The line with the caret one character on.
pub open spec fn stepped(e: EditorView) -> EditorView {
    e.moved(
        if e.caret < e.text.len() {
            e.caret + 1
        } else {
            e.caret
        },
    )
}

/// What an action that moves the caret or deletes does to the line; nothing for
/// any other action.
pub open spec fn edited(e: EditorView, a: Action) -> Option<EditorView> {
    match a {
        Action::DeleteCharBack => Some(back_deleted(e)),
        Action::DeleteCharForward => Some(fore_deleted(e)),
        Action::DeleteWordBack => Some(e.cut(word_start(e.text, e.caret), e.caret)),
        Action::DeleteToLineEnd => Some(e.cut(e.caret, line_end(e.text, e.caret))),
        Action::DeleteToLineStart => Some(e.cut(line_begin(e.text, e.caret), e.caret)),
        Action::MoveCharLeft => Some(
            e.moved(
                if e.caret > 0 {
                    e.caret - 1
                } else {
                    0
                },
            ),
        ),
        Action::MoveCharRight => Some(stepped(e)),
        Action::MoveWordLeft => Some(e.moved(word_start(e.text, e.caret))),
        Action::MoveWordRight => Some(e.moved(word_end(e.text, e.caret))),
        Action::MoveLineStart => Some(e.moved(line_begin(e.text, e.caret))),
        Action::MoveLineEnd => Some(e.moved(line_end(e.text, e.caret))),
        _ => None,
    }
}

/// Move the caret or delete, where the action does; whether it did.
pub fn edit(editor: &mut Editor, a: Action) -> (r: bool)
    requires
        old(editor).state().valid(),
    ensures
        final(editor).state().valid(),
        match edited(old(editor).state(), a) {
            Some(e) => r && final(editor).state() == e,
            None => !r && *final(editor) == *old(editor),
        },
{
    match a {
        Action::DeleteCharBack => editor.backspace(),
        Action::DeleteCharForward => editor.delete(),
        Action::DeleteWordBack => editor.kill_word_back(),
        Action::DeleteToLineEnd => editor.kill_to_end(),
        Action::DeleteToLineStart => editor.kill_to_start(),
        Action::MoveCharLeft => editor.left(),
        Action::MoveCharRight => editor.right(),
        Action::MoveWordLeft => editor.word_left(),
        Action::MoveWordRight => editor.word_right(),
        Action::MoveLineStart => editor.home(),
        Action::MoveLineEnd => editor.end(),
        _ => {
            return false;
        },
    }
    true
}

} // verus!
