//! The modal keys' whole state: the mode that is up, the sequence that leaves
//! Insert, and the character that may be its first half.

use crate::tui::keys::Mode;
use crate::tui::panel::since;
use vstd::prelude::*;
use vstd::string::*;

verus! {

/// What a typed character means to the modal keys.
#[derive(Debug, Clone, Copy, PartialEq, Eq, Structural)]
pub enum Typed {
    /// It lands in the line, as it would with the modal keys off.
    Insert,
    /// It closed the escape sequence: the half already on screen has to come
    /// back off, and the mode has changed.
    Escape,
    /// Normal mode. An unbound character commands nothing and types nothing.
    Ignore,
}

/// The modal keys' state. Their being off is the absence of it, so "off, but in
/// Normal" cannot be written down.
#[derive(Debug, Clone, Copy, PartialEq, Eq)]
pub struct Vim {
    pub mode: Mode,
    /// The two characters that leave Insert. `None` is no sequence, and with it
    /// no way into Normal at all.
    pub escape: Option<(char, char)>,
    /// How long after the first character the second still counts, in
    /// milliseconds.
    pub window: u64,
    /// The last character typed, and when. The character is on screen already
    /// and nothing is held pending.
    pub last: Option<(char, u64)>,
}

/// The two characters of an escape setting: anything that is not exactly two of
/// them is no sequence.
pub open spec fn escape_pair_of(s: Seq<char>) -> Option<(char, char)> {
    if s.len() == 2 {
        Some((s[0], s[1]))
    } else {
        None
    }
}

/// The two characters of an escape setting.
pub fn escape_pair(escape: &str) -> (r: Option<(char, char)>)
    ensures
        r == escape_pair_of(escape@),
{
    let v = crate::text::chars_of(escape);
    if v.len() == 2 {
        Some((v[0], v[1]))
    } else {
        None
    }
}

/// Whether the character typed last opens the sequence, within its window.
pub open spec fn armed(v: Vim, now: u64) -> bool {
    match (v.escape, v.last) {
        (Some((first, _)), Some((p, at))) => p == first && since(at, now) < v.window,
        _ => false,
    }
}

/// What a character means, and the keys' state after it.
pub open spec fn after_typed(v: Vim, c: char, now: u64) -> (Vim, Typed) {
    if v.mode == Mode::Normal {
        (v, Typed::Ignore)
    } else {
        match v.escape {
            None => (v, Typed::Insert),
            Some((_, second)) => if armed(v, now) && c == second {
                (Vim { mode: Mode::Normal, last: None, ..v }, Typed::Escape)
            } else {
                (Vim { last: Some((c, now)), ..v }, Typed::Insert)
            },
        }
    }
}

impl Vim {
    /// The modal keys in Insert, as they are configured.
    pub fn new(escape: &str, window: u64) -> (r: Vim)
        ensures
            r == (Vim {
                mode: Mode::Insert,
                escape: escape_pair_of(escape@),
                window,
                last: None,
            }),
    {
        Vim { mode: Mode::Insert, escape: escape_pair(escape), window, last: None }
    }

    /// Take what the config says about the sequence.
    pub fn configure(&mut self, escape: &str, window: u64)
        ensures
            *final(self) == (Vim { escape: escape_pair_of(escape@), window, ..*old(self) }),
    {
        self.escape = escape_pair(escape);
        self.window = window;
    }

    /// What `c` does, and the mode change if it makes one.
    pub fn typed(&mut self, c: char, now: u64) -> (r: Typed)
        ensures
            (*final(self), r) == after_typed(*old(self), c, now),
    {
        if self.mode == Mode::Normal {
            return Typed::Ignore;
        }
        match self.escape {
            None => Typed::Insert,
            Some((first, second)) => {
                let armed = match self.last {
                    Some((p, at)) => {
                        let ago: u64 = if now >= at {
                            now - at
                        } else {
                            0
                        };
                        p == first && ago < self.window
                    },
                    None => false,
                };
                if armed && c == second {
                    self.mode = Mode::Normal;
                    self.last = None;
                    return Typed::Escape;
                }
                self.last = Some((c, now));
                Typed::Insert
            },
        }
    }
}

/// Outside the window the two characters are just two characters.
pub proof fn law_a_stale_half_arms_nothing(v: Vim, c: char, now: u64)
    requires
        v.mode == Mode::Insert,
        v.last matches Some((_, at)) ==> since(at, now) >= v.window,
    ensures
        after_typed(v, c, now).1 == Typed::Insert,
        after_typed(v, c, now).0.mode == Mode::Insert,
{
}

/// Normal refuses every character it does not bind, and no character leaves it.
pub proof fn law_normal_types_nothing(v: Vim, c: char, now: u64)
    requires
        v.mode == Mode::Normal,
    ensures
        after_typed(v, c, now) == (v, Typed::Ignore),
{
}

/// With no sequence there is no way into Normal.
pub proof fn law_no_sequence_never_leaves_insert(v: Vim, c: char, now: u64)
    requires
        v.mode == Mode::Insert,
        v.escape is None,
    ensures
        after_typed(v, c, now).0.mode == Mode::Insert,
{
}

} // verus!
