//! How many columns a terminal gives a character.

use vstd::prelude::*;

verus! {

/// The displayed width of a character in columns, or nothing for a control
/// character.
pub uninterp spec fn char_columns(c: char) -> Option<usize>;

/// Whether `c` is a control character.
pub open spec fn is_control(c: char) -> bool {
    (c as u32) < 0x20 || 0x7f <= (c as u32) < 0xa0
}

/// Whether `c` is a control character.
pub fn control(c: char) -> (r: bool)
    ensures
        r == is_control(c),
{
    let n: u32 = c as u32;
    n < 0x20 || (0x7f <= n && n < 0xa0)
}

/// `unicode_width::UnicodeWidthChar::width`: no width for a control character,
/// one column for a printable ASCII character, and never more than three.
#[verifier::external_body]
fn outside_columns(c: char) -> (r: Option<usize>)
    ensures
        r == char_columns(c),
        r is None <==> is_control(c),
        0x20 <= (c as u32) < 0x7f ==> r == Some(1usize),
        r matches Some(w) ==> w <= 3,
{
    unicode_width::UnicodeWidthChar::width(c)
}

/// The columns a character takes on a row: a printable ASCII character takes
/// one, and a control character none.
pub open spec fn columns(c: char) -> int {
    if 0x20 <= (c as u32) < 0x7f {
        1
    } else {
        match char_columns(c) {
            Some(w) => w as int,
            None => 0,
        }
    }
}

/// The columns a character takes on a row.
pub fn columns_of(c: char) -> (r: usize)
    ensures
        r == columns(c),
        r <= 3,
        0x20 <= (c as u32) < 0x7f ==> r == 1,
{
    match outside_columns(c) {
        Some(w) => w,
        None => 0,
    }
}

/// The columns a text takes on one row, character by character.
pub open spec fn row_columns(s: Seq<char>) -> int
    decreases s.len(),
{
    if s.len() == 0 {
        0
    } else {
        row_columns(s.drop_last()) + columns(s.last())
    }
}

/// The columns a whole text takes, as the terminal counts them: characters
/// that join with their neighbours are counted together.
pub uninterp spec fn text_columns(s: Seq<char>) -> usize;

/// `unicode_width::UnicodeWidthStr::width`.
#[verifier::external_body]
pub(crate) fn text_columns_of(s: &str) -> (r: usize)
    ensures
        r == text_columns(s@),
{
    unicode_width::UnicodeWidthStr::width(s)
}

} // verus!
