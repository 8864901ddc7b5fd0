//! The parts of a patch: sections, operations, marked rows, and why a patch is
//! refused.

use crate::text::{append_number, decimal};
use vstd::prelude::*;
use vstd::string::*;

verus! {

/// What a marked row does with the row of the file it stands for.
#[derive(Debug, Clone, Copy, PartialEq, Eq, Structural)]
pub enum Mark {
    /// The row goes.
    Del,
    /// The row stays.
    Keep,
    /// A row the file does not have yet.
    Add,
}

/// One row of an operation.
#[derive(Debug, Clone, PartialEq, Eq)]
pub enum Row {
    /// A `-`, `=` or `+` row.
    Mark(Mark, String),
    /// A `*` row: a construct that `+` rows are put around.
    Star(String),
    /// An `@` row: a construct the rows below are looked for in.
    At(String),
}

/// A row, with its text as a sequence.
#[verifier::ext_equal]
pub enum RowView {
    Mark(Mark, Seq<char>),
    Star(Seq<char>),
    At(Seq<char>),
}

impl View for Row {
    type V = RowView;

    open spec fn view(&self) -> RowView {
        match *self {
            Row::Mark(m, t) => RowView::Mark(m, t@),
            Row::Star(t) => RowView::Star(t@),
            Row::At(t) => RowView::At(t@),
        }
    }
}

/// The operations on one file.
#[derive(Debug, Clone, PartialEq, Eq)]
pub struct Section {
    pub path: String,
    pub groups: Vec<Vec<Row>>,
    /// The line of the patch its header stands on.
    pub line: usize,
}

/// A section, with its texts as sequences.
#[verifier::ext_equal]
pub struct SectionView {
    pub path: Seq<char>,
    pub groups: Seq<Seq<RowView>>,
    pub line: int,
}

/// The rows of one operation.
pub open spec fn group_view(g: Seq<Row>) -> Seq<RowView> {
    Seq::new(g.len(), |i: int| g[i]@)
}

/// The operations of a section.
pub open spec fn groups_view(g: Seq<Vec<Row>>) -> Seq<Seq<RowView>> {
    Seq::new(g.len(), |i: int| group_view(g[i]@))
}

impl View for Section {
    type V = SectionView;

    open spec fn view(&self) -> SectionView {
        SectionView {
            path: self.path@,
            groups: groups_view(self.groups@),
            line: self.line as int,
        }
    }
}

/// The sections of a patch.
pub open spec fn sections_view(v: Seq<Section>) -> Seq<SectionView> {
    Seq::new(v.len(), |i: int| v[i]@)
}

/// A whole patch: its sections, in order.
#[derive(Debug, Clone, PartialEq, Eq)]
pub struct Patch {
    pub sections: Vec<Section>,
}

impl View for Patch {
    type V = Seq<SectionView>;

    open spec fn view(&self) -> Seq<SectionView> {
        sections_view(self.sections@)
    }
}

/// Why a patch was refused.
#[derive(Debug, Clone, PartialEq, Eq)]
pub enum Error {
    /// The patch is spelt wrong.
    Syntax { line: usize, what: String },
    /// The patch names no file.
    Empty,
    /// A section names a file that was not handed over.
    Missing { path: String },
    /// No row of the file matches; the closest one is named.
    NoMatch { path: String, line: usize, text: String },
    /// More than one place of the file matches.
    Ambiguous { path: String, n: usize, detail: String },
    /// No construct, or more than one, opens with the text given.
    NoConstruct { path: String, what: String },
    /// Two operations act on the same rows.
    Overlap {
        path: String,
        a_start: usize,
        a_end: usize,
        b_start: usize,
        b_end: usize,
        overlap: usize,
        a_in: String,
        b_in: String,
    },
}

/// Why a patch was refused, with its texts as sequences.
#[verifier::ext_equal]
pub enum ErrorView {
    Syntax { line: int, what: Seq<char> },
    Empty,
    Missing { path: Seq<char> },
    NoMatch { path: Seq<char>, line: int, text: Seq<char> },
    Ambiguous { path: Seq<char>, n: int, detail: Seq<char> },
    NoConstruct { path: Seq<char>, what: Seq<char> },
    Overlap {
        path: Seq<char>,
        a_start: int,
        a_end: int,
        b_start: int,
        b_end: int,
        overlap: int,
        a_in: Seq<char>,
        b_in: Seq<char>,
    },
}

impl View for Error {
    type V = ErrorView;

    open spec fn view(&self) -> ErrorView {
        match *self {
            Error::Syntax { line, what } => ErrorView::Syntax { line: line as int, what: what@ },
            Error::Empty => ErrorView::Empty,
            Error::Missing { path } => ErrorView::Missing { path: path@ },
            Error::NoMatch { path, line, text } => ErrorView::NoMatch {
                path: path@,
                line: line as int,
                text: text@,
            },
            Error::Ambiguous { path, n, detail } => ErrorView::Ambiguous {
                path: path@,
                n: n as int,
                detail: detail@,
            },
            Error::NoConstruct { path, what } => ErrorView::NoConstruct {
                path: path@,
                what: what@,
            },
            Error::Overlap { path, a_start, a_end, b_start, b_end, overlap, a_in, b_in } =>
                ErrorView::Overlap {
                path: path@,
                a_start: a_start as int,
                a_end: a_end as int,
                b_start: b_start as int,
                b_end: b_end as int,
                overlap: overlap as int,
                a_in: a_in@,
                b_in: b_in@,
            },
        }
    }
}

/// A range of rows, as a refusal names it.
pub open spec fn rows_form(start: int, end: int) -> Seq<char> {
    decimal(start as nat) + "-"@ + decimal(end as nat)
}

/// What a refusal says.
pub open spec fn error_form(e: ErrorView) -> Seq<char> {
    match e {
        ErrorView::Syntax { line, what } => "line "@ + decimal(line as nat) + ": "@ + what,
        ErrorView::Empty => "the patch names no file"@,
        ErrorView::Missing { path } => path + ": there is no such file to patch"@,
        ErrorView::NoMatch { path, line, text } => "no match in "@ + path
            + " — the closest row is "@ + decimal(line as nat) + ": `"@ + text + "`"@,
        ErrorView::Ambiguous { path, n, detail } => decimal(n as nat) + " places match in "@ + path
            + ":\n"@ + detail,
        ErrorView::NoConstruct { path, what } => "in "@ + path + ": "@ + what,
        ErrorView::Overlap { path, a_start, a_end, b_start, b_end, overlap, a_in, b_in } => "in "@
            + path + ": rows "@ + rows_form(a_start, a_end) + a_in + " and "@ + rows_form(
            b_start,
            b_end,
        ) + b_in + " overlap at row "@ + decimal(overlap as nat),
    }
}

fn append_rows(s: &mut String, start: usize, end: usize)
    ensures
        final(s)@ == old(s)@ + rows_form(start as int, end as int),
{
    append_number(s, start);
    s.append("-");
    append_number(s, end);
    assert(s@ =~= old(s)@ + rows_form(start as int, end as int));
}

impl Error {
    /// What the reader of a refused patch is told.
    pub fn message(&self) -> (r: String)
        ensures
            r@ == error_form(self@),
    {
        let mut s = String::new();
        match self {
            Error::Syntax { line, what } => {
                s.append("line ");
                append_number(&mut s, *line);
                s.append(": ");
                s.append(what.as_str());
            },
            Error::Empty => {
                s.append("the patch names no file");
            },
            Error::Missing { path } => {
                s.append(path.as_str());
                s.append(": there is no such file to patch");
            },
            Error::NoMatch { path, line, text } => {
                s.append("no match in ");
                s.append(path.as_str());
                s.append(" — the closest row is ");
                append_number(&mut s, *line);
                s.append(": `");
                s.append(text.as_str());
                s.append("`");
            },
            Error::Ambiguous { path, n, detail } => {
                append_number(&mut s, *n);
                s.append(" places match in ");
                s.append(path.as_str());
                s.append(":\n");
                s.append(detail.as_str());
            },
            Error::NoConstruct { path, what } => {
                s.append("in ");
                s.append(path.as_str());
                s.append(": ");
                s.append(what.as_str());
            },
            Error::Overlap { path, a_start, a_end, b_start, b_end, overlap, a_in, b_in } => {
                s.append("in ");
                s.append(path.as_str());
                s.append(": rows ");
                append_rows(&mut s, *a_start, *a_end);
                s.append(a_in.as_str());
                s.append(" and ");
                append_rows(&mut s, *b_start, *b_end);
                s.append(b_in.as_str());
                s.append(" overlap at row ");
                append_number(&mut s, *overlap);
            },
        }
        assert(s@ =~= error_form(self@));
        s
    }
}

// ---------------------------------------------------------------------------
// The shape of an operation
// ---------------------------------------------------------------------------

/// Whether some row of the operation is a `*` row.
pub open spec fn starred(g: Seq<RowView>) -> bool {
    exists|i: int| 0 <= i < g.len() && #[trigger] g[i] is Star
}

/// Where the first `*` row stands; the length where there is none.
pub open spec fn star_at(g: Seq<RowView>) -> int
    decreases g.len(),
{
    if g.len() == 0 || g[0] is Star {
        0
    } else {
        1 + star_at(g.skip(1))
    }
}

/// Whether a row is a `+` row.
pub open spec fn is_add(r: RowView) -> bool {
    r matches RowView::Mark(m, _) && m == Mark::Add
}

/// Whether every row but the one at `ix` is a `+` row.
pub open spec fn adds_around(g: Seq<RowView>, ix: int) -> bool {
    forall|i: int| 0 <= i < g.len() && i != ix ==> is_add(#[trigger] g[i])
}

/// Whether an `@` row comes after a marked one.
pub open spec fn late_scope(g: Seq<RowView>) -> bool {
    exists|i: int, j: int|
        0 <= i < j < g.len() && #[trigger] g[i] is Mark && #[trigger] g[j] is At
}

/// Whether the operation can be carried out: a `*` row has only `+` rows
/// around it, and without one the `@` rows lead.
pub open spec fn shaped(g: Seq<RowView>) -> bool {
    if starred(g) {
        adds_around(g, star_at(g))
    } else {
        !late_scope(g)
    }
}

} // verus!
