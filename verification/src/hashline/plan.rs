//! What a patch does to the files it names, stated on their rows.
//!
//! `group_ops` lowers one operation to plain line ranges or says why it is
//! refused, `swept` is the file's rows once the ranges are replaced and the
//! insertions filed around them, and `plan` stacks the sections of a patch.

use crate::hashline::landing::{
    block_hits, covering, crlf, has_crlf, nearest, row_at, LandedView,
};
use crate::hashline::parse::syntax;
use crate::hashline::patch::{
    is_add, star_at, starred, ErrorView, Mark, RowView, SectionView,
};
use crate::hashline::stacking::restacked;
use crate::hashline::{opened, Blocks};
use crate::text::{cropped, decimal, holds, join, lines, split, trim, without_cr};
use vstd::prelude::*;

verus! {

// ---------------------------------------------------------------------------
// Rows of a file
// ---------------------------------------------------------------------------

/// Whether the file closes with a line break; an empty one counts as if it did.
pub open spec fn trailing(content: Seq<char>) -> bool {
    content.len() == 0 || content.last() == '\n'
}

/// The rows of a file, without the breaks between them.
pub open spec fn file_rows(content: Seq<char>) -> Seq<Seq<char>> {
    if content.len() == 0 {
        Seq::empty()
    } else {
        let body = if content.last() == '\n' {
            content.drop_last()
        } else {
            content
        };
        let pieces = split(body, '\n');
        Seq::new(pieces.len(), |i: int| without_cr(pieces[i]))
    }
}

/// Rows as a file again, with the line ending and the closing break it had.
pub open spec fn rejoined(rows: Seq<Seq<char>>, closed: bool, crlf_file: bool) -> Seq<char> {
    let sep = if crlf_file {
        crlf()
    } else {
        seq!['\n']
    };
    if closed && rows.len() > 0 {
        join(rows, sep) + sep
    } else {
        join(rows, sep)
    }
}

// ---------------------------------------------------------------------------
// Constructs
// ---------------------------------------------------------------------------

/// The opening rows in `lo..=hi`.
pub open spec fn within(opens: Seq<usize>, lo: int, hi: int) -> Seq<usize>
    decreases opens.len(),
{
    if opens.len() == 0 {
        Seq::empty()
    } else {
        let rest = within(opens.drop_last(), lo, hi);
        if lo <= opens.last() <= hi {
            rest.push(opens.last())
        } else {
            rest
        }
    }
}

/// The opening lines of a window, without those equal to the one before.
pub open spec fn window_lines(opens: Seq<usize>, rows: Seq<Seq<char>>) -> Seq<Seq<char>>
    decreases opens.len(),
{
    if opens.len() == 0 {
        Seq::empty()
    } else {
        let rest = window_lines(opens.drop_last(), rows);
        let row = trim(row_at(rows, opens.last() as int));
        if rest.len() == 0 || rest.last() != row {
            rest.push(row)
        } else {
            rest
        }
    }
}

/// What a window does open, for a refusal to hand over.
pub open spec fn window_hint(opens: Seq<usize>, rows: Seq<Seq<char>>) -> Seq<char> {
    let all = window_lines(opens, rows);
    let n = if all.len() <= 5 {
        all.len() as int
    } else {
        5
    };
    let told = Seq::new(n as nat, |i: int| seq!['`'] + cropped(all[i], 60) + seq!['`']);
    let names = if all.len() > 5 {
        told.push("… +"@ + decimal((all.len() - 5) as nat))
    } else {
        told
    };
    if all.len() == 0 {
        Seq::empty()
    } else {
        " — the window opens: "@ + join(names, ", "@)
    }
}

/// `lo-hi`, as a refusal writes a range of lines.
pub open spec fn range_text(lo: int, hi: int) -> Seq<char> {
    decimal(lo as nat) + "-"@ + decimal(hi as nat)
}

/// The rows of the one construct that opens with `star` in `lo..=hi`.
pub open spec fn named<B: Blocks>(
    path: Seq<char>,
    star: Seq<char>,
    lo: int,
    hi: int,
    content: Seq<char>,
    blocks: &B,
) -> Result<(int, int), ErrorView> {
    let rows = lines(content);
    let here = within(blocks.opening_rows(path, content), lo, hi);
    let cands = block_hits(here, rows, trim(star));
    if cands.len() == 0 {
        Err(
            ErrorView::NoConstruct {
                path,
                what: "no construct opens with `"@ + star + "` in lines "@ + range_text(lo, hi)
                    + window_hint(here, rows),
            },
        )
    } else if cands.len() > 1 {
        Err(
            ErrorView::NoConstruct {
                path,
                what: "`"@ + star + "` opens "@ + decimal(cands.len()) + " constructs in lines "@
                    + range_text(lo, hi)
                    + " — add an outer `@` scope or more of the opening line"@,
            },
        )
    } else {
        match blocks.extent_at(path, content, cands[0]) {
            Some((s, e)) => Ok((s as int, e as int)),
            None => Err(
                ErrorView::NoConstruct {
                    path,
                    what: "the row the anchor names (line "@ + decimal(cands[0] as nat)
                        + ") opens no resolvable construct"@,
                },
            ),
        }
    }
}

/// The opening line of the construct that line `at` sits in.
pub open spec fn held_in<B: Blocks>(
    path: Seq<char>,
    at: int,
    content: Seq<char>,
    blocks: &B,
) -> Option<Seq<char>> {
    covering(
        at,
        lines(content),
        opened(
            |line: usize| blocks.extent_at(path, content, line),
            blocks.opening_rows(path, content),
        ),
    )
}

// ---------------------------------------------------------------------------
// One operation
// ---------------------------------------------------------------------------

/// One lowered operation, in plain line ranges.
#[verifier::ext_equal]
pub enum OpView {
    Replace { start: int, end: int, body: Seq<Seq<char>> },
    InsertBefore { line: int, body: Seq<Seq<char>> },
}

/// The text of a marked row.
pub open spec fn row_text(r: RowView) -> Seq<char> {
    match r {
        RowView::Mark(_, t) => t,
        RowView::Star(t) => t,
        RowView::At(t) => t,
    }
}

/// The texts of rows.
pub open spec fn row_texts(g: Seq<RowView>) -> Seq<Seq<char>> {
    Seq::new(g.len(), |i: int| row_text(g[i]))
}

/// How many `@` rows lead the operation.
pub open spec fn scope_count(g: Seq<RowView>) -> int
    decreases g.len(),
{
    if g.len() > 0 && g[0] is At {
        1 + scope_count(g.skip(1))
    } else {
        0
    }
}

/// Whether every row carries the mark `m`.
pub open spec fn all_marked(g: Seq<RowView>, m: Mark) -> bool {
    forall|i: int| 0 <= i < g.len() ==> (#[trigger] g[i] matches RowView::Mark(k, _) && k == m)
}

/// Whether a row stands for a row of the file.
pub open spec fn is_core(r: RowView) -> bool {
    r matches RowView::Mark(m, _) && m != Mark::Add
}

/// The texts of the rows that stand for rows of the file.
pub open spec fn core_texts(g: Seq<RowView>) -> Seq<Seq<char>>
    decreases g.len(),
{
    if g.len() == 0 {
        Seq::empty()
    } else if is_core(g.last()) {
        core_texts(g.drop_last()).push(row_text(g.last()))
    } else {
        core_texts(g.drop_last())
    }
}

/// The `+` rows in front of every row that stands for one of the file.
pub open spec fn leading(g: Seq<RowView>) -> Seq<Seq<char>>
    decreases g.len(),
{
    if g.len() == 0 {
        Seq::empty()
    } else if is_add(g.last()) && core_texts(g.drop_last()).len() == 0 {
        leading(g.drop_last()).push(row_text(g.last()))
    } else {
        leading(g.drop_last())
    }
}

/// What the matched rows become: a kept row as the file has it, a deleted one
/// gone, and each later `+` row at its own position.
pub open spec fn replaced(g: Seq<RowView>, rows: Seq<Seq<char>>, first: int) -> Seq<Seq<char>>
    decreases g.len(),
{
    if g.len() == 0 {
        Seq::empty()
    } else {
        let rest = replaced(g.drop_last(), rows, first);
        let before = core_texts(g.drop_last()).len();
        match g.last() {
            RowView::Mark(Mark::Add, t) => if before == 0 {
                rest
            } else {
                rest.push(t)
            },
            RowView::Mark(Mark::Keep, _) => rest.push(rows[first - 1 + before]),
            _ => rest,
        }
    }
}

/// The window of the first `n` scopes: nested scopes narrow it, innermost wins.
pub open spec fn window<B: Blocks>(
    path: Seq<char>,
    scopes: Seq<RowView>,
    n: int,
    content: Seq<char>,
    blocks: &B,
) -> Result<(int, int), ErrorView>
    decreases n,
{
    if n <= 0 {
        Ok((1, lines(content).len() as int))
    } else {
        match window(path, scopes, n - 1, content, blocks) {
            Ok((lo, hi)) => named(path, row_text(scopes[n - 1]), lo, hi, content, blocks),
            Err(e) => Err(e),
        }
    }
}

/// The lines of `lo..=hi` that hold `needle`.
pub open spec fn holding(rows: Seq<Seq<char>>, needle: Seq<char>, lo: int, hi: int) -> Seq<int>
    decreases hi - lo + 1,
{
    if hi < lo {
        Seq::empty()
    } else {
        let rest = holding(rows, needle, lo, hi - 1);
        if 1 <= hi <= rows.len() && holds(rows[hi - 1], needle) {
            rest.push(hi)
        } else {
            rest
        }
    }
}

/// Lines as maximal runs of neighbours, each deleted.
pub open spec fn run_ops(hits: Seq<int>) -> Seq<OpView>
    decreases hits.len(),
{
    if hits.len() == 0 {
        Seq::empty()
    } else {
        let rest = run_ops(hits.drop_last());
        let n = hits.last();
        if rest.len() > 0 && (rest.last() matches OpView::Replace { end, .. } && end + 1 == n) {
            rest.drop_last().push(
                OpView::Replace {
                    start: rest.last()->Replace_start,
                    end: n,
                    body: Seq::empty(),
                },
            )
        } else {
            rest.push(OpView::Replace { start: n, end: n, body: Seq::empty() })
        }
    }
}

/// Whether the rows from line `s` on read as `seq`, indentation aside.
pub open spec fn fits(rows: Seq<Seq<char>>, seq: Seq<Seq<char>>, s: int) -> bool {
    forall|i: int| 0 <= i < seq.len() ==> trim(rows[s - 1 + i]) == trim(#[trigger] seq[i])
}

/// The lines from `lo` on where `seq` fits, up to where it would end past `hi`.
pub open spec fn fitting(rows: Seq<Seq<char>>, seq: Seq<Seq<char>>, lo: int, last: int) -> Seq<int>
    decreases last - lo + 1,
{
    if last < lo {
        Seq::empty()
    } else {
        let rest = fitting(rows, seq, lo, last - 1);
        if fits(rows, seq, last) {
            rest.push(last)
        } else {
            rest
        }
    }
}

/// The row `d` lines above line `s`.
pub open spec fn above_row(rows: Seq<Seq<char>>, s: int, d: int) -> Option<Seq<char>> {
    if s > d {
        Some(rows[s - d - 1])
    } else {
        None
    }
}

/// Whether the rows `d` lines above the candidates do not tell them apart.
pub open spec fn alike(rows: Seq<Seq<char>>, starts: Seq<int>, d: int) -> bool {
    forall|i: int|
        0 <= i < starts.len() ==> above_row(rows, #[trigger] starts[i], d) == above_row(
            rows,
            starts[0],
            d,
        )
}

/// How many rows above it takes to tell the candidates apart, at most 3.
pub open spec fn telling_depth(rows: Seq<Seq<char>>, starts: Seq<int>) -> int {
    if !alike(rows, starts, 1) {
        1
    } else if !alike(rows, starts, 2) {
        2
    } else {
        3
    }
}

/// The rows above a candidate, as a refusal describes them.
pub open spec fn preceded(rows: Seq<Seq<char>>, s: int, depth: int) -> Seq<char>
    decreases depth,
{
    if depth <= 0 {
        Seq::empty()
    } else {
        let rest = preceded(rows, s, depth - 1);
        let label = if depth == 1 {
            "preceded by"@
        } else {
            "before that"@
        };
        match above_row(rows, s, depth) {
            Some(row) => rest + (", "@ + label + " `"@ + cropped(row, 60) + "`"@),
            None => rest,
        }
    }
}

/// How a refusal describes one candidate.
pub open spec fn candidate_line<B: Blocks>(
    path: Seq<char>,
    s: int,
    k: int,
    depth: int,
    content: Seq<char>,
    blocks: &B,
) -> Seq<char> {
    let held = match held_in(path, s, content, blocks) {
        Some(row) => " in `"@ + cropped(row, 60) + "`"@,
        None => Seq::empty(),
    };
    "  lines "@ + range_text(s, s + k - 1) + held + preceded(lines(content), s, depth)
}

/// The candidates of an ambiguous operation, one per line.
pub open spec fn candidate_list<B: Blocks>(
    path: Seq<char>,
    starts: Seq<int>,
    k: int,
    content: Seq<char>,
    blocks: &B,
) -> Seq<char> {
    let depth = telling_depth(lines(content), starts);
    join(
        Seq::new(
            starts.len(),
            |i: int| candidate_line(path, starts[i], k, depth, content, blocks),
        ),
        seq!['\n'],
    )
}

/// The closest line of `lo..=hi`, as a refusal names it.
pub open spec fn no_match(
    path: Seq<char>,
    rows: Seq<Seq<char>>,
    wanted: Seq<Seq<char>>,
    lo: int,
    hi: int,
) -> ErrorView {
    let line = nearest(rows, wanted, lo, hi);
    ErrorView::NoMatch { path, line, text: cropped(row_at(rows, line), 80) }
}

/// What an operation around a `*` row comes to.
pub open spec fn star_ops<B: Blocks>(
    section: SectionView,
    g: Seq<RowView>,
    content: Seq<char>,
    blocks: &B,
) -> Result<Seq<OpView>, ErrorView> {
    let ix = star_at(g);
    match named(section.path, row_text(g[ix]), 1, lines(content).len() as int, content, blocks) {
        Err(e) => Err(e),
        Ok((cs, ce)) => {
            let above = if ix > 0 {
                seq![OpView::InsertBefore { line: cs, body: row_texts(g.take(ix)) }]
            } else {
                Seq::empty()
            };
            let below = if ix + 1 < g.len() {
                seq![OpView::InsertBefore { line: ce + 1, body: row_texts(g.skip(ix + 1)) }]
            } else {
                Seq::empty()
            };
            Ok(above + below)
        },
    }
}

/// What an operation of only `+` rows comes to: the construct it names is
/// replaced whole.
pub open spec fn whole_ops<B: Blocks>(
    section: SectionView,
    scopes: Seq<RowView>,
    marks: Seq<RowView>,
    content: Seq<char>,
    blocks: &B,
) -> Result<Seq<OpView>, ErrorView> {
    if scopes.len() != 1 {
        Err(
            syntax(
                section.line,
                "an operation made only of `+` rows needs exactly one `@` scope to anchor it, or an `=` row beside it"@,
            ),
        )
    } else {
        match named(
            section.path,
            row_text(scopes[0]),
            1,
            lines(content).len() as int,
            content,
            blocks,
        ) {
            Ok((start, end)) => Ok(
                seq![OpView::Replace { start, end, body: row_texts(marks) }],
            ),
            Err(e) => Err(e),
        }
    }
}

/// What a lone `-` row comes to: every row of the window that holds its text
/// goes, and a bare one takes the whole construct.
pub open spec fn sweep_ops(
    section: SectionView,
    scoped: bool,
    pattern: Seq<char>,
    lo: int,
    hi: int,
    rows: Seq<Seq<char>>,
) -> Result<Seq<OpView>, ErrorView> {
    let needle = trim(pattern);
    let hits = holding(rows, needle, lo, hi);
    if needle.len() == 0 {
        if scoped {
            Ok(seq![OpView::Replace { start: lo, end: hi, body: Seq::empty() }])
        } else {
            Err(
                syntax(
                    section.line,
                    "a bare `-` deletes a whole construct — name it with an `@` scope, or anchor a blank row with `=` rows"@,
                ),
            )
        }
    } else if hits.len() == 0 {
        Err(no_match(section.path, rows, seq![needle], lo, hi))
    } else {
        Ok(run_ops(hits))
    }
}

/// What an operation with rows of the file comes to: the one place they stand
/// is replaced.
pub open spec fn match_ops<B: Blocks>(
    section: SectionView,
    marks: Seq<RowView>,
    lo: int,
    hi: int,
    content: Seq<char>,
    blocks: &B,
) -> Result<Seq<OpView>, ErrorView> {
    let rows = lines(content);
    let wanted = core_texts(marks);
    let k = wanted.len() as int;
    let starts = fitting(rows, wanted, lo, hi + 1 - k);
    if starts.len() == 0 {
        Err(no_match(section.path, rows, wanted, lo, hi))
    } else if starts.len() > 1 {
        Err(
            ErrorView::Ambiguous {
                path: section.path,
                n: starts.len() as int,
                detail: candidate_list(section.path, starts, k, content, blocks),
            },
        )
    } else {
        let first = starts[0];
        let before = if leading(marks).len() > 0 {
            seq![OpView::InsertBefore { line: first, body: leading(marks) }]
        } else {
            Seq::empty()
        };
        Ok(
            before.push(
                OpView::Replace {
                    start: first,
                    end: first + k - 1,
                    body: replaced(marks, rows, first),
                },
            ),
        )
    }
}

/// What one operation comes to.
pub open spec fn group_ops<B: Blocks>(
    section: SectionView,
    g: Seq<RowView>,
    content: Seq<char>,
    blocks: &B,
) -> Result<Seq<OpView>, ErrorView> {
    let n = scope_count(g);
    let scopes = g.take(n);
    let marks = g.skip(n);
    if starred(g) {
        star_ops(section, g, content, blocks)
    } else if all_marked(marks, Mark::Add) {
        whole_ops(section, scopes, marks, content, blocks)
    } else if all_marked(marks, Mark::Keep) {
        Err(
            syntax(
                section.line,
                "an operation of only `=` rows changes nothing — add `-` or `+` rows, or drop the operation"@,
            ),
        )
    } else {
        match window(section.path, scopes, n, content, blocks) {
            Err(e) => Err(e),
            Ok((lo, hi)) => if marks.len() == 1 && all_marked(marks, Mark::Del) {
                sweep_ops(section, n > 0, row_text(marks[0]), lo, hi, lines(content))
            } else {
                match_ops(section, marks, lo, hi, content, blocks)
            },
        }
    }
}

/// What the first `n` operations of a section come to.
pub open spec fn section_ops<B: Blocks>(
    section: SectionView,
    n: int,
    content: Seq<char>,
    blocks: &B,
) -> Result<Seq<OpView>, ErrorView>
    decreases n,
{
    if n <= 0 {
        Ok(Seq::empty())
    } else {
        match section_ops(section, n - 1, content, blocks) {
            Err(e) => Err(e),
            Ok(before) => match group_ops(section, section.groups[n - 1], content, blocks) {
                Ok(more) => Ok(before + more),
                Err(e) => Err(e),
            },
        }
    }
}

/// What a section comes to, in plain line ranges.
pub open spec fn lowered<B: Blocks>(
    section: SectionView,
    content: Seq<char>,
    blocks: &B,
) -> Result<Seq<OpView>, ErrorView> {
    if lines(content).len() == 0 {
        Err(
            syntax(
                section.line,
                "the file is empty — nothing to anchor on; create it with the write tool instead"@,
            ),
        )
    } else {
        section_ops(section, section.groups.len() as int, content, blocks)
    }
}

// ---------------------------------------------------------------------------
// A file with its ranges replaced
// ---------------------------------------------------------------------------

/// A replaced range of lines.
#[verifier::ext_equal]
pub struct SpanView {
    pub start: int,
    pub end: int,
    pub body: Seq<Seq<char>>,
}

/// `s` put into an ordered sequence, behind every span that starts no later.
pub open spec fn span_slotted(sorted: Seq<SpanView>, s: SpanView) -> Seq<SpanView>
    decreases sorted.len(),
{
    if sorted.len() > 0 && s.start < sorted.last().start {
        span_slotted(sorted.drop_last(), s).push(sorted.last())
    } else {
        sorted.push(s)
    }
}

/// The replaced ranges, ordered by where they start; equals stay in order.
pub open spec fn spans_of(ops: Seq<OpView>) -> Seq<SpanView>
    decreases ops.len(),
{
    if ops.len() == 0 {
        Seq::empty()
    } else {
        match ops.last() {
            OpView::Replace { start, end, body } => span_slotted(
                spans_of(ops.drop_last()),
                SpanView { start, end, body },
            ),
            OpView::InsertBefore { .. } => spans_of(ops.drop_last()),
        }
    }
}

/// What is inserted in front of `line`, in the order of the operations.
pub open spec fn inserted(ops: Seq<OpView>, line: int) -> Seq<Seq<char>>
    decreases ops.len(),
{
    if ops.len() == 0 {
        Seq::empty()
    } else {
        let rest = inserted(ops.drop_last(), line);
        match ops.last() {
            OpView::InsertBefore { line: l, body } => if l == line {
                rest + body
            } else {
                rest
            },
            OpView::Replace { .. } => rest,
        }
    }
}

/// The line of the first insertion that falls inside `start..=end`.
pub open spec fn buried_line(ops: Seq<OpView>, start: int, end: int) -> Option<int>
    decreases ops.len(),
{
    if ops.len() == 0 {
        None
    } else {
        match ops[0] {
            OpView::InsertBefore { line, .. } => if start < line <= end {
                Some(line)
            } else {
                buried_line(ops.skip(1), start, end)
            },
            OpView::Replace { .. } => buried_line(ops.skip(1), start, end),
        }
    }
}

/// Where a line sits, as an overlap names it.
pub open spec fn sits_in<B: Blocks>(
    path: Seq<char>,
    at: int,
    content: Seq<char>,
    blocks: &B,
) -> Seq<char> {
    match held_in(path, at, content, blocks) {
        Some(row) => " (in `"@ + cropped(row, 60) + "`)"@,
        None => Seq::empty(),
    }
}

/// The refusal of two ranges over the same rows.
pub open spec fn overlap<B: Blocks>(
    path: Seq<char>,
    a: (int, int),
    b: (int, int),
    content: Seq<char>,
    blocks: &B,
) -> ErrorView {
    ErrorView::Overlap {
        path,
        a_start: a.0,
        a_end: a.1,
        b_start: b.0,
        b_end: b.1,
        overlap: b.0,
        a_in: sits_in(path, a.0, content, blocks),
        b_in: sits_in(path, b.0, content, blocks),
    }
}

/// The first of the neighbours from `i` on that overlap.
pub open spec fn span_clash<B: Blocks>(
    path: Seq<char>,
    spans: Seq<SpanView>,
    i: int,
    content: Seq<char>,
    blocks: &B,
) -> Option<ErrorView>
    decreases spans.len() - i,
{
    if i + 1 >= spans.len() {
        None
    } else if spans[i].end >= spans[i + 1].start {
        Some(
            overlap(
                path,
                (spans[i].start, spans[i].end),
                (spans[i + 1].start, spans[i + 1].end),
                content,
                blocks,
            ),
        )
    } else {
        span_clash(path, spans, i + 1, content, blocks)
    }
}

/// The first of the spans from `i` on that an insertion is buried in: once the
/// span is gone the insertion has no anchor left.
pub open spec fn burial<B: Blocks>(
    path: Seq<char>,
    spans: Seq<SpanView>,
    i: int,
    ops: Seq<OpView>,
    content: Seq<char>,
    blocks: &B,
) -> Option<ErrorView>
    decreases spans.len() - i,
{
    if i >= spans.len() {
        None
    } else {
        match buried_line(ops, spans[i].start, spans[i].end) {
            Some(k) => Some(
                overlap(path, (spans[i].start, spans[i].end), (k, k), content, blocks),
            ),
            None => burial(path, spans, i + 1, ops, content, blocks),
        }
    }
}

/// The span that starts on `line`.
pub open spec fn span_at(spans: Seq<SpanView>, line: int) -> Option<SpanView>
    decreases spans.len(),
{
    if spans.len() == 0 {
        None
    } else if spans[0].start == line {
        Some(spans[0])
    } else {
        span_at(spans.skip(1), line)
    }
}

/// Whether `line` is inside a span, past the line the span starts on.
pub open spec fn inside_span(spans: Seq<SpanView>, line: int) -> bool {
    exists|i: int|
        0 <= i < spans.len() && (#[trigger] spans[i]).start < line && line <= spans[i].end
}

/// What stands for `line` in the new file, insertions in front of it aside.
pub open spec fn stands(rows: Seq<Seq<char>>, spans: Seq<SpanView>, line: int) -> Seq<Seq<char>> {
    match span_at(spans, line) {
        Some(s) => s.body,
        None => if inside_span(spans, line) {
            Seq::empty()
        } else {
            seq![rows[line - 1]]
        },
    }
}

/// The rows of the new file up to line `n` of the old one.
pub open spec fn swept(rows: Seq<Seq<char>>, ops: Seq<OpView>, n: int) -> Seq<Seq<char>>
    decreases n,
{
    if n <= 0 {
        Seq::empty()
    } else {
        swept(rows, ops, n - 1) + inserted(ops, n) + stands(rows, spans_of(ops), n)
    }
}

/// The rows of the new file.
pub open spec fn new_rows(rows: Seq<Seq<char>>, ops: Seq<OpView>) -> Seq<Seq<char>> {
    swept(rows, ops, rows.len() as int) + inserted(ops, rows.len() as int + 1)
}

/// A record of rows put after `before` rows of the new file.
pub open spec fn recorded(
    before: int,
    body: Seq<Seq<char>>,
    took: Seq<Seq<char>>,
    took_at: int,
) -> Seq<LandedView> {
    if body.len() == 0 && took.len() == 0 {
        Seq::empty()
    } else {
        seq![LandedView { start: before + 1, end: before + body.len(), took, took_at }]
    }
}

/// What is recorded of line `n`: what is inserted in front of it, and the span
/// that starts on it.
pub open spec fn line_records(rows: Seq<Seq<char>>, ops: Seq<OpView>, n: int) -> Seq<LandedView> {
    let before = swept(rows, ops, n - 1).len() as int;
    let put = inserted(ops, n);
    let first = recorded(before, put, Seq::empty(), n);
    match span_at(spans_of(ops), n) {
        Some(s) => first + recorded(
            before + put.len(),
            s.body,
            rows.subrange(n - 1, s.end),
            n,
        ),
        None => first,
    }
}

/// What is recorded of the lines up to `n`.
pub open spec fn records(rows: Seq<Seq<char>>, ops: Seq<OpView>, n: int) -> Seq<LandedView>
    decreases n,
{
    if n <= 0 {
        Seq::empty()
    } else {
        records(rows, ops, n - 1) + line_records(rows, ops, n)
    }
}

/// Everything recorded of a file, an append included.
pub open spec fn all_records(rows: Seq<Seq<char>>, ops: Seq<OpView>) -> Seq<LandedView> {
    records(rows, ops, rows.len() as int) + recorded(
        swept(rows, ops, rows.len() as int).len() as int,
        inserted(ops, rows.len() as int + 1),
        Seq::empty(),
        rows.len() as int + 1,
    )
}

/// A file to be written.
#[verifier::ext_equal]
pub struct ChangeView {
    pub path: Seq<char>,
    pub content: Seq<char>,
    pub landed: Seq<LandedView>,
}

/// The file a section's ranges leave.
pub open spec fn built<B: Blocks>(
    path: Seq<char>,
    ops: Seq<OpView>,
    content: Seq<char>,
    blocks: &B,
) -> Result<ChangeView, ErrorView> {
    let rows = file_rows(content);
    let spans = spans_of(ops);
    match span_clash(path, spans, 0, content, blocks) {
        Some(e) => Err(e),
        None => match burial(path, spans, 0, ops, content, blocks) {
            Some(e) => Err(e),
            None => Ok(
                ChangeView {
                    path,
                    content: rejoined(
                        new_rows(rows, ops),
                        trailing(content),
                        has_crlf(content),
                    ),
                    landed: all_records(rows, ops),
                },
            ),
        },
    }
}

// ---------------------------------------------------------------------------
// The whole patch
// ---------------------------------------------------------------------------

/// The content handed over for `path`.
pub open spec fn file_at(files: Seq<(Seq<char>, Seq<char>)>, path: Seq<char>) -> Option<Seq<char>>
    decreases files.len(),
{
    if files.len() == 0 {
        None
    } else if files[0].0 == path {
        Some(files[0].1)
    } else {
        file_at(files.skip(1), path)
    }
}

/// Where the write of `path` sits in the plan; the length where there is none.
pub open spec fn slot_of(changes: Seq<ChangeView>, path: Seq<char>) -> int
    decreases changes.len(),
{
    if changes.len() == 0 || changes[0].path == path {
        0
    } else {
        1 + slot_of(changes.skip(1), path)
    }
}

/// What a section for `path` resolves against: what the earlier ones left.
pub open spec fn current(
    changes: Seq<ChangeView>,
    files: Seq<(Seq<char>, Seq<char>)>,
    path: Seq<char>,
) -> Option<Seq<char>> {
    let at = slot_of(changes, path);
    if at < changes.len() {
        Some(changes[at].content)
    } else {
        file_at(files, path)
    }
}

/// The rows of the file handed over for `path`.
pub open spec fn held_rows(
    files: Seq<(Seq<char>, Seq<char>)>,
    path: Seq<char>,
) -> Seq<Seq<char>> {
    match file_at(files, path) {
        Some(c) => file_rows(c),
        None => Seq::empty(),
    }
}

/// The plan with one more change: a path has a single write, and its hunks are
/// those on the file handed over, where they stand in the end.
pub open spec fn stacked(
    changes: Seq<ChangeView>,
    files: Seq<(Seq<char>, Seq<char>)>,
    c: ChangeView,
) -> Seq<ChangeView> {
    let at = slot_of(changes, c.path);
    if at < changes.len() {
        changes.update(
            at,
            ChangeView {
                path: changes[at].path,
                content: c.content,
                landed: restacked(
                    changes[at].landed,
                    c.landed,
                    held_rows(files, c.path),
                    file_rows(changes[at].content),
                    file_rows(c.content).len() as int,
                ),
            },
        )
    } else {
        changes.push(c)
    }
}

/// The plan of the first `n` sections.
pub open spec fn plan<B: Blocks>(
    sections: Seq<SectionView>,
    n: int,
    files: Seq<(Seq<char>, Seq<char>)>,
    blocks: &B,
) -> Result<Seq<ChangeView>, ErrorView>
    decreases n,
{
    if n <= 0 {
        Ok(Seq::empty())
    } else {
        match plan(sections, n - 1, files, blocks) {
            Err(e) => Err(e),
            Ok(before) => {
                let s = sections[n - 1];
                match current(before, files, s.path) {
                    None => Err(ErrorView::Missing { path: s.path }),
                    Some(content) => match lowered(s, content, blocks) {
                        Err(e) => Err(e),
                        Ok(ops) => match built(s.path, ops, content, blocks) {
                            Err(e) => Err(e),
                            Ok(c) => Ok(stacked(before, files, c)),
                        },
                    },
                }
            },
        }
    }
}

/// Whether what `blocks` answers of a file is rows of that file.
pub open spec fn in_file<B: Blocks>(blocks: &B, path: Seq<char>, content: Seq<char>) -> bool {
    forall|line: usize|
        match #[trigger] blocks.extent_at(path, content, line) {
            Some((s, e)) => 1 <= s <= e <= lines(content).len(),
            None => true,
        }
}

/// Whether what `blocks` answers is rows of the file, for each file a section
/// of the patch resolves against.
pub open spec fn grounded<B: Blocks>(
    sections: Seq<SectionView>,
    files: Seq<(Seq<char>, Seq<char>)>,
    blocks: &B,
) -> bool {
    forall|n: int|
        0 <= n < sections.len() ==> match #[trigger] plan(sections, n, files, blocks) {
            Ok(before) => match current(before, files, sections[n].path) {
                Some(content) => in_file(blocks, sections[n].path, content),
                None => true,
            },
            Err(_) => true,
        }
}

} // verus!
