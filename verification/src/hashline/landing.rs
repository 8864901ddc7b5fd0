//! What a set of edits does to a file, stated on the text itself.
//!
//! Every edit is resolved against the text as it was given: `resolved` says
//! where one edit lands or why it is refused, `settled` orders the landings,
//! `clash` says which two cannot both stand, and `written` is the text that
//! results.

use crate::hashline::edits::{Anchor, Edit};
use crate::hashline::{opened, Blocks};
use crate::text::{
    blank, breaks, capped, cropped, decimal, ends, holds, index_of, is_digit, join, lines,
    occurrences, split, starts, trim, trim_start,
};
use vstd::prelude::*;

verus! {

// ---------------------------------------------------------------------------
// Outcomes
// ---------------------------------------------------------------------------

/// Where one edit landed.
#[verifier::ext_equal]
pub struct LandedView {
    pub start: int,
    pub end: int,
    pub took: Seq<Seq<char>>,
    pub took_at: int,
}

/// The file after the edits.
#[verifier::ext_equal]
pub struct AppliedView {
    pub content: Seq<char>,
    pub landed: Seq<LandedView>,
    pub left_blank: Seq<int>,
}

/// Why a call was refused.
#[verifier::ext_equal]
pub enum RefusalView {
    NoEdits,
    EmptyAnchor { path: Seq<char>, index: int },
    EmptyInsert { path: Seq<char>, index: int },
    NoMatch { path: Seq<char>, index: int, line: int, text: Seq<char> },
    Ambiguous { path: Seq<char>, index: int, n: int, detail: Seq<char> },
    Overlap { path: Seq<char>, a: int, b: int },
    InsertInside { path: Seq<char>, a: int, b: int },
    NoBlock { path: Seq<char>, index: int, text: Seq<char>, available: Seq<char> },
    AmbiguousBlock { path: Seq<char>, index: int, text: Seq<char>, n: int },
    Unchanged { path: Seq<char> },
}

/// One landing: which edit, which characters of the original it takes, and
/// the text that goes there.
#[verifier::ext_equal]
pub struct Place {
    pub index: int,
    pub start: int,
    pub end: int,
    pub text: Seq<char>,
}

// ---------------------------------------------------------------------------
// The text around the edits
// ---------------------------------------------------------------------------

/// The byte-order mark a file may open with.
pub open spec fn mark(content: Seq<char>) -> Seq<char> {
    if content.len() > 0 && content[0] == '\u{FEFF}' {
        seq!['\u{FEFF}']
    } else {
        Seq::empty()
    }
}

/// The file without its byte-order mark.
pub open spec fn body_of(content: Seq<char>) -> Seq<char> {
    content.skip(mark(content).len() as int)
}

/// A carriage return and a line feed.
pub open spec fn crlf() -> Seq<char> {
    seq!['\r', '\n']
}

/// Whether the file breaks any line with `\r\n`.
pub open spec fn has_crlf(body: Seq<char>) -> bool {
    holds(body, crlf())
}

/// The line ending of a file.
pub open spec fn ending(crlf_file: bool) -> Seq<char> {
    if crlf_file {
        crlf()
    } else {
        seq!['\n']
    }
}

/// `s` with a carriage return in front of every line feed that has none.
pub open spec fn crlf_form(s: Seq<char>) -> Seq<char>
    decreases s.len(),
{
    if s.len() == 0 {
        Seq::empty()
    } else if s.last() == '\n' && !(s.len() >= 2 && s[s.len() - 2] == '\r') {
        crlf_form(s.drop_last()) + crlf()
    } else {
        crlf_form(s.drop_last()).push(s.last())
    }
}

/// `s` with `\n` for every `\r\n`.
pub open spec fn lf_form(s: Seq<char>) -> Seq<char>
    decreases s.len(),
{
    if s.len() == 0 {
        Seq::empty()
    } else if s.len() >= 2 && s[0] == '\r' && s[1] == '\n' {
        lf_form(s.skip(1))
    } else {
        seq![s[0]] + lf_form(s.skip(1))
    }
}

/// Text as a file spells it: `\r\n` in a file that breaks its lines so.
pub open spec fn translated(text: Seq<char>, crlf_file: bool) -> Seq<char> {
    if crlf_file {
        crlf_form(text)
    } else {
        text
    }
}

/// Where line `k`, counted from 0, starts; the end of the text past the last.
pub open spec fn line_start(body: Seq<char>, k: int) -> int
    decreases body.len(),
{
    let n = index_of(body, '\n');
    if k <= 0 {
        0
    } else if n >= body.len() || n < 0 {
        body.len() as int
    } else {
        n + 1 + line_start(body.skip(n + 1), k - 1)
    }
}

/// The 1-based line a text ends on, as far as lines can be counted.
pub open spec fn ends_on(s: Seq<char>) -> int {
    capped(breaks(s) as int + 1)
}

/// The 1-based line a position sits on.
pub open spec fn line_of(body: Seq<char>, at: int) -> int {
    ends_on(body.take(at))
}

// ---------------------------------------------------------------------------
// Matching an anchor
// ---------------------------------------------------------------------------

/// Whether `head` is a line number or a range of them, as a view prints it.
pub open spec fn is_address(head: Seq<char>) -> bool {
    forall|i: int|
        0 <= i < split(head, '-').len() ==> {
            let p = #[trigger] split(head, '-')[i];
            p.len() > 0 && forall|j: int| 0 <= j < p.len() ==> is_digit(#[trigger] p[j])
        }
}

/// What follows the `120-145:` that `text` opens with, if it opens with one.
pub open spec fn past_address(text: Seq<char>) -> Option<Seq<char>> {
    let n = index_of(text, ':');
    if n < text.len() && is_address(text.take(n)) {
        Some(text.skip(n + 1))
    } else {
        None
    }
}

/// The anchor with its address taken off, where something is left to match.
pub open spec fn without_address(text: Seq<char>) -> Option<Seq<char>> {
    let found = match past_address(text) {
        Some(rest) => Some(rest),
        None => past_address(trim_start(text)),
    };
    match found {
        Some(rest) => if blank(rest) {
            None
        } else {
            Some(rest)
        },
        None => None,
    }
}

/// The anchor as written, and without the address it was copied with.
pub open spec fn plain_spellings(anchor: Seq<char>) -> Seq<Seq<char>> {
    match without_address(anchor) {
        Some(rest) => if rest != anchor {
            seq![anchor, rest]
        } else {
            seq![anchor]
        },
        None => seq![anchor],
    }
}

/// Of `spellings`, those with a line feed, as a `\r\n` file spells them.
pub open spec fn crlf_spellings(spellings: Seq<Seq<char>>) -> Seq<Seq<char>>
    decreases spellings.len(),
{
    if spellings.len() == 0 {
        Seq::empty()
    } else {
        let rest = crlf_spellings(spellings.drop_last());
        if spellings.last().contains('\n') {
            rest.push(crlf_form(spellings.last()))
        } else {
            rest
        }
    }
}

/// The spellings an anchor is tried under, the one as written first.
pub open spec fn spellings(anchor: Seq<char>, crlf_file: bool) -> Seq<Seq<char>> {
    let plain = plain_spellings(anchor);
    if crlf_file {
        plain + crlf_spellings(plain)
    } else {
        plain
    }
}

/// The spans where `needle` stands, leftmost first and never overlapping.
pub open spec fn spans(body: Seq<char>, needle: Seq<char>) -> Seq<(int, int)> {
    let at = occurrences(body, needle, 0);
    Seq::new(at.len(), |i: int| (at[i], at[i] + needle.len()))
}

/// The spans of the first spelling that stands anywhere.
pub open spec fn first_spans(body: Seq<char>, tried: Seq<Seq<char>>) -> Seq<(int, int)>
    decreases tried.len(),
{
    if tried.len() == 0 {
        Seq::empty()
    } else if spans(body, tried[0]).len() > 0 {
        spans(body, tried[0])
    } else {
        first_spans(body, tried.skip(1))
    }
}

/// Every place an anchor names.
pub open spec fn found(body: Seq<char>, anchor: Seq<char>) -> Seq<(int, int)> {
    first_spans(body, spellings(anchor, has_crlf(body)))
}

// ---------------------------------------------------------------------------
// The closest line, for a refusal
// ---------------------------------------------------------------------------

/// How many characters two lines share, counted with repetition.
pub open spec fn shared(a: Seq<char>, b: Seq<char>) -> nat {
    a.to_multiset().intersection_with(b.to_multiset()).len()
}

/// The length of the longer line, at least 1.
pub open spec fn longer(a: Seq<char>, b: Seq<char>) -> int {
    if a.len() == 0 && b.len() == 0 {
        1
    } else if a.len() >= b.len() {
        a.len() as int
    } else {
        b.len() as int
    }
}

/// A ratio, as numerator and positive denominator.
pub type Ratio = (int, int);

/// Whether ratio `a` is greater than ratio `b`.
pub open spec fn above(a: Ratio, b: Ratio) -> bool {
    a.0 * b.1 > b.0 * a.1
}

/// How close two lines are: the characters they share over the longer length.
pub open spec fn likeness(a: Seq<char>, b: Seq<char>) -> Ratio {
    (shared(a, b) as int, longer(a, b))
}

/// How close `row` is to the line of `wanted` it is closest to.
pub open spec fn closeness(row: Seq<char>, wanted: Seq<Seq<char>>) -> Ratio
    decreases wanted.len(),
{
    if wanted.len() == 0 {
        (-1, 1)
    } else {
        let rest = closeness(row, wanted.drop_last());
        let last = likeness(row, wanted.last());
        if above(last, rest) {
            last
        } else {
            rest
        }
    }
}

/// Line `n`, counted from 1; empty where there is none.
pub open spec fn row_at(rows: Seq<Seq<char>>, n: int) -> Seq<char> {
    if 1 <= n <= rows.len() {
        rows[n - 1]
    } else {
        Seq::empty()
    }
}

/// The first of the lines `lo..=hi` that no other of them is closer than.
pub open spec fn nearest(rows: Seq<Seq<char>>, wanted: Seq<Seq<char>>, lo: int, hi: int) -> int
    decreases hi - lo,
{
    if hi <= lo {
        lo
    } else {
        let best = nearest(rows, wanted, lo, hi - 1);
        if above(closeness(row_at(rows, hi), wanted), closeness(row_at(rows, best), wanted)) {
            hi
        } else {
            best
        }
    }
}

/// The line a missing anchor is closest to.
pub open spec fn closest(body: Seq<char>, anchor: Seq<char>) -> int {
    let rows = lines(body);
    nearest(
        rows,
        lines(anchor),
        1,
        if rows.len() == 0 {
            1
        } else {
            rows.len() as int
        },
    )
}

// ---------------------------------------------------------------------------
// The candidates of an ambiguous anchor
// ---------------------------------------------------------------------------

/// Which of `extents` is the smallest around line `at`, the first of equals.
pub open spec fn innermost(extents: Seq<(usize, usize)>, at: int) -> Option<int>
    decreases extents.len(),
{
    if extents.len() == 0 {
        None
    } else {
        let rest = innermost(extents.drop_last(), at);
        let (s, e) = extents.last();
        if s <= at <= e {
            match rest {
                Some(j) => if e - s < extents[j].1 - extents[j].0 {
                    Some(extents.len() - 1)
                } else {
                    Some(j)
                },
                None => Some(extents.len() - 1),
            }
        } else {
            rest
        }
    }
}

/// The opening line of the block that line `at` sits in.
pub open spec fn covering(at: int, rows: Seq<Seq<char>>, extents: Seq<(usize, usize)>) -> Option<
    Seq<char>,
> {
    match innermost(extents, at) {
        Some(j) => Some(trim(row_at(rows, extents[j].0 as int))),
        None => None,
    }
}

/// How a refusal describes the candidate on line `at`.
pub open spec fn candidate(at: int, rows: Seq<Seq<char>>, extents: Seq<(usize, usize)>) -> Seq<char> {
    let held = match covering(at, rows, extents) {
        Some(b) => " in `"@ + cropped(b, 60) + "`"@,
        None => Seq::empty(),
    };
    let before = if 2 <= at <= rows.len() + 1 {
        ", preceded by `"@ + cropped(rows[at - 2], 60) + "`"@
    } else {
        Seq::empty()
    };
    "  line "@ + decimal(at as nat) + held + before
}

/// How many candidates a refusal spells out.
pub open spec fn shown() -> int {
    8
}

/// The candidates of a refusal: the first few, and a count of the rest.
pub open spec fn candidates(
    body: Seq<char>,
    hits: Seq<(int, int)>,
    extents: Seq<(usize, usize)>,
) -> Seq<char> {
    let n = if hits.len() <= shown() {
        hits.len() as int
    } else {
        shown()
    };
    let told = Seq::new(
        n as nat,
        |i: int| candidate(line_of(body, hits[i].0), lines(body), extents),
    );
    let all = if hits.len() > shown() {
        told.push("  … and "@ + decimal((hits.len() - shown()) as nat) + " more"@)
    } else {
        told
    };
    join(all, seq!['\n'])
}

// ---------------------------------------------------------------------------
// Whole blocks
// ---------------------------------------------------------------------------

/// The text a `whole_block` anchor must open a line with.
pub open spec fn block_needle(anchor: Seq<char>) -> Seq<char> {
    match without_address(anchor) {
        Some(rest) => trim(rest),
        None => trim(trim(anchor)),
    }
}

/// Whether line `n` opens with `needle`, its indentation aside.
pub open spec fn opens_on(rows: Seq<Seq<char>>, n: usize, needle: Seq<char>) -> bool {
    1 <= n <= rows.len() && starts(trim(rows[n - 1]), needle)
}

/// Of the opening rows, those whose line opens with `needle`.
pub open spec fn block_hits(
    opens: Seq<usize>,
    rows: Seq<Seq<char>>,
    needle: Seq<char>,
) -> Seq<usize>
    decreases opens.len(),
{
    if opens.len() == 0 {
        Seq::empty()
    } else {
        let rest = block_hits(opens.drop_last(), rows, needle);
        if opens_on(rows, opens.last(), needle) {
            rest.push(opens.last())
        } else {
            rest
        }
    }
}

/// The opening lines of a file, without those equal to the one before.
pub open spec fn opening_lines(opens: Seq<usize>, rows: Seq<Seq<char>>) -> Seq<Seq<char>>
    decreases opens.len(),
{
    if opens.len() == 0 {
        Seq::empty()
    } else {
        let rest = opening_lines(opens.drop_last(), rows);
        let n = opens.last();
        if 1 <= n <= rows.len() && (rest.len() == 0 || rest.last() != trim(rows[n - 1])) {
            rest.push(trim(rows[n - 1]))
        } else {
            rest
        }
    }
}

/// What the file does open, for a refusal to hand over.
pub open spec fn available(opens: Seq<usize>, rows: Seq<Seq<char>>) -> Seq<char> {
    let all = opening_lines(opens, rows);
    let n = if all.len() <= 5 {
        all.len() as int
    } else {
        5
    };
    let told = Seq::new(n as nat, |i: int| seq!['`'] + cropped(all[i], 60) + seq!['`']);
    if all.len() == 0 {
        Seq::empty()
    } else if all.len() > 5 {
        " — the file opens: "@ + join(told, ", "@) + ", and "@ + decimal((all.len() - 5) as nat)
            + " more"@
    } else {
        " — the file opens: "@ + join(told, ", "@)
    }
}

/// The last line at or below `last` that is not blank, down to `start`.
pub open spec fn last_solid(rows: Seq<Seq<char>>, start: int, last: int) -> int
    decreases last,
{
    if last > start && 1 <= last <= rows.len() && blank(rows[last - 1]) {
        last_solid(rows, start, last - 1)
    } else {
        last
    }
}

/// The characters of the block on the rows `start..=end`, without the blank
/// lines it is followed by.
pub open spec fn block_region(body: Seq<char>, start: usize, end: usize) -> (int, int) {
    let rows = lines(body);
    let last = last_solid(
        rows,
        start as int,
        if end <= rows.len() {
            end as int
        } else {
            rows.len() as int
        },
    );
    (line_start(body, start - 1), line_start(body, last))
}

/// The block a `whole_block` anchor names.
pub open spec fn block_span<B: Blocks>(
    path: Seq<char>,
    body: Seq<char>,
    anchor: Seq<char>,
    blocks: &B,
    index: int,
) -> Result<(int, int), RefusalView> {
    let rows = lines(body);
    let needle = block_needle(anchor);
    let opens = blocks.opening_rows(path, body);
    let hits = block_hits(opens, rows, needle);
    if hits.len() == 0 {
        Err(
            RefusalView::NoBlock {
                path,
                index,
                text: needle,
                available: available(opens, rows),
            },
        )
    } else if hits.len() > 1 {
        Err(RefusalView::AmbiguousBlock { path, index, text: needle, n: hits.len() as int })
    } else {
        match blocks.extent_at(path, body, hits[0]) {
            Some((start, end)) => Ok(block_region(body, start, end)),
            None => Err(
                RefusalView::NoBlock {
                    path,
                    index,
                    text: needle,
                    available: " — the line it names opens no resolvable block"@,
                },
            ),
        }
    }
}

/// Whether the lines of a region break with `\r\n`: as they do there, or as they
/// do in the file where nothing breaks in the region.
pub open spec fn region_crlf(region: Seq<char>, body: Seq<char>) -> bool {
    if region.contains('\n') {
        has_crlf(region)
    } else {
        has_crlf(body)
    }
}

/// A block's new text, spliced the way its lines were: it takes the region's own
/// line ending, and keeps the break the region closed with.
pub open spec fn spliced(region: Seq<char>, new: Seq<char>, term: Seq<char>) -> Seq<char> {
    let plain = lf_form(new);
    let pieces = split(plain, '\n');
    let parts = if ends(plain, seq!['\n']) {
        pieces.drop_last()
    } else {
        pieces
    };
    if plain.len() == 0 {
        Seq::empty()
    } else if ends(region, seq!['\n']) {
        join(parts, term) + term
    } else {
        join(parts, term)
    }
}

// ---------------------------------------------------------------------------
// From edits to landings
// ---------------------------------------------------------------------------

/// Where an edit lands once its anchor has matched: the match itself for a
/// replacement, a point at one end of it for the two inserts.
pub open spec fn landing(anchor: Anchor, span: (int, int)) -> (int, int) {
    match anchor {
        Anchor::Replace(_) => span,
        Anchor::After(_) => (span.1, span.1),
        Anchor::Before(_) => (span.0, span.0),
    }
}

/// The landing of edit `index` on `span`, with `text` to put there.
pub open spec fn place(index: int, anchor: Anchor, span: (int, int), text: Seq<char>) -> Place {
    let (start, end) = landing(anchor, span);
    Place { index, start, end, text }
}

/// Where edit `index` lands in `body`, or why it is refused.
pub open spec fn resolved<B: Blocks>(
    path: Seq<char>,
    body: Seq<char>,
    edit: Edit,
    index: int,
    blocks: &B,
) -> Result<Seq<Place>, RefusalView> {
    let anchor = edit.anchor.words();
    let hits = found(body, anchor);
    let put = translated(edit.new@, has_crlf(body));
    if anchor.len() == 0 {
        Err(RefusalView::EmptyAnchor { path, index })
    } else if !(edit.anchor is Replace) && edit.new@.len() == 0 {
        Err(RefusalView::EmptyInsert { path, index })
    } else if edit.whole_block {
        match block_span(path, body, anchor, blocks, index) {
            Ok(span) => {
                let text = if edit.anchor is Replace {
                    let region = body.subrange(span.0, span.1);
                    spliced(region, edit.new@, ending(region_crlf(region, body)))
                } else {
                    put
                };
                Ok(seq![place(index, edit.anchor, span, text)])
            },
            Err(e) => Err(e),
        }
    } else if hits.len() == 0 {
        let line = closest(body, anchor);
        Err(
            RefusalView::NoMatch {
                path,
                index,
                line,
                text: cropped(row_at(lines(body), line), 80),
            },
        )
    } else if hits.len() > 1 && !edit.replace_all {
        Err(
            RefusalView::Ambiguous {
                path,
                index,
                n: hits.len() as int,
                detail: candidates(
                    body,
                    hits,
                    opened(
                        |line: usize| blocks.extent_at(path, body, line),
                        blocks.opening_rows(path, body),
                    ),
                ),
            },
        )
    } else {
        Ok(Seq::new(hits.len(), |i: int| place(index, edit.anchor, hits[i], put)))
    }
}

/// The landings of the edits, in the order of the edits, or what the first
/// edit to be refused is refused with.
pub open spec fn all_places<B: Blocks>(
    path: Seq<char>,
    body: Seq<char>,
    edits: Seq<Edit>,
    blocks: &B,
) -> Result<Seq<Place>, RefusalView>
    decreases edits.len(),
{
    if edits.len() == 0 {
        Ok(Seq::empty())
    } else {
        match all_places(path, body, edits.drop_last(), blocks) {
            Ok(before) => match resolved(path, body, edits.last(), edits.len() - 1, blocks) {
                Ok(more) => Ok(before + more),
                Err(e) => Err(e),
            },
            Err(e) => Err(e),
        }
    }
}

/// Whether `a` comes before `b`: by where it starts, then by where it ends.
pub open spec fn sooner(a: Place, b: Place) -> bool {
    a.start < b.start || (a.start == b.start && a.end < b.end)
}

/// `p` put into an ordered sequence, behind every landing it does not precede.
pub open spec fn slotted(sorted: Seq<Place>, p: Place) -> Seq<Place>
    decreases sorted.len(),
{
    if sorted.len() > 0 && sooner(p, sorted.last()) {
        slotted(sorted.drop_last(), p).push(sorted.last())
    } else {
        sorted.push(p)
    }
}

/// The landings ordered by where they start and end; equals stay in order.
pub open spec fn settled(places: Seq<Place>) -> Seq<Place>
    decreases places.len(),
{
    if places.len() == 0 {
        Seq::empty()
    } else {
        slotted(settled(places.drop_last()), places.last())
    }
}

/// Whether a landing takes no character of the original.
pub open spec fn point(p: Place) -> bool {
    p.start == p.end
}

/// Why two neighbouring landings cannot both stand.
pub open spec fn clash(path: Seq<char>, a: Place, b: Place) -> Option<RefusalView> {
    if (point(a) || point(b)) && (a.start == b.start || a.end > b.start) {
        Some(RefusalView::InsertInside { path, a: a.index, b: b.index })
    } else if a.end > b.start {
        Some(RefusalView::Overlap { path, a: a.index, b: b.index })
    } else {
        None
    }
}

/// The first clash among neighbours at or after `i`.
pub open spec fn first_clash(path: Seq<char>, placed: Seq<Place>, i: int) -> Option<RefusalView>
    decreases placed.len() - i,
{
    if i + 1 >= placed.len() {
        None
    } else {
        match clash(path, placed[i], placed[i + 1]) {
            Some(e) => Some(e),
            None => first_clash(path, placed, i + 1),
        }
    }
}

// ---------------------------------------------------------------------------
// From landings to the text that results
// ---------------------------------------------------------------------------

/// Where the text after the first `k` landings starts in the original.
pub open spec fn reached(placed: Seq<Place>, k: int) -> int {
    if 0 < k <= placed.len() {
        placed[k - 1].end
    } else {
        0
    }
}

/// The original text between landing `k` and the one before it.
pub open spec fn gap(body: Seq<char>, placed: Seq<Place>, k: int) -> Seq<char> {
    body.subrange(reached(placed, k), placed[k].start)
}

/// What stands once the first `k` landings are written.
pub open spec fn written(body: Seq<char>, placed: Seq<Place>, k: int) -> Seq<char>
    decreases k,
{
    if k <= 0 {
        Seq::empty()
    } else {
        written(body, placed, k - 1) + gap(body, placed, k - 1) + placed[k - 1].text
    }
}

/// The whole text once every landing is written.
pub open spec fn rewritten(body: Seq<char>, placed: Seq<Place>) -> Seq<char> {
    written(body, placed, placed.len() as int) + body.skip(reached(placed, placed.len() as int))
}

/// The rows from `from` to before `to`, as many as there are.
pub open spec fn rows_between(rows: Seq<Seq<char>>, from: int, to: int) -> Seq<Seq<char>> {
    let a = if from <= rows.len() {
        from
    } else {
        rows.len() as int
    };
    let b = if to <= rows.len() {
        to
    } else {
        rows.len() as int
    };
    if a <= b {
        rows.subrange(a, b)
    } else {
        Seq::empty()
    }
}

/// What the report says of landing `k`.
pub open spec fn reported(body: Seq<char>, placed: Seq<Place>, k: int) -> LandedView {
    let p = placed[k];
    let start = ends_on(written(body, placed, k) + gap(body, placed, k));
    let line = ends_on(written(body, placed, k + 1));
    let took_at = line_of(body, p.start);
    LandedView {
        start,
        end: if p.text.len() == 0 {
            start - 1
        } else if p.text.last() == '\n' {
            line - 1
        } else {
            line
        },
        took: if point(p) {
            Seq::empty()
        } else {
            rows_between(lines(body), took_at - 1, line_of(body, p.end - 1))
        },
        took_at,
    }
}

/// Whether the text opens with a line break, either spelling.
pub open spec fn opens_a_break(s: Seq<char>) -> bool {
    starts(s, seq!['\n']) || starts(s, crlf())
}

/// Whether nothing of a row stands at the end of the text: it is empty, or the
/// last thing in it is a break.
pub open spec fn at_row_start(s: Seq<char>) -> bool {
    s.len() == 0 || s.last() == '\n'
}

/// What stands in the whole text behind the first `k` landings.
pub open spec fn behind(body: Seq<char>, placed: Seq<Place>, k: int) -> Seq<char> {
    rewritten(body, placed).skip(written(body, placed, k).len() as int)
}

/// Whether landing `k` empties a line without taking its break, so that a blank
/// row stands where it was: it takes text up to a break and puts none there,
/// nothing of the row is left in front of it, and nothing is put behind it.
pub open spec fn empties(body: Seq<char>, placed: Seq<Place>, k: int) -> bool {
    let p = placed[k];
    &&& p.text.len() == 0
    &&& !point(p)
    &&& !ends(body.subrange(p.start, p.end), seq!['\n'])
    &&& opens_a_break(body.skip(p.end))
    &&& at_row_start(written(body, placed, k + 1))
    &&& opens_a_break(behind(body, placed, k + 1))
}

/// The edits among the first `k` landings that left a blank line behind.
pub open spec fn blanked(body: Seq<char>, placed: Seq<Place>, k: int) -> Seq<int>
    decreases k,
{
    if k <= 0 {
        Seq::empty()
    } else {
        let before = blanked(body, placed, k - 1);
        let p = placed[k - 1];
        if empties(body, placed, k - 1) && !before.contains(p.index) {
            before.push(p.index)
        } else {
            before
        }
    }
}

/// What a call comes to: the file after the edits, or why it is refused.
pub open spec fn outcome<B: Blocks>(
    path: Seq<char>,
    content: Seq<char>,
    edits: Seq<Edit>,
    blocks: &B,
) -> Result<AppliedView, RefusalView> {
    let body = body_of(content);
    if edits.len() == 0 {
        Err(RefusalView::NoEdits)
    } else {
        match all_places(path, body, edits, blocks) {
            Err(e) => Err(e),
            Ok(places) => {
                let placed = settled(places);
                match first_clash(path, placed, 0) {
                    Some(e) => Err(e),
                    None => {
                        let result = mark(content) + rewritten(body, placed);
                        if result == content {
                            Err(RefusalView::Unchanged { path })
                        } else {
                            Ok(
                                AppliedView {
                                    content: result,
                                    landed: Seq::new(
                                        placed.len(),
                                        |k: int| reported(body, placed, k),
                                    ),
                                    left_blank: blanked(body, placed, placed.len() as int),
                                },
                            )
                        }
                    },
                }
            },
        }
    }
}

/// Whether what `blocks` answers of a file is rows of that file, so that a
/// block can be cut out of it.
pub open spec fn sound<B: Blocks>(blocks: &B, path: Seq<char>, body: Seq<char>) -> bool {
    forall|line: usize|
        match #[trigger] blocks.extent_at(path, body, line) {
            Some((start, end)) => 1 <= start <= breaks(body) + 1 && start <= end + 1,
            None => true,
        }
}

} // verus!
