//! Byte-anchored edits: the surface the edit tool speaks.
//!
//! An anchor is literal text found in the file, a landing is a range of it, and
//! nothing is written unless every edit resolves against the original content.
//! Lines matter in two places only: a block named by its first line, and the
//! line numbers the echo reports.

use crate::hashline::landing::{
    all_places, at_row_start, available, blanked, block_hits, block_needle, block_region,
    block_span, body_of, closest, crlf, empties, ends_on, first_clash, found, gap, has_crlf,
    last_solid, mark, opening_lines, opens_a_break, outcome, place, point, reached, reported,
    resolved, rewritten, rows_between, settled, slotted, sooner, sound, spellings, written,
    AppliedView, LandedView, Place, RefusalView,
};
use crate::hashline::matching::{
    breaks_crlf, drop_address, find, lemma_found, lemma_line_start, lemma_line_start_order,
    line_number, list_candidates, nearest_line, row_of, splice, start_of_line, translate, wide,
};
use crate::hashline::Blocks;
use crate::text::{
    append_number, blank, breaks, capped, chars_of, copy_range, crop, cropped, decimal, decimal_of,
    ends, index_of, is_blank, join_rows, lemma_breaks_concat, lemma_index_of, lines, lines_of,
    position, push_all, push_text, rows, same, starts, starts_with, string_of, texts, trim, trimmed,
};
use vstd::prelude::*;
use vstd::string::*;

verus! {

/// Where one edit landed, for the report the model reads.
#[derive(Debug, Clone, PartialEq, Eq)]
pub struct Landed {
    /// Where the new lines sit in the file now.
    pub start: usize,
    pub end: usize,
    /// The original lines it displaced, in order. Empty for an insertion.
    pub took: Vec<String>,
    /// The 1-based line this edit acted on, in the content it resolved
    /// against: for an insertion, the line it landed on.
    pub took_at: usize,
}

impl View for Landed {
    type V = LandedView;

    open spec fn view(&self) -> LandedView {
        LandedView {
            start: self.start as int,
            end: self.end as int,
            took: texts(self.took@),
            took_at: self.took_at as int,
        }
    }
}

impl Landed {
    /// How many lines this put in the file.
    pub fn gave(&self) -> (n: usize)
        requires
            self.end < usize::MAX,
        ensures
            n == if self.start <= self.end {
                self.end - self.start + 1
            } else {
                0
            },
    {
        (self.end + 1).saturating_sub(self.start)
    }
}

/// What an edit does where its anchor lands.
#[derive(Debug, Clone, PartialEq, Eq)]
pub enum Anchor {
    /// Replace the matched text.
    Replace(String),
    /// Insert the new text immediately after the match's last byte.
    After(String),
    /// Insert it immediately before the match's first byte.
    Before(String),
}

impl Anchor {
    /// The text to find.
    pub open spec fn words(self) -> Seq<char> {
        match self {
            Anchor::Replace(t) => t@,
            Anchor::After(t) => t@,
            Anchor::Before(t) => t@,
        }
    }

    /// The text to find.
    pub fn text(&self) -> (r: &str)
        ensures
            r@ == self.words(),
    {
        match self {
            Anchor::Replace(t) => t.as_str(),
            Anchor::After(t) => t.as_str(),
            Anchor::Before(t) => t.as_str(),
        }
    }
}

/// One edit: what to look for, what to put there, and how far to read the look.
#[derive(Debug, Clone, PartialEq, Eq)]
pub struct Edit {
    pub anchor: Anchor,
    pub new: String,
    /// Take every occurrence instead of refusing an anchor that names many.
    pub replace_all: bool,
    /// The anchor names the first line of a block; the whole block is meant.
    pub whole_block: bool,
}

/// The file after the edits, where each of them landed, and the edits whose
/// work left a blank line behind.
#[derive(Debug, Clone, PartialEq, Eq)]
pub struct Applied {
    pub content: String,
    pub landed: Vec<Landed>,
    /// The edits that emptied a line without taking its break, so a blank row
    /// stands where it was: an empty replacement of all that was left of the
    /// line. The tool says so rather than guessing what was meant.
    pub left_blank: Vec<usize>,
}

impl View for Applied {
    type V = AppliedView;

    open spec fn view(&self) -> AppliedView {
        AppliedView {
            content: self.content@,
            landed: Seq::new(self.landed@.len(), |i: int| self.landed@[i]@),
            left_blank: Seq::new(self.left_blank@.len(), |i: int| self.left_blank@[i] as int),
        }
    }
}

/// Why a call was refused. Every message is read by the model, so each one says
/// what to do next.
#[derive(Debug, Clone, PartialEq, Eq)]
pub enum Refusal {
    NoEdits,
    EmptyAnchor { path: String, index: usize },
    EmptyInsert { path: String, index: usize },
    NoMatch { path: String, index: usize, line: usize, text: String },
    Ambiguous { path: String, index: usize, n: usize, detail: String },
    Overlap { path: String, a: usize, b: usize },
    InsertInside { path: String, a: usize, b: usize },
    NoBlock { path: String, index: usize, text: String, available: String },
    AmbiguousBlock { path: String, index: usize, text: String, n: usize },
    Unchanged { path: String },
}

impl View for Refusal {
    type V = RefusalView;

    open spec fn view(&self) -> RefusalView {
        match *self {
            Refusal::NoEdits => RefusalView::NoEdits,
            Refusal::EmptyAnchor { path, index } => RefusalView::EmptyAnchor {
                path: path@,
                index: index as int,
            },
            Refusal::EmptyInsert { path, index } => RefusalView::EmptyInsert {
                path: path@,
                index: index as int,
            },
            Refusal::NoMatch { path, index, line, text } => RefusalView::NoMatch {
                path: path@,
                index: index as int,
                line: line as int,
                text: text@,
            },
            Refusal::Ambiguous { path, index, n, detail } => RefusalView::Ambiguous {
                path: path@,
                index: index as int,
                n: n as int,
                detail: detail@,
            },
            Refusal::Overlap { path, a, b } => RefusalView::Overlap {
                path: path@,
                a: a as int,
                b: b as int,
            },
            Refusal::InsertInside { path, a, b } => RefusalView::InsertInside {
                path: path@,
                a: a as int,
                b: b as int,
            },
            Refusal::NoBlock { path, index, text, available } => RefusalView::NoBlock {
                path: path@,
                index: index as int,
                text: text@,
                available: available@,
            },
            Refusal::AmbiguousBlock { path, index, text, n } => RefusalView::AmbiguousBlock {
                path: path@,
                index: index as int,
                text: text@,
                n: n as int,
            },
            Refusal::Unchanged { path } => RefusalView::Unchanged { path: path@ },
        }
    }
}

/// The stable tag of a refusal.
pub open spec fn tag_of(r: RefusalView) -> Seq<char> {
    match r {
        RefusalView::NoEdits => "NO_EDITS"@,
        RefusalView::EmptyAnchor { .. } => "EMPTY_ANCHOR"@,
        RefusalView::EmptyInsert { .. } => "EMPTY_INSERT"@,
        RefusalView::NoMatch { .. } => "NO_MATCH"@,
        RefusalView::Ambiguous { .. } => "AMBIGUOUS"@,
        RefusalView::Overlap { .. } => "OVERLAP"@,
        RefusalView::InsertInside { .. } => "INSERT_INSIDE"@,
        RefusalView::NoBlock { .. } => "NO_BLOCK"@,
        RefusalView::AmbiguousBlock { .. } => "AMBIGUOUS_BLOCK"@,
        RefusalView::Unchanged { .. } => "UNCHANGED"@,
    }
}

/// `edits[index]`, as a refusal names an edit.
pub open spec fn nth_edit(index: int) -> Seq<char> {
    "edits["@ + decimal(index as nat) + "]"@
}

/// What a refusal says.
pub open spec fn message_of(r: RefusalView) -> Seq<char> {
    match r {
        RefusalView::NoEdits => "no edits: name at least one replacement"@,
        RefusalView::EmptyAnchor { path, index } => "in "@ + path + ", "@ + nth_edit(index)
            + ": the anchor is empty — name the text to find"@,
        RefusalView::EmptyInsert { path, index } => "in "@ + path + ", "@ + nth_edit(index)
            + ": inserting nothing changes nothing"@,
        RefusalView::NoMatch { path, index, line, text } => "no match in "@ + path + " for "@
            + nth_edit(index) + " — the closest real line is "@ + decimal(line as nat) + ": `"@
            + text + "`. Nothing was written."@,
        RefusalView::Ambiguous { path, index, n, detail } => nth_edit(index) + " matches "@
            + decimal(n as nat) + " places in "@ + path + ":\n"@ + detail
            + "\nGive more of the anchor to name one, or set `replace_all`."@,
        RefusalView::Overlap { path, a, b } => nth_edit(a) + " and "@ + nth_edit(b)
            + " overlap in "@ + path
            + " — merge them into one edit or target disjoint regions"@,
        RefusalView::InsertInside { path, a, b } => nth_edit(a) + " and "@ + nth_edit(b)
            + " meet at one byte in "@ + path
            + " — the order would be a guess; merge them into one edit"@,
        RefusalView::NoBlock { path, index, text, available } => "in "@ + path + ", "@ + nth_edit(
            index,
        ) + ": no block opens with `"@ + text + "`"@ + available,
        RefusalView::AmbiguousBlock { path, index, text, n } => "in "@ + path + ", "@ + nth_edit(
            index,
        ) + ": `"@ + text + "` opens "@ + decimal(n as nat)
            + " blocks — give more of the opening line"@,
        RefusalView::Unchanged { path } => path
            + ": nothing changed — the edits reproduce what is already there"@,
    }
}

fn append_edit(s: &mut String, index: usize)
    ensures
        final(s)@ == old(s)@ + nth_edit(index as int),
{
    s.append("edits[");
    append_number(s, index);
    s.append("]");
    assert(s@ =~= old(s)@ + nth_edit(index as int));
}

impl Refusal {
    /// The stable tag a refusal is logged and grouped under, whatever its
    /// prose says.
    pub fn tag(&self) -> (r: &'static str)
        ensures
            r@ == tag_of(self@),
    {
        match self {
            Refusal::NoEdits => "NO_EDITS",
            Refusal::EmptyAnchor { .. } => "EMPTY_ANCHOR",
            Refusal::EmptyInsert { .. } => "EMPTY_INSERT",
            Refusal::NoMatch { .. } => "NO_MATCH",
            Refusal::Ambiguous { .. } => "AMBIGUOUS",
            Refusal::Overlap { .. } => "OVERLAP",
            Refusal::InsertInside { .. } => "INSERT_INSIDE",
            Refusal::NoBlock { .. } => "NO_BLOCK",
            Refusal::AmbiguousBlock { .. } => "AMBIGUOUS_BLOCK",
            Refusal::Unchanged { .. } => "UNCHANGED",
        }
    }

    /// Whether the call itself is spelt wrong, as opposed to not fitting the
    /// file: the two are different lessons and the loop counts them apart.
    pub fn is_shape(&self) -> (r: bool)
        ensures
            r == (self is NoEdits || self is EmptyAnchor || self is EmptyInsert),
    {
        match self {
            Refusal::NoEdits => true,
            Refusal::EmptyAnchor { .. } => true,
            Refusal::EmptyInsert { .. } => true,
            _ => false,
        }
    }

    /// What the model reads.
    pub fn message(&self) -> (r: String)
        ensures
            r@ == message_of(self@),
    {
        let mut s = String::new();
        match self {
            Refusal::NoEdits => {
                s.append("no edits: name at least one replacement");
            },
            Refusal::EmptyAnchor { path, index } => {
                s.append("in ");
                s.append(path.as_str());
                s.append(", ");
                append_edit(&mut s, *index);
                s.append(": the anchor is empty — name the text to find");
            },
            Refusal::EmptyInsert { path, index } => {
                s.append("in ");
                s.append(path.as_str());
                s.append(", ");
                append_edit(&mut s, *index);
                s.append(": inserting nothing changes nothing");
            },
            Refusal::NoMatch { path, index, line, text } => {
                s.append("no match in ");
                s.append(path.as_str());
                s.append(" for ");
                append_edit(&mut s, *index);
                s.append(" — the closest real line is ");
                append_number(&mut s, *line);
                s.append(": `");
                s.append(text.as_str());
                s.append("`. Nothing was written.");
            },
            Refusal::Ambiguous { path, index, n, detail } => {
                append_edit(&mut s, *index);
                s.append(" matches ");
                append_number(&mut s, *n);
                s.append(" places in ");
                s.append(path.as_str());
                s.append(":\n");
                s.append(detail.as_str());
                s.append("\nGive more of the anchor to name one, or set `replace_all`.");
            },
            Refusal::Overlap { path, a, b } => {
                append_edit(&mut s, *a);
                s.append(" and ");
                append_edit(&mut s, *b);
                s.append(" overlap in ");
                s.append(path.as_str());
                s.append(" — merge them into one edit or target disjoint regions");
            },
            Refusal::InsertInside { path, a, b } => {
                append_edit(&mut s, *a);
                s.append(" and ");
                append_edit(&mut s, *b);
                s.append(" meet at one byte in ");
                s.append(path.as_str());
                s.append(" — the order would be a guess; merge them into one edit");
            },
            Refusal::NoBlock { path, index, text, available } => {
                s.append("in ");
                s.append(path.as_str());
                s.append(", ");
                append_edit(&mut s, *index);
                s.append(": no block opens with `");
                s.append(text.as_str());
                s.append("`");
                s.append(available.as_str());
            },
            Refusal::AmbiguousBlock { path, index, text, n } => {
                s.append("in ");
                s.append(path.as_str());
                s.append(", ");
                append_edit(&mut s, *index);
                s.append(": `");
                s.append(text.as_str());
                s.append("` opens ");
                append_number(&mut s, *n);
                s.append(" blocks — give more of the opening line");
            },
            Refusal::Unchanged { path } => {
                s.append(path.as_str());
                s.append(": nothing changed — the edits reproduce what is already there");
            },
        }
        assert(s@ =~= message_of(self@));
        s
    }
}

// ---------------------------------------------------------------------------
// Whole blocks
// ---------------------------------------------------------------------------

/// What the file does open, for a refusal to hand over: the fix is copying one
/// of these back into the anchor.
fn list_openings(all: &[Vec<char>], opens: &[usize]) -> (r: Vec<char>)
    ensures
        r@ == available(opens@, rows(all@)),
{
    let mut found_rows: Vec<Vec<char>> = Vec::new();
    let mut i: usize = 0;
    while i < opens.len()
        invariant
            i <= opens@.len(),
            rows(found_rows@) == opening_lines(opens@.take(i as int), rows(all@)),
        decreases opens@.len() - i,
    {
        let ghost t = opens@.take(i + 1);
        assert(t.drop_last() =~= opens@.take(i as int));
        let n = opens[i];
        if n >= 1 && n <= all.len() {
            let row = trimmed(all[n - 1].as_slice());
            assert(row@ == trim(rows(all@)[n - 1]));
            let m = found_rows.len();
            let fresh = m == 0 || !same(found_rows[m - 1].as_slice(), row.as_slice());
            assert(m > 0 ==> rows(found_rows@).last() == found_rows@[m - 1]@);
            if fresh {
                let ghost before = rows(found_rows@);
                found_rows.push(row);
                assert(rows(found_rows@) =~= before.push(row@));
            }
        }
        i += 1;
    }
    assert(opens@.take(i as int) =~= opens@);
    let ghost list = opening_lines(opens@, rows(all@));
    let total = found_rows.len();
    let mut r: Vec<char> = Vec::new();
    if total == 0 {
        return r;
    }
    let n: usize = if total <= 5 {
        total
    } else {
        5
    };
    let mut told: Vec<Vec<char>> = Vec::new();
    let mut k: usize = 0;
    while k < n
        invariant
            k <= n <= found_rows@.len(),
            told@.len() == k,
            rows(found_rows@) == list,
            forall|j: int|
                0 <= j < k ==> (#[trigger] told@[j])@ == seq!['`'] + cropped(list[j], 60)
                    + seq!['`'],
        decreases n - k,
    {
        let mut row: Vec<char> = Vec::new();
        row.push('`');
        let c = crop(found_rows[k].as_slice(), 60);
        push_all(&mut row, c.as_slice());
        row.push('`');
        assert(list[k as int] == found_rows@[k as int]@);
        assert(row@ =~= seq!['`'] + cropped(list[k as int], 60) + seq!['`']);
        told.push(row);
        k += 1;
    }
    let ghost names = Seq::new(n as nat, |i: int| seq!['`'] + cropped(list[i], 60) + seq!['`']);
    assert(rows(told@) =~= names);
    push_text(&mut r, " — the file opens: ");
    let sep = chars_of(", ");
    let named = join_rows(told.as_slice(), sep.as_slice());
    push_all(&mut r, named.as_slice());
    if total > 5 {
        push_text(&mut r, ", and ");
        let d = decimal_of((total - 5) as u64);
        push_all(&mut r, d.as_slice());
        push_text(&mut r, " more");
    }
    assert(r@ =~= available(opens@, rows(all@)));
    r
}

/// The needle of a `whole_block` anchor. The address a view prints leaves the
/// line's own indentation on the text, which a prefix match against a trimmed
/// opening line does not want.
fn needle_of(anchor: &[char]) -> (r: Vec<char>)
    ensures
        r@ == block_needle(anchor@),
{
    match drop_address(anchor) {
        Some(rest) => trimmed(rest.as_slice()),
        None => {
            let once = trimmed(anchor);
            trimmed(once.as_slice())
        },
    }
}

/// The region a block lies in is a range of the text.
pub proof fn lemma_region(body: Seq<char>, start: usize, end: usize)
    requires
        1 <= start <= breaks(body) + 1,
        start <= end + 1,
    ensures
        0 <= block_region(body, start, end).0 <= block_region(body, start, end).1 <= body.len(),
{
    let all = lines(body);
    lemma_lines_count(body);
    let top = if end <= all.len() {
        end as int
    } else {
        all.len() as int
    };
    lemma_last_solid(all, start as int, top);
    let last = last_solid(all, start as int, top);
    lemma_line_start(body, start - 1);
    lemma_line_start(body, last);
    lemma_line_start_order(body, start - 1, last);
}

/// A text has at least as many lines as it has line feeds.
proof fn lemma_lines_count(s: Seq<char>)
    ensures
        breaks(s) <= lines(s).len(),
    decreases s.len(),
{
    lemma_index_of(s, '\n');
    let n = index_of(s, '\n');
    if s.len() == 0 {
    } else if n >= s.len() {
        lemma_no_breaks(s);
    } else {
        lemma_lines_count(s.skip(n + 1));
        assert(s =~= s.take(n) + (seq!['\n'] + s.skip(n + 1)));
        lemma_breaks_concat(s.take(n), seq!['\n'] + s.skip(n + 1));
        lemma_breaks_concat(seq!['\n'], s.skip(n + 1));
        lemma_no_breaks(s.take(n));
        assert(seq!['\n'].drop_last() =~= Seq::<char>::empty());
        assert(breaks(seq!['\n']) == 1);
    }
}

/// No line feed, no break.
pub proof fn lemma_no_breaks(s: Seq<char>)
    requires
        forall|i: int| 0 <= i < s.len() ==> s[i] != '\n',
    ensures
        breaks(s) == 0,
    decreases s.len(),
{
    if s.len() > 0 {
        assert(s.last() == s[s.len() - 1]);
        lemma_no_breaks(s.drop_last());
    }
}

proof fn lemma_last_solid(all: Seq<Seq<char>>, start: int, last: int)
    ensures
        last_solid(all, start, last) <= last,
        last_solid(all, start, last) >= start || last_solid(all, start, last) == last,
    decreases last,
{
    if last > start && 1 <= last <= all.len() && blank(all[last - 1]) {
        lemma_last_solid(all, start, last - 1);
    }
}

/// The block an anchor names. The anchor is matched as a prefix of a
/// block-opening line, with the `120-145:` a view prints stripped, since that
/// is what gets copied back into it.
fn block<B: Blocks>(
    path: &str,
    body: &[char],
    all: &[Vec<char>],
    anchor: &[char],
    blocks: &B,
    index: usize,
) -> (r: Result<(usize, usize), Refusal>)
    requires
        rows(all@) == lines(body@),
        sound(blocks, path@, body@),
    ensures
        match r {
            Ok((from, to)) => block_span(path@, body@, anchor@, blocks, index as int) == Ok::<
                (int, int),
                RefusalView,
            >((from as int, to as int)) && from <= to <= body@.len(),
            Err(e) => block_span(path@, body@, anchor@, blocks, index as int) == Err::<
                (int, int),
                RefusalView,
            >(e@),
        },
{
    let needle = needle_of(anchor);
    let text = string_of(body);
    let opens = blocks.openings(path, text.as_str());
    let mut hits: Vec<usize> = Vec::new();
    let mut i: usize = 0;
    while i < opens.len()
        invariant
            i <= opens@.len(),
            hits@ == block_hits(opens@.take(i as int), rows(all@), needle@),
        decreases opens@.len() - i,
    {
        let ghost t = opens@.take(i + 1);
        assert(t.drop_last() =~= opens@.take(i as int));
        let n = opens[i];
        if n >= 1 && n <= all.len() {
            let row = trimmed(all[n - 1].as_slice());
            assert(row@ == trim(rows(all@)[n - 1]));
            if starts_with(row.as_slice(), needle.as_slice()) {
                hits.push(n);
            }
        }
        i += 1;
    }
    assert(opens@.take(i as int) =~= opens@);
    if hits.len() == 0 {
        let listed = list_openings(all, opens.as_slice());
        return Err(
            Refusal::NoBlock {
                path: path.to_owned(),
                index,
                text: string_of(needle.as_slice()),
                available: string_of(listed.as_slice()),
            },
        );
    }
    if hits.len() > 1 {
        return Err(
            Refusal::AmbiguousBlock {
                path: path.to_owned(),
                index,
                text: string_of(needle.as_slice()),
                n: hits.len(),
            },
        );
    }
    match blocks.extent_of(path, text.as_str(), hits[0]) {
        None => Err(
            Refusal::NoBlock {
                path: path.to_owned(),
                index,
                text: string_of(needle.as_slice()),
                available: " — the line it names opens no resolvable block".to_owned(),
            },
        ),
        Some((start, end)) => {
            // The blank lines a block is followed by separate it from the next
            // one: they belong to the gap, not to what the anchor named.
            let mut last: usize = if end <= all.len() {
                end
            } else {
                all.len()
            };
            let ghost top = last as int;
            assert(blocks.extent_at(path@, body@, hits@[0]) == Some((start, end)));
            while last > start && is_blank(all[last - 1].as_slice())
                invariant
                    last <= all@.len(),
                    last_solid(rows(all@), start as int, last as int) == last_solid(
                        rows(all@),
                        start as int,
                        top,
                    ),
                decreases last,
            {
                last -= 1;
            }
            proof {
                lemma_region(body@, start, end);
                if last > start {
                    assert(rows(all@)[last - 1] == all@[last - 1]@);
                }
            }
            let from = start_of_line(body, start - 1);
            let to = start_of_line(body, last);
            Ok((from, to))
        },
    }
}

// ---------------------------------------------------------------------------
// Landings
// ---------------------------------------------------------------------------

/// One resolved landing: which edit, where in the original, and the text that
/// goes there.
struct Placed {
    index: usize,
    start: usize,
    end: usize,
    text: Vec<char>,
}

impl Placed {
    spec fn seen(self) -> Place {
        Place {
            index: self.index as int,
            start: self.start as int,
            end: self.end as int,
            text: self.text@,
        }
    }

    fn is_point(&self) -> (r: bool)
        ensures
            r == point(self.seen()),
    {
        self.start == self.end
    }
}

spec fn places(v: Seq<Placed>) -> Seq<Place> {
    Seq::new(v.len(), |i: int| v[i].seen())
}

/// Whether every landing lies in a text of `n` characters.
spec fn inside(v: Seq<Place>, n: int) -> bool {
    forall|i: int| 0 <= i < v.len() ==> 0 <= (#[trigger] v[i]).start <= v[i].end <= n
}

fn placed(index: usize, anchor: &Anchor, span: (usize, usize), text: Vec<char>) -> (p: Placed)
    ensures
        p.seen() == place(index as int, *anchor, (span.0 as int, span.1 as int), text@),
{
    match anchor {
        Anchor::Replace(_) => Placed { index, start: span.0, end: span.1, text },
        Anchor::After(_) => Placed { index, start: span.1, end: span.1, text },
        Anchor::Before(_) => Placed { index, start: span.0, end: span.0, text },
    }
}

/// Putting a landing in its slot is taking the longest tail of later landings
/// and standing in front of it.
proof fn lemma_slotted(sorted: Seq<Place>, p: Place, at: int)
    requires
        0 <= at <= sorted.len(),
        forall|i: int| at <= i < sorted.len() ==> sooner(p, sorted[i]),
        at > 0 ==> !sooner(p, sorted[at - 1]),
    ensures
        slotted(sorted, p) == sorted.insert(at, p),
    decreases sorted.len(),
{
    if at < sorted.len() {
        assert(sooner(p, sorted[sorted.len() - 1]));
        lemma_slotted(sorted.drop_last(), p, at);
        assert(sorted.insert(at, p) =~= sorted.drop_last().insert(at, p).push(sorted.last()));
    } else {
        if sorted.len() > 0 {
            assert(sorted[at - 1] == sorted.last());
        }
        assert(sorted.insert(at, p) =~= sorted.push(p));
    }
}

proof fn lemma_slotted_inside(sorted: Seq<Place>, p: Place, n: int)
    requires
        inside(sorted, n),
        0 <= p.start <= p.end <= n,
    ensures
        inside(slotted(sorted, p), n),
    decreases sorted.len(),
{
    if sorted.len() > 0 && sooner(p, sorted.last()) {
        assert(inside(sorted.drop_last(), n)) by {
            assert forall|i: int| 0 <= i < sorted.drop_last().len() implies 0 <= (
            #[trigger] sorted.drop_last()[i]).start <= sorted.drop_last()[i].end <= n by {
                assert(sorted.drop_last()[i] == sorted[i]);
            }
        }
        lemma_slotted_inside(sorted.drop_last(), p, n);
        let rest = slotted(sorted.drop_last(), p);
        assert forall|i: int| 0 <= i < slotted(sorted, p).len() implies 0 <= (#[trigger] slotted(
            sorted,
            p,
        )[i]).start <= slotted(sorted, p)[i].end <= n by {
            if i < rest.len() {
                assert(slotted(sorted, p)[i] == rest[i]);
            } else {
                assert(sorted.last() == sorted[sorted.len() - 1]);
            }
        }
    }
}

/// Put a landing behind every one it does not precede.
fn slot(sorted: &mut Vec<Placed>, p: Placed)
    ensures
        places(final(sorted)@) == slotted(places(old(sorted)@), p.seen()),
{
    let mut at: usize = sorted.len();
    let ghost before = places(sorted@);
    while at > 0 && (p.start < sorted[at - 1].start || (p.start == sorted[at - 1].start && p.end
        < sorted[at - 1].end))
        invariant
            at <= sorted@.len(),
            *sorted == *old(sorted),
            before == places(sorted@),
            forall|i: int| at <= i < before.len() ==> sooner(p.seen(), before[i]),
        decreases at,
    {
        assert(before[at - 1] == sorted@[at - 1].seen());
        at -= 1;
    }
    proof {
        if at > 0 {
            assert(before[at - 1] == sorted@[at - 1].seen());
        }
        lemma_slotted(before, p.seen(), at as int);
    }
    let ghost seen = p.seen();
    sorted.insert(at, p);
    assert(places(sorted@) =~= before.insert(at as int, seen));
}

/// Inserting the landings `more` one after another.
proof fn lemma_settled_push(before: Seq<Place>, p: Place)
    ensures
        settled(before.push(p)) == slotted(settled(before), p),
{
    assert(before.push(p).drop_last() =~= before);
    assert(before.push(p).last() == p);
}

/// Resolve one edit and put its landings in order among the others.
fn resolve<B: Blocks>(
    path: &str,
    body: &[char],
    all: &[Vec<char>],
    crlf_file: bool,
    edit: &Edit,
    index: usize,
    blocks: &B,
    sorted: &mut Vec<Placed>,
    Ghost(before): Ghost<Seq<Place>>,
) -> (r: Result<(), Refusal>)
    requires
        rows(all@) == lines(body@),
        crlf_file == has_crlf(body@),
        sound(blocks, path@, body@),
        places(old(sorted)@) == settled(before),
        inside(places(old(sorted)@), body@.len() as int),
    ensures
        match r {
            Ok(_) => match resolved(path@, body@, *edit, index as int, blocks) {
                Ok(more) => places(final(sorted)@) == settled(before + more) && inside(
                    places(final(sorted)@),
                    body@.len() as int,
                ),
                Err(_) => false,
            },
            Err(e) => resolved(path@, body@, *edit, index as int, blocks) == Err::<
                Seq<Place>,
                RefusalView,
            >(e@),
        },
{
    let anchor = chars_of(edit.anchor.text());
    let new = chars_of(edit.new.as_str());
    let replaces = match edit.anchor {
        Anchor::Replace(_) => true,
        _ => false,
    };
    if anchor.len() == 0 {
        return Err(Refusal::EmptyAnchor { path: path.to_owned(), index });
    }
    if !replaces && new.len() == 0 {
        return Err(Refusal::EmptyInsert { path: path.to_owned(), index });
    }
    if edit.whole_block {
        match block(path, body, all, anchor.as_slice(), blocks, index) {
            Err(e) => {
                return Err(e);
            },
            Ok((from, to)) => {
                let text = if replaces {
                    let region = copy_range(body, from, to);
                    let broken = position(region.as_slice(), '\n', 0) < region.len();
                    proof {
                        lemma_index_of(region@, '\n');
                        assert(region@.skip(0) =~= region@);
                        if broken {
                            assert(region@[index_of(region@, '\n')] == '\n');
                        }
                    }
                    let crlf_region = if broken {
                        breaks_crlf(region.as_slice())
                    } else {
                        crlf_file
                    };
                    splice(region.as_slice(), new.as_slice(), crlf_region)
                } else {
                    translate(new.as_slice(), crlf_file)
                };
                let p = placed(index, &edit.anchor, (from, to), text);
                proof {
                    lemma_settled_push(before, p.seen());
                    lemma_slotted_inside(places(sorted@), p.seen(), body@.len() as int);
                    assert(before.push(p.seen()) =~= before + seq![p.seen()]);
                }
                slot(sorted, p);
                return Ok(());
            },
        }
    }
    let hits = find(body, anchor.as_slice(), crlf_file);
    proof {
        lemma_found(body@, spellings(anchor@, crlf_file));
    }
    let ghost hits_seen = found(body@, anchor@);
    assert(hits_seen.len() == hits@.len());
    if hits.len() == 0 {
        let wanted = lines_of(anchor.as_slice());
        let top: usize = if all.len() == 0 {
            1
        } else {
            all.len()
        };
        let line = nearest_line(all, wanted.as_slice(), 1, top);
        let row = row_of(all, line);
        let text = crop(row.as_slice(), 80);
        return Err(
            Refusal::NoMatch {
                path: path.to_owned(),
                index,
                line,
                text: string_of(text.as_slice()),
            },
        );
    }
    if hits.len() > 1 && !edit.replace_all {
        let text = string_of(body);
        let extents = blocks.extents(path, text.as_str());
        assert forall|i: int| 0 <= i < hits@.len() implies (#[trigger] hits@[i]).0
            <= body@.len() by {
            assert(hits_seen[i] == wide(hits@)[i]);
        }
        let detail = list_candidates(body, all, hits.as_slice(), extents.as_slice());
        return Err(
            Refusal::Ambiguous {
                path: path.to_owned(),
                index,
                n: hits.len(),
                detail: string_of(detail.as_slice()),
            },
        );
    }
    let text = translate(new.as_slice(), crlf_file);
    let ghost more = Seq::new(
        hits_seen.len(),
        |i: int| place(index as int, edit.anchor, hits_seen[i], text@),
    );
    let mut i: usize = 0;
    assert(before + more.take(0) =~= before);
    while i < hits.len()
        invariant
            i <= hits@.len() == hits_seen.len(),
            hits_seen == wide(hits@),
            more == Seq::new(
                hits_seen.len(),
                |i: int| place(index as int, edit.anchor, hits_seen[i], text@),
            ),
            forall|k: int|
                0 <= k < hits_seen.len() ==> 0 <= (#[trigger] hits_seen[k]).0 <= hits_seen[k].1
                    <= body@.len(),
            places(sorted@) == settled(before + more.take(i as int)),
            inside(places(sorted@), body@.len() as int),
        decreases hits@.len() - i,
    {
        let copy = copy_range(text.as_slice(), 0, text.len());
        assert(copy@ =~= text@);
        let p = placed(index, &edit.anchor, hits[i], copy);
        proof {
            assert(hits_seen[i as int] == (hits@[i as int].0 as int, hits@[i as int].1 as int));
            assert(p.seen() == more[i as int]);
            lemma_settled_push(before + more.take(i as int), p.seen());
            lemma_slotted_inside(places(sorted@), p.seen(), body@.len() as int);
            assert((before + more.take(i as int)).push(p.seen()) =~= before + more.take(i + 1));
        }
        slot(sorted, p);
        i += 1;
    }
    assert(more.take(i as int) =~= more);
    Ok(())
}

/// Once an edit is refused, that is what the whole call is refused with.
proof fn lemma_first_refusal<B: Blocks>(
    path: Seq<char>,
    body: Seq<char>,
    edits: Seq<Edit>,
    blocks: &B,
    n: int,
)
    requires
        0 <= n <= edits.len(),
        all_places(path, body, edits.take(n), blocks) is Err,
    ensures
        all_places(path, body, edits, blocks) == all_places(path, body, edits.take(n), blocks),
    decreases edits.len() - n,
{
    if n < edits.len() {
        assert(edits.take(n + 1).drop_last() =~= edits.take(n));
        lemma_first_refusal(path, body, edits, blocks, n + 1);
    } else {
        assert(edits.take(n) =~= edits);
    }
}

/// Without a clash, each landing ends before the next one starts.
proof fn lemma_apart(path: Seq<char>, placed: Seq<Place>, i: int)
    requires
        first_clash(path, placed, i) is None,
        0 <= i,
    ensures
        forall|k: int|
            i <= k && k + 1 < placed.len() ==> (#[trigger] placed[k]).end <= placed[k + 1].start,
    decreases placed.len() - i,
{
    if i + 1 < placed.len() {
        lemma_apart(path, placed, i + 1);
    }
}

/// Append text, and count the lines it breaks.
fn extend(out: &mut Vec<char>, line: &mut usize, more: &[char])
    ensures
        final(out)@ == old(out)@ + more@,
        *final(line) == capped(*old(line) + breaks(more@)),
{
    let mut i: usize = 0;
    assert(more@.take(0) =~= Seq::empty());
    while i < more.len()
        invariant
            i <= more@.len(),
            out@ == old(out)@ + more@.take(i as int),
            *line == capped(*old(line) + breaks(more@.take(i as int))),
        decreases more@.len() - i,
    {
        let ghost before = out@;
        out.push(more[i]);
        if more[i] == '\n' {
            *line = line.saturating_add(1);
        }
        i += 1;
        assert(more@.take(i as int).drop_last() =~= more@.take(i - 1));
        assert(more@.take(i as int) =~= more@.take(i - 1).push(more@[i - 1]));
    }
    assert(more@.take(i as int) =~= more@);
}

/// The rows from `from` to before `to`, as many as there are.
fn copy_rows(all: &[Vec<char>], from: usize, to: usize) -> (r: Vec<String>)
    ensures
        texts(r@) == rows_between(rows(all@), from as int, to as int),
{
    let mut r: Vec<String> = Vec::new();
    let mut i: usize = if from <= all.len() {
        from
    } else {
        all.len()
    };
    let last: usize = if to <= all.len() {
        to
    } else {
        all.len()
    };
    let ghost first = i as int;
    if i > last {
        assert(texts(r@) =~= Seq::empty());
        return r;
    }
    assert(texts(r@) =~= rows(all@).subrange(first, first));
    while i < last
        invariant
            0 <= first <= i <= last <= all@.len(),
            texts(r@) == rows(all@).subrange(first, i as int),
        decreases last - i,
    {
        let row = string_of(all[i].as_slice());
        let ghost before = texts(r@);
        r.push(row);
        assert(texts(r@) =~= before.push(row@));
        i += 1;
        assert(rows(all@).subrange(first, i as int) =~= rows(all@).subrange(first, i - 1).push(
            rows(all@)[i - 1],
        ));
    }
    r
}

/// Whether a line break, either spelling, stands at `at`.
fn break_at(s: &[char], at: usize) -> (r: bool)
    requires
        at <= s@.len(),
    ensures
        r == opens_a_break(s@.skip(at as int)),
{
    let ghost rest = s@.skip(at as int);
    let lf = at < s.len() && s[at] == '\n';
    let cr = s.len() - at >= 2 && s[at] == '\r' && s[at + 1] == '\n';
    proof {
        if rest.len() >= 1 {
            assert(rest[0] == s@[at as int]);
            assert(rest.take(1) =~= seq![rest[0]]);
            assert(rest.take(1)[0] == rest[0]);
            assert(seq!['\n'][0] == '\n');
        }
        assert(starts(rest, seq!['\n']) == lf);
        if rest.len() >= 2 {
            assert(rest[1] == s@[at + 1]);
            assert(rest.take(2)[0] == rest[0]);
            assert(rest.take(2)[1] == rest[1]);
            assert(crlf()[0] == '\r' && crlf()[1] == '\n');
            if cr {
                assert(rest.take(2) =~= crlf());
            }
        }
        assert(starts(rest, crlf()) == cr);
    }
    lf || cr
}

/// Whether a landing empties a line and leaves its break behind; `at` is where
/// it stands in the text as rewritten.
fn leaves_blank(
    body: &[char],
    out: &[char],
    p: &Placed,
    at: usize,
    Ghost(pl): Ghost<Seq<Place>>,
    Ghost(k): Ghost<int>,
) -> (r: bool)
    requires
        p.start <= p.end <= body@.len(),
        0 <= k < pl.len(),
        pl[k] == p.seen(),
        out@ == rewritten(body@, pl),
        at == written(body@, pl, k + 1).len(),
        at <= out@.len(),
        out@.take(at as int) == written(body@, pl, k + 1),
    ensures
        r == empties(body@, pl, k),
{
    let ghost region = body@.subrange(p.start as int, p.end as int);
    if p.text.len() != 0 || p.start == p.end {
        return false;
    }
    proof {
        let tail = region.skip(region.len() - 1);
        assert(tail =~= seq![body@[p.end - 1]]);
        assert(tail[0] == body@[p.end - 1]);
        assert(seq!['\n'][0] == '\n');
    }
    if body[p.end - 1] == '\n' {
        assert(ends(region, seq!['\n']));
        return false;
    }
    assert(!ends(region, seq!['\n']));
    let clear = at == 0 || out[at - 1] == '\n';
    assert(clear == at_row_start(out@.take(at as int)));
    clear && break_at(body, p.end) && break_at(out, at)
}

/// What is written first stands first.
proof fn lemma_written_first(body: Seq<char>, placed: Seq<Place>, k: int, n: int)
    requires
        0 <= k <= n,
    ensures
        written(body, placed, k).len() <= written(body, placed, n).len(),
        written(body, placed, n).take(written(body, placed, k).len() as int) == written(
            body,
            placed,
            k,
        ),
    decreases n - k,
{
    let first = written(body, placed, k);
    if k < n {
        lemma_written_first(body, placed, k, n - 1);
        let less = written(body, placed, n - 1);
        assert(written(body, placed, n).take(first.len() as int) =~= less.take(first.len() as int));
    } else {
        assert(first.take(first.len() as int) =~= first);
    }
}

/// Where a landing stands in the whole text.
proof fn lemma_stands(body: Seq<char>, placed: Seq<Place>, k: int)
    requires
        0 <= k < placed.len(),
        0 <= reached(placed, k) <= placed[k].start <= body.len(),
    ensures
        ({
            let out = rewritten(body, placed);
            let first = written(body, placed, k + 1);
            &&& first.len() == written(body, placed, k).len() + (placed[k].start - reached(
                placed,
                k,
            )) + placed[k].text.len()
            &&& first.len() <= out.len()
            &&& out.take(first.len() as int) == first
        }),
{
    lemma_written_first(body, placed, k + 1, placed.len() as int);
    let out = rewritten(body, placed);
    let all = written(body, placed, placed.len() as int);
    let first = written(body, placed, k + 1);
    assert(out.take(first.len() as int) =~= all.take(first.len() as int));
}

/// Note an edit once.
fn note_once(left: &mut Vec<usize>, index: usize)
    ensures
        ({
            let before = old(left)@.map_values(|x: usize| x as int);
            final(left)@.map_values(|x: usize| x as int) == if before.contains(index as int) {
                before
            } else {
                before.push(index as int)
            }
        }),
{
    let ghost noted = left@.map_values(|x: usize| x as int);
    if listed(left.as_slice(), index) {
        proof {
            let j = choose|j: int| 0 <= j < left@.len() && left@[j] == index;
            assert(noted[j] == index as int);
        }
        return;
    }
    proof {
        if noted.contains(index as int) {
            let j = choose|j: int| 0 <= j < noted.len() && noted[j] == index as int;
            assert(left@[j] == index);
        }
    }
    left.push(index);
    assert(left@.map_values(|x: usize| x as int) =~= noted.push(index as int));
}

/// Whether `v` holds `x`.
fn listed(v: &[usize], x: usize) -> (r: bool)
    ensures
        r == v@.contains(x),
{
    let mut i: usize = 0;
    while i < v.len()
        invariant
            i <= v@.len(),
            forall|j: int| 0 <= j < i ==> v@[j] != x,
        decreases v@.len() - i,
    {
        if v[i] == x {
            return true;
        }
        i += 1;
    }
    false
}

/// The report of one landing.
fn report(
    body: &[char],
    all: &[Vec<char>],
    p: &Placed,
    start: usize,
    line: usize,
    Ghost(pl): Ghost<Seq<Place>>,
    Ghost(k): Ghost<int>,
) -> (r: Landed)
    requires
        rows(all@) == lines(body@),
        0 <= k < pl.len(),
        pl[k] == p.seen(),
        p.start <= p.end <= body@.len(),
        start == ends_on(written(body@, pl, k) + gap(body@, pl, k)),
        line == ends_on(written(body@, pl, k + 1)),
    ensures
        r@ == reported(body@, pl, k),
{
    let end: usize = if p.text.len() == 0 {
        start - 1
    } else if p.text[p.text.len() - 1] == '\n' {
        line - 1
    } else {
        line
    };
    let took_at = line_number(body, p.start);
    let took = if p.is_point() {
        let none: Vec<String> = Vec::new();
        assert(texts(none@) =~= Seq::empty());
        none
    } else {
        let last = line_number(body, p.end - 1);
        copy_rows(all, took_at - 1, last)
    };
    Landed { start, end, took, took_at }
}

/// Resolve every edit against the original, and order what they land on.
fn place_all<B: Blocks>(
    path: &str,
    body: &[char],
    all: &[Vec<char>],
    edits: &[Edit],
    blocks: &B,
) -> (r: Result<Vec<Placed>, Refusal>)
    requires
        rows(all@) == lines(body@),
        sound(blocks, path@, body@),
    ensures
        match r {
            Ok(v) => match all_places(path@, body@, edits@, blocks) {
                Ok(found) => places(v@) == settled(found) && inside(
                    places(v@),
                    body@.len() as int,
                ),
                Err(_) => false,
            },
            Err(e) => all_places(path@, body@, edits@, blocks) == Err::<Seq<Place>, RefusalView>(
                e@,
            ),
        },
{
    let crlf_file = breaks_crlf(body);
    let mut sorted: Vec<Placed> = Vec::new();
    let ghost mut before: Seq<Place> = Seq::empty();
    assert(places(sorted@) =~= settled(before));
    assert(edits@.take(0) =~= Seq::empty());
    let mut index: usize = 0;
    while index < edits.len()
        invariant
            index <= edits@.len(),
            crlf_file == has_crlf(body@),
            rows(all@) == lines(body@),
            sound(blocks, path@, body@),
            all_places(path@, body@, edits@.take(index as int), blocks) == Ok::<
                Seq<Place>,
                RefusalView,
            >(before),
            places(sorted@) == settled(before),
            inside(places(sorted@), body@.len() as int),
        decreases edits@.len() - index,
    {
        let ghost head = edits@.take(index + 1);
        assert(head.drop_last() =~= edits@.take(index as int));
        assert(head.last() == edits@[index as int]);
        let done = resolve(
            path,
            body,
            all,
            crlf_file,
            &edits[index],
            index,
            blocks,
            &mut sorted,
            Ghost(before),
        );
        match done {
            Err(e) => {
                proof {
                    lemma_first_refusal(path@, body@, edits@, blocks, index + 1);
                }
                return Err(e);
            },
            Ok(_) => {
                proof {
                    let more = resolved(
                        path@,
                        body@,
                        edits@[index as int],
                        index as int,
                        blocks,
                    )->Ok_0;
                    before = before + more;
                }
            },
        }
        index += 1;
    }
    assert(edits@.take(index as int) =~= edits@);
    Ok(sorted)
}

/// Refuse the first two neighbours that cannot both stand. An insertion has no
/// character of its own to order by: two at one place, or one inside a region
/// the other replaces, leave the order a guess.
fn check_apart(path: &str, sorted: &[Placed]) -> (r: Result<(), Refusal>)
    ensures
        match r {
            Ok(_) => first_clash(path@, places(sorted@), 0) is None,
            Err(e) => first_clash(path@, places(sorted@), 0) == Some(e@),
        },
{
    let ghost pl = places(sorted@);
    let mut i: usize = 0;
    while i < sorted.len() && i < sorted.len() - 1
        invariant
            i <= sorted@.len(),
            sorted@.len() == sorted.len(),
            pl == places(sorted@),
            first_clash(path@, pl, i as int) == first_clash(path@, pl, 0),
        decreases sorted@.len() - i,
    {
        let a = &sorted[i];
        let b = &sorted[i + 1];
        assert(pl[i as int] == a.seen() && pl[i + 1] == b.seen());
        if (a.is_point() || b.is_point()) && (a.start == b.start || a.end > b.start) {
            return Err(Refusal::InsertInside { path: path.to_owned(), a: a.index, b: b.index });
        }
        if a.end > b.start {
            return Err(Refusal::Overlap { path: path.to_owned(), a: a.index, b: b.index });
        }
        i += 1;
    }
    Ok(())
}

/// The edits that left a blank line behind: an emptied line that kept its break
/// leaves a blank row where the model may have meant to take the row with it.
fn blanks(body: &[char], out: &[char], sorted: &[Placed]) -> (r: Vec<usize>)
    requires
        inside(places(sorted@), body@.len() as int),
        forall|j: int|
            0 <= j && j + 1 < sorted@.len() ==> (#[trigger] places(sorted@)[j]).end <= places(
                sorted@,
            )[j + 1].start,
        out@ == rewritten(body@, places(sorted@)),
    ensures
        r@.map_values(|x: usize| x as int) == blanked(
            body@,
            places(sorted@),
            sorted@.len() as int,
        ),
{
    let ghost pl = places(sorted@);
    let mut left: Vec<usize> = Vec::new();
    let mut k: usize = 0;
    let mut cursor: usize = 0;
    let mut at: usize = 0;
    let whole = out.len();
    assert(left@.map_values(|x: usize| x as int) =~= blanked(body@, pl, 0));
    while k < sorted.len()
        invariant
            k <= sorted@.len(),
            pl == places(sorted@),
            inside(pl, body@.len() as int),
            forall|j: int| 0 <= j && j + 1 < pl.len() ==> (#[trigger] pl[j]).end <= pl[j + 1].start,
            out@ == rewritten(body@, pl),
            whole == out@.len(),
            cursor == reached(pl, k as int),
            at == written(body@, pl, k as int).len(),
            left@.map_values(|x: usize| x as int) == blanked(body@, pl, k as int),
        decreases sorted@.len() - k,
    {
        let p = &sorted[k];
        assert(pl[k as int] == p.seen());
        assert(0 <= pl[k as int].start <= pl[k as int].end <= body@.len());
        proof {
            if k > 0 {
                assert(pl[k - 1].end <= pl[k as int].start);
            }
            lemma_stands(body@, pl, k as int);
        }
        at = at + (p.start - cursor);
        at = at + p.text.len();
        cursor = p.end;
        if leaves_blank(body, out, p, at, Ghost(pl), Ghost(k as int)) {
            note_once(&mut left, p.index);
        }
        k += 1;
    }
    left
}

/// Write every landing into the text, and report each.
fn write_out(body: &[char], all: &[Vec<char>], sorted: &[Placed]) -> (r: (Vec<char>, Vec<Landed>))
    requires
        rows(all@) == lines(body@),
        inside(places(sorted@), body@.len() as int),
        forall|j: int|
            0 <= j && j + 1 < sorted@.len() ==> (#[trigger] places(sorted@)[j]).end <= places(
                sorted@,
            )[j + 1].start,
    ensures
        r.0@ == rewritten(body@, places(sorted@)),
        r.1@.len() == sorted@.len(),
        forall|j: int|
            0 <= j < r.1@.len() ==> (#[trigger] r.1@[j])@ == reported(body@, places(sorted@), j),
{
    let ghost pl = places(sorted@);
    let mut out: Vec<char> = Vec::new();
    let mut line: usize = 1;
    let mut cursor: usize = 0;
    let mut landed: Vec<Landed> = Vec::new();
    let mut k: usize = 0;
    while k < sorted.len()
        invariant
            k <= sorted@.len(),
            pl == places(sorted@),
            inside(pl, body@.len() as int),
            forall|j: int| 0 <= j && j + 1 < pl.len() ==> (#[trigger] pl[j]).end <= pl[j + 1].start,
            rows(all@) == lines(body@),
            out@ == written(body@, pl, k as int),
            line == ends_on(out@),
            cursor == reached(pl, k as int),
            landed@.len() == k,
            forall|j: int| 0 <= j < k ==> (#[trigger] landed@[j])@ == reported(body@, pl, j),
        decreases sorted@.len() - k,
    {
        let p = &sorted[k];
        assert(pl[k as int] == p.seen());
        assert(0 <= pl[k as int].start <= pl[k as int].end <= body@.len());
        proof {
            if k > 0 {
                assert(pl[k - 1].end <= pl[k as int].start);
            }
        }
        let between = copy_range(body, cursor, p.start);
        let ghost head = out@;
        extend(&mut out, &mut line, between.as_slice());
        proof {
            lemma_breaks_concat(head, between@);
        }
        let start = line;
        extend(&mut out, &mut line, p.text.as_slice());
        proof {
            lemma_breaks_concat(head + between@, p.text@);
        }
        let told = report(body, all, p, start, line, Ghost(pl), Ghost(k as int));
        landed.push(told);
        cursor = p.end;
        k += 1;
    }
    assert(cursor <= body@.len()) by {
        if k > 0 {
            assert(pl[k - 1].end <= body@.len());
        }
    }
    let rest = copy_range(body, cursor, body.len());
    push_all(&mut out, rest.as_slice());
    assert(rest@ =~= body@.skip(cursor as int));
    assert(out@ =~= rewritten(body@, pl));
    (out, landed)
}

/// Apply every edit to `content`, each matched against the original.
///
/// `blocks` resolves a `whole_block` anchor; `NoBlocks` refuses them all.
#[verifier::spinoff_prover]
#[verifier::rlimit(40)]
pub fn apply<B: Blocks>(path: &str, content: &str, edits: &[Edit], blocks: &B) -> (r: Result<
    Applied,
    Refusal,
>)
    requires
        sound(blocks, path@, body_of(content@)),
    ensures
        match r {
            Ok(a) => outcome(path@, content@, edits@, blocks) == Ok::<AppliedView, RefusalView>(
                a@,
            ),
            Err(e) => outcome(path@, content@, edits@, blocks) == Err::<AppliedView, RefusalView>(
                e@,
            ),
        },
{
    if edits.len() == 0 {
        return Err(Refusal::NoEdits);
    }
    // A byte-order mark is invisible to the model, so it is never part of an
    // anchor: match without it and write it back.
    let whole = chars_of(content);
    let marked = whole.len() > 0 && whole[0] == '\u{FEFF}';
    let from: usize = if marked {
        1
    } else {
        0
    };
    let body = copy_range(whole.as_slice(), from, whole.len());
    assert(body@ =~= body_of(content@));
    let all = lines_of(body.as_slice());
    let sorted = match place_all(path, body.as_slice(), all.as_slice(), edits, blocks) {
        Ok(v) => v,
        Err(e) => {
            return Err(e);
        },
    };
    let ghost pl = places(sorted@);
    if let Err(e) = check_apart(path, sorted.as_slice()) {
        return Err(e);
    }
    proof {
        lemma_apart(path@, pl, 0);
    }
    let (out, landed) = write_out(body.as_slice(), all.as_slice(), sorted.as_slice());
    let left_blank = blanks(body.as_slice(), out.as_slice(), sorted.as_slice());

    let mut result: Vec<char> = Vec::new();
    if marked {
        result.push('\u{FEFF}');
    }
    assert(result@ =~= mark(content@));
    push_all(&mut result, out.as_slice());
    if same(result.as_slice(), whole.as_slice()) {
        return Err(Refusal::Unchanged { path: path.to_owned() });
    }
    let applied = Applied { content: string_of(result.as_slice()), landed, left_blank };
    assert(applied@.landed =~= Seq::new(pl.len(), |k: int| reported(body@, pl, k)));
    assert(applied@.left_blank =~= left_blank@.map_values(|x: usize| x as int));
    Ok(applied)
}

} // verus!
