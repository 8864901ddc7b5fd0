//! Applying a patch: every section is resolved and built before any of it
//! reaches the caller. A half-applied patch is worse than a rejected one.

use crate::hashline::landing::{block_hits, crlf, LandedView};
use crate::hashline::laws::lemma_slot_of;
use crate::hashline::matching::{breaks_crlf, cover, nearest_line, row_of, seen};
use crate::hashline::parse::{all_shaped, find_star, syntax};
use crate::hashline::patch::{
    group_view, late_scope, shaped, star_at, starred, Error, ErrorView, Mark, Patch, Row, RowView,
    Section, SectionView,
};
use crate::hashline::plan::{
    above_row, alike, all_marked, all_records, built, burial, buried_line, candidate_line,
    candidate_list, core_texts, current, file_at, file_rows, fits, fitting, grounded, group_ops,
    held_in, held_rows, holding, in_file, inserted, inside_span, is_core, leading, lowered,
    match_ops, named, new_rows, no_match, overlap, plan, preceded, range_text, recorded, records,
    rejoined, replaced, row_text, row_texts, run_ops, scope_count, section_ops, sits_in, slot_of,
    span_at, span_clash, span_slotted, spans_of, stacked, star_ops, sweep_ops, swept, telling_depth,
    window, window_hint, window_lines, within, ChangeView, OpView, SpanView,
};
use crate::hashline::stacking::{
    all_told, law_stacked_hunks_lead_all_the_way, law_the_records_of_a_section_lead_to_its_rows,
    lemma_whole_traces, made_of, restack, told, traces,
};
use crate::hashline::Blocks;
use crate::text::{
    append_number, chars_of, contains, copy_range, crop, cropped, decimal, decimal_of, index_of,
    join_rows, lemma_index_of, lines, lines_of, push_all, push_text, rows, same, split, split_of,
    starts_with, string_of, texts, trim, trimmed, without_cr,
};
use vstd::prelude::*;
use vstd::slice::slice_subrange;
use vstd::string::*;

verus! {

/// Where one hunk landed.
#[derive(Debug, Clone, PartialEq, Eq)]
pub struct Landed {
    /// Where the new lines sit in the file now.
    pub start: usize,
    pub end: usize,
    /// The original lines it displaced, in order. Empty for an insertion.
    pub took: Vec<String>,
    /// The 1-based line this hunk acted on in the original file.
    pub took_at: usize,
}

impl View for Landed {
    type V = LandedView;

    open spec fn view(&self) -> LandedView {
        LandedView {
            start: self.start as int,
            end: self.end as int,
            took: texts(self.took@),
            took_at: self.took_at as int,
        }
    }
}

impl Landed {
    /// How many lines this put in the file.
    pub fn gave(&self) -> (n: usize)
        requires
            self.end < usize::MAX,
        ensures
            n == if self.start <= self.end {
                self.end - self.start + 1
            } else {
                0
            },
    {
        (self.end + 1).saturating_sub(self.start)
    }
}

/// One file to be written.
#[derive(Debug, Clone, PartialEq, Eq)]
pub enum Change {
    Write { path: String, content: String, landed: Vec<Landed> },
}

/// What was recorded, as a sequence.
pub open spec fn landed_view(v: Seq<Landed>) -> Seq<LandedView> {
    Seq::new(v.len(), |i: int| v[i]@)
}

impl View for Change {
    type V = ChangeView;

    open spec fn view(&self) -> ChangeView {
        match *self {
            Change::Write { path, content, landed } => ChangeView {
                path: path@,
                content: content@,
                landed: landed_view(landed@),
            },
        }
    }
}

/// Everything a patch comes to: one write per path.
#[derive(Debug, Clone, PartialEq, Eq)]
pub struct Plan {
    pub changes: Vec<Change>,
}

impl Default for Plan {
    fn default() -> (r: Plan)
        ensures
            r.changes@.len() == 0,
    {
        Plan { changes: Vec::new() }
    }
}

/// The changes of a plan, as a sequence.
pub open spec fn changes_view(v: Seq<Change>) -> Seq<ChangeView> {
    Seq::new(v.len(), |i: int| v[i]@)
}

impl View for Plan {
    type V = Seq<ChangeView>;

    open spec fn view(&self) -> Seq<ChangeView> {
        changes_view(self.changes@)
    }
}

/// The files a patch is applied to: a path and its content each.
pub type Files<'a> = [(&'a str, &'a str)];

/// The files, as sequences.
pub open spec fn files_view(files: Seq<(&str, &str)>) -> Seq<(Seq<char>, Seq<char>)> {
    Seq::new(files.len(), |i: int| (files[i].0@, files[i].1@))
}

// ---------------------------------------------------------------------------
// Constructs
// ---------------------------------------------------------------------------

fn syntax_error(line: usize, what: &str) -> (e: Error)
    ensures
        e@ == syntax(line as int, what@),
{
    Error::Syntax { line, what: what.to_owned() }
}

fn append_range(s: &mut String, lo: usize, hi: usize)
    ensures
        final(s)@ == old(s)@ + range_text(lo as int, hi as int),
{
    append_number(s, lo);
    s.append("-");
    append_number(s, hi);
    assert(s@ =~= old(s)@ + range_text(lo as int, hi as int));
}

fn append_chars(s: &mut String, v: &[char])
    ensures
        final(s)@ == old(s)@ + v@,
{
    let t = string_of(v);
    s.append(t.as_str());
}

fn in_window(opens: &[usize], lo: usize, hi: usize) -> (r: Vec<usize>)
    ensures
        r@ == within(opens@, lo as int, hi as int),
{
    let mut r: Vec<usize> = Vec::new();
    let mut i: usize = 0;
    while i < opens.len()
        invariant
            i <= opens@.len(),
            r@ == within(opens@.take(i as int), lo as int, hi as int),
        decreases opens@.len() - i,
    {
        assert(opens@.take(i + 1).drop_last() =~= opens@.take(i as int));
        if lo <= opens[i] && opens[i] <= hi {
            r.push(opens[i]);
        }
        i += 1;
    }
    assert(opens@.take(i as int) =~= opens@);
    r
}

fn hits_in(opens: &[usize], all: &[Vec<char>], needle: &[char]) -> (r: Vec<usize>)
    ensures
        r@ == block_hits(opens@, rows(all@), needle@),
{
    let mut r: Vec<usize> = Vec::new();
    let mut i: usize = 0;
    while i < opens.len()
        invariant
            i <= opens@.len(),
            r@ == block_hits(opens@.take(i as int), rows(all@), needle@),
        decreases opens@.len() - i,
    {
        assert(opens@.take(i + 1).drop_last() =~= opens@.take(i as int));
        let n = opens[i];
        if n >= 1 && n <= all.len() {
            let row = trimmed(all[n - 1].as_slice());
            assert(row@ == trim(rows(all@)[n - 1]));
            if starts_with(row.as_slice(), needle) {
                r.push(n);
            }
        }
        i += 1;
    }
    assert(opens@.take(i as int) =~= opens@);
    r
}

/// What a window does open: the fix is copying one of these into the `@` row.
fn hint_of(opens: &[usize], all: &[Vec<char>]) -> (r: Vec<char>)
    ensures
        r@ == window_hint(opens@, rows(all@)),
{
    let mut list: Vec<Vec<char>> = Vec::new();
    let mut i: usize = 0;
    while i < opens.len()
        invariant
            i <= opens@.len(),
            rows(list@) == window_lines(opens@.take(i as int), rows(all@)),
        decreases opens@.len() - i,
    {
        assert(opens@.take(i + 1).drop_last() =~= opens@.take(i as int));
        let whole = row_of(all, opens[i]);
        let row = trimmed(whole.as_slice());
        let m = list.len();
        assert(m > 0 ==> rows(list@).last() == list@[m - 1]@);
        if m == 0 || !same(list[m - 1].as_slice(), row.as_slice()) {
            let ghost before = rows(list@);
            list.push(row);
            assert(rows(list@) =~= before.push(row@));
        }
        i += 1;
    }
    assert(opens@.take(i as int) =~= opens@);
    let ghost every = window_lines(opens@, rows(all@));
    let total = list.len();
    let mut r: Vec<char> = Vec::new();
    if total == 0 {
        return r;
    }
    let n: usize = if total <= 5 {
        total
    } else {
        5
    };
    let mut told: Vec<Vec<char>> = Vec::new();
    let mut k: usize = 0;
    while k < n
        invariant
            k <= n <= list@.len(),
            told@.len() == k,
            rows(list@) == every,
            forall|j: int|
                0 <= j < k ==> (#[trigger] told@[j])@ == seq!['`'] + cropped(every[j], 60)
                    + seq!['`'],
        decreases n - k,
    {
        let mut row: Vec<char> = Vec::new();
        row.push('`');
        let c = crop(list[k].as_slice(), 60);
        push_all(&mut row, c.as_slice());
        row.push('`');
        assert(every[k as int] == list@[k as int]@);
        assert(row@ =~= seq!['`'] + cropped(every[k as int], 60) + seq!['`']);
        told.push(row);
        k += 1;
    }
    let ghost plain = Seq::new(n as nat, |i: int| seq!['`'] + cropped(every[i], 60) + seq!['`']);
    assert(rows(told@) =~= plain);
    if total > 5 {
        let mut more: Vec<char> = Vec::new();
        push_text(&mut more, "… +");
        let d = decimal_of((total - 5) as u64);
        push_all(&mut more, d.as_slice());
        assert(more@ =~= "… +"@ + decimal((every.len() - 5) as nat));
        told.push(more);
        assert(rows(told@) =~= plain.push(more@));
    }
    push_text(&mut r, " — the window opens: ");
    let sep = chars_of(", ");
    let named_rows = join_rows(told.as_slice(), sep.as_slice());
    push_all(&mut r, named_rows.as_slice());
    assert(r@ =~= window_hint(opens@, rows(all@)));
    r
}

/// The construct a row names: a unique opening line matched by prefix within
/// the window, and the parser's answer for where it closes.
fn construct<B: Blocks>(
    path: &str,
    star: &[char],
    lo: usize,
    hi: usize,
    content: &str,
    all: &[Vec<char>],
    blocks: &B,
) -> (r: Result<(usize, usize), Error>)
    requires
        rows(all@) == lines(content@),
        in_file(blocks, path@, content@),
    ensures
        match r {
            Ok((s, e)) => named(path@, star@, lo as int, hi as int, content@, blocks) == Ok::<
                (int, int),
                ErrorView,
            >((s as int, e as int)) && 1 <= s <= e <= all@.len(),
            Err(e) => named(path@, star@, lo as int, hi as int, content@, blocks) == Err::<
                (int, int),
                ErrorView,
            >(e@),
        },
{
    let opens = blocks.openings(path, content);
    let here = in_window(opens.as_slice(), lo, hi);
    let needle = trimmed(star);
    let cands = hits_in(here.as_slice(), all, needle.as_slice());
    if cands.len() == 0 {
        let mut what = String::new();
        what.append("no construct opens with `");
        append_chars(&mut what, star);
        what.append("` in lines ");
        append_range(&mut what, lo, hi);
        let hint = hint_of(here.as_slice(), all);
        append_chars(&mut what, hint.as_slice());
        assert(what@ =~= "no construct opens with `"@ + star@ + "` in lines "@ + range_text(
            lo as int,
            hi as int,
        ) + window_hint(here@, rows(all@)));
        return Err(Error::NoConstruct { path: path.to_owned(), what });
    }
    if cands.len() > 1 {
        let mut what = String::new();
        what.append("`");
        append_chars(&mut what, star);
        what.append("` opens ");
        append_number(&mut what, cands.len());
        what.append(" constructs in lines ");
        append_range(&mut what, lo, hi);
        what.append(" — add an outer `@` scope or more of the opening line");
        assert(what@ =~= "`"@ + star@ + "` opens "@ + decimal(cands@.len())
            + " constructs in lines "@ + range_text(lo as int, hi as int)
            + " — add an outer `@` scope or more of the opening line"@);
        return Err(Error::NoConstruct { path: path.to_owned(), what });
    }
    match blocks.extent_of(path, content, cands[0]) {
        Some((s, e)) => {
            assert(blocks.extent_at(path@, content@, cands@[0]) == Some((s, e)));
            assert(rows(all@).len() == all@.len());
            Ok((s, e))
        },
        None => {
            let mut what = String::new();
            what.append("the row the anchor names (line ");
            append_number(&mut what, cands[0]);
            what.append(") opens no resolvable construct");
            assert(what@ =~= "the row the anchor names (line "@ + decimal(cands@[0] as nat)
                + ") opens no resolvable construct"@);
            Err(Error::NoConstruct { path: path.to_owned(), what })
        },
    }
}

/// The construct a line sits in, innermost wins: the opening row is exactly
/// what an `@` row copies.
fn holder<B: Blocks>(
    path: &str,
    at: usize,
    content: &str,
    all: &[Vec<char>],
    blocks: &B,
) -> (r: Option<Vec<char>>)
    requires
        rows(all@) == lines(content@),
    ensures
        seen(r) == held_in(path@, at as int, content@, blocks),
{
    let extents = blocks.extents(path, content);
    cover(at, all, extents.as_slice())
}

// ---------------------------------------------------------------------------
// One operation
// ---------------------------------------------------------------------------

/// One lowered operation: the resolver's answer, in plain line ranges. An
/// insertion is kept by how many rows stay above it.
enum Op {
    Replace { start: usize, end: usize, body: Vec<Vec<char>> },
    Insert { above: usize, body: Vec<Vec<char>> },
}

impl Op {
    spec fn seen(self) -> OpView {
        match self {
            Op::Replace { start, end, body } => OpView::Replace {
                start: start as int,
                end: end as int,
                body: rows(body@),
            },
            Op::Insert { above, body } => OpView::InsertBefore {
                line: above + 1,
                body: rows(body@),
            },
        }
    }
}

spec fn ops_view(v: Seq<Op>) -> Seq<OpView> {
    Seq::new(v.len(), |i: int| v[i].seen())
}

/// Whether an operation acts on lines of a file of `n` lines.
pub open spec fn op_fits(op: OpView, n: int) -> bool {
    match op {
        OpView::Replace { start, end, .. } => 1 <= start <= end <= n,
        OpView::InsertBefore { line, .. } => 1 <= line <= n + 1,
    }
}

pub open spec fn ops_fit(ops: Seq<OpView>, n: int) -> bool {
    forall|i: int| 0 <= i < ops.len() ==> op_fits(#[trigger] ops[i], n)
}

fn put_op(ops: &mut Vec<Op>, op: Op, Ghost(n): Ghost<int>)
    requires
        ops_fit(ops_view(old(ops)@), n),
        op_fits(op.seen(), n),
    ensures
        ops_view(final(ops)@) == ops_view(old(ops)@).push(op.seen()),
        ops_fit(ops_view(final(ops)@), n),
{
    let ghost v = op.seen();
    let ghost before = ops_view(ops@);
    ops.push(op);
    assert(ops_view(ops@) =~= before.push(v));
}

fn text_of(r: &Row) -> (t: Vec<char>)
    ensures
        t@ == row_text(r@),
{
    match r {
        Row::Mark(_, t) => chars_of(t.as_str()),
        Row::Star(t) => chars_of(t.as_str()),
        Row::At(t) => chars_of(t.as_str()),
    }
}

fn texts_of(g: &[Row], from: usize, to: usize) -> (r: Vec<Vec<char>>)
    requires
        from <= to <= g@.len(),
    ensures
        rows(r@) == row_texts(group_view(g@).subrange(from as int, to as int)),
{
    let mut r: Vec<Vec<char>> = Vec::new();
    let mut i: usize = from;
    while i < to
        invariant
            from <= i <= to <= g@.len(),
            r@.len() == i - from,
            forall|k: int| 0 <= k < r@.len() ==> (#[trigger] r@[k])@ == row_text(g@[from + k]@),
        decreases to - i,
    {
        let t = text_of(&g[i]);
        r.push(t);
        i += 1;
    }
    assert(rows(r@) =~= row_texts(group_view(g@).subrange(from as int, to as int)));
    r
}

/// Lower an operation around a `*` row: `+` rows above it insert before the
/// construct, `+` rows below it insert after, and a sandwich does both.
fn lower_star<B: Blocks>(
    section: &Section,
    group: &[Row],
    ix: usize,
    content: &str,
    all: &[Vec<char>],
    blocks: &B,
    ops: &mut Vec<Op>,
) -> (r: Result<(), Error>)
    requires
        rows(all@) == lines(content@),
        in_file(blocks, section.path@, content@),
        ix == star_at(group_view(group@)),
        ix < group@.len(),
        ops_fit(ops_view(old(ops)@), all@.len() as int),
    ensures
        match r {
            Ok(_) => match star_ops(section@, group_view(group@), content@, blocks) {
                Ok(more) => ops_view(final(ops)@) == ops_view(old(ops)@) + more && ops_fit(
                    ops_view(final(ops)@),
                    all@.len() as int,
                ),
                Err(_) => false,
            },
            Err(e) => star_ops(section@, group_view(group@), content@, blocks) == Err::<
                Seq<OpView>,
                ErrorView,
            >(e@),
        },
{
    let ghost g = group_view(group@);
    let ghost before = ops_view(ops@);
    let star = text_of(&group[ix]);
    assert(g[ix as int] == group@[ix as int]@);
    assert(rows(all@).len() == all@.len());
    match construct(
        section.path.as_str(),
        star.as_slice(),
        1,
        all.len(),
        content,
        all,
        blocks,
    ) {
        Err(e) => Err(e),
        Ok((cs, ce)) => {
            if ix > 0 {
                let body = texts_of(group, 0, ix);
                assert(g.subrange(0, ix as int) =~= g.take(ix as int));
                put_op(ops, Op::Insert { above: cs - 1, body }, Ghost(all@.len() as int));
            }
            let ghost mid = ops_view(ops@);
            if ix < group.len() - 1 {
                let body = texts_of(group, ix + 1, group.len());
                assert(g.subrange(ix + 1, g.len() as int) =~= g.skip(ix + 1));
                put_op(ops, Op::Insert { above: ce, body }, Ghost(all@.len() as int));
            }
            proof {
                let more = star_ops(section@, g, content@, blocks)->Ok_0;
                assert(ops_view(ops@) =~= before + more);
            }
            Ok(())
        },
    }
}

fn count_scopes(g: &[Row]) -> (n: usize)
    ensures
        n == scope_count(group_view(g@)),
        n <= g@.len(),
        n < g@.len() ==> !(g@[n as int] is At),
        forall|i: int| 0 <= i < n ==> #[trigger] g@[i] is At,
{
    let ghost v = group_view(g@);
    let mut i: usize = 0;
    assert(v.skip(0) =~= v);
    while i < g.len()
        invariant
            i <= g@.len(),
            v == group_view(g@),
            i + scope_count(v.skip(i as int)) == scope_count(v),
            forall|k: int| 0 <= k < i ==> #[trigger] g@[k] is At,
        decreases g@.len() - i,
    {
        assert(v.skip(i as int).skip(1) =~= v.skip(i + 1));
        assert(v.skip(i as int)[0] == g@[i as int]@);
        match g[i] {
            Row::At(_) => {},
            _ => {
                return i;
            },
        }
        i += 1;
    }
    i
}

fn only(g: &[Row], from: usize, m: Mark) -> (r: bool)
    requires
        from <= g@.len(),
    ensures
        r == all_marked(group_view(g@).skip(from as int), m),
{
    let ghost v = group_view(g@).skip(from as int);
    let mut i: usize = from;
    while i < g.len()
        invariant
            from <= i <= g@.len(),
            v == group_view(g@).skip(from as int),
            forall|k: int|
                0 <= k < i - from ==> (#[trigger] v[k] matches RowView::Mark(x, _) && x == m),
        decreases g@.len() - i,
    {
        assert(v[i - from] == g@[i as int]@);
        let ok = match &g[i] {
            Row::Mark(x, _) => *x == m,
            _ => false,
        };
        if !ok {
            return false;
        }
        i += 1;
    }
    true
}

fn narrow<B: Blocks>(
    path: &str,
    group: &[Row],
    n: usize,
    content: &str,
    all: &[Vec<char>],
    blocks: &B,
) -> (r: Result<(usize, usize), Error>)
    requires
        rows(all@) == lines(content@),
        in_file(blocks, path@, content@),
        n <= group@.len(),
        all@.len() >= 1,
    ensures
        match r {
            Ok((lo, hi)) => window(
                path@,
                group_view(group@).take(n as int),
                n as int,
                content@,
                blocks,
            ) == Ok::<(int, int), ErrorView>((lo as int, hi as int)) && 1 <= lo <= hi
                <= all@.len(),
            Err(e) => window(
                path@,
                group_view(group@).take(n as int),
                n as int,
                content@,
                blocks,
            ) == Err::<(int, int), ErrorView>(e@),
        },
{
    let ghost scopes = group_view(group@).take(n as int);
    let mut lo: usize = 1;
    let mut hi: usize = all.len();
    let mut i: usize = 0;
    assert(rows(all@).len() == all@.len());
    while i < n
        invariant
            i <= n <= group@.len(),
            rows(all@) == lines(content@),
            in_file(blocks, path@, content@),
            scopes == group_view(group@).take(n as int),
            1 <= lo <= hi <= all@.len(),
            window(path@, scopes, i as int, content@, blocks) == Ok::<(int, int), ErrorView>(
                (lo as int, hi as int),
            ),
        decreases n - i,
    {
        let t = text_of(&group[i]);
        assert(scopes[i as int] == group@[i as int]@);
        match construct(path, t.as_slice(), lo, hi, content, all, blocks) {
            Err(e) => {
                proof {
                    lemma_window_refused(path@, scopes, i + 1, n as int, content@, blocks);
                }
                return Err(e);
            },
            Ok((s, e)) => {
                lo = s;
                hi = e;
            },
        }
        i += 1;
    }
    Ok((lo, hi))
}

proof fn lemma_window_refused<B: Blocks>(
    path: Seq<char>,
    scopes: Seq<RowView>,
    n: int,
    m: int,
    content: Seq<char>,
    blocks: &B,
)
    requires
        0 <= n <= m,
        window(path, scopes, n, content, blocks) is Err,
    ensures
        window(path, scopes, m, content, blocks) == window(path, scopes, n, content, blocks),
    decreases m,
{
    if n < m {
        lemma_window_refused(path, scopes, n, m - 1, content, blocks);
    }
}

fn refuse_near(
    path: &str,
    all: &[Vec<char>],
    wanted: &[Vec<char>],
    lo: usize,
    hi: usize,
) -> (e: Error)
    requires
        lo <= hi,
    ensures
        e@ == no_match(path@, rows(all@), rows(wanted@), lo as int, hi as int),
{
    let line = nearest_line(all, wanted, lo, hi);
    let row = row_of(all, line);
    let c = crop(row.as_slice(), 80);
    Error::NoMatch { path: path.to_owned(), line, text: string_of(c.as_slice()) }
}

spec fn runs_view(v: Seq<(usize, usize)>) -> Seq<OpView> {
    Seq::new(
        v.len(),
        |i: int|
            OpView::Replace { start: v[i].0 as int, end: v[i].1 as int, body: Seq::empty() },
    )
}

/// The lines of `lo..=hi` that hold `needle`, as runs of neighbours.
fn runs_of(all: &[Vec<char>], needle: &[char], lo: usize, hi: usize) -> (r: Vec<(usize, usize)>)
    requires
        1 <= lo <= hi <= all@.len(),
    ensures
        runs_view(r@) == run_ops(holding(rows(all@), needle@, lo as int, hi as int)),
        r@.len() == 0 <==> holding(rows(all@), needle@, lo as int, hi as int).len() == 0,
        forall|i: int| 0 <= i < r@.len() ==> 1 <= (#[trigger] r@[i]).0 <= r@[i].1 <= hi,
{
    let mut r: Vec<(usize, usize)> = Vec::new();
    let mut n: usize = lo - 1;
    assert(runs_view(r@) =~= run_ops(holding(rows(all@), needle@, lo as int, n as int)));
    while n < hi
        invariant
            1 <= lo <= hi <= all@.len(),
            lo - 1 <= n <= hi,
            runs_view(r@) == run_ops(holding(rows(all@), needle@, lo as int, n as int)),
            r@.len() == 0 <==> holding(rows(all@), needle@, lo as int, n as int).len() == 0,
            forall|i: int| 0 <= i < r@.len() ==> 1 <= (#[trigger] r@[i]).0 <= r@[i].1 <= n,
        decreases hi - n,
    {
        n += 1;
        let ghost before = holding(rows(all@), needle@, lo as int, n - 1);
        assert(rows(all@)[n - 1] == all@[n - 1]@);
        if contains(all[n - 1].as_slice(), needle) {
            let ghost hits = holding(rows(all@), needle@, lo as int, n as int);
            assert(hits.drop_last() =~= before);
            let ghost done = runs_view(r@);
            let m = r.len();
            if m > 0 && r[m - 1].1 == n - 1 {
                let first = r[m - 1].0;
                assert(done.last() == OpView::Replace {
                    start: first as int,
                    end: n - 1,
                    body: Seq::empty(),
                });
                let _ = r.pop();
                r.push((first, n));
                assert(runs_view(r@) =~= done.drop_last().push(
                    OpView::Replace { start: first as int, end: n as int, body: Seq::empty() },
                ));
            } else {
                proof {
                    if m > 0 {
                        assert(done.last() == OpView::Replace {
                            start: r@[m - 1].0 as int,
                            end: r@[m - 1].1 as int,
                            body: Seq::empty(),
                        });
                    }
                }
                r.push((n, n));
                assert(runs_view(r@) =~= done.push(
                    OpView::Replace { start: n as int, end: n as int, body: Seq::empty() },
                ));
            }
        }
    }
    r
}

/// Lower a lone `-` row: every row in the window containing its text goes,
/// construct-wide under a scope, file-wide without one. A bare `-` under a
/// scope deletes the whole construct; with no scope it has nothing to mean.
fn lower_sweep(
    section: &Section,
    scoped: bool,
    pattern: &[char],
    lo: usize,
    hi: usize,
    all: &[Vec<char>],
    ops: &mut Vec<Op>,
) -> (r: Result<(), Error>)
    requires
        1 <= lo <= hi <= all@.len(),
        ops_fit(ops_view(old(ops)@), all@.len() as int),
    ensures
        match r {
            Ok(_) => match sweep_ops(
                section@,
                scoped,
                pattern@,
                lo as int,
                hi as int,
                rows(all@),
            ) {
                Ok(more) => ops_view(final(ops)@) == ops_view(old(ops)@) + more && ops_fit(
                    ops_view(final(ops)@),
                    all@.len() as int,
                ),
                Err(_) => false,
            },
            Err(e) => sweep_ops(section@, scoped, pattern@, lo as int, hi as int, rows(all@))
                == Err::<Seq<OpView>, ErrorView>(e@),
        },
{
    let needle = trimmed(pattern);
    let ghost before = ops_view(ops@);
    if needle.len() == 0 {
        if !scoped {
            return Err(
                syntax_error(
                    section.line,
                    "a bare `-` deletes a whole construct — name it with an `@` scope, or anchor a blank row with `=` rows",
                ),
            );
        }
        let body: Vec<Vec<char>> = Vec::new();
        assert(rows(body@) =~= Seq::empty());
        let ghost v = OpView::Replace { start: lo as int, end: hi as int, body: Seq::empty() };
        put_op(ops, Op::Replace { start: lo, end: hi, body }, Ghost(all@.len() as int));
        assert(ops_view(ops@) =~= before + seq![v]);
        return Ok(());
    }
    let runs = runs_of(all, needle.as_slice(), lo, hi);
    if runs.len() == 0 {
        let mut wanted: Vec<Vec<char>> = Vec::new();
        wanted.push(needle);
        assert(rows(wanted@) =~= seq![trim(pattern@)]);
        return Err(refuse_near(section.path.as_str(), all, wanted.as_slice(), lo, hi));
    }
    let ghost more = runs_view(runs@);
    let mut i: usize = 0;
    assert(before + more.take(0) =~= before);
    while i < runs.len()
        invariant
            i <= runs@.len(),
            more == runs_view(runs@),
            hi <= all@.len(),
            forall|k: int| 0 <= k < runs@.len() ==> 1 <= (#[trigger] runs@[k]).0 <= runs@[k].1 <= hi,
            ops_view(ops@) == before + more.take(i as int),
            ops_fit(ops_view(ops@), all@.len() as int),
        decreases runs@.len() - i,
    {
        let body: Vec<Vec<char>> = Vec::new();
        assert(rows(body@) =~= Seq::empty());
        assert(1 <= runs@[i as int].0 <= runs@[i as int].1 <= hi);
        let op = Op::Replace { start: runs[i].0, end: runs[i].1, body };
        assert(op.seen() == more[i as int]);
        put_op(ops, op, Ghost(all@.len() as int));
        i += 1;
        assert((before + more.take(i - 1)).push(more[i - 1]) =~= before + more.take(i as int));
    }
    assert(more.take(i as int) =~= more);
    Ok(())
}

fn core_rows(g: &[Row], from: usize) -> (r: Vec<Vec<char>>)
    requires
        from <= g@.len(),
    ensures
        rows(r@) == core_texts(group_view(g@).skip(from as int)),
{
    let ghost v = group_view(g@).skip(from as int);
    let mut r: Vec<Vec<char>> = Vec::new();
    let mut i: usize = from;
    assert(v.take(0) =~= Seq::empty());
    assert(rows(r@) =~= core_texts(v.take(0)));
    while i < g.len()
        invariant
            from <= i <= g@.len(),
            v == group_view(g@).skip(from as int),
            rows(r@) == core_texts(v.take(i - from)),
        decreases g@.len() - i,
    {
        let ghost t = v.take(i - from + 1);
        assert(t.drop_last() =~= v.take(i - from));
        assert(t.last() == g@[i as int]@);
        let core = match &g[i] {
            Row::Mark(Mark::Add, _) => false,
            Row::Mark(_, _) => true,
            _ => false,
        };
        if core {
            let ghost before = rows(r@);
            let x = text_of(&g[i]);
            r.push(x);
            assert(rows(r@) =~= before.push(x@));
        }
        i += 1;
    }
    assert(v.take(i - from) =~= v);
    r
}

fn fits_at(all: &[Vec<char>], wanted: &[Vec<char>], at: usize) -> (r: bool)
    requires
        at + wanted@.len() <= all@.len(),
    ensures
        r == fits(rows(all@), rows(wanted@), at + 1),
{
    let mut i: usize = 0;
    while i < wanted.len()
        invariant
            i <= wanted@.len(),
            at + wanted@.len() <= all@.len(),
            forall|k: int|
                0 <= k < i ==> trim(rows(all@)[at + k]) == trim(#[trigger] rows(wanted@)[k]),
        decreases wanted@.len() - i,
    {
        assert(all@.len() == all.len());
        let a = trimmed(all[at + i].as_slice());
        let b = trimmed(wanted[i].as_slice());
        assert(rows(wanted@)[i as int] == wanted@[i as int]@);
        assert(rows(all@)[at + i] == all@[at + i]@);
        if !same(a.as_slice(), b.as_slice()) {
            assert(!(trim(rows(all@)[at + 1 - 1 + i]) == trim(rows(wanted@)[i as int])));
            return false;
        }
        i += 1;
    }
    assert(fits(rows(all@), rows(wanted@), at + 1)) by {
        assert forall|k: int| 0 <= k < rows(wanted@).len() implies trim(
            rows(all@)[at + 1 - 1 + k],
        ) == trim(#[trigger] rows(wanted@)[k]) by {
            assert(at + 1 - 1 + k == at + k);
        }
    }
    true
}

spec fn ints(v: Seq<usize>) -> Seq<int> {
    Seq::new(v.len(), |i: int| v[i] as int)
}

fn fitting_of(all: &[Vec<char>], wanted: &[Vec<char>], lo: usize, hi: usize) -> (r: Vec<usize>)
    requires
        1 <= lo <= hi <= all@.len(),
        wanted@.len() >= 1,
    ensures
        ints(r@) == fitting(rows(all@), rows(wanted@), lo as int, hi + 1 - wanted@.len()),
        forall|i: int|
            0 <= i < r@.len() ==> lo <= (#[trigger] r@[i]) && r@[i] + wanted@.len() <= hi + 1,
{
    let k = wanted.len();
    let mut r: Vec<usize> = Vec::new();
    if k - 1 > hi - lo {
        assert(ints(r@) =~= Seq::empty());
        return r;
    }
    let last: usize = hi - (k - 1);
    let mut n: usize = lo - 1;
    assert(ints(r@) =~= fitting(rows(all@), rows(wanted@), lo as int, n as int));
    while n < last
        invariant
            1 <= lo <= hi <= all@.len(),
            k == wanted@.len(),
            k >= 1,
            last == hi - (k - 1),
            lo - 1 <= n <= last,
            ints(r@) == fitting(rows(all@), rows(wanted@), lo as int, n as int),
            forall|i: int| 0 <= i < r@.len() ==> lo <= (#[trigger] r@[i]) <= n,
        decreases last - n,
    {
        let fit = fits_at(all, wanted, n);
        n += 1;
        if fit {
            let ghost before = ints(r@);
            r.push(n);
            assert(ints(r@) =~= before.push(n as int));
        }
    }
    assert forall|i: int| 0 <= i < r@.len() implies lo <= (#[trigger] r@[i]) && r@[i]
        + wanted@.len() <= hi + 1 by {
        assert(r@[i] <= last);
    }
    r
}

/// The row `d` lines above line `s`.
fn row_above(all: &[Vec<char>], s: usize, d: usize) -> (r: Option<Vec<char>>)
    requires
        s <= all@.len(),
        d >= 1,
    ensures
        seen(r) == above_row(rows(all@), s as int, d as int),
{
    if s > d {
        let v = &all[s - d - 1];
        let c = copy_range(v.as_slice(), 0, v.len());
        assert(c@ =~= rows(all@)[s - d - 1]);
        Some(c)
    } else {
        None
    }
}

fn all_alike(all: &[Vec<char>], starts: &[usize], d: usize) -> (r: bool)
    requires
        starts@.len() >= 1,
        forall|i: int| 0 <= i < starts@.len() ==> (#[trigger] starts@[i]) <= all@.len(),
        d >= 1,
    ensures
        r == alike(rows(all@), ints(starts@), d as int),
{
    assert(starts@[0] <= all@.len());
    let first = row_above(all, starts[0], d);
    let mut i: usize = 0;
    while i < starts.len()
        invariant
            i <= starts@.len(),
            d >= 1,
            forall|k: int| 0 <= k < starts@.len() ==> (#[trigger] starts@[k]) <= all@.len(),
            starts@.len() >= 1,
            seen(first) == above_row(rows(all@), starts@[0] as int, d as int),
            forall|k: int|
                0 <= k < i ==> above_row(rows(all@), #[trigger] ints(starts@)[k], d as int)
                    == above_row(rows(all@), ints(starts@)[0], d as int),
        decreases starts@.len() - i,
    {
        assert(starts@[i as int] <= all@.len());
        let here = row_above(all, starts[i], d);
        let equal = match (&here, &first) {
            (Some(a), Some(b)) => same(a.as_slice(), b.as_slice()),
            (None, None) => true,
            _ => false,
        };
        assert(ints(starts@)[i as int] == starts@[i as int]);
        assert(ints(starts@)[0] == starts@[0]);
        if !equal {
            return false;
        }
        i += 1;
    }
    true
}

fn depth_of(all: &[Vec<char>], starts: &[usize]) -> (d: usize)
    requires
        starts@.len() >= 1,
        forall|i: int| 0 <= i < starts@.len() ==> (#[trigger] starts@[i]) <= all@.len(),
    ensures
        d == telling_depth(rows(all@), ints(starts@)),
        1 <= d <= 3,
{
    if !all_alike(all, starts, 1) {
        1
    } else if !all_alike(all, starts, 2) {
        2
    } else {
        3
    }
}

fn precede(all: &[Vec<char>], s: usize, depth: usize) -> (r: Vec<char>)
    requires
        s <= all@.len(),
        depth <= 3,
    ensures
        r@ == preceded(rows(all@), s as int, depth as int),
{
    let mut r: Vec<char> = Vec::new();
    let mut d: usize = 0;
    while d < depth
        invariant
            d <= depth <= 3,
            s <= all@.len(),
            r@ == preceded(rows(all@), s as int, d as int),
        decreases depth - d,
    {
        d += 1;
        let ghost before = r@;
        if let Some(row) = row_above(all, s, d) {
            push_text(&mut r, ", ");
            if d == 1 {
                push_text(&mut r, "preceded by");
            } else {
                push_text(&mut r, "before that");
            }
            push_text(&mut r, " `");
            let c = crop(row.as_slice(), 60);
            push_all(&mut r, c.as_slice());
            push_text(&mut r, "`");
            proof {
                let label = if d == 1 {
                    "preceded by"@
                } else {
                    "before that"@
                };
                assert(r@ =~= before + (", "@ + label + " `"@ + cropped(row@, 60) + "`"@));
            }
        }
    }
    r
}

/// Every candidate of an ambiguous operation. Preceding rows join in until they
/// tell the candidates apart: identical neighbours are exactly when `@` and one
/// `=` row both fail.
fn list_places<B: Blocks>(
    path: &str,
    starts: &[usize],
    k: usize,
    content: &str,
    all: &[Vec<char>],
    blocks: &B,
) -> (r: Vec<char>)
    requires
        rows(all@) == lines(content@),
        starts@.len() >= 1,
        k >= 1,
        forall|i: int|
            0 <= i < starts@.len() ==> 1 <= (#[trigger] starts@[i]) && starts@[i] + k
                <= all@.len() + 1,
    ensures
        r@ == candidate_list(path@, ints(starts@), k as int, content@, blocks),
{
    let depth = depth_of(all, starts);
    let mut told: Vec<Vec<char>> = Vec::new();
    let mut i: usize = 0;
    while i < starts.len()
        invariant
            i <= starts@.len(),
            rows(all@) == lines(content@),
            k >= 1,
            1 <= depth <= 3,
            forall|j: int|
                0 <= j < starts@.len() ==> 1 <= (#[trigger] starts@[j]) && starts@[j] + k
                    <= all@.len() + 1,
            told@.len() == i,
            forall|j: int|
                0 <= j < i ==> (#[trigger] told@[j])@ == candidate_line(
                    path@,
                    starts@[j] as int,
                    k as int,
                    depth as int,
                    content@,
                    blocks,
                ),
        decreases starts@.len() - i,
    {
        let s = starts[i];
        assert(1 <= starts@[i as int] && starts@[i as int] + k <= all@.len() + 1);
        let mut line: Vec<char> = Vec::new();
        push_text(&mut line, "  lines ");
        let a = decimal_of(s as u64);
        push_all(&mut line, a.as_slice());
        push_text(&mut line, "-");
        assert(all@.len() == all.len());
        let b = decimal_of((s + (k - 1)) as u64);
        push_all(&mut line, b.as_slice());
        assert(line@ =~= "  lines "@ + range_text(s as int, s + k - 1));
        let ghost mut held: Seq<char> = Seq::empty();
        if let Some(row) = holder(path, s, content, all, blocks) {
            push_text(&mut line, " in `");
            let c = crop(row.as_slice(), 60);
            push_all(&mut line, c.as_slice());
            push_text(&mut line, "`");
            proof {
                held = " in `"@ + cropped(row@, 60) + "`"@;
            }
        }
        assert(line@ =~= "  lines "@ + range_text(s as int, s + k - 1) + held);
        let before = precede(all, s, depth);
        push_all(&mut line, before.as_slice());
        told.push(line);
        i += 1;
    }
    let mut sep: Vec<char> = Vec::new();
    sep.push('\n');
    assert(sep@ =~= seq!['\n']);
    assert(rows(told@) =~= Seq::new(
        ints(starts@).len(),
        |i: int|
            candidate_line(path@, ints(starts@)[i], k as int, depth as int, content@, blocks),
    ));
    join_rows(told.as_slice(), sep.as_slice())
}

/// Walk the marked rows: keep emits the file's line, delete skips it, add
/// emits new content at its own position.
fn rebuild(g: &[Row], from: usize, all: &[Vec<char>], first: usize) -> (r: (
    Vec<Vec<char>>,
    Vec<Vec<char>>,
))
    requires
        from <= g@.len(),
        first >= 1,
        first - 1 + core_texts(group_view(g@).skip(from as int)).len() <= all@.len(),
    ensures
        rows(r.0@) == leading(group_view(g@).skip(from as int)),
        rows(r.1@) == replaced(group_view(g@).skip(from as int), rows(all@), first as int),
{
    let ghost v = group_view(g@).skip(from as int);
    let mut lead: Vec<Vec<char>> = Vec::new();
    let mut body: Vec<Vec<char>> = Vec::new();
    let mut at: usize = first - 1;
    let mut i: usize = from;
    assert(v.take(0) =~= Seq::empty());
    assert(rows(lead@) =~= leading(v.take(0)));
    assert(rows(body@) =~= replaced(v.take(0), rows(all@), first as int));
    while i < g.len()
        invariant
            from <= i <= g@.len(),
            v == group_view(g@).skip(from as int),
            first >= 1,
            first - 1 + core_texts(v).len() <= all@.len(),
            at == first - 1 + core_texts(v.take(i - from)).len(),
            rows(lead@) == leading(v.take(i - from)),
            rows(body@) == replaced(v.take(i - from), rows(all@), first as int),
        decreases g@.len() - i,
    {
        let ghost t = v.take(i - from + 1);
        assert(t.drop_last() =~= v.take(i - from));
        assert(t.last() == g@[i as int]@);
        proof {
            lemma_core_prefix(v, i - from + 1);
            assert(all@.len() == all.len());
        }
        let ghost lead_before = rows(lead@);
        let ghost body_before = rows(body@);
        match &g[i] {
            Row::Mark(Mark::Add, _) => {
                let x = text_of(&g[i]);
                if at == first - 1 {
                    lead.push(x);
                    assert(rows(lead@) =~= lead_before.push(x@));
                } else {
                    body.push(x);
                    assert(rows(body@) =~= body_before.push(x@));
                }
            },
            Row::Mark(Mark::Keep, _) => {
                let row = &all[at];
                let c = copy_range(row.as_slice(), 0, row.len());
                assert(c@ =~= rows(all@)[at as int]);
                body.push(c);
                assert(rows(body@) =~= body_before.push(c@));
                at += 1;
            },
            Row::Mark(Mark::Del, _) => {
                at += 1;
            },
            _ => {},
        }
        i += 1;
    }
    assert(v.take(i - from) =~= v);
    (lead, body)
}

/// A prefix stands for no more rows of the file than the whole.
proof fn lemma_core_prefix(v: Seq<RowView>, n: int)
    requires
        0 <= n <= v.len(),
    ensures
        core_texts(v.take(n)).len() <= core_texts(v).len(),
    decreases v.len() - n,
{
    if n < v.len() {
        lemma_core_prefix(v, n + 1);
        assert(v.take(n + 1).drop_last() =~= v.take(n));
    } else {
        assert(v.take(n) =~= v);
    }
}

/// Lower an operation with rows of the file. The delete and keep rows match
/// the file contiguously; add rows do not consume a row.
fn lower_match<B: Blocks>(
    section: &Section,
    group: &[Row],
    from: usize,
    lo: usize,
    hi: usize,
    content: &str,
    all: &[Vec<char>],
    blocks: &B,
    ops: &mut Vec<Op>,
) -> (r: Result<(), Error>)
    requires
        rows(all@) == lines(content@),
        1 <= lo <= hi <= all@.len(),
        from <= group@.len(),
        core_texts(group_view(group@).skip(from as int)).len() >= 1,
        ops_fit(ops_view(old(ops)@), all@.len() as int),
    ensures
        ({
            let marks = group_view(group@).skip(from as int);
            let out = match_ops(section@, marks, lo as int, hi as int, content@, blocks);
            match r {
                Ok(_) => match out {
                    Ok(more) => ops_view(final(ops)@) == ops_view(old(ops)@) + more && ops_fit(
                        ops_view(final(ops)@),
                        all@.len() as int,
                    ),
                    Err(_) => false,
                },
                Err(e) => out == Err::<Seq<OpView>, ErrorView>(e@),
            }
        }),
{
    let ghost marks = group_view(group@).skip(from as int);
    let ghost before = ops_view(ops@);
    let wanted = core_rows(group, from);
    let k = wanted.len();
    assert(rows(wanted@).len() == wanted@.len());
    let starts = fitting_of(all, wanted.as_slice(), lo, hi);
    assert(ints(starts@).len() == starts@.len());
    if starts.len() == 0 {
        return Err(refuse_near(section.path.as_str(), all, wanted.as_slice(), lo, hi));
    }
    if starts.len() > 1 {
        let detail = list_places(
            section.path.as_str(),
            starts.as_slice(),
            k,
            content,
            all,
            blocks,
        );
        return Err(
            Error::Ambiguous {
                path: section.path.clone(),
                n: starts.len(),
                detail: string_of(detail.as_slice()),
            },
        );
    }
    let first = starts[0];
    assert(lo <= starts@[0] && starts@[0] + k <= hi + 1);
    assert(ints(starts@)[0] == first);
    let (lead, body) = rebuild(group, from, all, first);
    let ghost lead_seen = rows(lead@);
    if lead.len() > 0 {
        put_op(ops, Op::Insert { above: first - 1, body: lead }, Ghost(all@.len() as int));
    }
    let ghost mid = ops_view(ops@);
    put_op(
        ops,
        Op::Replace { start: first, end: first + (k - 1), body },
        Ghost(all@.len() as int),
    );
    proof {
        let more = match_ops(section@, marks, lo as int, hi as int, content@, blocks)->Ok_0;
        assert(ops_view(ops@) =~= before + more);
    }
    Ok(())
}

// ---------------------------------------------------------------------------
// One section
// ---------------------------------------------------------------------------

/// Without a late scope and without a `*` row, what follows the leading `@`
/// rows is marked.
proof fn lemma_marks(g: Seq<RowView>, n: int)
    requires
        !starred(g),
        !late_scope(g),
        0 <= n <= g.len(),
        n < g.len() ==> !(g[n] is At),
    ensures
        forall|i: int| n <= i < g.len() ==> #[trigger] g[i] is Mark,
{
    assert forall|i: int| n <= i < g.len() implies #[trigger] g[i] is Mark by {
        assert(!(g[i] is Star));
        assert(!(g[n] is Star));
        assert(g[n] is Mark);
    }
}

/// Marked rows that are not all `+` rows stand for at least one row.
proof fn lemma_some_core(g: Seq<RowView>)
    requires
        forall|i: int| 0 <= i < g.len() ==> #[trigger] g[i] is Mark,
        !all_marked(g, Mark::Add),
    ensures
        core_texts(g).len() >= 1,
    decreases g.len(),
{
    if g.len() > 0 && !is_core(g.last()) {
        assert(g.last() == g[g.len() - 1]);
        let h = g.drop_last();
        assert forall|i: int| 0 <= i < h.len() implies #[trigger] h[i] is Mark by {
            assert(h[i] == g[i]);
        }
        if all_marked(h, Mark::Add) {
            assert forall|i: int| 0 <= i < g.len() implies (
            #[trigger] g[i] matches RowView::Mark(k, _) && k == Mark::Add) by {
                if i < g.len() - 1 {
                    assert(h[i] == g[i]);
                }
            }
        }
        lemma_some_core(h);
    }
}

/// Lower one operation.
fn lower<B: Blocks>(
    section: &Section,
    group: &[Row],
    content: &str,
    all: &[Vec<char>],
    blocks: &B,
    ops: &mut Vec<Op>,
) -> (r: Result<(), Error>)
    requires
        rows(all@) == lines(content@),
        all@.len() >= 1,
        in_file(blocks, section.path@, content@),
        shaped(group_view(group@)),
        ops_fit(ops_view(old(ops)@), all@.len() as int),
    ensures
        match r {
            Ok(_) => match group_ops(section@, group_view(group@), content@, blocks) {
                Ok(more) => ops_view(final(ops)@) == ops_view(old(ops)@) + more && ops_fit(
                    ops_view(final(ops)@),
                    all@.len() as int,
                ),
                Err(_) => false,
            },
            Err(e) => group_ops(section@, group_view(group@), content@, blocks) == Err::<
                Seq<OpView>,
                ErrorView,
            >(e@),
        },
{
    let ghost g = group_view(group@);
    let ghost before = ops_view(ops@);
    let ix = find_star(group);
    if ix < group.len() {
        return lower_star(section, group, ix, content, all, blocks, ops);
    }
    let n = count_scopes(group);
    let ghost marks = g.skip(n as int);
    proof {
        if n < g.len() {
            assert(g[n as int] == group@[n as int]@);
        }
        lemma_marks(g, n as int);
        assert forall|i: int| 0 <= i < marks.len() implies #[trigger] marks[i] is Mark by {
            assert(marks[i] == g[n + i]);
        }
    }
    if only(group, n, Mark::Add) {
        if n != 1 {
            return Err(
                syntax_error(
                    section.line,
                    "an operation made only of `+` rows needs exactly one `@` scope to anchor it, or an `=` row beside it",
                ),
            );
        }
        let scope = text_of(&group[0]);
        assert(g.take(1)[0] == group@[0]@);
        assert(rows(all@).len() == all@.len());
        match construct(
            section.path.as_str(),
            scope.as_slice(),
            1,
            all.len(),
            content,
            all,
            blocks,
        ) {
            Err(e) => {
                return Err(e);
            },
            Ok((start, end)) => {
                let body = texts_of(group, 1, group.len());
                assert(g.subrange(1, g.len() as int) =~= marks);
                let ghost v = OpView::Replace {
                    start: start as int,
                    end: end as int,
                    body: row_texts(marks),
                };
                put_op(ops, Op::Replace { start, end, body }, Ghost(all@.len() as int));
                assert(ops_view(ops@) =~= before + seq![v]);
                return Ok(());
            },
        }
    }
    if only(group, n, Mark::Keep) {
        return Err(
            syntax_error(
                section.line,
                "an operation of only `=` rows changes nothing — add `-` or `+` rows, or drop the operation",
            ),
        );
    }
    proof {
        lemma_some_core(marks);
    }
    let (lo, hi) = match narrow(section.path.as_str(), group, n, content, all, blocks) {
        Ok(w) => w,
        Err(e) => {
            return Err(e);
        },
    };
    if group.len() - n == 1 && only(group, n, Mark::Del) {
        let pattern = text_of(&group[n]);
        assert(marks[0] == group@[n as int]@);
        return lower_sweep(section, n > 0, pattern.as_slice(), lo, hi, all, ops);
    }
    lower_match(section, group, n, lo, hi, content, all, blocks, ops)
}

proof fn lemma_section_refused<B: Blocks>(
    section: SectionView,
    n: int,
    m: int,
    content: Seq<char>,
    blocks: &B,
)
    requires
        0 <= n <= m,
        section_ops(section, n, content, blocks) is Err,
    ensures
        section_ops(section, m, content, blocks) == section_ops(section, n, content, blocks),
    decreases m,
{
    if n < m {
        lemma_section_refused(section, n, m - 1, content, blocks);
    }
}

/// Turn every operation of a section into line ranges. Nothing is guessed: an
/// anchor that matches nowhere, or in more than one place, rejects the patch
/// before any edit is built.
fn resolve<B: Blocks>(section: &Section, content: &str, blocks: &B) -> (r: Result<Vec<Op>, Error>)
    requires
        in_file(blocks, section.path@, content@),
        forall|j: int|
            0 <= j < section@.groups.len() ==> shaped(#[trigger] section@.groups[j]),
    ensures
        match r {
            Ok(ops) => lowered(section@, content@, blocks) == Ok::<Seq<OpView>, ErrorView>(
                ops_view(ops@),
            ) && ops_fit(ops_view(ops@), lines(content@).len() as int),
            Err(e) => lowered(section@, content@, blocks) == Err::<Seq<OpView>, ErrorView>(e@),
        },
{
    let whole = chars_of(content);
    let all = lines_of(whole.as_slice());
    let mut ops: Vec<Op> = Vec::new();
    assert(rows(all@).len() == all@.len());
    if all.len() == 0 {
        return Err(
            syntax_error(
                section.line,
                "the file is empty — nothing to anchor on; create it with the write tool instead",
            ),
        );
    }
    let ghost s = section@;
    let mut i: usize = 0;
    assert(ops_view(ops@) =~= Seq::empty());
    while i < section.groups.len()
        invariant
            i <= section.groups@.len(),
            s == section@,
            rows(all@) == lines(content@),
            all@.len() >= 1,
            in_file(blocks, section.path@, content@),
            forall|j: int| 0 <= j < s.groups.len() ==> shaped(#[trigger] s.groups[j]),
            section_ops(s, i as int, content@, blocks) == Ok::<Seq<OpView>, ErrorView>(
                ops_view(ops@),
            ),
            ops_fit(ops_view(ops@), all@.len() as int),
        decreases section.groups@.len() - i,
    {
        let ghost before = ops_view(ops@);
        assert(s.groups[i as int] == group_view(section.groups@[i as int]@));
        assert(shaped(s.groups[i as int]));
        match lower(
            section,
            section.groups[i].as_slice(),
            content,
            all.as_slice(),
            blocks,
            &mut ops,
        ) {
            Err(e) => {
                proof {
                    assert(section_ops(s, i + 1, content@, blocks) is Err);
                    lemma_section_refused(s, i + 1, s.groups.len() as int, content@, blocks);
                }
                return Err(e);
            },
            Ok(_) => {},
        }
        i += 1;
    }
    Ok(ops)
}

// ---------------------------------------------------------------------------
// The rows of a file
// ---------------------------------------------------------------------------

/// The rows of a file, each under its own number: row 0 stands empty. Its
/// trailing newline, which `lines` silently discards, is kept apart, and so is
/// the line ending.
fn number_rows(content: &[char]) -> (r: Vec<Vec<char>>)
    ensures
        r@.len() == file_rows(content@).len() + 1,
        rows(r@.skip(1)) == file_rows(content@),
{
    let mut r: Vec<Vec<char>> = Vec::new();
    r.push(Vec::new());
    let n = content.len();
    if n == 0 {
        assert(rows(r@.skip(1)) =~= Seq::empty());
        return r;
    }
    let end: usize = if content[n - 1] == '\n' {
        n - 1
    } else {
        n
    };
    let body = copy_range(content, 0, end);
    proof {
        if end == n {
            assert(body@ =~= content@);
        } else {
            assert(body@ =~= content@.drop_last());
        }
    }
    let pieces = split_of(body.as_slice(), '\n');
    let mut i: usize = 0;
    while i < pieces.len()
        invariant
            i <= pieces@.len(),
            r@.len() == i + 1,
            forall|k: int| 0 < k <= i ==> (#[trigger] r@[k])@ == without_cr(pieces@[k - 1]@),
        decreases pieces@.len() - i,
    {
        let p = &pieces[i];
        let m = p.len();
        let keep: usize = if m > 0 && p[m - 1] == '\r' {
            m - 1
        } else {
            m
        };
        let row = copy_range(p.as_slice(), 0, keep);
        assert(row@ =~= without_cr(p@));
        r.push(row);
        i += 1;
    }
    assert(rows(r@.skip(1)) =~= file_rows(content@));
    r
}

fn join_file(all: &[Vec<char>], closed: bool, crlf_file: bool) -> (r: Vec<char>)
    ensures
        r@ == rejoined(rows(all@), closed, crlf_file),
{
    let mut sep: Vec<char> = Vec::new();
    if crlf_file {
        sep.push('\r');
    }
    sep.push('\n');
    proof {
        if crlf_file {
            assert(sep@ =~= crlf());
        } else {
            assert(sep@ =~= seq!['\n']);
        }
    }
    let mut out = join_rows(all, sep.as_slice());
    if closed && all.len() > 0 {
        push_all(&mut out, sep.as_slice());
    }
    out
}

/// A file has as many rows as it has lines.
pub proof fn lemma_file_rows(content: Seq<char>)
    ensures
        file_rows(content).len() == lines(content).len(),
    decreases content.len(),
{
    if content.len() > 0 {
        lemma_index_of(content, '\n');
        let n = index_of(content, '\n');
        let body = if content.last() == '\n' {
            content.drop_last()
        } else {
            content
        };
        if n >= content.len() {
            assert(split(body, '\n') == seq![body]);
        } else {
            let tail = content.skip(n + 1);
            if tail.len() == 0 {
                assert(content.last() == content[n]);
                lemma_index_of(body, '\n');
                assert(forall|i: int| 0 <= i < body.len() ==> body[i] == content[i]);
                assert(index_of(body, '\n') == body.len());
                assert(split(body, '\n') == seq![body]);
                assert(lines(tail).len() == 0);
            } else {
                assert(tail.last() == content.last());
                let rest = if tail.last() == '\n' {
                    tail.drop_last()
                } else {
                    tail
                };
                assert(body.skip(n + 1) =~= rest);
                assert(body[n] == content[n]);
                assert(forall|i: int| 0 <= i < n ==> body[i] == content[i]);
                crate::text::lemma_index_of_is(body, '\n', n);
                assert(split(body, '\n') == seq![body.take(n)] + split(rest, '\n'));
                lemma_file_rows(tail);
            }
        }
    }
}

// ---------------------------------------------------------------------------
// Building a file
// ---------------------------------------------------------------------------

spec fn span_of(op: Op) -> SpanView {
    match op {
        Op::Replace { start, end, body } => SpanView {
            start: start as int,
            end: end as int,
            body: rows(body@),
        },
        Op::Insert { above, body } => SpanView { start: 0, end: 0, body: Seq::empty() },
    }
}

/// The spans that `at` picks out of `ops`.
spec fn picked(ops: Seq<Op>, at: Seq<usize>) -> Seq<SpanView> {
    Seq::new(at.len(), |i: int| span_of(ops[at[i] as int]))
}

proof fn lemma_span_slotted(sorted: Seq<SpanView>, s: SpanView, at: int)
    requires
        0 <= at <= sorted.len(),
        forall|i: int| at <= i < sorted.len() ==> s.start < (#[trigger] sorted[i]).start,
        at > 0 ==> s.start >= sorted[at - 1].start,
    ensures
        span_slotted(sorted, s) == sorted.insert(at, s),
    decreases sorted.len(),
{
    if at < sorted.len() {
        assert(s.start < sorted[sorted.len() - 1].start);
        lemma_span_slotted(sorted.drop_last(), s, at);
        assert(sorted.insert(at, s) =~= sorted.drop_last().insert(at, s).push(sorted.last()));
    } else {
        if sorted.len() > 0 {
            assert(sorted[at - 1] == sorted.last());
        }
        assert(sorted.insert(at, s) =~= sorted.push(s));
    }
}

/// Where the replacing operations stand in `ops`, ordered by their first line.
fn sort_spans(ops: &[Op]) -> (r: Vec<usize>)
    ensures
        picked(ops@, r@) == spans_of(ops_view(ops@)),
        forall|i: int|
            0 <= i < r@.len() ==> (#[trigger] r@[i]) < ops@.len() && ops@[r@[i] as int] is Replace,
{
    let mut r: Vec<usize> = Vec::new();
    let mut i: usize = 0;
    assert(ops_view(ops@).take(0) =~= Seq::empty());
    assert(picked(ops@, r@) =~= spans_of(ops_view(ops@).take(0)));
    while i < ops.len()
        invariant
            i <= ops@.len(),
            picked(ops@, r@) == spans_of(ops_view(ops@).take(i as int)),
            forall|k: int|
                0 <= k < r@.len() ==> (#[trigger] r@[k]) < ops@.len()
                    && ops@[r@[k] as int] is Replace,
        decreases ops@.len() - i,
    {
        let ghost t = ops_view(ops@).take(i + 1);
        assert(t.drop_last() =~= ops_view(ops@).take(i as int));
        assert(t.last() == ops@[i as int].seen());
        if let Op::Replace { start, .. } = &ops[i] {
            let ghost before = picked(ops@, r@);
            let ghost s = span_of(ops@[i as int]);
            let mut at: usize = r.len();
            while at > 0 && first_line(&ops[r[at - 1]]) > *start
                invariant
                    at <= r@.len(),
                    before == picked(ops@, r@),
                    s.start == *start,
                    forall|k: int|
                        0 <= k < r@.len() ==> (#[trigger] r@[k]) < ops@.len()
                            && ops@[r@[k] as int] is Replace,
                    forall|k: int| at <= k < before.len() ==> s.start < (#[trigger] before[k]).start,
                decreases at,
            {
                assert(before[at - 1] == span_of(ops@[r@[at - 1] as int]));
                at -= 1;
            }
            proof {
                if at > 0 {
                    assert(before[at - 1] == span_of(ops@[r@[at - 1] as int]));
                }
                lemma_span_slotted(before, s, at as int);
            }
            let ghost old_r = r@;
            r.insert(at, i);
            assert(picked(ops@, r@) =~= before.insert(at as int, s));
        }
        i += 1;
    }
    assert(ops_view(ops@).take(i as int) =~= ops_view(ops@));
    r
}

fn first_line(op: &Op) -> (n: usize)
    ensures
        op is Replace ==> n == span_of(*op).start,
{
    match op {
        Op::Replace { start, .. } => *start,
        Op::Insert { above, .. } => *above,
    }
}

fn last_line(op: &Op) -> (n: usize)
    ensures
        op is Replace ==> n == span_of(*op).end,
{
    match op {
        Op::Replace { end, .. } => *end,
        Op::Insert { above, .. } => *above,
    }
}

/// What is inserted below `above` rows of the old file.
fn insertions(ops: &[Op], above: usize) -> (r: Vec<Vec<char>>)
    ensures
        rows(r@) == inserted(ops_view(ops@), above + 1),
{
    let mut r: Vec<Vec<char>> = Vec::new();
    let mut i: usize = 0;
    assert(ops_view(ops@).take(0) =~= Seq::empty());
    assert(rows(r@) =~= inserted(ops_view(ops@).take(0), above + 1));
    while i < ops.len()
        invariant
            i <= ops@.len(),
            rows(r@) == inserted(ops_view(ops@).take(i as int), above + 1),
        decreases ops@.len() - i,
    {
        let ghost t = ops_view(ops@).take(i + 1);
        assert(t.drop_last() =~= ops_view(ops@).take(i as int));
        assert(t.last() == ops@[i as int].seen());
        if let Op::Insert { above: here, body } = &ops[i] {
            if *here == above {
                copy_onto(&mut r, body.as_slice());
            }
        }
        i += 1;
    }
    assert(ops_view(ops@).take(i as int) =~= ops_view(ops@));
    r
}

/// Append a copy of every row.
fn copy_onto(r: &mut Vec<Vec<char>>, more: &[Vec<char>])
    ensures
        rows(final(r)@) == rows(old(r)@) + rows(more@),
        final(r)@.len() == old(r)@.len() + more@.len(),
{
    let ghost before = rows(r@);
    let mut i: usize = 0;
    assert(rows(r@) =~= before + rows(more@).take(0));
    while i < more.len()
        invariant
            i <= more@.len(),
            before == rows(old(r)@),
            r@.len() == old(r)@.len() + i,
            rows(r@) == before + rows(more@).take(i as int),
        decreases more@.len() - i,
    {
        let v = &more[i];
        let c = copy_range(v.as_slice(), 0, v.len());
        assert(c@ =~= rows(more@)[i as int]);
        let ghost now = rows(r@);
        r.push(c);
        assert(rows(r@) =~= now.push(c@));
        i += 1;
        assert(now.push(c@) =~= before + rows(more@).take(i as int));
    }
    assert(rows(more@).take(i as int) =~= rows(more@));
}

fn sits<B: Blocks>(
    path: &str,
    at: usize,
    content: &str,
    all: &[Vec<char>],
    blocks: &B,
) -> (r: String)
    requires
        rows(all@) == lines(content@),
    ensures
        r@ == sits_in(path@, at as int, content@, blocks),
{
    let mut r = String::new();
    if let Some(row) = holder(path, at, content, all, blocks) {
        r.append(" (in `");
        let c = crop(row.as_slice(), 60);
        append_chars(&mut r, c.as_slice());
        r.append("`)");
        assert(r@ =~= " (in `"@ + cropped(row@, 60) + "`)"@);
    }
    r
}

fn overlapping<B: Blocks>(
    path: &str,
    a: (usize, usize),
    b: (usize, usize),
    content: &str,
    all: &[Vec<char>],
    blocks: &B,
) -> (e: Error)
    requires
        rows(all@) == lines(content@),
    ensures
        e@ == overlap(
            path@,
            (a.0 as int, a.1 as int),
            (b.0 as int, b.1 as int),
            content@,
            blocks,
        ),
{
    Error::Overlap {
        path: path.to_owned(),
        a_start: a.0,
        a_end: a.1,
        b_start: b.0,
        b_end: b.1,
        overlap: b.0,
        a_in: sits(path, a.0, content, all, blocks),
        b_in: sits(path, b.0, content, all, blocks),
    }
}

/// The line of the first insertion inside `start..=end`.
fn find_buried(ops: &[Op], start: usize, end: usize) -> (r: Option<usize>)
    ensures
        match r {
            Some(k) => buried_line(ops_view(ops@), start as int, end as int) == Some(k as int),
            None => buried_line(ops_view(ops@), start as int, end as int) is None,
        },
{
    let ghost v = ops_view(ops@);
    let mut i: usize = 0;
    assert(v.skip(0) =~= v);
    while i < ops.len()
        invariant
            i <= ops@.len(),
            v == ops_view(ops@),
            buried_line(v.skip(i as int), start as int, end as int) == buried_line(
                v,
                start as int,
                end as int,
            ),
        decreases ops@.len() - i,
    {
        assert(v.skip(i as int).skip(1) =~= v.skip(i + 1));
        assert(v.skip(i as int)[0] == ops@[i as int].seen());
        if let Op::Insert { above, .. } = &ops[i] {
            if *above >= start && *above < end {
                return Some(*above + 1);
            }
        }
        i += 1;
    }
    None
}

/// Refuse spans that overlap, and insertions buried inside a replaced span:
/// such an insertion has no anchor left once the span is gone, and dropping it
/// silently would apply a patch nobody wrote.
fn check_spans<B: Blocks>(
    path: &str,
    ops: &[Op],
    order: &[usize],
    content: &str,
    all: &[Vec<char>],
    blocks: &B,
) -> (r: Result<(), Error>)
    requires
        rows(all@) == lines(content@),
        picked(ops@, order@) == spans_of(ops_view(ops@)),
        ops_fit(ops_view(ops@), all@.len() as int),
        forall|i: int|
            0 <= i < order@.len() ==> (#[trigger] order@[i]) < ops@.len()
                && ops@[order@[i] as int] is Replace,
    ensures
        ({
            let v = ops_view(ops@);
            let spans = spans_of(v);
            let clash = span_clash(path@, spans, 0, content@, blocks);
            match r {
                Ok(_) => clash is None && burial(path@, spans, 0, v, content@, blocks) is None,
                Err(e) => clash == Some(e@) || (clash is None && burial(
                    path@,
                    spans,
                    0,
                    v,
                    content@,
                    blocks,
                ) == Some(e@)),
            }
        }),
{
    let ghost v = ops_view(ops@);
    let ghost spans = spans_of(v);
    let mut i: usize = 0;
    while i < order.len() && i < order.len() - 1
        invariant
            i <= order@.len(),
            order@.len() == order.len(),
            rows(all@) == lines(content@),
            spans == picked(ops@, order@),
            spans == spans_of(ops_view(ops@)),
            forall|k: int|
                0 <= k < order@.len() ==> (#[trigger] order@[k]) < ops@.len()
                    && ops@[order@[k] as int] is Replace,
            span_clash(path@, spans, i as int, content@, blocks) == span_clash(
                path@,
                spans,
                0,
                content@,
                blocks,
            ),
        decreases order@.len() - i,
    {
        assert(order@[i as int] < ops@.len() && order@[i + 1] < ops@.len());
        let a = &ops[order[i]];
        let b = &ops[order[i + 1]];
        assert(spans[i as int] == span_of(*a) && spans[i + 1] == span_of(*b));
        if last_line(a) >= first_line(b) {
            return Err(
                overlapping(
                    path,
                    (first_line(a), last_line(a)),
                    (first_line(b), last_line(b)),
                    content,
                    all,
                    blocks,
                ),
            );
        }
        i += 1;
    }
    let mut j: usize = 0;
    assert(span_clash(path@, spans, 0, content@, blocks) is None);
    while j < order.len()
        invariant
            j <= order@.len(),
            rows(all@) == lines(content@),
            v == ops_view(ops@),
            spans == picked(ops@, order@),
            spans == spans_of(v),
            span_clash(path@, spans, 0, content@, blocks) is None,
            ops_fit(v, all@.len() as int),
            forall|k: int|
                0 <= k < order@.len() ==> (#[trigger] order@[k]) < ops@.len()
                    && ops@[order@[k] as int] is Replace,
            burial(path@, spans, j as int, v, content@, blocks) == burial(
                path@,
                spans,
                0,
                v,
                content@,
                blocks,
            ),
        decreases order@.len() - j,
    {
        assert(order@[j as int] < ops@.len());
        let a = &ops[order[j]];
        assert(spans[j as int] == span_of(*a));
        assert(op_fits(v[order@[j as int] as int], all@.len() as int));
        let start = first_line(a);
        let end = last_line(a);
        if let Some(k) = find_buried(ops, start, end) {
            return Err(overlapping(path, (start, end), (k, k), content, all, blocks));
        }
        j += 1;
    }
    Ok(())
}

/// The rows written so far, each under its own number: row 0 stands empty. And
/// what was recorded of them.
struct Output {
    rows: Vec<Vec<char>>,
    landed: Vec<Landed>,
}

impl Output {
    spec fn valid(self) -> bool {
        self.rows@.len() >= 1
    }

    spec fn written(self) -> Seq<Seq<char>> {
        rows(self.rows@.skip(1))
    }

    fn new() -> (r: Output)
        ensures
            r.valid(),
            r.written() == Seq::<Seq<char>>::empty(),
            landed_view(r.landed@) == Seq::<LandedView>::empty(),
    {
        let mut all: Vec<Vec<char>> = Vec::new();
        all.push(Vec::new());
        let r = Output { rows: all, landed: Vec::new() };
        assert(r.written() =~= Seq::empty());
        assert(landed_view(r.landed@) =~= Seq::empty());
        r
    }

    fn put(&mut self, more: &[Vec<char>])
        requires
            old(self).valid(),
        ensures
            final(self).valid(),
            final(self).written() == old(self).written() + rows(more@),
            final(self).landed == old(self).landed,
    {
        let ghost before = self.rows@;
        copy_onto(&mut self.rows, more);
        assert forall|i: int| 0 <= i < self.written().len() implies #[trigger] self.written()[i] == (
        rows(before.skip(1)) + rows(more@))[i] by {
            assert(self.written()[i] == rows(self.rows@)[i + 1]);
        }
        assert(self.written() =~= rows(before.skip(1)) + rows(more@));
    }

    fn record(&mut self, body: &[Vec<char>], took: Vec<String>, took_at: usize)
        requires
            old(self).valid(),
        ensures
            final(self).valid(),
            final(self).written() == old(self).written() + rows(body@),
            landed_view(final(self).landed@) == landed_view(old(self).landed@) + recorded(
                old(self).written().len() as int,
                rows(body@),
                texts(took@),
                took_at as int,
            ),
    {
        let ghost before = landed_view(self.landed@);
        if body.len() == 0 && took.len() == 0 {
            assert(self.written() =~= self.written() + rows(body@));
            assert(before =~= before + recorded(
                self.written().len() as int,
                rows(body@),
                texts(took@),
                took_at as int,
            ));
            return;
        }
        let start = self.rows.len();
        self.put(body);
        let end = self.rows.len() - 1;
        assert(self.written().len() == end);
        let l = Landed { start, end, took, took_at };
        let ghost seen_l = l@;
        self.landed.push(l);
        assert(landed_view(self.landed@) =~= before + seq![seen_l]);
    }
}

/// A replaced range fits the file its operation does.
pub(crate) proof fn lemma_spans_fit(ops: Seq<OpView>, n: int)
    requires
        ops_fit(ops, n),
    ensures
        forall|i: int|
            0 <= i < spans_of(ops).len() ==> 1 <= (#[trigger] spans_of(ops)[i]).start
                <= spans_of(ops)[i].end <= n,
    decreases ops.len(),
{
    if ops.len() > 0 {
        let rest = ops.drop_last();
        assert forall|i: int| 0 <= i < rest.len() implies op_fits(#[trigger] rest[i], n) by {
            assert(rest[i] == ops[i]);
        }
        lemma_spans_fit(rest, n);
        assert(op_fits(ops[ops.len() - 1], n));
        match ops.last() {
            OpView::Replace { start, end, body } => {
                lemma_slot_fits(spans_of(rest), SpanView { start, end, body }, n);
            },
            OpView::InsertBefore { .. } => {},
        }
    }
}

proof fn lemma_slot_fits(sorted: Seq<SpanView>, s: SpanView, n: int)
    requires
        1 <= s.start <= s.end <= n,
        forall|i: int|
            0 <= i < sorted.len() ==> 1 <= (#[trigger] sorted[i]).start <= sorted[i].end <= n,
    ensures
        forall|i: int|
            0 <= i < span_slotted(sorted, s).len() ==> 1 <= (#[trigger] span_slotted(
                sorted,
                s,
            )[i]).start <= span_slotted(sorted, s)[i].end <= n,
    decreases sorted.len(),
{
    if sorted.len() > 0 && s.start < sorted.last().start {
        let h = sorted.drop_last();
        assert forall|i: int| 0 <= i < h.len() implies 1 <= (#[trigger] h[i]).start <= h[i].end
            <= n by {
            assert(h[i] == sorted[i]);
        }
        lemma_slot_fits(h, s, n);
        let all = span_slotted(sorted, s);
        assert forall|i: int| 0 <= i < all.len() implies 1 <= (#[trigger] all[i]).start
            <= all[i].end <= n by {
            if i < all.len() - 1 {
                assert(all[i] == span_slotted(h, s)[i]);
            } else {
                assert(all[i] == sorted[sorted.len() - 1]);
            }
        }
    }
}

/// Without a clash, every span ends before every later one starts.
pub(crate) proof fn lemma_spans_apart<B: Blocks>(
    path: Seq<char>,
    spans: Seq<SpanView>,
    i: int,
    content: Seq<char>,
    blocks: &B,
)
    requires
        0 <= i,
        span_clash(path, spans, i, content, blocks) is None,
        forall|k: int| 0 <= k < spans.len() ==> (#[trigger] spans[k]).start <= spans[k].end,
    ensures
        forall|a: int, b: int|
            i <= a < b < spans.len() ==> (#[trigger] spans[a]).end < (#[trigger] spans[b]).start,
    decreases spans.len() - i,
{
    if i + 1 < spans.len() {
        lemma_spans_apart(path, spans, i + 1, content, blocks);
        assert forall|a: int, b: int| i <= a < b < spans.len() implies (#[trigger] spans[a]).end < (
        #[trigger] spans[b]).start by {
            if a == i && b > i + 1 {
                assert(spans[i + 1].end < spans[b].start);
                assert(spans[i + 1].start <= spans[i + 1].end);
            }
        }
    }
}

/// The span that starts on a line, given where it stands.
proof fn lemma_span_at(spans: Seq<SpanView>, line: int, j: int)
    requires
        0 <= j <= spans.len(),
        forall|k: int| 0 <= k < j ==> (#[trigger] spans[k]).start != line,
        j < spans.len() ==> (spans[j].start == line || forall|k: int|
            j <= k < spans.len() ==> (#[trigger] spans[k]).start != line),
    ensures
        j < spans.len() && spans[j].start == line ==> span_at(spans, line) == Some(spans[j]),
        !(j < spans.len() && spans[j].start == line) ==> span_at(spans, line) is None,
    decreases spans.len(),
{
    if spans.len() > 0 && spans[0].start != line {
        let rest = spans.skip(1);
        assert forall|k: int| 0 <= k < rest.len() implies #[trigger] rest[k] == spans[k + 1] by {
        }
        if j > 0 {
            lemma_span_at(rest, line, j - 1);
        } else {
            assert forall|k: int| 0 <= k < rest.len() implies (#[trigger] rest[k]).start
                != line by {
                assert(spans[k + 1].start != line);
            }
            lemma_span_at(rest, line, 0);
        }
    }
}

/// The rows of `all` from `from` to before `to`, as strings.
pub(crate) fn rows_taken(all: &[Vec<char>], from: usize, to: usize) -> (r: Vec<String>)
    requires
        from <= to <= all@.len(),
    ensures
        texts(r@) == rows(all@).subrange(from as int, to as int),
        r@.len() == to - from,
{
    let mut r: Vec<String> = Vec::new();
    let mut i: usize = from;
    while i < to
        invariant
            from <= i <= to <= all@.len(),
            r@.len() == i - from,
            forall|k: int| 0 <= k < r@.len() ==> (#[trigger] r@[k])@ == all@[from + k]@,
        decreases to - i,
    {
        let t = string_of(all[i].as_slice());
        r.push(t);
        i += 1;
    }
    assert(texts(r@) =~= rows(all@).subrange(from as int, to as int));
    r
}

/// Sweep the file into its new rows, with the insertions filed around the
/// replaced spans. `after` is the number a row behind the last one would have.
fn sweep(file: &[Vec<char>], after: usize, ops: &[Op], order: &[usize]) -> (out: Output)
    requires
        after == file@.len() + 1,
        picked(ops@, order@) == spans_of(ops_view(ops@)),
        forall|i: int|
            0 <= i < order@.len() ==> (#[trigger] order@[i]) < ops@.len()
                && ops@[order@[i] as int] is Replace,
        forall|i: int|
            0 <= i < spans_of(ops_view(ops@)).len() ==> 1 <= (#[trigger] spans_of(
                ops_view(ops@),
            )[i]).start <= spans_of(ops_view(ops@))[i].end <= file@.len(),
        forall|a: int, b: int|
            0 <= a < b < spans_of(ops_view(ops@)).len() ==> (#[trigger] spans_of(
                ops_view(ops@),
            )[a]).end < (#[trigger] spans_of(ops_view(ops@))[b]).start,
    ensures
        out.valid(),
        out.written() == new_rows(rows(file@), ops_view(ops@)),
        landed_view(out.landed@) == all_records(rows(file@), ops_view(ops@)),
{
    let ghost v = ops_view(ops@);
    let ghost spans = spans_of(v);
    let ghost old_rows = rows(file@);
    let mut out = Output::new();
    let mut next: usize = 0;
    let mut covered: usize = 0;
    let mut i: usize = 0;
    while i < file.len()
        invariant
            i <= file@.len(),
            old_rows == rows(file@),
            v == ops_view(ops@),
            spans == spans_of(v),
            spans == picked(ops@, order@),
            forall|k: int|
                0 <= k < order@.len() ==> (#[trigger] order@[k]) < ops@.len()
                    && ops@[order@[k] as int] is Replace,
            forall|k: int|
                0 <= k < spans.len() ==> 1 <= (#[trigger] spans[k]).start <= spans[k].end
                    <= file@.len(),
            forall|a: int, b: int|
                0 <= a < b < spans.len() ==> (#[trigger] spans[a]).end < (
                #[trigger] spans[b]).start,
            out.valid(),
            out.written() == swept(old_rows, v, i as int),
            landed_view(out.landed@) == records(old_rows, v, i as int),
            next <= spans.len(),
            covered == if next > 0 {
                spans[next - 1].end
            } else {
                0
            },
            forall|k: int| 0 <= k < next ==> (#[trigger] spans[k]).start <= i,
            forall|k: int| next <= k < spans.len() ==> (#[trigger] spans[k]).start > i,
        decreases file@.len() - i,
    {
        let ghost n = i + 1;
        let ghost before = out.written().len();
        let put = insertions(ops, i);
        let none: Vec<String> = Vec::new();
        assert(texts(none@) =~= Seq::empty());
        out.record(put.as_slice(), none, i + 1);
        let ghost first = recorded(before as int, rows(put@), Seq::empty(), n as int);
        assert(rows(put@).len() == put@.len());
        if i < covered {
            proof {
                let s = spans[next - 1];
                assert(s.start <= i && n <= s.end);
                assert(inside_span(spans, n as int));
                assert forall|k: int| 0 <= k < spans.len() implies (#[trigger] spans[k]).start
                    != n by {
                    if k >= next {
                        assert(spans[next - 1].end < spans[k].start);
                    }
                }
                lemma_span_at(spans, n as int, 0);
                assert(out.written() =~= swept(old_rows, v, n as int));
                assert(landed_view(out.landed@) =~= records(old_rows, v, n as int));
                assert forall|k: int| next <= k < spans.len() implies (#[trigger] spans[k]).start
                    > n by {
                    assert(spans[next - 1].end < spans[k].start);
                }
            }
        } else {
            proof {
                assert(!inside_span(spans, n as int)) by {
                    if inside_span(spans, n as int) {
                        let k = choose|k: int|
                            0 <= k < spans.len() && (#[trigger] spans[k]).start < n && n
                                <= spans[k].end;
                        if k < next - 1 {
                            assert(spans[k].end < spans[next - 1].start);
                        } else if k >= next {
                            assert(spans[k].start > i);
                        }
                    }
                }
                assert forall|k: int| 0 <= k < next implies (#[trigger] spans[k]).start != n by {
                }
            }
            let starts_here = next < order.len() && {
                assert(order@[next as int] < ops@.len());
                first_line(&ops[order[next]]) == i + 1
            };
            if starts_here {
                let op = &ops[order[next]];
                assert(spans[next as int] == span_of(*op));
                proof {
                    lemma_span_at(spans, n as int, next as int);
                }
                if let Op::Replace { start, end, body } = op {
                    assert(1 <= spans[next as int].start <= spans[next as int].end
                        <= file@.len());
                    let took = rows_taken(file, i, *end);
                    out.record(body.as_slice(), took, i + 1);
                    covered = *end;
                }
                proof {
                    let s = spans[next as int];
                    assert forall|k: int| next + 1 <= k < spans.len() implies (
                    #[trigger] spans[k]).start > n by {
                        assert(spans[next as int].end < spans[k].start);
                    }
                    assert(out.written() =~= swept(old_rows, v, n as int));
                    assert(landed_view(out.landed@) =~= records(old_rows, v, n as int));
                }
                next += 1;
            } else {
                proof {
                    assert forall|k: int| next <= k < spans.len() implies (
                    #[trigger] spans[k]).start > n by {
                        assert(spans[next as int] == span_of(ops@[order@[next as int] as int]));
                        assert(spans[next as int].start != n);
                        assert(spans[next as int].start > i);
                        if k > next {
                            assert(spans[next as int].end < spans[k].start);
                            assert(spans[next as int].start <= spans[next as int].end);
                        }
                    }
                    lemma_span_at(spans, n as int, next as int);
                }
                let mut one: Vec<Vec<char>> = Vec::new();
                let row = &file[i];
                let c = copy_range(row.as_slice(), 0, row.len());
                assert(c@ =~= old_rows[i as int]);
                one.push(c);
                assert(rows(one@) =~= seq![old_rows[i as int]]);
                out.put(one.as_slice());
                assert(out.written() =~= swept(old_rows, v, n as int));
                assert(landed_view(out.landed@) =~= records(old_rows, v, n as int));
            }
        }
        i += 1;
    }
    // An insertion past the last row is the append form, which the loop above
    // never reaches.
    let ghost before = out.written().len();
    assert(old_rows.len() == file@.len());
    let put = insertions(ops, file.len());
    let none: Vec<String> = Vec::new();
    assert(texts(none@) =~= Seq::empty());
    out.record(put.as_slice(), none, after);
    out
}

/// Without a burial, no insertion falls inside a span.
pub(crate) proof fn lemma_none_buried<B: Blocks>(
    path: Seq<char>,
    spans: Seq<SpanView>,
    i: int,
    ops: Seq<OpView>,
    content: Seq<char>,
    blocks: &B,
)
    requires
        0 <= i,
        burial(path, spans, i, ops, content, blocks) is None,
    ensures
        forall|k: int|
            i <= k < spans.len() ==> buried_line(
                ops,
                (#[trigger] spans[k]).start,
                spans[k].end,
            ) is None,
    decreases spans.len() - i,
{
    if i < spans.len() {
        lemma_none_buried(path, spans, i + 1, ops, content, blocks);
    }
}

/// The spans lowered into a whole file: sorted, overlap-checked, then swept
/// into the new content.
fn build<B: Blocks>(path: &str, ops: &[Op], content: &str, blocks: &B) -> (r: Result<
    Change,
    Error,
>)
    requires
        ops_fit(ops_view(ops@), lines(content@).len() as int),
    ensures
        match r {
            Ok(c) => {
                let made = new_rows(file_rows(content@), ops_view(ops@));
                &&& built(path@, ops_view(ops@), content@, blocks) == Ok::<ChangeView, ErrorView>(
                    c@,
                )
                &&& traces(c@.landed, file_rows(content@), made)
                &&& made_of(c@.content, made)
                &&& made.len() < usize::MAX
            },
            Err(e) => built(path@, ops_view(ops@), content@, blocks) == Err::<
                ChangeView,
                ErrorView,
            >(e@),
        },
{
    let whole = chars_of(content);
    let all = lines_of(whole.as_slice());
    let held = number_rows(whole.as_slice());
    let file = slice_subrange(held.as_slice(), 1, held.len());
    let closed = whole.len() == 0 || whole[whole.len() - 1] == '\n';
    let crlf_file = breaks_crlf(whole.as_slice());
    let ghost v = ops_view(ops@);
    let ghost spans = spans_of(v);
    proof {
        lemma_file_rows(content@);
        assert(file@ =~= held@.skip(1));
        assert(rows(file@).len() == file@.len());
        assert(rows(all@).len() == all@.len());
        lemma_spans_fit(v, file@.len() as int);
    }
    let order = sort_spans(ops);
    if let Err(e) = check_spans(path, ops, order.as_slice(), content, all.as_slice(), blocks) {
        return Err(e);
    }
    proof {
        lemma_spans_apart(path@, spans, 0, content@, blocks);
        lemma_none_buried(path@, spans, 0, v, content@, blocks);
        law_the_records_of_a_section_lead_to_its_rows(file_rows(content@), v);
    }
    let out = sweep(file, held.len(), ops, order.as_slice());
    let made = slice_subrange(out.rows.as_slice(), 1, out.rows.len());
    assert(made@ =~= out.rows@.skip(1));
    assert(out.written().len() == made@.len());
    let text = join_file(made, closed, crlf_file);
    Ok(
        Change::Write {
            path: path.to_owned(),
            content: string_of(text.as_slice()),
            landed: out.landed,
        },
    )
}

// ---------------------------------------------------------------------------
// The whole patch
// ---------------------------------------------------------------------------

pub(crate) fn find_file(files: &[(&str, &str)], path: &str) -> (r: Option<String>)
    ensures
        match r {
            Some(c) => file_at(files_view(files@), path@) == Some(c@),
            None => file_at(files_view(files@), path@) is None,
        },
{
    let ghost v = files_view(files@);
    let wanted = chars_of(path);
    let mut i: usize = 0;
    assert(v.skip(0) =~= v);
    while i < files.len()
        invariant
            i <= files@.len(),
            v == files_view(files@),
            wanted@ == path@,
            file_at(v.skip(i as int), path@) == file_at(v, path@),
        decreases files@.len() - i,
    {
        assert(v.skip(i as int).skip(1) =~= v.skip(i + 1));
        assert(v.skip(i as int)[0] == (files@[i as int].0@, files@[i as int].1@));
        let name = chars_of(files[i].0);
        if same(name.as_slice(), wanted.as_slice()) {
            return Some(files[i].1.to_owned());
        }
        i += 1;
    }
    None
}

fn find_slot(changes: &[Change], path: &str) -> (r: usize)
    ensures
        r == slot_of(changes_view(changes@), path@),
        r <= changes@.len(),
{
    let ghost v = changes_view(changes@);
    let wanted = chars_of(path);
    let mut i: usize = 0;
    assert(v.skip(0) =~= v);
    while i < changes.len()
        invariant
            i <= changes@.len(),
            v == changes_view(changes@),
            wanted@ == path@,
            i + slot_of(v.skip(i as int), path@) == slot_of(v, path@),
        decreases changes@.len() - i,
    {
        assert(v.skip(i as int).skip(1) =~= v.skip(i + 1));
        assert(v.skip(i as int)[0] == changes@[i as int]@);
        let Change::Write { path: name, .. } = &changes[i];
        let name = chars_of(name.as_str());
        if same(name.as_slice(), wanted.as_slice()) {
            return i;
        }
        i += 1;
    }
    i
}

/// Put a change into the plan: a path has a single write. `held` is the file
/// that was handed over, and `made` the rows the change was written from.
fn stack(
    changes: &mut Vec<Change>,
    change: Change,
    at: usize,
    held: &str,
    Ghost(files): Ghost<Seq<(Seq<char>, Seq<char>)>>,
    Ghost(mid): Ghost<Seq<char>>,
    Ghost(made): Ghost<Seq<Seq<char>>>,
)
    requires
        at == slot_of(changes_view(old(changes)@), change@.path),
        at <= old(changes)@.len(),
        file_at(files, change@.path) == Some(held@),
        all_told(changes_view(old(changes)@), files),
        mid == if at < old(changes)@.len() {
            changes_view(old(changes)@)[at as int].content
        } else {
            held@
        },
        traces(change@.landed, file_rows(mid), made),
        made_of(change@.content, made),
        made.len() < usize::MAX,
    ensures
        changes_view(final(changes)@) == stacked(changes_view(old(changes)@), files, change@),
        all_told(changes_view(final(changes)@), files),
{
    let ghost before = changes_view(changes@);
    let ghost c = change@;
    let ghost first_rows = held_rows(files, c.path);
    if at < changes.len() {
        assert(before[at as int] == changes@[at as int]@);
        proof {
            lemma_slot_of(before, c.path);
            assert(told(before[at as int], files));
        }
        let ghost kept_view = before[at as int].landed;
        let old_change = changes.remove(at);
        let Change::Write { path, content: was, landed: kept } = old_change;
        let Change::Write { path: _, content, landed: more } = change;
        let first = number_rows(chars_of(held).as_slice());
        let second = number_rows(chars_of(was.as_str()).as_slice());
        let third = number_rows(chars_of(content.as_str()).as_slice());
        let old_rows = slice_subrange(first.as_slice(), 1, first.len());
        let mid_rows = slice_subrange(second.as_slice(), 1, second.len());
        assert(old_rows@ =~= first@.skip(1));
        assert(mid_rows@ =~= second@.skip(1));
        assert(first_rows == rows(old_rows@));
        assert(rows(old_rows@).len() == old_rows@.len());
        let landed = restack(
            kept.as_slice(),
            more.as_slice(),
            old_rows,
            mid_rows,
            third.len() - 1,
            Ghost(made),
        );
        let merged = Change::Write { path, content, landed };
        let ghost m = merged@;
        proof {
            assert(m.path == c.path);
            if traces(kept_view, first_rows, file_rows(mid)) {
                law_stacked_hunks_lead_all_the_way(
                    kept_view,
                    c.landed,
                    first_rows,
                    file_rows(mid),
                    made,
                );
                assert(traces(m.landed, held_rows(files, m.path), made));
            } else {
                lemma_whole_traces(first_rows, file_rows(m.content));
                assert(traces(m.landed, held_rows(files, m.path), file_rows(m.content)));
            }
        }
        assert(told(m, files));
        changes.insert(at, merged);
        assert(changes_view(changes@) =~= before.update(at as int, m));
    } else {
        assert(told(c, files));
        changes.push(change);
        assert(changes_view(changes@) =~= before.push(c));
    }
    assert forall|i: int| 0 <= i < changes@.len() implies told(
        #[trigger] changes_view(changes@)[i],
        files,
    ) by {
        if i != at {
            assert(changes_view(changes@)[i] == before[i]);
        }
    }
}

proof fn lemma_plan_refused<B: Blocks>(
    sections: Seq<SectionView>,
    n: int,
    m: int,
    files: Seq<(Seq<char>, Seq<char>)>,
    blocks: &B,
)
    requires
        0 <= n <= m,
        plan(sections, n, files, blocks) is Err,
    ensures
        plan(sections, m, files, blocks) == plan(sections, n, files, blocks),
    decreases m,
{
    if n < m {
        lemma_plan_refused(sections, n, m - 1, files, blocks);
    }
}

/// A path that has a write was handed over.
proof fn lemma_held<B: Blocks>(
    sections: Seq<SectionView>,
    n: int,
    files: Seq<(Seq<char>, Seq<char>)>,
    blocks: &B,
    path: Seq<char>,
)
    requires
        plan(sections, n, files, blocks) is Ok,
        file_at(files, path) is None,
    ensures
        ({
            let changes = plan(sections, n, files, blocks)->Ok_0;
            slot_of(changes, path) >= changes.len()
        }),
    decreases n,
{
    if n > 0 {
        lemma_held(sections, n - 1, files, blocks, path);
        let before = plan(sections, n - 1, files, blocks)->Ok_0;
        let s = sections[n - 1];
        let content = current(before, files, s.path)->Some_0;
        let ops = lowered(s, content, blocks)->Ok_0;
        let c = built(s.path, ops, content, blocks)->Ok_0;
        let after = stacked(before, files, c);
        lemma_slot_of(before, path);
        lemma_slot_of(before, c.path);
        lemma_slot_of(after, path);
    }
}

/// Validate every section, then build the whole plan. Nothing reaches the
/// caller unless all of it succeeds.
///
/// Sections for one path stack: each resolves against what the earlier ones
/// left, and the plan carries a single write per path. Its landings say where
/// the lines sit in the end and which lines of the file handed over they took;
/// one that acts on lines an earlier section put there is one landing with it.
pub fn apply<B: Blocks>(patch: &Patch, files: &Files<'_>, blocks: &B) -> (r: Result<Plan, Error>)
    requires
        all_shaped(patch@),
        grounded(patch@, files_view(files@), blocks),
    ensures
        match r {
            Ok(p) => plan(patch@, patch@.len() as int, files_view(files@), blocks) == Ok::<
                Seq<ChangeView>,
                ErrorView,
            >(p@) && all_told(p@, files_view(files@)),
            Err(e) => plan(patch@, patch@.len() as int, files_view(files@), blocks) == Err::<
                Seq<ChangeView>,
                ErrorView,
            >(e@),
        },
{
    let ghost sections = patch@;
    let ghost held = files_view(files@);
    let mut changes: Vec<Change> = Vec::new();
    let mut i: usize = 0;
    assert(changes_view(changes@) =~= Seq::empty());
    while i < patch.sections.len()
        invariant
            i <= patch.sections@.len(),
            sections == patch@,
            held == files_view(files@),
            all_shaped(sections),
            grounded(sections, held, blocks),
            plan(sections, i as int, held, blocks) == Ok::<Seq<ChangeView>, ErrorView>(
                changes_view(changes@),
            ),
            all_told(changes_view(changes@), held),
        decreases patch.sections@.len() - i,
    {
        let section = &patch.sections[i];
        let ghost before = changes_view(changes@);
        assert(sections[i as int] == section@);
        assert(before.len() == changes@.len());
        let at = find_slot(changes.as_slice(), section.path.as_str());
        let found = match find_file(files, section.path.as_str()) {
            Some(c) => c,
            None => {
                proof {
                    lemma_held(sections, i as int, held, blocks, section.path@);
                    assert(plan(sections, i + 1, held, blocks) is Err);
                    lemma_plan_refused(sections, i + 1, sections.len() as int, held, blocks);
                }
                return Err(Error::Missing { path: section.path.clone() });
            },
        };
        let content: String = if at < changes.len() {
            assert(before[at as int] == changes@[at as int]@);
            let Change::Write { content, .. } = &changes[at];
            content.clone()
        } else {
            found.clone()
        };
        assert(current(before, held, section.path@) == Some(content@));
        assert(in_file(blocks, section.path@, content@)) by {
            assert(plan(sections, i as int, held, blocks) is Ok);
        }
        assert forall|j: int| 0 <= j < section@.groups.len() implies shaped(
            #[trigger] section@.groups[j],
        ) by {
            assert(shaped(sections[i as int].groups[j]));
        }
        let ops = match resolve(section, content.as_str(), blocks) {
            Ok(ops) => ops,
            Err(e) => {
                proof {
                    assert(plan(sections, i + 1, held, blocks) is Err);
                    lemma_plan_refused(sections, i + 1, sections.len() as int, held, blocks);
                }
                return Err(e);
            },
        };
        let change = match build(
            section.path.as_str(),
            ops.as_slice(),
            content.as_str(),
            blocks,
        ) {
            Ok(c) => c,
            Err(e) => {
                proof {
                    assert(plan(sections, i + 1, held, blocks) is Err);
                    lemma_plan_refused(sections, i + 1, sections.len() as int, held, blocks);
                }
                return Err(e);
            },
        };
        assert(change@.path == section.path@);
        let ghost made = new_rows(file_rows(content@), ops_view(ops@));
        stack(
            &mut changes,
            change,
            at,
            found.as_str(),
            Ghost(held),
            Ghost(content@),
            Ghost(made),
        );
        i += 1;
    }
    Ok(Plan { changes })
}

} // verus!
