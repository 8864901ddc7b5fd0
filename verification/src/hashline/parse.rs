//! The marker dialect: `[path]` sections, operations separated by blank lines,
//! rows of `-`/`=`/`+` marks, `*` construct anchors and `@` construct scopes.

use crate::hashline::patch::{
    adds_around, group_view, is_add, late_scope, sections_view, shaped, star_at, starred, Error,
    ErrorView, Mark, Patch, Row, RowView, Section, SectionView,
};
use crate::text::{
    blank, chars_of, copy_range, crop, cropped, index_of, is_blank, lines, lines_of, position, rows,
    string_of,
};
use vstd::prelude::*;
use vstd::string::*;

verus! {

// ---------------------------------------------------------------------------
// What a patch says
// ---------------------------------------------------------------------------

/// What has been read so far: the sections, the open operation, and the line
/// that operation started on.
#[verifier::ext_equal]
pub struct Reading {
    pub sections: Seq<SectionView>,
    pub group: Seq<RowView>,
    pub at: int,
}

/// A complaint about how the patch is spelt.
pub open spec fn syntax(line: int, what: Seq<char>) -> ErrorView {
    ErrorView::Syntax { line, what }
}

/// What is wrong with the rows of an operation, if anything is.
pub open spec fn fault(g: Seq<RowView>, at: int) -> Option<ErrorView> {
    let hint =
        "a `*` row only anchors `+` rows above or below it; rows under a construct are edited through `@`"@;
    let ix = star_at(g);
    if starred(g) {
        if starred(g.skip(ix + 1)) {
            Some(
                syntax(
                    at,
                    "one `*` anchor per operation — split operations with a blank line"@,
                ),
            )
        } else if g.len() == 1 {
            Some(
                syntax(
                    at,
                    "the `*` row anchors nothing — put `+` rows above or below it"@,
                ),
            )
        } else if !adds_around(g, ix) {
            Some(syntax(at, hint))
        } else {
            None
        }
    } else if late_scope(g) {
        Some(syntax(at, "an `@` scope comes first in its operation"@))
    } else if forall|i: int| 0 <= i < g.len() ==> #[trigger] g[i] is At {
        Some(
            syntax(
                at,
                "the `@` scope names no operation — add `-`/`=`/`+` rows under it"@,
            ),
        )
    } else {
        None
    }
}

/// The reading once its open operation is closed: it belongs to the last
/// section.
pub open spec fn closed_group(r: Reading) -> Result<Reading, ErrorView> {
    if r.group.len() == 0 {
        Ok(r)
    } else {
        match fault(r.group, r.at) {
            Some(e) => Err(e),
            None => if r.sections.len() == 0 {
                Err(syntax(r.at, "rows came before any `[path]` header"@))
            } else {
                let last = r.sections.last();
                let grown = SectionView { groups: last.groups.push(r.group), ..last };
                Ok(
                    Reading {
                        sections: r.sections.drop_last().push(grown),
                        group: Seq::empty(),
                        at: r.at,
                    },
                )
            },
        }
    }
}

/// The path inside `[path]`, where a line is a header.
pub open spec fn header_path(raw: Seq<char>) -> Option<Seq<char>> {
    if raw.len() >= 2 && raw[0] == '[' && raw.last() == ']' {
        Some(raw.subrange(1, raw.len() - 1))
    } else {
        None
    }
}

/// The marked row a line is.
pub open spec fn row_of_line(raw: Seq<char>) -> Option<RowView> {
    if raw.len() == 0 {
        None
    } else if raw[0] == '-' {
        Some(RowView::Mark(Mark::Del, raw.skip(1)))
    } else if raw[0] == '=' {
        Some(RowView::Mark(Mark::Keep, raw.skip(1)))
    } else if raw[0] == '+' {
        Some(RowView::Mark(Mark::Add, raw.skip(1)))
    } else if raw[0] == '*' {
        Some(RowView::Star(raw.skip(1)))
    } else if raw[0] == '@' {
        Some(RowView::At(raw.skip(1)))
    } else {
        None
    }
}

/// The reading after one more line, the line `no` of the patch.
pub open spec fn after_line(r: Reading, raw: Seq<char>, no: int) -> Result<Reading, ErrorView> {
    if blank(raw) {
        match closed_group(r) {
            Ok(done) => Ok(Reading { at: 0, ..done }),
            Err(e) => Err(e),
        }
    } else {
        let at = if r.group.len() == 0 {
            no
        } else {
            r.at
        };
        match header_path(raw) {
            Some(inner) => if r.group.len() > 0 {
                Err(
                    syntax(
                        no,
                        "a `[path]` header cannot sit inside an operation — end the operation with a blank line first"@,
                    ),
                )
            } else if inner.len() == 0 {
                Err(syntax(no, "empty path in section header"@))
            } else if inner.contains('#') {
                Err(
                    syntax(
                        no,
                        "a section header is `[path]` — no TAG any more; drop `#"@ + inner.skip(
                            index_of(inner, '#'),
                        ) + "`"@,
                    ),
                )
            } else {
                Ok(
                    Reading {
                        sections: r.sections.push(
                            SectionView { path: inner, groups: Seq::empty(), line: no },
                        ),
                        group: r.group,
                        at,
                    },
                )
            },
            None => match row_of_line(raw) {
                Some(row) => Ok(Reading { sections: r.sections, group: r.group.push(row), at }),
                None => Err(
                    syntax(
                        no,
                        "`"@ + cropped(raw, 40)
                            + "` is not a marked row: every row starts with `-`, `=`, `+`, `*` or `@`"@,
                    ),
                ),
            },
        }
    }
}

/// The reading after the first `n` lines.
pub open spec fn after_lines(all: Seq<Seq<char>>, n: int) -> Result<Reading, ErrorView>
    decreases n,
{
    if n <= 0 {
        Ok(Reading { sections: Seq::empty(), group: Seq::empty(), at: 0 })
    } else {
        match after_lines(all, n - 1) {
            Ok(r) => after_line(r, all[n - 1], n),
            Err(e) => Err(e),
        }
    }
}

/// The sections a patch is made of, or why it is refused.
pub open spec fn parsed(input: Seq<char>) -> Result<Seq<SectionView>, ErrorView> {
    let all = lines(input);
    match after_lines(all, all.len() as int) {
        Err(e) => Err(e),
        Ok(r) => match closed_group(r) {
            Err(e) => Err(e),
            Ok(done) => if done.sections.len() == 0 {
                Err(ErrorView::Empty)
            } else {
                Ok(done.sections)
            },
        },
    }
}

/// Whether every operation of every section can be carried out.
pub open spec fn all_shaped(sections: Seq<SectionView>) -> bool {
    forall|i: int, j: int|
        0 <= i < sections.len() && 0 <= j < sections[i].groups.len() ==> shaped(
            #[trigger] sections[i].groups[j],
        )
}

// ---------------------------------------------------------------------------
// Reading one
// ---------------------------------------------------------------------------

/// `star_at` is the first `*` row.
pub proof fn lemma_star_at(g: Seq<RowView>)
    ensures
        0 <= star_at(g) <= g.len(),
        starred(g) == (star_at(g) < g.len()),
        star_at(g) < g.len() ==> g[star_at(g)] is Star,
        forall|i: int| 0 <= i < star_at(g) ==> !(#[trigger] g[i] is Star),
    decreases g.len(),
{
    if g.len() > 0 && !(g[0] is Star) {
        lemma_star_at(g.skip(1));
        assert forall|i: int| 0 <= i < star_at(g) implies !(#[trigger] g[i] is Star) by {
            if i > 0 {
                assert(g.skip(1)[i - 1] == g[i]);
            }
        }
        if starred(g) {
            let i = choose|i: int| 0 <= i < g.len() && #[trigger] g[i] is Star;
            assert(g.skip(1)[i - 1] is Star);
        }
        if starred(g.skip(1)) {
            let i = choose|i: int| 0 <= i < g.skip(1).len() && #[trigger] g.skip(1)[i] is Star;
            assert(g[i + 1] is Star);
        }
    }
}

/// Where the first `*` row stands; the length where there is none.
pub fn find_star(g: &[Row]) -> (r: usize)
    ensures
        r == star_at(group_view(g@)),
        r <= g@.len(),
        starred(group_view(g@)) == (r < g@.len()),
        r < g@.len() ==> g@[r as int] is Star,
        forall|i: int| 0 <= i < r ==> !(#[trigger] g@[i] is Star),
{
    let ghost v = group_view(g@);
    let mut i: usize = 0;
    assert(v.skip(0) =~= v);
    while i < g.len()
        invariant
            i <= g@.len(),
            v == group_view(g@),
            i + star_at(v.skip(i as int)) == star_at(v),
            forall|k: int| 0 <= k < i ==> !(#[trigger] g@[k] is Star),
        decreases g@.len() - i,
    {
        assert(v.skip(i as int).skip(1) =~= v.skip(i + 1));
        assert(v.skip(i as int)[0] == g@[i as int]@);
        match g[i] {
            Row::Star(_) => {
                proof {
                    lemma_star_at(v);
                }
                return i;
            },
            _ => {},
        }
        i += 1;
    }
    proof {
        lemma_star_at(v);
    }
    i
}

fn row_is_add(r: &Row) -> (b: bool)
    ensures
        b == is_add(r@),
{
    match r {
        Row::Mark(Mark::Add, _) => true,
        _ => false,
    }
}

fn complain(line: usize, what: &str) -> (e: Error)
    ensures
        e@ == syntax(line as int, what@),
{
    Error::Syntax { line, what: what.to_owned() }
}

/// What is wrong with the rows of an operation, meaning at parse time: a `*`
/// row is a point anchor that only `+` rows may hug, one per operation; `@`
/// rows lead an operation as the scope stack the marks run under.
fn validate(group: &[Row], at: usize) -> (r: Result<(), Error>)
    ensures
        match r {
            Ok(_) => fault(group_view(group@), at as int) is None,
            Err(e) => fault(group_view(group@), at as int) == Some(e@),
        },
{
    let ghost v = group_view(group@);
    let ix = find_star(group);
    if ix < group.len() {
        let mut more = false;
        let mut around = true;
        let mut i: usize = 0;
        while i < group.len()
            invariant
                i <= group@.len(),
                v == group_view(group@),
                ix < group@.len(),
                more == exists|k: int| ix < k < i && #[trigger] group@[k] is Star,
                around == forall|k: int| 0 <= k < i && k != ix ==> is_add(#[trigger] v[k]),
            decreases group@.len() - i,
        {
            assert(v[i as int] == group@[i as int]@);
            if i != ix && !row_is_add(&group[i]) {
                around = false;
            }
            if i > ix {
                match group[i] {
                    Row::Star(_) => {
                        more = true;
                    },
                    _ => {},
                }
            }
            i += 1;
        }
        proof {
            let rest = v.skip(ix + 1);
            if more {
                let k = choose|k: int| ix < k < group@.len() && #[trigger] group@[k] is Star;
                assert(rest[k - ix - 1] == v[k]);
                assert(rest[k - ix - 1] is Star);
            }
            if starred(rest) {
                let k = choose|k: int| 0 <= k < rest.len() && #[trigger] rest[k] is Star;
                assert(rest[k] == v[ix + 1 + k]);
                assert(group@[ix + 1 + k] is Star);
            }
        }
        if more {
            return Err(
                complain(
                    at,
                    "one `*` anchor per operation — split operations with a blank line",
                ),
            );
        }
        if group.len() == 1 {
            return Err(
                complain(at, "the `*` row anchors nothing — put `+` rows above or below it"),
            );
        }
        if !around {
            return Err(
                complain(
                    at,
                    "a `*` row only anchors `+` rows above or below it; rows under a construct are edited through `@`",
                ),
            );
        }
        return Ok(());
    }
    let mut in_scope = true;
    let mut i: usize = 0;
    while i < group.len()
        invariant
            i <= group@.len(),
            v == group_view(group@),
            !starred(v),
            forall|k: int| 0 <= k < group@.len() ==> !(#[trigger] group@[k] is Star),
            in_scope == forall|k: int| 0 <= k < i ==> #[trigger] v[k] is At,
            forall|j: int, k: int|
                0 <= j < k < i ==> !(#[trigger] v[j] is Mark && #[trigger] v[k] is At),
        decreases group@.len() - i,
    {
        assert(v[i as int] == group@[i as int]@);
        match group[i] {
            Row::At(_) => {
                if !in_scope {
                    proof {
                        let k = choose|k: int| 0 <= k < i && !(#[trigger] v[k] is At);
                        assert(v[k] == group@[k]@);
                        assert(!(group@[k] is Star));
                        assert(v[k] is Mark);
                        assert(v[i as int] is At);
                        assert(late_scope(v));
                    }
                    return Err(complain(at, "an `@` scope comes first in its operation"));
                }
            },
            _ => {
                assert(!(group@[i as int] is Star));
                assert(!(v[i as int] is At));
                in_scope = false;
            },
        }
        i += 1;
    }
    assert(!late_scope(v));
    if in_scope {
        return Err(
            complain(at, "the `@` scope names no operation — add `-`/`=`/`+` rows under it"),
        );
    }
    Ok(())
}

/// An operation without a fault can be carried out.
proof fn lemma_fault_shaped(g: Seq<RowView>, at: int)
    requires
        fault(g, at) is None,
    ensures
        shaped(g),
{
}

/// Close the open operation into the last section.
fn flush(sections: &mut Vec<Section>, group: Vec<Row>, at: usize) -> (r: Result<(), Error>)
    ensures
        ({
            let before = Reading {
                sections: sections_view(old(sections)@),
                group: group_view(group@),
                at: at as int,
            };
            match r {
                Ok(_) => closed_group(before) == Ok::<Reading, ErrorView>(
                    Reading {
                        sections: sections_view(final(sections)@),
                        group: Seq::empty(),
                        at: at as int,
                    },
                ),
                Err(e) => closed_group(before) == Err::<Reading, ErrorView>(e@),
            }
        }),
{
    let ghost before = sections_view(sections@);
    let ghost rows_seen = group_view(group@);
    if group.len() == 0 {
        assert(rows_seen =~= Seq::empty());
        return Ok(());
    }
    if let Err(e) = validate(group.as_slice(), at) {
        return Err(e);
    }
    match sections.pop() {
        None => {
            assert(before.len() == 0);
            Err(complain(at, "rows came before any `[path]` header"))
        },
        Some(section) => {
            let mut section = section;
            let ghost last = section@;
            assert(before.last() == last);
            assert(sections_view(sections@) =~= before.drop_last());
            section.groups.push(group);
            assert(section@.groups =~= last.groups.push(rows_seen));
            let ghost grown = section@;
            assert(grown == SectionView { groups: last.groups.push(rows_seen), ..last });
            sections.push(section);
            assert(sections_view(sections@) =~= before.drop_last().push(grown));
            Ok(())
        },
    }
}

/// The marked row a line is.
fn read_row(raw: &[char]) -> (r: Option<Row>)
    ensures
        match r {
            Some(row) => row_of_line(raw@) == Some(row@),
            None => row_of_line(raw@) is None,
        },
{
    if raw.len() == 0 {
        return None;
    }
    let rest = copy_range(raw, 1, raw.len());
    assert(rest@ =~= raw@.skip(1));
    let text = string_of(rest.as_slice());
    match raw[0] {
        '-' => Some(Row::Mark(Mark::Del, text)),
        '=' => Some(Row::Mark(Mark::Keep, text)),
        '+' => Some(Row::Mark(Mark::Add, text)),
        '*' => Some(Row::Star(text)),
        '@' => Some(Row::At(text)),
        _ => None,
    }
}

/// Read one header line into a section.
fn read_header(raw: &[char], no: usize) -> (r: Option<Result<Section, Error>>)
    ensures
        match r {
            None => header_path(raw@) is None,
            Some(Ok(s)) => match header_path(raw@) {
                Some(inner) => inner.len() > 0 && !inner.contains('#') && s@ == (SectionView {
                    path: inner,
                    groups: Seq::empty(),
                    line: no as int,
                }),
                None => false,
            },
            Some(Err(e)) => match header_path(raw@) {
                Some(inner) => if inner.len() == 0 {
                    e@ == syntax(no as int, "empty path in section header"@)
                } else {
                    inner.contains('#') && e@ == syntax(
                        no as int,
                        "a section header is `[path]` — no TAG any more; drop `#"@ + inner.skip(
                            index_of(inner, '#'),
                        ) + "`"@,
                    )
                },
                None => false,
            },
        },
{
    let n = raw.len();
    if n < 2 || raw[0] != '[' || raw[n - 1] != ']' {
        return None;
    }
    let inner = copy_range(raw, 1, n - 1);
    if inner.len() == 0 {
        return Some(Err(complain(no, "empty path in section header")));
    }
    let at = position(inner.as_slice(), '#', 0);
    assert(inner@.skip(0) =~= inner@);
    if at < inner.len() {
        assert(inner@[at as int] == '#');
        let tag = copy_range(inner.as_slice(), at, inner.len());
        assert(tag@ =~= inner@.skip(at as int));
        let mut what = String::new();
        what.append("a section header is `[path]` — no TAG any more; drop `#");
        let t = string_of(tag.as_slice());
        what.append(t.as_str());
        what.append("`");
        assert(what@ =~= "a section header is `[path]` — no TAG any more; drop `#"@ + tag@ + "`"@);
        return Some(Err(Error::Syntax { line: no, what }));
    }
    let groups: Vec<Vec<Row>> = Vec::new();
    let s = Section { path: string_of(inner.as_slice()), groups, line: no };
    assert(s@.groups =~= Seq::empty());
    Some(Ok(s))
}

/// Once a line is refused, the patch is refused with that.
proof fn lemma_first_fault(all: Seq<Seq<char>>, n: int, m: int)
    requires
        0 <= n <= m,
        after_lines(all, n) is Err,
    ensures
        after_lines(all, m) == after_lines(all, n),
    decreases m,
{
    if n < m {
        lemma_first_fault(all, n, m - 1);
    }
}

/// Closing an operation keeps every operation carried out so far.
proof fn lemma_closed_shaped(r: Reading)
    requires
        all_shaped(r.sections),
        closed_group(r) is Ok,
    ensures
        all_shaped(closed_group(r)->Ok_0.sections),
{
    let done = closed_group(r)->Ok_0;
    if r.group.len() > 0 {
        lemma_fault_shaped(r.group, r.at);
        let last = r.sections.last();
        assert forall|i: int, j: int|
            0 <= i < done.sections.len() && 0 <= j < done.sections[i].groups.len() implies shaped(
            #[trigger] done.sections[i].groups[j],
        ) by {
            if i < r.sections.len() - 1 {
                assert(done.sections[i] == r.sections[i]);
                assert(shaped(r.sections[i].groups[j]));
            } else {
                assert(done.sections[i].groups == last.groups.push(r.group));
                if j < last.groups.len() {
                    assert(last == r.sections[r.sections.len() - 1]);
                    assert(done.sections[i].groups[j] == r.sections[i].groups[j]);
                    assert(shaped(r.sections[i].groups[j]));
                }
            }
        }
    }
}

/// Parse the marker dialect.
pub fn parse(input: &str) -> (r: Result<Patch, Error>)
    ensures
        match r {
            Ok(p) => parsed(input@) == Ok::<Seq<SectionView>, ErrorView>(p@) && all_shaped(p@),
            Err(e) => parsed(input@) == Err::<Seq<SectionView>, ErrorView>(e@),
        },
{
    let whole = chars_of(input);
    let all = lines_of(whole.as_slice());
    let ghost seen = rows(all@);
    let mut sections: Vec<Section> = Vec::new();
    let mut group: Vec<Row> = Vec::new();
    let mut group_at: usize = 0;
    let mut i: usize = 0;
    assert(sections_view(sections@) =~= Seq::empty());
    assert(group_view(group@) =~= Seq::empty());
    while i < all.len()
        invariant
            i <= all@.len(),
            seen == rows(all@),
            seen == lines(input@),
            all_shaped(sections_view(sections@)),
            after_lines(seen, i as int) == Ok::<Reading, ErrorView>(
                Reading {
                    sections: sections_view(sections@),
                    group: group_view(group@),
                    at: group_at as int,
                },
            ),
        decreases all@.len() - i,
    {
        let ghost r = Reading {
            sections: sections_view(sections@),
            group: group_view(group@),
            at: group_at as int,
        };
        let no = i + 1;
        let raw = all[i].as_slice();
        assert(raw@ == seen[i as int]);
        assert(after_lines(seen, no as int) == after_line(r, raw@, no as int));
        if is_blank(raw) {
            let mut open: Vec<Row> = Vec::new();
            std::mem::swap(&mut open, &mut group);
            assert(group_view(group@) =~= Seq::empty());
            proof {
                if closed_group(r) is Ok {
                    lemma_closed_shaped(r);
                }
            }
            if let Err(e) = flush(&mut sections, open, group_at) {
                proof {
                    lemma_first_fault(seen, no as int, seen.len() as int);
                }
                return Err(e);
            }
            group_at = 0;
            i += 1;
            continue;
        }
        let fresh = group.len() == 0;
        if fresh {
            group_at = no;
        }
        match read_header(raw, no) {
            Some(found) => {
                if !fresh {
                    proof {
                        lemma_first_fault(seen, no as int, seen.len() as int);
                    }
                    return Err(
                        complain(
                            no,
                            "a `[path]` header cannot sit inside an operation — end the operation with a blank line first",
                        ),
                    );
                }
                match found {
                    Err(e) => {
                        proof {
                            lemma_first_fault(seen, no as int, seen.len() as int);
                        }
                        return Err(e);
                    },
                    Ok(section) => {
                        let ghost before = sections_view(sections@);
                        let ghost s = section@;
                        sections.push(section);
                        assert(sections_view(sections@) =~= before.push(s));
                        assert(all_shaped(before.push(s))) by {
                            assert forall|i: int, j: int|
                                0 <= i < before.push(s).len() && 0 <= j < before.push(
                                    s,
                                )[i].groups.len() implies shaped(
                                #[trigger] before.push(s)[i].groups[j],
                            ) by {
                                if i < before.len() {
                                    assert(before.push(s)[i] == before[i]);
                                    assert(shaped(before[i].groups[j]));
                                }
                            }
                        }
                    },
                }
            },
            None => match read_row(raw) {
                Some(row) => {
                    let ghost before = group_view(group@);
                    let ghost v = row@;
                    group.push(row);
                    assert(group_view(group@) =~= before.push(v));
                },
                None => {
                    let mut what = String::new();
                    what.append("`");
                    let c = crop(raw, 40);
                    let t = string_of(c.as_slice());
                    what.append(t.as_str());
                    what.append(
                        "` is not a marked row: every row starts with `-`, `=`, `+`, `*` or `@`",
                    );
                    proof {
                        assert(what@ =~= "`"@ + cropped(raw@, 40)
                            + "` is not a marked row: every row starts with `-`, `=`, `+`, `*` or `@`"@);
                        lemma_first_fault(seen, no as int, seen.len() as int);
                    }
                    return Err(Error::Syntax { line: no, what });
                },
            },
        }
        i += 1;
    }
    proof {
        let r = Reading {
            sections: sections_view(sections@),
            group: group_view(group@),
            at: group_at as int,
        };
        if closed_group(r) is Ok {
            lemma_closed_shaped(r);
        }
    }
    if let Err(e) = flush(&mut sections, group, group_at) {
        return Err(e);
    }
    if sections.len() == 0 {
        return Err(Error::Empty);
    }
    Ok(Patch { sections })
}

} // verus!
