//! The scrollback as the window walks it, and where the view stands in it.

use crate::text::capped;
use crate::tui::line::{lines_view, Line, SpanView};
use crate::tui::pane::{Pane, PaneView};
use crate::tui::row::{all_valid, line_rows, row_len, row_line, rows_view, Row, RowView};
use crate::tui::screen::{
    all_ready, all_rows, clamped, fit, fitted, shown, tagged, tagged_view, window_tagged, Piece,
};
use vstd::prelude::*;

verus! {

// ---------------------------------------------------------------------------
// Walking the scrollback from either end
// ---------------------------------------------------------------------------

/// The lines of the first `n` rows: which row, and which line of it.
pub open spec fn lines_upto(rows: Seq<RowView>, n: int) -> Seq<(int, int)>
    decreases n,
{
    if n <= 0 {
        Seq::empty()
    } else {
        lines_upto(rows, n - 1) + Seq::new(row_len(rows[n - 1]) as nat, |k: int| (n - 1, k))
    }
}

/// The scrollback as lines, walked from either end without flattening the whole
/// history.
pub struct ScrollbackRows<'a> {
    rows: &'a Vec<Row>,
    // The frame's width, for the rows that clip to fit.
    width: usize,
    // Next row to read from the front, and the line inside it.
    front: (usize, usize),
    // Next row to read from the back, and the end of its unread lines.
    back: (usize, usize),
}

proof fn lemma_lines_upto(rows: Seq<RowView>, i: int, n: int)
    requires
        0 <= i <= n <= rows.len(),
    ensures
        lines_upto(rows, i).len() <= lines_upto(rows, n).len(),
        forall|j: int|
            0 <= j < lines_upto(rows, i).len() ==> lines_upto(rows, n)[j] == lines_upto(
                rows,
                i,
            )[j],
    decreases n - i,
{
    if i < n {
        lemma_lines_upto(rows, i, n - 1);
    }
}

/// How many logical lines a row has is never negative.
proof fn lemma_row_len(r: RowView)
    ensures
        row_len(r) >= 0,
{
}

/// A line inside a row stands where the rows before it end, and that far in.
proof fn lemma_line_at(rows: Seq<RowView>, i: int, k: int)
    requires
        0 <= i < rows.len(),
        0 <= k < row_len(rows[i]),
    ensures
        lines_upto(rows, i).len() + k < lines_upto(rows, rows.len() as int).len(),
        lines_upto(rows, rows.len() as int)[lines_upto(rows, i).len() + k] == (i, k),
{
    lemma_lines_upto(rows, i + 1, rows.len() as int);
    let all = lines_upto(rows, i + 1);
    assert(all[lines_upto(rows, i).len() + k] == (i, k));
}

impl<'a> ScrollbackRows<'a> {
    /// The rows that are walked.
    pub closed spec fn over(&self) -> Seq<RowView> {
        rows_view(self.rows@)
    }

    /// The width they are drawn at.
    pub closed spec fn at_width(&self) -> int {
        self.width as int
    }

    spec fn first(&self) -> int {
        lines_upto(self.over(), self.front.0 as int).len() + self.front.1
    }

    spec fn end(&self) -> int {
        lines_upto(self.over(), self.back.0 as int).len() + self.back.1
    }

    /// The lines that neither end has read yet.
    pub closed spec fn left(&self) -> Seq<(int, int)> {
        if self.over().len() == 0 {
            Seq::empty()
        } else {
            lines_upto(self.over(), self.over().len() as int).subrange(self.first(), self.end())
        }
    }

    /// The two ends stand on rows, the front before the back.
    pub closed spec fn valid(&self) -> bool {
        &&& all_valid(self.rows@)
        &&& self.rows@.len() > 0 ==> {
            &&& self.front.0 <= self.back.0 < self.rows@.len()
            &&& self.front.1 <= row_len(self.over()[self.front.0 as int])
            &&& self.back.1 <= row_len(self.over()[self.back.0 as int])
            &&& self.front.0 == self.back.0 ==> self.front.1 <= self.back.1
        }
    }

    proof fn lemma_ends(&self)
        requires
            self.valid(),
            self.rows@.len() > 0,
        ensures
            0 <= self.first() <= self.end() <= lines_upto(
                self.over(),
                self.over().len() as int,
            ).len(),
            self.left().len() == self.end() - self.first(),
    {
        let rows = self.over();
        if self.front.0 < self.back.0 {
            lemma_lines_upto(rows, self.front.0 + 1, self.back.0 as int);
        }
        lemma_lines_upto(rows, self.back.0 + 1, rows.len() as int);
    }

    /// All the lines of the rows.
    pub fn new(rows: &'a Vec<Row>, width: usize) -> (r: ScrollbackRows<'a>)
        requires
            all_valid(rows@),
        ensures
            r.valid(),
            r.over() == rows_view(rows@),
            r.at_width() == width,
            r.left() == lines_upto(rows_view(rows@), rows@.len() as int),
    {
        let n = rows.len();
        let back: (usize, usize) = if n == 0 {
            (0, 0)
        } else {
            (n - 1, rows[n - 1].len())
        };
        let r = ScrollbackRows { rows, width, front: (0, 0), back };
        proof {
            let all = lines_upto(r.over(), n as int);
            if n > 0 {
                lemma_row_len(r.over()[0]);
                assert(lines_upto(r.over(), 0) =~= Seq::empty());
                assert(r.end() == all.len());
                assert(all.subrange(0, all.len() as int) =~= all);
            }
        }
        r
    }

    /// The next line from the front: its text, and the border its continuation
    /// rows must repeat.
    pub fn next(&mut self) -> (r: Option<(Line, Option<Line>)>)
        requires
            old(self).valid(),
        ensures
            final(self).valid(),
            final(self).over() == old(self).over(),
            final(self).at_width() == old(self).at_width(),
            match r {
                Some((text, border)) => {
                    let (i, k) = old(self).left()[0];
                    &&& old(self).left().len() > 0
                    &&& final(self).left() == old(self).left().skip(1)
                    &&& text@ == row_line(old(self).over()[i], k, old(self).at_width()).0
                    &&& (match border {
                        Some(b) => Some(b@),
                        None => None,
                    }) == row_line(old(self).over()[i], k, old(self).at_width()).1
                },
                None => old(self).left().len() == 0 && final(self).left() == old(self).left(),
            },
    {
        if self.rows.len() == 0 {
            return None;
        }
        let ghost rows = self.over();
        let ghost was = self.left();
        let ghost all = lines_upto(rows, rows.len() as int);
        while self.front.0 < self.back.0 && self.front.1 >= self.rows[self.front.0].len()
            invariant
                self.valid(),
                self.rows == old(self).rows,
                self.width == old(self).width,
                self.back == old(self).back,
                self.rows@.len() > 0,
                rows == self.over(),
                self.first() == old(self).first(),
            decreases self.back.0 - self.front.0,
        {
            proof {
                lemma_row_len(rows[self.front.0 + 1]);
                assert(self.over()[self.front.0 as int] == self.rows@[self.front.0 as int]@);
            }
            self.front = (self.front.0 + 1, 0);
        }
        proof {
            self.lemma_ends();
            old(self).lemma_ends();
        }
        let (i, k) = self.front;
        if i == self.back.0 && k >= self.back.1 {
            assert(self.left() =~= was);
            return None;
        }
        assert(rows[i as int] == self.rows@[i as int]@);
        proof {
            if i < self.back.0 {
                assert(k < row_len(rows[i as int]));
            }
            lemma_line_at(rows, i as int, k as int);
            if i < self.back.0 {
                lemma_lines_upto(rows, i + 1, self.back.0 as int);
            }
            assert(was[0] == all[self.first()]);
        }
        let line = self.rows[i].line(k, self.width);
        self.front = (i, k + 1);
        proof {
            self.lemma_ends();
            assert(self.left() =~= was.skip(1));
        }
        Some(line)
    }

    /// The next line from the back.
    pub fn next_back(&mut self) -> (r: Option<(Line, Option<Line>)>)
        requires
            old(self).valid(),
        ensures
            final(self).valid(),
            final(self).over() == old(self).over(),
            final(self).at_width() == old(self).at_width(),
            match r {
                Some((text, border)) => {
                    let (i, k) = old(self).left().last();
                    &&& old(self).left().len() > 0
                    &&& final(self).left() == old(self).left().drop_last()
                    &&& text@ == row_line(old(self).over()[i], k, old(self).at_width()).0
                    &&& (match border {
                        Some(b) => Some(b@),
                        None => None,
                    }) == row_line(old(self).over()[i], k, old(self).at_width()).1
                },
                None => old(self).left().len() == 0 && final(self).left() == old(self).left(),
            },
    {
        if self.rows.len() == 0 {
            return None;
        }
        let ghost rows = self.over();
        let ghost was = self.left();
        let ghost all = lines_upto(rows, rows.len() as int);
        while self.front.0 < self.back.0 && self.back.1 == 0
            invariant
                self.valid(),
                self.rows == old(self).rows,
                self.width == old(self).width,
                self.front == old(self).front,
                self.rows@.len() > 0,
                rows == self.over(),
                self.end() == old(self).end(),
            decreases self.back.0,
        {
            let prev = self.back.0 - 1;
            assert(self.over()[prev as int] == self.rows@[prev as int]@);
            self.back = (prev, self.rows[prev].len());
        }
        proof {
            self.lemma_ends();
            old(self).lemma_ends();
        }
        let (i, k) = self.back;
        if i == self.front.0 && self.front.1 >= k {
            assert(self.left() =~= was);
            return None;
        }
        assert(rows[i as int] == self.rows@[i as int]@);
        proof {
            lemma_line_at(rows, i as int, k - 1);
            if self.front.0 < i {
                lemma_lines_upto(rows, self.front.0 + 1, i as int);
            }
            assert(was.last() == all[self.end() - 1]);
        }
        let line = self.rows[i].line(k - 1, self.width);
        self.back = (i, k - 1);
        proof {
            if self.front.0 < self.back.0 {
                lemma_lines_upto(rows, self.front.0 + 1, self.back.0 as int);
            }
            self.lemma_ends();
            assert(self.left() =~= was.drop_last());
        }
        Some(line)
    }
}

// ---------------------------------------------------------------------------
// What the window is over
// ---------------------------------------------------------------------------

/// A line the window walks: a line of a row that it would rather not build, or
/// one of the live region.
pub enum Shown<'a> {
    Row { row: &'a Row, at: usize, width: usize },
    Live { line: Line, width: usize },
}

impl<'a> Piece for Shown<'a> {
    open spec fn rows(&self) -> Seq<Seq<SpanView>> {
        match self {
            Shown::Row { row, at, width } => line_rows(row@, *at as int, *width as int),
            Shown::Live { line, width } => fitted(line@, *width as int),
        }
    }

    open spec fn ready(&self) -> bool {
        match self {
            Shown::Row { row, at, .. } => row.valid() && *at < row_len(row@),
            Shown::Live { .. } => true,
        }
    }

    fn height(&self) -> (n: usize) {
        match self {
            Shown::Row { row, at, width } => row.line_height(*at, *width),
            Shown::Live { line, width } => {
                let r = fit(line, *width);
                assert(lines_view(r@).len() == r@.len());
                r.len()
            },
        }
    }

    fn pieces(self) -> (r: Vec<Line>) {
        match self {
            Shown::Row { row, at, width } => row.pieces(at, width),
            Shown::Live { line, width } => fit(&line, width),
        }
    }
}

/// The screen rows of the first `n` lines of row `i`, each with the row it is
/// of.
pub open spec fn row_content(r: RowView, i: usize, n: int, width: int) -> Seq<
    (Seq<SpanView>, Option<usize>),
>
    decreases n,
{
    if n <= 0 {
        Seq::empty()
    } else {
        row_content(r, i, n - 1, width) + tagged(line_rows(r, n - 1, width), Some(i))
    }
}

/// The screen rows of the first `n` rows of the scrollback.
pub open spec fn rows_content(rows: Seq<RowView>, n: int, width: int) -> Seq<
    (Seq<SpanView>, Option<usize>),
>
    decreases n,
{
    if n <= 0 {
        Seq::empty()
    } else {
        rows_content(rows, n - 1, width) + row_content(
            rows[n - 1],
            (n - 1) as usize,
            row_len(rows[n - 1]),
            width,
        )
    }
}

/// The screen rows of the first `n` lines of the live region, which are of no
/// row.
pub open spec fn live_content(live: Seq<Seq<SpanView>>, n: int, width: int) -> Seq<
    (Seq<SpanView>, Option<usize>),
>
    decreases n,
{
    if n <= 0 {
        Seq::empty()
    } else {
        live_content(live, n - 1, width) + tagged(fitted(live[n - 1], width), None::<usize>)
    }
}

/// Everything the window is over: the scrollback, then the live region.
pub open spec fn content(rows: Seq<RowView>, live: Seq<Seq<SpanView>>, width: int) -> Seq<
    (Seq<SpanView>, Option<usize>),
> {
    rows_content(rows, rows.len() as int, width) + live_content(live, live.len() as int, width)
}

/// The lines of the scrollback and of the live region, for the window to walk.
fn pieces_of<'a>(rows: &'a Vec<Row>, live: &[Line], width: usize) -> (r: Vec<
    (Shown<'a>, Option<usize>),
>)
    requires
        all_valid(rows@),
    ensures
        all_ready(r@),
        all_rows(r@) == content(rows_view(rows@), lines_view(live@), width as int),
{
    let ghost all = rows_view(rows@);
    let mut r: Vec<(Shown<'a>, Option<usize>)> = Vec::new();
    let mut i: usize = 0;
    while i < rows.len()
        invariant
            i <= rows@.len(),
            all_valid(rows@),
            all == rows_view(rows@),
            all_ready(r@),
            all_rows(r@) == rows_content(all, i as int, width as int),
        decreases rows@.len() - i,
    {
        assert(all[i as int] == rows@[i as int]@);
        let n = rows[i].len();
        let ghost so_far = all_rows(r@);
        let mut k: usize = 0;
        assert(so_far + row_content(all[i as int], i, 0, width as int) =~= so_far);
        while k < n
            invariant
                k <= n,
                i < rows@.len(),
                all_valid(rows@),
                all == rows_view(rows@),
                all[i as int] == rows@[i as int]@,
                n == row_len(all[i as int]),
                all_ready(r@),
                all_rows(r@) == so_far + row_content(all[i as int], i, k as int, width as int),
            decreases n - k,
        {
            let ghost before = r@;
            r.push((Shown::Row { row: &rows[i], at: k, width }, Some(i)));
            assert(r@.drop_last() =~= before);
            assert(all_rows(r@) =~= so_far + row_content(
                all[i as int],
                i,
                k + 1,
                width as int,
            ));
            k += 1;
        }
        i += 1;
    }
    let ghost rest = lines_view(live@);
    let ghost so_far = all_rows(r@);
    let mut j: usize = 0;
    assert(so_far + live_content(rest, 0, width as int) =~= so_far);
    while j < live.len()
        invariant
            j <= live@.len(),
            rest == lines_view(live@),
            all_ready(r@),
            all_rows(r@) == so_far + live_content(rest, j as int, width as int),
        decreases live@.len() - j,
    {
        let ghost before = r@;
        let line = live[j].copy();
        assert(rest[j as int] == line@);
        r.push((Shown::Live { line, width }, None));
        assert(r@.drop_last() =~= before);
        assert(all_rows(r@) =~= so_far + live_content(rest, j + 1, width as int));
        j += 1;
    }
    assert(rest.len() == live@.len());
    r
}

/// How many screen rows the scrollback takes at a width.
pub fn scrollback_rows(rows: &Vec<Row>, width: usize) -> (r: usize)
    requires
        all_valid(rows@),
    ensures
        r == capped(
            rows_content(rows_view(rows@), rows@.len() as int, width as int).len() as int,
        ),
{
    let ghost all = rows_view(rows@);
    let mut total: usize = 0;
    let mut i: usize = 0;
    while i < rows.len()
        invariant
            i <= rows@.len(),
            all_valid(rows@),
            all == rows_view(rows@),
            total == capped(rows_content(all, i as int, width as int).len() as int),
        decreases rows@.len() - i,
    {
        assert(all[i as int] == rows@[i as int]@);
        let n = rows[i].len();
        let ghost before = rows_content(all, i as int, width as int).len() as int;
        let mut k: usize = 0;
        while k < n
            invariant
                k <= n,
                i < rows@.len(),
                all_valid(rows@),
                all == rows_view(rows@),
                all[i as int] == rows@[i as int]@,
                n == row_len(all[i as int]),
                before >= 0,
                total == capped(
                    before + row_content(all[i as int], i, k as int, width as int).len(),
                ),
            decreases n - k,
        {
            let h = rows[i].line_height(k, width);
            total = total.saturating_add(h);
            k += 1;
        }
        i += 1;
    }
    total
}

// ---------------------------------------------------------------------------
// Where the view stands
// ---------------------------------------------------------------------------

/// The scroll of the same window one frame later: growth since the last
/// measurement folds back into the offset so the window keeps its place.
pub open spec fn absorbed(scroll: int, last: Option<int>, total: int) -> int {
    match last {
        Some(last) => if scroll + (total - last) < 0 {
            0
        } else {
            capped(scroll + (total - last))
        },
        None => scroll,
    }
}

/// Scroll for the same window one frame later: growth since `last` folds back
/// into the offset so the window keeps its place; `None` re-bases.
pub fn absorb_growth(scroll: usize, last: Option<usize>, total: usize) -> (r: usize)
    ensures
        r == absorbed(
            scroll as int,
            match last {
                Some(l) => Some(l as int),
                None => None,
            },
            total as int,
        ),
{
    match last {
        Some(last) => {
            if total >= last {
                scroll.saturating_add(total - last)
            } else {
                scroll.saturating_sub(last - total)
            }
        },
        None => scroll,
    }
}

/// A page keeps a few rows of context at the edge.
pub fn page_scroll_step(height: u16) -> (r: usize)
    ensures
        r == if height >= 5 {
            height - 4
        } else {
            1
        },
{
    if height >= 5 {
        (height - 4) as usize
    } else {
        1
    }
}

/// Half the screen, but at least a row.
pub fn half_scroll_step(height: u16) -> (r: usize)
    ensures
        r == if height >= 2 {
            height as int / 2
        } else {
            1
        },
{
    if height >= 2 {
        (height / 2) as usize
    } else {
        1
    }
}

/// A lane scrolled up or down.
pub open spec fn scrolled(p: PaneView, up: bool, step: int) -> PaneView {
    PaneView {
        scroll: if up {
            capped(p.scroll + step)
        } else if p.scroll >= step {
            p.scroll - step
        } else {
            0
        },
        ..p
    }
}

/// A scroll that a window of `room` rows can be asked for.
pub open spec fn askable(scroll: int, room: int) -> int {
    if scroll + room <= usize::MAX {
        scroll
    } else {
        usize::MAX - room
    }
}

/// The lane measured for a frame: while it is scrolled up, rows the bottom
/// gained since the last measurement fold back into the scroll. A frame whose
/// item counts match the last measurement has not grown.
pub open spec fn measured(p: PaneView, live: int, width: int) -> PaneView {
    let items = (p.rows.len(), live);
    if p.scroll <= 0 {
        PaneView { counted: None, ..p }
    } else {
        let same = p.counted matches Some((sb, lv, _)) && sb == p.rows.len() && lv == live;
        if same {
            p
        } else {
            let total = capped(
                capped(rows_content(p.rows, p.rows.len() as int, width).len() as int) + live,
            );
            let last = match p.counted {
                Some((_, _, t)) => Some(t as int),
                None => None,
            };
            PaneView {
                scroll: absorbed(p.scroll, last, total),
                counted: Some((p.rows.len() as usize, live as usize, total as usize)),
                ..p
            }
        }
    }
}

impl Pane {
    /// Nudge the scrolled history window by `step` rows, up or down.
    pub fn scroll_view(&mut self, up: bool, step: usize)
        requires
            old(self).valid(),
        ensures
            final(self).valid(),
            final(self)@ == scrolled(old(self)@, up, step as int),
    {
        self.scroll = if up {
            self.scroll.saturating_add(step)
        } else {
            self.scroll.saturating_sub(step)
        };
    }

    /// The rows of the history that a frame shows in `room` rows, each with the
    /// row of the scrollback it is of. The scroll is clamped to what there is.
    ///
    /// Measured in rows, not lines: a line wider than the terminal wraps into
    /// several, and counting lines would push the newest ones off the bottom.
    pub fn frame(&mut self, live: &[Line], width: usize, room: usize) -> (r: Vec<
        (Line, Option<usize>),
    >)
        requires
            old(self).valid(),
        ensures
            final(self).valid(),
            ({
                let p = measured(old(self)@, live@.len() as int, width as int);
                let all = content(p.rows, lines_view(live@), width as int);
                let scroll = askable(p.scroll, room as int);
                &&& tagged_view(r@) == shown(all, room as int, scroll)
                &&& final(self)@ == (PaneView {
                    scroll: clamped(all.len() as int, room as int, scroll),
                    ..p
                })
            }),
    {
        let ghost before = self@;
        assert(before.rows.len() == self.scrollback@.len());
        if self.scroll > 0 {
            let items: (usize, usize) = (self.scrollback.len(), live.len());
            let same = match self.counted {
                Some((sb, lv, _)) => sb == items.0 && lv == items.1,
                None => false,
            };
            if !same {
                let total: usize = scrollback_rows(&self.scrollback, width).saturating_add(
                    live.len(),
                );
                let last: Option<usize> = match self.counted {
                    Some((_, _, t)) => Some(t),
                    None => None,
                };
                self.scroll = absorb_growth(self.scroll, last, total);
                self.counted = Some((items.0, items.1, total));
            }
        } else {
            self.counted = None;
        }
        assert(self@ =~= measured(before, live@.len() as int, width as int));
        let pieces = pieces_of(&self.scrollback, live, width);
        let scroll: usize = if self.scroll <= usize::MAX - room {
            self.scroll
        } else {
            usize::MAX - room
        };
        let (rows, back) = window_tagged(pieces, room, scroll);
        self.scroll = back;
        rows
    }
}

// ---------------------------------------------------------------------------
// Laws
// ---------------------------------------------------------------------------

/// While the view is scrolled up, output arriving below leaves the window where
/// it is: what it shows after the growth is absorbed is what it showed before.
pub proof fn law_growth_leaves_the_window_put<T>(
    rows: Seq<(Seq<SpanView>, T)>,
    more: Seq<(Seq<SpanView>, T)>,
    room: int,
    scroll: int,
)
    requires
        room >= 0,
        scroll >= 0,
        scroll + room <= rows.len(),
        rows.len() + more.len() <= usize::MAX,
    ensures
        shown(
            rows + more,
            room,
            absorbed(scroll, Some(rows.len() as int), (rows + more).len() as int),
        ) == shown(rows, room, scroll),
{
    let s = absorbed(scroll, Some(rows.len() as int), (rows + more).len() as int);
    assert(s == scroll + more.len());
    assert(shown(rows + more, room, s) =~= shown(rows, room, scroll));
}

/// Rows that go below the window leave it put as well.
pub proof fn law_rows_gone_below_leave_the_window_put<T>(
    rows: Seq<(Seq<SpanView>, T)>,
    gone: Seq<(Seq<SpanView>, T)>,
    room: int,
    scroll: int,
)
    requires
        room >= 0,
        gone.len() <= scroll,
        scroll + room <= (rows + gone).len(),
        rows.len() + gone.len() <= usize::MAX,
    ensures
        shown(
            rows,
            room,
            absorbed(scroll, Some((rows + gone).len() as int), rows.len() as int),
        ) == shown(rows + gone, room, scroll),
{
    let s = absorbed(scroll, Some((rows + gone).len() as int), rows.len() as int);
    assert(s == scroll - gone.len());
    assert(shown(rows, room, s) =~= shown(rows + gone, room, scroll));
}

/// A row's height is the sum of its lines': the rows that the window walks for
/// it one by one are as many as the row takes whole.
pub proof fn law_a_rows_height_is_the_sum_of_its_lines(r: RowView, i: usize, n: int, width: int)
    ensures
        row_content(r, i, n, width).len() == crate::tui::row::lines_height(r, n, width),
    decreases n,
{
    if n > 0 {
        law_a_rows_height_is_the_sum_of_its_lines(r, i, n - 1, width);
    }
}

} // verus!
