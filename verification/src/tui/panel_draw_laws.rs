//! How the settings panel is drawn, stated row by row.

use crate::text::capped;
use crate::tui::line::{one_span, plain_style, Role};
use crate::tui::panel::{
    edit_caret, edit_laid, edit_rows, panel_caret, panel_drawn, row_drawn, rows_drawn, Edited,
    PanelView,
};
use crate::tui::screen::fitted;
use crate::tui::settings::masked;
use crate::width::{columns, row_columns};
use vstd::prelude::*;

verus! {

/// What wrapped rows hold: the rows one after another, without the indent of all
/// but the first.
pub open spec fn unwrapped(rows: Seq<Seq<char>>, lead: int) -> Seq<char>
    decreases rows.len(),
{
    if rows.len() == 0 {
        Seq::empty()
    } else if rows.len() == 1 {
        rows[0]
    } else {
        unwrapped(rows.drop_last(), lead) + rows.last().skip(lead)
    }
}

/// Whether a row is indented by `lead` blanks and has something behind them.
pub open spec fn indented(row: Seq<char>, lead: int) -> bool {
    row.len() > lead && forall|i: int| 0 <= i < lead ==> #[trigger] row[i] == ' '
}

/// Whether the caret, on row `r` at column `c`, stands in front of the `p`-th
/// character of that row, with `front` before it.
pub open spec fn caret_behind(
    rows: Seq<Seq<char>>,
    lead: int,
    front: Seq<char>,
    r: int,
    c: int,
    p: int,
) -> bool {
    &&& 0 <= r < rows.len()
    &&& 0 <= p <= rows[r].len()
    &&& r > 0 ==> lead <= p
    &&& c == row_columns(rows[r].take(p))
    &&& front == unwrapped(rows.take(r), lead) + (if r == 0 {
        rows[r].take(p)
    } else {
        rows[r].subrange(lead, p)
    })
}

proof fn lemma_unwrapped_push(rows: Seq<Seq<char>>, row: Seq<char>, lead: int)
    ensures
        unwrapped(rows.push(row), lead) == unwrapped(rows, lead) + (if rows.len() == 0 {
            row
        } else {
            row.skip(lead)
        }),
{
    assert(rows.push(row).drop_last() =~= rows);
    if rows.len() == 0 {
        assert(unwrapped(rows, lead) + row =~= row);
    }
}

proof fn lemma_columns_push(row: Seq<char>, c: char)
    ensures
        row_columns(row.push(c)) == row_columns(row) + columns(c),
        columns(c) >= 0,
{
    assert(row.push(c).drop_last() =~= row);
}

proof fn lemma_blanks(n: nat)
    ensures
        row_columns(Seq::new(n, |i: int| ' ')) == n,
    decreases n,
{
    let s = Seq::new(n, |i: int| ' ');
    if n > 0 {
        let less = Seq::new((n - 1) as nat, |i: int| ' ');
        lemma_blanks((n - 1) as nat);
        lemma_columns_push(less, ' ');
        assert(s =~= less.push(' '));
        assert(columns(' ') == 1);
    } else {
        assert(s =~= Seq::empty());
    }
}

proof fn lemma_columns_grow(line: Seq<char>, n: int)
    requires
        0 <= n <= line.len(),
    ensures
        0 <= row_columns(line.take(n)) <= row_columns(line),
    decreases line.len(),
{
    if n < line.len() {
        lemma_columns_grow(line.drop_last(), n);
        assert(line.drop_last().take(n) =~= line.take(n));
        lemma_columns_push(line.drop_last(), line.last());
        assert(line.drop_last().push(line.last()) =~= line);
    } else {
        assert(line.take(n) =~= line);
        if n > 0 {
            lemma_columns_grow(line.drop_last(), n - 1);
            assert(line.drop_last().take(n - 1) =~= line.drop_last());
            lemma_columns_push(line.drop_last(), line.last());
            assert(line.drop_last().push(line.last()) =~= line);
        }
    }
}

/// What stands after `n` characters.
spec fn well_laid(e: Edited, line: Seq<char>, lead: int, width: int, n: int) -> bool {
    let all = e.rows.push(e.row);
    &&& unwrapped(all, lead) == line.take(n)
    &&& e.used == row_columns(e.row)
    &&& 0 <= e.used <= lead + row_columns(line.take(n))
    &&& n > 0 ==> e.row.len() > 0
    &&& n == 0 ==> e.rows.len() == 0 && e.row.len() == 0
    &&& forall|k: int| 0 < k < all.len() ==> indented(#[trigger] all[k], lead)
    &&& forall|j: int, k: int|
        0 <= j && k == j + 1 && k < all.len() ==> row_columns(#[trigger] all[j]) + columns(
            (#[trigger] all[k])[lead],
        ) > width
}

proof fn lemma_laid(line: Seq<char>, lead: int, caret: int, width: int, n: int)
    requires
        0 <= n <= line.len(),
        0 <= lead,
        lead + row_columns(line) <= usize::MAX,
    ensures
        well_laid(edit_laid(line, lead, caret, width, n), line, lead, width, n),
    decreases n,
{
    let now = edit_laid(line, lead, caret, width, n);
    let all = now.rows.push(now.row);
    if n == 0 {
        assert(all.drop_last() =~= Seq::empty());
        assert(line.take(0) =~= Seq::empty());
        assert(unwrapped(all, lead) =~= Seq::empty());
        assert(row_columns(Seq::<char>::empty()) == 0);
    } else {
        lemma_laid(line, lead, caret, width, n - 1);
        let e = edit_laid(line, lead, caret, width, n - 1);
        let c = line[n - 1];
        let were = e.rows.push(e.row);
        let blanks = Seq::new(lead as nat, |i: int| ' ');
        lemma_blanks(lead as nat);
        lemma_columns_grow(line, n);
        assert(line.take(n - 1).push(c) =~= line.take(n));
        lemma_columns_push(line.take(n - 1), c);
        lemma_columns_push(e.row, c);
        lemma_columns_push(blanks, c);
        lemma_columns_grow(line, n - 1);
        lemma_unwrapped_push(e.rows, e.row, lead);
        lemma_unwrapped_push(now.rows, now.row, lead);
        if e.used + columns(c) > width && e.row.len() > 0 {
            assert(now.rows == were);
            assert(now.row == blanks.push(c));
            assert(blanks.push(c).skip(lead) =~= seq![c]);
            assert(unwrapped(all, lead) =~= line.take(n));
            assert forall|k: int| 0 < k < all.len() implies indented(#[trigger] all[k], lead) by {
                if k < were.len() {
                    assert(all[k] == were[k]);
                }
            }
            assert forall|j: int, k: int| 0 <= j && k == j + 1 && k < all.len() implies row_columns(
                #[trigger] all[j],
            ) + columns((#[trigger] all[k])[lead]) > width by {
                if k < were.len() {
                    assert(all[k] == were[k]);
                    assert(all[j] == were[j]);
                } else {
                    assert(all[j] == e.row);
                    assert(all[k][lead] == c);
                }
            }
        } else {
            assert(now.rows == e.rows);
            assert(now.row == e.row.push(c));
            if e.rows.len() > 0 {
                assert(indented(were[e.rows.len() as int], lead));
                assert(e.row.push(c).skip(lead) =~= e.row.skip(lead).push(c));
            }
            assert(unwrapped(all, lead) =~= line.take(n));
            assert forall|k: int| 0 < k < all.len() implies indented(#[trigger] all[k], lead) by {
                assert(indented(were[k], lead));
                if k < e.rows.len() {
                    assert(all[k] == were[k]);
                } else {
                    assert(were[k] == e.row);
                    assert forall|i: int| 0 <= i < lead implies #[trigger] all[k][i] == ' ' by {
                        assert(were[k][i] == ' ');
                    }
                }
            }
            assert forall|j: int, k: int| 0 <= j && k == j + 1 && k < all.len() implies row_columns(
                #[trigger] all[j],
            ) + columns((#[trigger] all[k])[lead]) > width by {
                assert(indented(were[k], lead));
                assert(all[j] == were[j]);
                assert(all[k][lead] == were[k][lead]);
            }
        }
    }
}

proof fn lemma_caret(line: Seq<char>, lead: int, caret: int, width: int, n: int) -> (p: int)
    requires
        0 <= caret < n <= line.len(),
        0 <= lead,
        lead + row_columns(line) <= usize::MAX,
    ensures
        ({
            let e = edit_laid(line, lead, caret, width, n);
            let all = e.rows.push(e.row);
            &&& caret_behind(all, lead, line.take(caret), e.caret.0, e.caret.1, p)
            &&& p < all[e.caret.0].len()
        }),
    decreases n,
{
    let now = edit_laid(line, lead, caret, width, n);
    let all = now.rows.push(now.row);
    let e = edit_laid(line, lead, caret, width, n - 1);
    let were = e.rows.push(e.row);
    let (r, c) = now.caret;
    lemma_laid(line, lead, caret, width, n - 1);
    if n - 1 == caret {
        let p = now.row.len() - 1;
        let row = now.row.take(p);
        lemma_blanks(lead as nat);
        assert(all[r] == now.row);
        assert(all.take(r) =~= now.rows);
        lemma_unwrapped_push(e.rows, e.row, lead);
        if now.rows == e.rows && now.row == e.row.push(line[n - 1]) {
            assert(row =~= e.row);
            if r == 0 {
                assert(unwrapped(now.rows, lead) + row =~= line.take(caret));
            } else {
                assert(indented(were[e.rows.len() as int], lead));
                assert(now.row.subrange(lead, p) =~= e.row.skip(lead));
            }
        } else {
            assert(row =~= Seq::new(lead as nat, |i: int| ' '));
            assert(now.row.subrange(lead, p) =~= Seq::empty());
            assert(unwrapped(were, lead) + Seq::<char>::empty() =~= line.take(caret));
        }
        p
    } else {
        let p = lemma_caret(line, lead, caret, width, n - 1);
        assert(now.caret == e.caret);
        assert(all.take(r) =~= were.take(r));
        assert(all[r].take(p) =~= were[r].take(p));
        if r > 0 {
            assert(all[r].subrange(lead, p) =~= were[r].subrange(lead, p));
        }
        p
    }
}

/// The line being rewritten is shown whole, on rows that are broken only where
/// the next character no longer fits; all but the first are indented under what
/// the line starts with. The caret stands in front of its character, on that
/// character's row, or behind the last one.
pub proof fn law_the_rewritten_line_is_wrapped(
    line: Seq<char>,
    lead: int,
    caret: int,
    width: int,
)
    requires
        0 <= lead,
        0 <= caret <= line.len(),
        lead + row_columns(line) <= usize::MAX,
    ensures
        ({
            let rows = edit_rows(line, lead, caret, width);
            let at = edit_caret(line, lead, caret, width);
            &&& unwrapped(rows, lead) == line
            &&& forall|k: int| 0 < k < rows.len() ==> indented(#[trigger] rows[k], lead)
            &&& forall|j: int, k: int|
                0 <= j && k == j + 1 && k < rows.len() ==> row_columns(#[trigger] rows[j])
                    + columns((#[trigger] rows[k])[lead]) > width
            &&& exists|p: int|
                #[trigger] caret_behind(rows, lead, line.take(caret), at.0, at.1, p) && (caret
                    < line.len() ==> p < rows[at.0].len())
        }),
{
    let n = line.len() as int;
    lemma_laid(line, lead, caret, width, n);
    assert(line.take(n) =~= line);
    let e = edit_laid(line, lead, caret, width, n);
    let rows = edit_rows(line, lead, caret, width);
    let at = edit_caret(line, lead, caret, width);
    if caret < n {
        let p = lemma_caret(line, lead, caret, width, n);
        assert(caret_behind(rows, lead, line.take(caret), at.0, at.1, p));
    } else {
        let p = e.row.len() as int;
        assert(rows.take(at.0) =~= e.rows);
        assert(e.row.take(p) =~= e.row);
        lemma_unwrapped_push(e.rows, e.row, lead);
        if at.0 > 0 {
            assert(indented(rows[at.0], lead));
            assert(e.row.subrange(lead, p) =~= e.row.skip(lead));
        }
        assert(caret_behind(rows, lead, line.take(caret), at.0, at.1, p));
    }
}

/// A row of the panel says its path, its value and whether it was changed, with
/// the cursor in front of the one it is on; the row being rewritten shows what
/// was typed so far in place of the value.
pub proof fn law_a_panel_row_says_its_setting(p: PanelView, i: int, mark: Seq<char>, width: int)
    requires
        0 <= i < p.rows.len(),
    ensures
        ({
            let s = p.rows[i];
            let said = s.path + seq![' ', '=', ' '];
            let drawn = row_drawn(p, i, mark, width);
            let value = masked(s.path, s.value);
            let tail = if s.changed {
                seq![' '] + mark
            } else {
                Seq::empty()
            };
            &&& i != p.at ==> drawn == fitted(
                one_span(seq![' ', ' '] + said + value + tail, plain_style(Role::Plain)),
                width,
            )
            &&& i == p.at && p.editing is None ==> drawn == fitted(
                one_span(seq!['›', ' '] + said + value + tail, plain_style(Role::Selected)),
                width,
            )
            &&& i == p.at && p.editing is Some ==> {
                let lead = seq!['›', ' '] + said;
                let e = p.editing->Some_0;
                let rows = edit_rows(
                    lead + e.text,
                    capped(row_columns(lead)),
                    lead.len() + e.caret,
                    width,
                );
                &&& drawn.len() == rows.len()
                &&& forall|k: int|
                    0 <= k < rows.len() ==> #[trigger] drawn[k] == one_span(
                        rows[k],
                        plain_style(Role::Input),
                    )
            }
        }),
{
    reveal_strlit("›");
    reveal_strlit(" ");
    reveal_strlit(" = ");
    let s = p.rows[i];
    let said = s.path + seq![' ', '=', ' '];
    let value = masked(s.path, s.value);
    let tail = if s.changed {
        seq![' '] + mark
    } else {
        Seq::empty()
    };
    assert(" "@ + mark =~= seq![' '] + mark);
    assert(" "@ + " "@ + (s.path + " = "@ + value + tail) =~= seq![' ', ' '] + said + value + tail);
    assert("›"@ + " "@ + (s.path + " = "@ + value + tail) =~= seq!['›', ' '] + said + value
        + tail);
    assert("›"@ + " "@ + s.path + " = "@ =~= seq!['›', ' '] + said);
}

proof fn lemma_rows_lead(p: PanelView, i: int, n: int, mark: Seq<char>, width: int)
    requires
        0 <= i <= n,
    ensures
        rows_drawn(p, i, mark, width).len() <= rows_drawn(p, n, mark, width).len(),
        rows_drawn(p, n, mark, width).take(rows_drawn(p, i, mark, width).len() as int)
            == rows_drawn(p, i, mark, width),
    decreases n,
{
    let a = rows_drawn(p, i, mark, width);
    let b = rows_drawn(p, n, mark, width);
    if i < n {
        lemma_rows_lead(p, i, n - 1, mark, width);
        let c = rows_drawn(p, n - 1, mark, width);
        assert(b.take(a.len() as int) =~= c.take(a.len() as int));
    } else {
        assert(b.take(a.len() as int) =~= a);
    }
}

/// The rows of the panel are drawn one under another, in order, and then what was
/// refused; the last rows say which keys there are. The caret is on the rows of
/// the line being rewritten, and there is one only then.
pub proof fn law_the_panel_is_drawn_in_order(
    p: PanelView,
    i: int,
    mark: Seq<char>,
    note: Seq<char>,
    width: int,
)
    requires
        0 <= i < p.rows.len(),
    ensures
        ({
            let drawn = panel_drawn(p, mark, note, width);
            let n = p.rows.len() as int;
            let top = rows_drawn(p, i, mark, width).len() as int;
            let below = rows_drawn(p, i + 1, mark, width).len() as int;
            let end = rows_drawn(p, n, mark, width).len() as int;
            let keys = if p.editing is None {
                "  normal"@ + note + "j/k move · i edit · space write file · r revert · q close"@
            } else if p.escape is None {
                "  insert"@ + note + "enter"@ + " keeps · esc discards"@
            } else {
                "  insert"@ + note + ("enter or "@ + seq![
                    p.escape->Some_0.0,
                    p.escape->Some_0.1,
                ]) + " keeps · esc discards"@
            };
            let foot = fitted(one_span(keys, plain_style(Role::Plain)), width);
            &&& rows_drawn(p, 0, mark, width).len() == 0
            &&& 0 <= top <= below <= end <= drawn.len()
            &&& drawn.subrange(top, below) == row_drawn(p, i, mark, width)
            &&& p.refused is None ==> drawn.skip(end) == foot
            &&& p.refused is Some ==> drawn.skip(end) == fitted(
                one_span("  ✗ "@ + p.refused->Some_0, plain_style(Role::Plain)),
                width,
            ) + foot
            &&& panel_caret(p, mark, width) is Some <==> p.editing is Some && 0 <= p.at < n
            &&& panel_caret(p, mark, width) is Some && p.at == i ==> {
                let lead = seq!['›', ' '] + p.rows[i].path + seq![' ', '=', ' '];
                let e = p.editing->Some_0;
                let at = edit_caret(
                    lead + e.text,
                    capped(row_columns(lead)),
                    lead.len() + e.caret,
                    width,
                );
                panel_caret(p, mark, width)->Some_0 == (top + at.0, at.1)
            }
        }),
{
    reveal_strlit("›");
    reveal_strlit(" ");
    reveal_strlit(" = ");
    let drawn = panel_drawn(p, mark, note, width);
    let n = p.rows.len() as int;
    let all = rows_drawn(p, n, mark, width);
    let upto = rows_drawn(p, i + 1, mark, width);
    let top = rows_drawn(p, i, mark, width).len() as int;
    let below = upto.len() as int;
    lemma_rows_lead(p, i, i + 1, mark, width);
    lemma_rows_lead(p, i + 1, n, mark, width);
    assert(drawn.take(all.len() as int) =~= all);
    assert forall|k: int| top <= k < below implies drawn[k] == upto[k] by {
        assert(all.take(below)[k] == upto[k]);
    }
    assert(drawn.subrange(top, below) =~= upto.subrange(top, below));
    assert(upto.subrange(top, below) =~= row_drawn(p, i, mark, width));
    assert("›"@ + " "@ + p.rows[i].path + " = "@ =~= seq!['›', ' '] + p.rows[i].path + seq![
        ' ',
        '=',
        ' ',
    ]);
    let foot = fitted(
        one_span(crate::tui::panel::footer(p, note), plain_style(Role::Plain)),
        width,
    );
    if p.refused is None {
        assert(drawn.skip(all.len() as int) =~= foot);
    } else {
        assert(drawn.skip(all.len() as int) =~= fitted(
            one_span("  ✗ "@ + p.refused->Some_0, plain_style(Role::Plain)),
            width,
        ) + foot);
    }
}

} // verus!
