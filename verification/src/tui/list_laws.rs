//! What a list with a cursor shows and where the cursor goes, stated row by row.

use crate::tui::settings::{list_row, masked, one_down, one_up, panel_rows, place_of, PanelView};
use crate::tui::shelf::{kept_on, shelf_row, shelf_rows, ShelfView};
use vstd::prelude::*;
use vstd::string::*;

verus! {

/// A step goes to the next row, and stays on the last and on the first.
pub proof fn law_a_step_goes_one_row(at: int, n: int)
    requires
        0 <= at < n,
    ensures
        at < n - 1 ==> one_down(at, n) == at + 1,
        at == n - 1 ==> one_down(at, n) == at,
        at > 0 ==> one_up(at) == at - 1,
        at == 0 ==> one_up(at) == 0,
        at < n - 1 ==> one_up(one_down(at, n)) == at,
        at > 0 ==> one_down(one_up(at), n) == at,
        kept_on(at, n) == at,
{
}

/// A cursor that has lost its row goes to the last one.
pub proof fn law_a_lost_cursor_goes_to_the_last_row(at: int, n: int)
    requires
        0 < n <= at,
    ensures
        kept_on(at, n) == n - 1,
{
}

/// A refreshed list finds the row again by its path, the first of that path; and
/// goes to the top where the path is gone.
pub proof fn law_a_refreshed_list_finds_the_row_again(
    rows: Seq<(Seq<char>, Seq<char>)>,
    path: Seq<char>,
    from: int,
)
    requires
        0 <= from <= rows.len(),
    ensures
        ({
            let at = place_of(rows, path, from);
            &&& (exists|k: int| from <= k < rows.len() && (#[trigger] rows[k]).0 == path) ==> from <= at
                < rows.len() && rows[at].0 == path && forall|k: int|
                from <= k < at ==> (#[trigger] rows[k]).0 != path
            &&& !(exists|k: int| from <= k < rows.len() && (#[trigger] rows[k]).0 == path) ==> at == 0
        }),
    decreases rows.len() - from,
{
    if from < rows.len() && rows[from].0 != path {
        law_a_refreshed_list_finds_the_row_again(rows, path, from + 1);
        if exists|k: int| from <= k < rows.len() && (#[trigger] rows[k]).0 == path {
            let k = choose|k: int| from <= k < rows.len() && (#[trigger] rows[k]).0 == path;
            assert(from + 1 <= k);
        }
    } else if from < rows.len() {
        assert(rows[from].0 == path);
    }
}

/// A setting is shown as its path and its value; a key only as set or not; and
/// the one being edited as a mark in place of its value. The row the cursor is on
/// is marked, and no other.
pub proof fn law_a_setting_row_says_what_is_set(p: PanelView, i: int)
    requires
        0 <= i < p.rows.len(),
    ensures
        ({
            let row = list_row(p, i);
            let (path, value) = p.rows[i];
            let open = p.editing is Some && i == p.at;
            &&& (row[0] == '›') == (i == p.at)
            &&& (row[0] == ' ') == (i != p.at)
            &&& row.skip(2) == path + " = "@ + (if open {
                "…"@
            } else {
                masked(path, value)
            })
        }),
{
    reveal_strlit("›");
    reveal_strlit(" ");
    reveal_strlit(" = ");
    let row = list_row(p, i);
    let (path, value) = p.rows[i];
    let open = p.editing is Some && i == p.at;
    let shown = if open {
        "…"@
    } else {
        masked(path, value)
    };
    assert(row.skip(2) =~= path + " = "@ + shown);
}

/// A value is shown as it is under any path but one that ends in `api_key`.
pub proof fn law_only_a_key_is_masked(table: Seq<char>, leaf: Seq<char>, value: Seq<char>)
    requires
        forall|i: int| 0 <= i < leaf.len() ==> #[trigger] leaf[i] != '.',
    ensures
        leaf != "api_key"@ ==> masked(table + seq!['.'] + leaf, value) == value,
        leaf == "api_key"@ && value.len() > 0 ==> masked(table + seq!['.'] + leaf, value) == "<set>"@,
        leaf == "api_key"@ && value.len() == 0 ==> masked(table + seq!['.'] + leaf, value)
            == "<unset>"@,
{
    let path = table + seq!['.'] + leaf;
    crate::text::lemma_last_index_of(path, '.');
    let at = crate::text::last_index_of(path, '.');
    assert(path[table.len() as int] == '.');
    if at > table.len() {
        assert(path[at] == leaf[at - table.len() - 1]);
    }
    assert(path.skip(at + 1) =~= leaf);
}

/// A panel shows a row for each setting, the editor below them while one is
/// edited, and what was refused at the very end.
pub proof fn law_a_panel_shows_its_settings(p: PanelView, width: int)
    ensures
        ({
            let rows = panel_rows(p, width);
            let typed = match p.editing {
                Some(e) => crate::tui::editor::painted(e, width),
                None => Seq::empty(),
            };
            let n = p.rows.len() as int;
            &&& rows.len() == n + typed.len() + (if p.error is Some {
                1int
            } else {
                0
            })
            &&& forall|i: int| 0 <= i < n ==> #[trigger] rows[i] == list_row(p, i)
            &&& rows.subrange(n, (n + typed.len()) as int) == typed
            &&& p.error matches Some(why) ==> rows.last() == "  ✗ "@ + why
        }),
{
    let rows = panel_rows(p, width);
    let typed = match p.editing {
        Some(e) => crate::tui::editor::painted(e, width),
        None => Seq::empty(),
    };
    assert(rows.subrange(p.rows.len() as int, (p.rows.len() + typed.len()) as int) =~= typed);
}

/// A note is shown with its day, the one being rewritten as a mark, the one the
/// cursor is on marked and no other; and an empty shelf says how to fill it.
pub proof fn law_a_note_row_says_what_is_kept(p: ShelfView, i: int, width: int)
    ensures
        p.rows.len() == 0 ==> shelf_rows(p, width).len() == 1,
        0 <= i < p.rows.len() ==> {
            let row = shelf_row(p, i);
            let open = p.editing is Some && i == p.at;
            &&& shelf_rows(p, width)[i] == row
            &&& (row[0] == '›') == (i == p.at)
            &&& (row[0] == ' ') == (i != p.at)
            &&& row.skip(2) == p.rows[i].day + "  "@ + (if open {
                "…"@
            } else {
                p.rows[i].text
            })
        },
{
    reveal_strlit("›");
    reveal_strlit(" ");
    reveal_strlit("  ");
    if 0 <= i < p.rows.len() {
        let row = shelf_row(p, i);
        let open = p.editing is Some && i == p.at;
        let shown = if open {
            "…"@
        } else {
            p.rows[i].text
        };
        assert(row.skip(2) =~= p.rows[i].day + "  "@ + shown);
    }
}

} // verus!
