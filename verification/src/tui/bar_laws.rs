//! What the bar, the menu and the fold of reasoning show, stated row by row.

use crate::tui::bar::{
    cropped_cells, label, labels, mark_of, tail, widest_cells, Mark, TabView, Turn,
};
use crate::tui::menu::{
    bottom_up, head_width, help_of, item_form, padded, show_of, CandidateView, MenuView,
};
use crate::tui::row::RowView;
use crate::tui::screen::{cells_columns, Cell};
use crate::tui::thinking::{current_flipped, flipped, newest_block, retired, row_of_block, Thinking};
use crate::width::text_columns;
use vstd::prelude::*;
use vstd::string::*;

verus! {

// ---------------------------------------------------------------------------
// Reasoning
// ---------------------------------------------------------------------------

/// Whether row `i` is the last that is a block of reasoning.
pub open spec fn last_block(rows: Seq<RowView>, i: int) -> bool {
    0 <= i < rows.len() && rows[i] is Reasoning && forall|k: int|
        i < k < rows.len() ==> !(#[trigger] rows[k] is Reasoning)
}

/// Whether row `i` is the last row of the block of an id.
pub open spec fn last_of_block(rows: Seq<RowView>, id: u64, i: int) -> bool {
    0 <= i < rows.len() && rows[i] is Reasoning && rows[i]->block == id && forall|k: int|
        i < k < rows.len() ==> !(#[trigger] rows[k] is Reasoning && rows[k]->block == id)
}

proof fn lemma_newest(rows: Seq<RowView>, i: int)
    requires
        last_block(rows, i),
    ensures
        newest_block(rows) == i,
    decreases rows.len(),
{
    if i < rows.len() - 1 {
        assert(!(rows[rows.len() - 1] is Reasoning));
        let less = rows.drop_last();
        assert(last_block(less, i)) by {
            assert forall|k: int| i < k < less.len() implies !(#[trigger] less[k] is Reasoning) by {
                assert(less[k] == rows[k]);
            }
        }
        lemma_newest(less, i);
    }
}

proof fn lemma_of_block(rows: Seq<RowView>, id: u64, i: int)
    requires
        last_of_block(rows, id, i),
    ensures
        row_of_block(rows, id) == i,
    decreases rows.len(),
{
    if i < rows.len() - 1 {
        assert(!(rows[rows.len() - 1] is Reasoning && rows[rows.len() - 1]->block == id));
        let less = rows.drop_last();
        assert(last_of_block(less, id, i)) by {
            assert forall|k: int| i < k < less.len() implies !(#[trigger] less[k] is Reasoning
                && less[k]->block == id) by {
                assert(less[k] == rows[k]);
            }
        }
        lemma_of_block(less, id, i);
    }
}

/// Whether `after` is `before` with block `i` folded as told, and every other
/// row as it was.
pub open spec fn folds_one(before: Seq<RowView>, after: Seq<RowView>, i: int, to: bool) -> bool {
    &&& after.len() == before.len()
    &&& after[i] is Reasoning && after[i]->Reasoning_folded == to
    &&& after[i]->block == before[i]->block && after[i]->lines == before[i]->lines
    &&& forall|k: int| 0 <= k < before.len() && k != i ==> #[trigger] after[k] == before[k]
}

/// The fold key folds or unfolds the block that streams, and the newest one where
/// none does.
pub proof fn law_the_fold_key_acts_on_the_newest_block(
    t: Thinking,
    rows: Seq<RowView>,
    i: int,
    to: bool,
)
    requires
        match t.streaming {
            Some(id) => last_of_block(rows, id, i),
            None => last_block(rows, i),
        },
    ensures
        folds_one(rows, current_flipped(t, rows, to), i, to),
{
    match t.streaming {
        Some(id) => {
            lemma_of_block(rows, id, i);
        },
        None => {
            lemma_newest(rows, i);
        },
    }
}

/// A block that stops being the newest goes back to how blocks are folded.
pub proof fn law_a_block_that_is_passed_folds_back(t: Thinking, rows: Seq<RowView>, i: int)
    requires
        last_block(rows, i),
    ensures
        folds_one(rows, retired(t, rows), i, t.folded),
{
    lemma_newest(rows, i);
}

/// The switch for all blocks turns over, and the next block is born with it.
pub proof fn law_the_switch_turns_over(t: Thinking)
    ensures
        flipped(t).folded == !t.folded,
        flipped(t).last == !t.folded,
        flipped(t).streaming == t.streaming && flipped(t).next == t.next,
{
}

// ---------------------------------------------------------------------------
// The bar
// ---------------------------------------------------------------------------

proof fn lemma_widest_cells(row: Seq<Cell>, max: int)
    requires
        max >= 0,
    ensures
        ({
            let w = widest_cells(row, max);
            &&& w.len() <= row.len()
            &&& w == row.take(w.len() as int)
            &&& cells_columns(w) <= max
            &&& w.len() < row.len() ==> cells_columns(row.take(w.len() + 1int)) > max
        }),
    decreases row.len(),
{
    assert(cells_columns(Seq::<Cell>::empty()) == 0);
    if cells_columns(row) <= max || row.len() == 0 {
        assert(row.take(row.len() as int) =~= row);
    } else {
        let t = row.drop_last();
        lemma_widest_cells(t, max);
        let w = widest_cells(t, max);
        assert(t.take(w.len() as int) =~= row.take(w.len() as int));
        if w.len() < t.len() {
            assert(t.take(w.len() + 1int) =~= row.take(w.len() + 1int));
        } else {
            assert(row.take(w.len() + 1int) =~= row);
        }
    }
}

/// A row that is too wide is cut to all that leaves room for an ellipsis; any
/// other stays.
pub proof fn law_a_wide_row_is_cut_for_an_ellipsis(row: Seq<Cell>, width: int)
    requires
        width >= 1,
    ensures
        cells_columns(row) <= width ==> cropped_cells(row, width) == row,
        cells_columns(row) > width ==> {
            let c = cropped_cells(row, width);
            let n = c.len() - 1;
            &&& n >= 0 && n < row.len()
            &&& c[n].0 == '…'
            &&& c.take(n) == row.take(n)
            &&& cells_columns(row.take(n)) <= width - 1
            &&& cells_columns(row.take(n + 1)) > width - 1
        },
{
    if cells_columns(row) > width {
        lemma_widest_cells(row, width - 1);
        let w = widest_cells(row, width - 1);
        let c = cropped_cells(row, width);
        assert(c.take(c.len() - 1) =~= w);
        if w.len() == row.len() {
            assert(w =~= row);
        }
    }
}

/// The bar names every lane, in order, with a dot between each two; the one in
/// front plain, one that ended with how it ended, one at work with its spinner.
pub proof fn law_the_bar_names_every_lane(tabs: Seq<TabView>, spinner: int, n: int)
    requires
        0 <= n <= tabs.len(),
    ensures
        ({
            let all = labels(tabs, spinner, n);
            &&& all.len() == if n == 0 {
                0
            } else {
                2 * n - 1
            }
            &&& forall|i: int| 0 <= i < n ==> #[trigger] label(tabs[i], spinner) == all[2 * i]
            &&& forall|i: int| 0 <= i < n ==> label(#[trigger] tabs[i], spinner).content.len()
                >= tabs[i].name.len() && label(tabs[i], spinner).content.skip(
                label(tabs[i], spinner).content.len() - tabs[i].name.len(),
            ) == tabs[i].name
        }),
    decreases n,
{
    if n > 0 {
        law_the_bar_names_every_lane(tabs, spinner, n - 1);
        let less = labels(tabs, spinner, n - 1);
        let all = labels(tabs, spinner, n);
        assert forall|i: int| 0 <= i < n implies #[trigger] label(tabs[i], spinner) == all[2 * i] by {
            if i < n - 1 {
                assert(less[2 * i] == all[2 * i]);
            }
        }
        assert forall|i: int| 0 <= i < n implies label(#[trigger] tabs[i], spinner).content.len()
            >= tabs[i].name.len() && label(tabs[i], spinner).content.skip(
            label(tabs[i], spinner).content.len() - tabs[i].name.len(),
        ) == tabs[i].name by {
            let c = label(tabs[i], spinner).content;
            assert(c.skip(c.len() - tabs[i].name.len()) =~= tabs[i].name);
        }
    }
}

/// A lane is marked by how it stands, the one in front aside: at work, ended well
/// or badly, or idle; and the marks tell them apart.
pub proof fn law_a_lane_is_marked_by_how_it_stands(name: Seq<char>, spinner: int)
    ensures
        mark_of(true, Turn::Running) == Mark::Front,
        mark_of(false, Turn::Running) == Mark::Running,
        mark_of(false, Turn::Ended { ok: true }) == Mark::Done,
        mark_of(false, Turn::Ended { ok: false }) == Mark::Failed,
        mark_of(false, Turn::Idle) == Mark::Idle,
        label(TabView { mark: Mark::Done, name }, spinner).content[0] == '✓',
        label(TabView { mark: Mark::Failed, name }, spinner).content[0] == '✗',
        label(TabView { mark: Mark::Front, name }, spinner).content == name,
        label(TabView { mark: Mark::Front, name }, spinner).style != label(
            TabView { mark: Mark::Idle, name },
            spinner,
        ).style,
{
}

/// Where not all rows fit, the last ones are shown.
pub proof fn law_the_last_rows_are_kept<A>(rows: Seq<A>, n: int)
    requires
        n >= 0,
    ensures
        rows.len() <= n ==> tail(rows, n) == rows,
        rows.len() > n ==> tail(rows, n).len() == n && forall|i: int|
            0 <= i < n ==> #[trigger] tail(rows, n)[i] == rows[rows.len() - n + i],
{
}

// ---------------------------------------------------------------------------
// The menu
// ---------------------------------------------------------------------------

/// The best candidate stands at the bottom of the menu, next to the line, and the
/// others above it in turn.
pub proof fn law_the_best_candidate_is_next_to_the_line(v: Seq<CandidateView>)
    ensures
        bottom_up(v).len() == v.len(),
        v.len() > 0 ==> bottom_up(v).last() == MenuView::Completion(v[0]) && bottom_up(v)[0]
            == MenuView::Completion(v.last()),
        forall|i: int, j: int|
            0 <= i < v.len() && 0 <= j < v.len() && i + j == v.len() - 1 ==> #[trigger] bottom_up(v)[i]
                == MenuView::Completion(#[trigger] v[j]),
{
}

/// What the entries say lines up: the column is as wide as the widest name, and
/// every name is filled up to it.
pub proof fn law_the_menu_lines_up(menu: Seq<MenuView>, n: int)
    requires
        0 <= n <= menu.len(),
    ensures
        forall|i: int| 0 <= i < n ==> text_columns(show_of(#[trigger] menu[i])) <= head_width(menu, n),
        n > 0 ==> exists|i: int|
            0 <= i < n && text_columns(show_of(#[trigger] menu[i])) == head_width(menu, n),
        forall|i: int|
            0 <= i < n ==> {
                let name = show_of(#[trigger] menu[i]);
                let filled = padded(name, head_width(menu, n));
                &&& filled.len() - name.len() == head_width(menu, n) - text_columns(name)
                &&& filled.take(name.len() as int) == name
                &&& forall|k: int| name.len() <= k < filled.len() ==> #[trigger] filled[k] == ' '
                &&& item_form(menu[i], head_width(menu, n)) == "  "@ + filled + "  "@ + help_of(
                    menu[i],
                )
            },
    decreases n,
{
    if n > 0 {
        law_the_menu_lines_up(menu, n - 1);
        let rest = head_width(menu, n - 1);
        let all = head_width(menu, n);
        assert forall|i: int| 0 <= i < n implies text_columns(show_of(#[trigger] menu[i])) <= all by {}
        if n > 1 && all == rest {
            let i = choose|i: int|
                0 <= i < n - 1 && text_columns(show_of(#[trigger] menu[i])) == rest;
            assert(text_columns(show_of(menu[i])) == all);
        } else {
            assert(text_columns(show_of(menu[n - 1])) == all);
        }
        assert forall|i: int| 0 <= i < n implies {
            let name = show_of(#[trigger] menu[i]);
            let filled = padded(name, all);
            &&& filled.len() - name.len() == all - text_columns(name)
            &&& filled.take(name.len() as int) == name
            &&& forall|k: int| name.len() <= k < filled.len() ==> #[trigger] filled[k] == ' '
            &&& item_form(menu[i], all) == "  "@ + filled + "  "@ + help_of(menu[i])
        } by {
            let name = show_of(menu[i]);
            assert(padded(name, all).take(name.len() as int) =~= name);
        }
    }
}

} // verus!
