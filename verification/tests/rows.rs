use pi::tui::line::{Line, Role, Style};
use pi::tui::row::{FoldedTool, FoldedTools, Row};
use pi::tui::screen::{fit, place, rows_within, strip, usable, window, wrap};
use pi::tui::scroll::ScrollbackRows;
use pi::tui::status::frame;

fn said(text: &str) -> Line {
    Line::of(text, Style::of(Role::Plain))
}

fn tool(name: &str, preview: &str) -> FoldedTool {
    FoldedTool { name: name.to_string(), preview: preview.to_string() }
}

fn bundle(tools: Vec<FoldedTool>) -> FoldedTools {
    let mut it = tools.into_iter();
    let first = it.next().expect("a bundle holds at least one tool");
    let mut bundle = FoldedTools::new(first);
    for tool in it {
        bundle.push(tool);
    }
    bundle
}

// A running summary row must replace its frame as the spinner advances.
#[test]
fn a_running_summary_row_advances_through_the_paint_cache() {
    let mut row = Row::tools_summary(bundle(vec![tool("read", "a.rs")]));

    row.update_hover_state(true, false, 0);
    let f0 = row.line(0, 80).0.plain();
    row.update_hover_state(true, false, 1);
    let f1 = row.line(0, 80).0.plain();

    assert!(f0.starts_with(&format!("{} read a.rs", frame(0))), "got: {f0}");
    assert!(f1.starts_with(&format!("{} read a.rs", frame(1))), "got: {f1}");
    assert_ne!(f0, f1, "the running frame must advance, not freeze");
}

#[test]
fn unfolded_tools_summary_shows_all_tools() {
    let tools = bundle(vec![
        tool("read", "crates/agent/src/session.rs"),
        tool("grep", "match 1"),
    ]);
    let mut row = Row::tools_summary(tools);
    assert_eq!(row.len(), 1);

    assert!(row.toggle_expand());
    assert_eq!(row.len(), 3);

    assert!(row.toggle_expand());
    assert_eq!(row.len(), 1);
}

#[test]
fn a_single_tool_summary_never_unfolds() {
    let mut row = Row::tools_summary(bundle(vec![tool("read", "a.rs")]));
    assert!(!row.is_expandable());
    assert!(!row.toggle_expand());
    assert_eq!(row.len(), 1);
}

#[test]
fn result_with_many_diff_lines_expands_and_collapses() {
    let mut preview = "crates/foo.rs +30 -0".to_string();
    for i in 1..=30 {
        preview.push_str(&format!("\n  {i} + line {i}"));
    }
    let mut row = Row::result(true, "edit".into(), preview);
    assert_eq!(row.len(), 26);

    assert!(row.toggle_expand());
    assert_eq!(row.len(), 32);

    assert!(row.toggle_expand());
    assert_eq!(row.len(), 26);
}

// The window reads one line's height at a time to pass over the rows a scrolled
// view does not show, while the view's own accounting reads the row whole. The
// two have to agree about where a row ends, whichever was asked first and at
// whichever width.
#[test]
fn a_rows_height_is_the_sum_of_its_lines() {
    let row = Row::reasoning(1, vec![said("abcdef"), said("gh")], false);
    for width in [2usize, 4, 80] {
        let sum: usize = (0..row.len()).map(|i| row.line_height(i, width)).sum();
        assert_eq!(Some(sum), row.height(width), "at width {width}");
    }
    // Asked a whole row at a time, then one line at a time: same answer.
    let fresh = Row::reasoning(1, vec![said("abcdef"), said("gh")], false);
    assert_eq!(fresh.height(2), Some(4), "three rows and one");
    assert_eq!(fresh.line_height(0, 2), 3, "abcdef wraps to three");
    assert_eq!(fresh.line_height(1, 2), 1);
    assert_eq!(fresh.height(2), Some(4));
}

#[test]
fn a_batch_keeps_its_latest_tool_and_its_count() {
    let mut row = Row::tools_summary(bundle(vec![tool("read", "a.rs")]));
    assert!(row.push_tool("grep".into(), "b".into()));
    assert_eq!(row.line(0, 80).0.plain(), "✓ grep b …2");
    row.toggle_expand();
    assert_eq!(row.line(0, 80).0.plain(), "✓ grep b");
    assert_eq!(row.line(1, 80).0.plain(), "  read a.rs");
    assert_eq!(row.line(2, 80).0.plain(), "  grep b");
}

#[test]
fn a_result_is_drawn_again_when_the_window_changes() {
    let mut row = Row::result(true, "edit".into(), "head\n  12 + x".into());
    assert_eq!(row.len(), 2, "head plus the one diff row");
    assert!(row.awaits_paint(40));
    row.paint(40, vec![said("head"), said("  12")]);
    assert!(!row.awaits_paint(40));
    assert_eq!(row.line(1, 40).0.plain(), "  12");
    assert!(row.awaits_paint(160), "another width is another drawing");
    row.paint(160, vec![said("head"), said("  12 + x")]);
    assert_eq!(row.line(1, 160).0.plain(), "  12 + x");
    assert!(row.awaits_paint(40), "and back again");
}

#[test]
fn a_result_knows_how_it_went() {
    let bad = Row::result(false, "read".into(), "gone".into());
    let good = Row::result(true, "read".into(), "gone".into());
    assert_eq!((bad.ok(), good.ok()), (Some(false), Some(true)));
    assert_eq!((bad.tool_name(), bad.tool_preview()), (Some("read"), Some("gone")));
    assert_eq!(Row::muted("x").ok(), None);
}

// ------------------------------------------------------------------ screen

// An escape the outside world left in the content takes no columns and no
// cells: the count and the text agree on what a row holds.
#[test]
fn an_escape_in_the_content_is_noise_not_cells() {
    let line = said("a\x1b[31mb");
    let rows = fit(&line, 10);
    assert_eq!(rows.len(), 1);
    assert_eq!(rows[0].plain(), "ab");
}

// The window's rows, plain, for a history of `lines` at width `width`.
fn shown(lines: &[&str], width: usize, room: usize, scroll: usize) -> Vec<String> {
    let owned: Vec<Line> = lines.iter().map(|l| said(l)).collect();
    let (rows, _) = window(owned, width, room, scroll);
    rows.into_iter().map(|l| l.plain()).collect()
}

#[test]
fn the_window_ends_on_the_newest_row() {
    assert_eq!(shown(&["a", "b", "c"], 10, 2, 0), vec!["b", "c"]);
}

#[test]
fn a_short_history_is_shown_whole() {
    assert_eq!(shown(&["a", "b"], 10, 5, 0), vec!["a", "b"]);
}

#[test]
fn a_wrapped_line_counts_as_the_rows_it_takes() {
    // Counted in lines, "abcdef" is one line and two rows at width 3, so a
    // two-row window that took two lines would draw four rows into it and the
    // newest two would land below the area, under the input.
    assert_eq!(shown(&["abcdef", "gh"], 3, 2, 0), vec!["def", "gh"]);
}

#[test]
fn scrolling_up_holds_back_the_newest_rows() {
    assert_eq!(shown(&["a", "b", "c", "d"], 10, 2, 1), vec!["b", "c"]);
}

// The walk counts screen rows, so a window whose oldest row starts inside a
// wrapped line takes the rows of that line it reaches and cuts the rest — the
// line is not taken whole, and the rows held back are not taken at all.
#[test]
fn a_window_that_starts_inside_a_wrapped_line_cuts_that_line() {
    // At width 2: "abcdef" is three rows, "gh" and "ij" one each.
    assert_eq!(shown(&["abcdef", "gh", "ij"], 2, 2, 1), vec!["ef", "gh"]);
}

#[test]
fn scrolling_stops_at_the_oldest_row() {
    let owned: Vec<Line> = ["a", "b", "c"].iter().map(|l| said(l)).collect();
    let (rows, scroll) = window(owned, 10, 2, 99);
    assert_eq!(
        rows.iter().map(|l| l.plain()).collect::<Vec<_>>(),
        vec!["a".to_string(), "b".to_string()]
    );
    assert_eq!(scroll, 1, "clamped, so one press down comes back");
}

#[test]
fn an_empty_history_draws_nothing() {
    assert!(shown(&[], 10, 3, 0).is_empty());
}

#[test]
fn a_wide_character_never_straddles_two_rows() {
    // Two columns each: at width 3 only one fits on a row.
    let rows = fit(&said("中文x"), 3);
    let plain: Vec<String> = rows.iter().map(|r| r.plain()).collect();
    assert_eq!(plain, vec!["中", "文x"]);
    assert_eq!(said("中文x").columns(), 5);
}

#[test]
fn a_wrapped_line_repeats_its_border() {
    let border = said("| ");
    let rows = wrap(Some(&border), &said("abcdef"), 5);
    let plain: Vec<String> = rows.iter().map(|r| r.plain()).collect();
    assert_eq!(plain, vec!["| abc", "| def"]);
}

#[test]
fn escapes_are_stripped_whatever_closes_them() {
    let strip_of = |s: &str| -> String {
        let v: Vec<char> = s.chars().collect();
        strip(&v).into_iter().collect()
    };
    assert_eq!(strip_of("\x1b[1;31mred\x1b[0m"), "red");
    assert_eq!(strip_of("a\x1b]0;title\x07b"), "ab");
    assert_eq!(strip_of("plain"), "plain");
}

#[test]
fn a_mark_rides_on_the_cell_before_it() {
    // The combining accent takes no column of its own.
    let cells = place(&said("e\u{301}x"));
    let symbols: Vec<&str> = cells.iter().map(|c| c.symbol.as_str()).collect();
    assert_eq!(symbols, vec!["e\u{301}", "x"]);
    assert_eq!(cells[0].width, 1);
}

#[test]
fn rows_past_the_area_are_left_out() {
    let lines = vec![said("a"), said("b"), said("c")];
    let kept: Vec<String> = rows_within(&lines, 10, 2).iter().map(|l| l.plain()).collect();
    assert_eq!(kept, vec!["a", "b"]);
    assert!(usable(0) >= 1);
}

// ------------------------------------------------------- rows of the history

/// A closed reasoning block of id `id` and `n` lines.
fn block(id: u64, n: usize, folded: bool) -> Row {
    Row::reasoning(id, (1..=n).map(|i| said(&format!("line {i}"))).collect(), folded)
}

fn walked(rows: &Vec<Row>, width: usize) -> Vec<String> {
    let mut it = ScrollbackRows::new(rows, width);
    let mut out = Vec::new();
    while let Some((line, _)) = it.next() {
        out.push(line.plain());
    }
    out
}

/// The screen opens with what this run is standing on: it stays at the top,
/// which is where "what is my agent obeying" belongs.
#[test]
fn the_opening_block_names_the_instruction_files() {
    let rows = Row::banner("1.2.3", &["~/.pi/Pi.md".into(), "AGENTS.md".into()]);
    assert_eq!(
        walked(&rows, 80),
        ["π 1.2.3", "context:", "- ~/.pi/Pi.md", "- AGENTS.md"]
    );
}

/// Nothing loaded, nothing said — the common case is one personal file and a
/// heading over an empty list is worse than no heading.
#[test]
fn an_opening_block_with_no_instruction_files_is_the_banner_alone() {
    let rows = Row::banner("1.2.3", &[]);
    assert_eq!(rows.len(), 1);
}

#[test]
fn a_folded_entry_is_its_summary_until_unfolded() {
    assert_eq!(walked(&vec![block(1, 2, true)], 80), vec!["thinking · 2 lines"]);
}

#[test]
fn an_unfolded_entry_shows_its_lines() {
    assert_eq!(walked(&vec![block(1, 2, false)], 80), vec!["line 1", "line 2"]);
}

#[test]
fn a_plain_entry_is_itself() {
    assert_eq!(walked(&vec![Row::notice(said("hello"))], 80), vec!["hello"]);
}

#[test]
fn an_empty_scrollback_iterates_to_nothing() {
    let rows: Vec<Row> = Vec::new();
    let mut it = ScrollbackRows::new(&rows, 80);
    assert!(it.next().is_none());
    let mut it = ScrollbackRows::new(&rows, 80);
    assert!(it.next_back().is_none(), "the back walk too");
}

#[test]
fn scrollback_rows_walk_from_both_ends() {
    let rows = vec![Row::notice(said("a")), block(1, 2, false), Row::notice(said("d"))];
    let mut it = ScrollbackRows::new(&rows, 80);
    let (mut front, mut back) = (Vec::new(), Vec::new());
    loop {
        match (it.next(), it.next_back()) {
            (Some((x, _)), Some((y, _))) => {
                front.push(x.plain());
                back.push(y.plain());
            }
            (Some((x, _)), None) => front.push(x.plain()),
            (None, Some((y, _))) => back.push(y.plain()),
            (None, None) => break,
        }
    }
    assert_eq!(front, vec!["a", "line 1"]);
    assert_eq!(back, vec!["d", "line 2"]);
}

/// A said line wider than the terminal keeps its rule down every row it wraps
/// to.
#[test]
fn a_wrapped_said_line_keeps_its_rule_down_every_row() {
    let rows = Row::prompt(&"curl ".repeat(30));
    let out: Vec<String> = (0..rows[0].len())
        .flat_map(|i| rows[0].pieces(i, 20))
        .map(|l| l.plain())
        .collect();
    assert!(out.len() > 1, "a line wider than the window wraps");
    for (i, row) in out.iter().enumerate() {
        assert!(row.starts_with("\u{258c} "), "row {i} lost the rule: {row:?}");
    }
    // Nothing is lost either: the wrapped rows still spell the whole line.
    let joined: String = out
        .iter()
        .map(|row| row.trim_start_matches("\u{258c} ").to_string())
        .collect();
    assert_eq!(joined, "curl ".repeat(30));
}

/// A `!` command keeps its own mark and nothing is repeated: its wrapped rows
/// are the command's continuation, not a new command each row.
#[test]
fn a_wrapped_bang_command_repeats_nothing() {
    let rows = Row::prompt(&format!("!{}", "go ".repeat(30)));
    let out: Vec<String> = (0..rows[0].len())
        .flat_map(|i| rows[0].pieces(i, 20))
        .map(|l| l.plain())
        .collect();
    assert!(out.len() > 1);
    assert!(out[0].starts_with("! "), "{:?}", out[0]);
    for row in &out[1..] {
        assert!(!row.starts_with("! "), "a continuation row wore the mark: {row:?}");
    }
}

/// The live stream and the rebuild build the same row from the same parts.
#[test]
fn the_live_row_and_the_rebuilt_row_are_the_same_row() {
    let sketched = "2 files, +3 -1\n  12 + added\n  13 - gone";
    // What the stream pushes when the tool ends.
    let live = Row::result(true, "edit".into(), sketched.into());
    // What the rebuild pushes, reading the entry that same turn stored.
    let rebuilt =
        Row::stored_result(false, "edit".into(), &["✓ edit [a.rs#TAG] …".into()], Some(sketched));
    let parts = |r: &Row| {
        (
            r.ok(),
            r.tool_name().map(|s| s.to_string()),
            r.tool_preview().map(|s| s.to_string()),
            r.len(),
        )
    };
    assert_eq!(parts(&live), parts(&rebuilt));
    assert_eq!(live.len(), 3, "head plus the two diff rows");
}

/// A tool that sketched nothing has nothing to store, and the rebuild falls
/// back to the first line of what it did store.
#[test]
fn a_result_without_a_sketch_falls_back_to_its_first_line() {
    let row = Row::stored_result(false, "read".into(), &["fn main() {}\nmore".into()], None);
    assert_eq!(row.len(), 1);
    let shown = row.tool_preview().unwrap();
    assert!(shown.contains("fn main() {}"), "{shown}");
    assert!(!shown.contains("more"), "only the first line");
}

#[test]
fn refolding_hides_lines_the_reader_has_already_seen() {
    // The screen repaints from scrollback every frame, so lines already shown
    // are still the same entry: folding them takes them back.
    let mut rows = vec![block(1, 2, false)];
    assert_eq!(walked(&rows, 80), vec!["line 1", "line 2"]);
    rows[0].set_folded(true);
    assert_eq!(walked(&rows, 80), vec!["thinking · 2 lines"]);
}

#[test]
fn one_line_of_thought_is_one_line() {
    assert_eq!(walked(&vec![block(1, 1, true)], 80), vec!["thinking · 1 line"]);
}
