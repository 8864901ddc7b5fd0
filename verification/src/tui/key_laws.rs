//! What keys do to the line and what lines mean, stated on the text.

use crate::text::{first_white, is_white, last_index_of, lemma_last_index_of, trim};
use crate::text_laws::{law_words_are_what_white_parts, run_together, solid, word_starts};
use crate::tui::caret_laws::{
    all_white, law_a_word_back_starts_the_word, law_home_and_end_are_the_ends_of_the_row, no_white,
    row_closes, row_opens,
};
use crate::tui::editor::EditorView;
use crate::tui::intent::{editor_parts, leaf_of, line_intent, sets_secret, IntentView};
use crate::tui::keys::{edited, Action, Mode};
use crate::tui::vim::{after_typed, Typed, Vim};
use vstd::prelude::*;
use vstd::string::*;

verus! {

// ---------------------------------------------------------------------------
// Keys
// ---------------------------------------------------------------------------

/// Whether `b` is `a` without the characters from `from` to before `to`, with the
/// caret where they stood, and nothing else of it changed.
pub open spec fn takes_out(a: EditorView, b: EditorView, from: int, to: int) -> bool {
    &&& 0 <= from <= to <= a.text.len()
    &&& b.text.len() == a.text.len() - (to - from)
    &&& forall|i: int| 0 <= i < from ==> #[trigger] b.text[i] == a.text[i]
    &&& forall|i: int| from <= i < b.text.len() ==> #[trigger] b.text[i] == a.text[i + (to - from)]
    &&& b == (EditorView { text: b.text, caret: from, ..a })
}

/// Whether `b` is `a` with only the caret moved to `at`.
pub open spec fn puts_caret(a: EditorView, b: EditorView, at: int) -> bool {
    b == EditorView { caret: at, ..a }
}

/// A key that deletes takes out what is next to the caret and nothing else: the
/// character in front of it or behind it, the word in front of it, the rest of
/// its row or the row up to it.
pub proof fn law_deleting_takes_out_what_is_next_to_the_caret(e: EditorView)
    requires
        e.valid(),
    ensures
        e.caret > 0 ==> edited(e, Action::DeleteCharBack) is Some && takes_out(
            e,
            edited(e, Action::DeleteCharBack)->Some_0,
            e.caret - 1,
            e.caret,
        ),
        e.caret == 0 ==> edited(e, Action::DeleteCharBack) == Some(e),
        e.caret < e.text.len() ==> edited(e, Action::DeleteCharForward) is Some && takes_out(
            e,
            edited(e, Action::DeleteCharForward)->Some_0,
            e.caret,
            e.caret + 1,
        ),
        e.caret == e.text.len() ==> edited(e, Action::DeleteCharForward) == Some(e),
        exists|w: int, j: int|
            {
                &&& edited(e, Action::DeleteWordBack) is Some
                &&& takes_out(e, edited(e, Action::DeleteWordBack)->Some_0, w, e.caret)
                &&& w == 0 || is_white(e.text[w - 1])
                &&& w <= j <= e.caret
                &&& #[trigger] no_white(e.text, w, j) && all_white(e.text, j, e.caret)
                &&& j == w ==> w == 0
            },
        exists|b: int|
            edited(e, Action::DeleteToLineEnd) is Some && takes_out(
                e,
                edited(e, Action::DeleteToLineEnd)->Some_0,
                e.caret,
                b,
            ) && #[trigger] row_closes(e.text, e.caret, b),
        exists|a: int|
            edited(e, Action::DeleteToLineStart) is Some && takes_out(
                e,
                edited(e, Action::DeleteToLineStart)->Some_0,
                a,
                e.caret,
            ) && #[trigger] row_opens(e.text, e.caret, a),
{
    law_a_word_back_starts_the_word(e.text, e.caret);
    law_home_and_end_are_the_ends_of_the_row(e.text, e.caret);
    let w = crate::tui::editor::word_start(e.text, e.caret);
    let j = choose|j: int|
        w <= j <= e.caret && #[trigger] no_white(e.text, w, j) && all_white(e.text, j, e.caret) && (j
            == w ==> w == 0);
    assert(takes_out(e, edited(e, Action::DeleteWordBack)->Some_0, w, e.caret));
    assert(no_white(e.text, w, j));
    let b = crate::tui::editor::line_end(e.text, e.caret);
    assert(takes_out(e, edited(e, Action::DeleteToLineEnd)->Some_0, e.caret, b));
    assert(row_closes(e.text, e.caret, b));
    let a = crate::tui::editor::line_begin(e.text, e.caret);
    assert(takes_out(e, edited(e, Action::DeleteToLineStart)->Some_0, a, e.caret));
    assert(row_opens(e.text, e.caret, a));
}

/// A key that moves leaves the text: one character to either side and no further
/// than the ends, or to the ends of the row.
pub proof fn law_moving_leaves_the_text(e: EditorView)
    requires
        e.valid(),
    ensures
        edited(e, Action::MoveCharLeft) is Some && puts_caret(
            e,
            edited(e, Action::MoveCharLeft)->Some_0,
            if e.caret == 0 {
                0
            } else {
                e.caret - 1
            },
        ),
        edited(e, Action::MoveCharRight) is Some && puts_caret(
            e,
            edited(e, Action::MoveCharRight)->Some_0,
            if e.caret == e.text.len() {
                e.caret
            } else {
                e.caret + 1
            },
        ),
        exists|a: int|
            edited(e, Action::MoveLineStart) is Some && puts_caret(
                e,
                edited(e, Action::MoveLineStart)->Some_0,
                a,
            ) && #[trigger] row_opens(e.text, e.caret, a),
        exists|b: int|
            edited(e, Action::MoveLineEnd) is Some && puts_caret(
                e,
                edited(e, Action::MoveLineEnd)->Some_0,
                b,
            ) && #[trigger] row_closes(e.text, e.caret, b),
        edited(e, Action::LineSubmit) is None && edited(e, Action::RunInterrupt) is None && edited(
            e,
            Action::HistoryOlder,
        ) is None,
{
    law_home_and_end_are_the_ends_of_the_row(e.text, e.caret);
    let b = crate::tui::editor::line_end(e.text, e.caret);
    assert(row_closes(e.text, e.caret, b));
    let a = crate::tui::editor::line_begin(e.text, e.caret);
    assert(row_opens(e.text, e.caret, a));
}

/// The two characters of the pair, typed within its window, leave insert mode;
/// typed too far apart they are text like any other, and so is any other
/// character.
pub proof fn law_the_pair_within_its_window_leaves_insert(
    v: Vim,
    first: char,
    second: char,
    other: char,
    then: u64,
    now: u64,
)
    requires
        v.mode == Mode::Insert,
        v.escape == Some((first, second)),
        v.last is None,
        then <= now,
        other != second,
    ensures
        ({
            let (half, one) = after_typed(v, first, then);
            &&& one == Typed::Insert && half.mode == Mode::Insert
            &&& now - then < v.window ==> after_typed(half, second, now).1 == Typed::Escape
                && after_typed(half, second, now).0.mode == Mode::Normal && after_typed(
                half,
                second,
                now,
            ).0.last is None
            &&& now - then >= v.window ==> after_typed(half, second, now).1 == Typed::Insert
                && after_typed(half, second, now).0.mode == Mode::Insert
            &&& after_typed(half, other, now).1 == Typed::Insert && after_typed(
                half,
                other,
                now,
            ).0.mode == Mode::Insert
        }),
{
}

// ---------------------------------------------------------------------------
// Lines
// ---------------------------------------------------------------------------

/// Whether a line is a command: its name, and behind it nothing or white.
pub open spec fn commands(line: Seq<char>, name: Seq<char>) -> bool {
    &&& line.len() >= name.len()
    &&& line.take(name.len() as int) == name
    &&& line.len() == name.len() || is_white(line[name.len() as int])
}

proof fn lemma_first_white_is(s: Seq<char>, n: int)
    requires
        0 <= n <= s.len(),
        forall|i: int| 0 <= i < n ==> !is_white(#[trigger] s[i]),
        n == s.len() || is_white(s[n]),
    ensures
        first_white(s) == n,
    decreases s.len(),
{
    if n > 0 {
        assert(!is_white(s[0]));
        let t = s.skip(1);
        assert forall|i: int| 0 <= i < n - 1 implies !is_white(#[trigger] t[i]) by {
            assert(t[i] == s[i + 1]);
        }
        lemma_first_white_is(t, n - 1);
    }
}

proof fn lemma_first_white_at(s: Seq<char>)
    ensures
        0 <= first_white(s) <= s.len(),
        first_white(s) < s.len() ==> is_white(s[first_white(s)]),
        forall|i: int| 0 <= i < first_white(s) ==> !is_white(#[trigger] s[i]),
    decreases s.len(),
{
    if s.len() > 0 && !is_white(s[0]) {
        lemma_first_white_at(s.skip(1));
        assert forall|i: int| 0 <= i < first_white(s) implies !is_white(#[trigger] s[i]) by {
            if i > 0 {
                assert(s.skip(1)[i - 1] == s[i]);
            }
        }
    }
}

proof fn lemma_commands(line: Seq<char>, name: Seq<char>)
    requires
        forall|i: int| 0 <= i < name.len() ==> !is_white(#[trigger] name[i]),
    ensures
        commands(line, name) <==> line.take(first_white(line)) == name,
{
    lemma_first_white_at(line);
    if commands(line, name) {
        assert forall|i: int| 0 <= i < name.len() implies !is_white(#[trigger] line[i]) by {
            assert(line.take(name.len() as int)[i] == line[i]);
            assert(!is_white(name[i]));
        }
        lemma_first_white_is(line, name.len() as int);
    }
}

/// A line is a command only where its first word is the command's whole name; it
/// then carries what follows, without the white around it. Any other line is
/// passed on as it is.
pub proof fn law_a_line_is_read_by_its_first_word(line: Seq<char>)
    ensures
        commands(line, "/loop"@) ==> line_intent(line) == IntentView::Loop(trim(line.skip(5))),
        commands(line, "/settings"@) ==> line_intent(line) == IntentView::Settings(
            trim(line.skip(9)),
        ),
        !commands(line, "/loop"@) && !commands(line, "/settings"@) ==> line_intent(line)
            == IntentView::Line(line),
{
    reveal_strlit("/loop");
    reveal_strlit("/settings");
    assert forall|i: int| 0 <= i < "/loop"@.len() implies !is_white(#[trigger] "/loop"@[i]) by {}
    assert forall|i: int| 0 <= i < "/settings"@.len() implies !is_white(
        #[trigger] "/settings"@[i],
    ) by {}
    lemma_commands(line, "/loop"@);
    lemma_commands(line, "/settings"@);
    lemma_first_white_at(line);
    if commands(line, "/loop"@) {
        assert(line.take(first_white(line)).len() == 5);
    }
    if commands(line, "/settings"@) {
        assert(line.take(first_white(line)).len() == 9);
        assert("/settings"@.len() != "/loop"@.len());
    }
}

/// A line that sets a key is known as one that holds a secret, whatever is set
/// and under whatever table; one that sets anything else is not.
pub proof fn law_setting_a_key_is_a_secret(table: Seq<char>, leaf: Seq<char>, value: Seq<char>)
    requires
        forall|i: int| 0 <= i < table.len() ==> !is_white(#[trigger] table[i]),
        forall|i: int| 0 <= i < leaf.len() ==> !is_white(#[trigger] leaf[i]) && leaf[i] != '.',
    ensures
        sets_secret("set "@ + table + seq!['.'] + leaf + seq![' '] + value) == (leaf
            == "api_key"@),
{
    reveal_strlit("set ");
    reveal_strlit("set");
    let path = table + seq!['.'] + leaf;
    let rest = "set "@ + table + seq!['.'] + leaf + seq![' '] + value;
    assert(rest =~= "set "@ + path + seq![' '] + value);
    assert forall|i: int| 0 <= i < 3 implies !is_white(#[trigger] rest[i]) by {
        assert(rest[i] == "set "@[i]);
    }
    assert(rest[3] == ' ');
    lemma_first_white_is(rest, 3);
    assert(rest.take(3) =~= "set"@);
    let after = rest.skip(4);
    assert(after =~= path + seq![' '] + value);
    let n = path.len() as int;
    assert forall|i: int| 0 <= i < n implies !is_white(#[trigger] after[i]) by {
        if i < table.len() {
            assert(after[i] == table[i]);
        } else if i > table.len() {
            assert(after[i] == leaf[i - table.len() - 1]);
        }
    }
    lemma_first_white_is(after, n);
    assert(after.take(n) =~= path);
    lemma_last_index_of(path, '.');
    let at = last_index_of(path, '.');
    assert(path[table.len() as int] == '.');
    assert(at == table.len()) by {
        if at > table.len() {
            assert(path[at] == leaf[at - table.len() - 1]);
        }
    }
    assert(leaf_of(path) =~= leaf);
}

/// The editor to call is the first word of what names it, the rest are its
/// arguments in order, and where nothing names it, it is `vi`.
pub proof fn law_the_editor_is_the_first_word(raw: Seq<char>)
    ensures
        word_starts(raw, true) == 0 ==> editor_parts(raw).0 == "vi"@ && editor_parts(raw).1.len() == 0,
        word_starts(raw, true) > 0 ==> editor_parts(raw).1.len() == word_starts(raw, true) - 1
            && editor_parts(raw).0 + run_together(editor_parts(raw).1) == solid(raw),
{
    law_words_are_what_white_parts(raw);
}

} // verus!
