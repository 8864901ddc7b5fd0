//! What a key, a line or the phone asks the loop for.

use crate::text::{
    chars_of, copy_range, first_white, last_index_of, rows, same_str, string_of, texts, trim,
    trimmed, white_after, words, words_of,
};
use vstd::prelude::*;
use vstd::string::*;

verus! {

/// What is asked of the loop.
#[derive(Debug, Clone, PartialEq, Eq)]
pub enum Intent {
    /// Nothing.
    Nothing,
    /// A line to run.
    Submit(String),
    /// Stop the run.
    Interrupt,
    /// Stop the run, and take its prompt back.
    Unsend,
    /// Open the rewind selector.
    OpenRewind,
    /// Go back to an entry of the transcript.
    Rewind(u64),
    /// Start a fresh session.
    New,
    /// Leave.
    Quit,
    /// Move to another checkout.
    Worktree(String),
    /// Write a value that was typed for a setting.
    CommitSetting(String, String),
    /// Give a setting a value for the session.
    SettingEdit(String, String),
    /// Write the session's value of a setting to the file.
    SettingWrite(String),
    /// Take the file's value of a setting back.
    SettingRevert(String),
    /// Hand the line to an editor of the user's.
    EditExternally,
    /// A round that a loop queued.
    LoopRound(String),
    /// Start a loop, or stop it where there is no goal.
    Loop(String),
    /// Look at the settings, or change one.
    Settings(String),
    /// A line that is read elsewhere.
    Line(String),
}

/// What is asked of the loop, with its texts as sequences.
#[verifier::ext_equal]
pub enum IntentView {
    Nothing,
    Submit(Seq<char>),
    Interrupt,
    Unsend,
    OpenRewind,
    Rewind(u64),
    New,
    Quit,
    Worktree(Seq<char>),
    CommitSetting(Seq<char>, Seq<char>),
    SettingEdit(Seq<char>, Seq<char>),
    SettingWrite(Seq<char>),
    SettingRevert(Seq<char>),
    EditExternally,
    LoopRound(Seq<char>),
    Loop(Seq<char>),
    Settings(Seq<char>),
    Line(Seq<char>),
}

impl View for Intent {
    type V = IntentView;

    open spec fn view(&self) -> IntentView {
        match self {
            Intent::Nothing => IntentView::Nothing,
            Intent::Submit(s) => IntentView::Submit(s@),
            Intent::Interrupt => IntentView::Interrupt,
            Intent::Unsend => IntentView::Unsend,
            Intent::OpenRewind => IntentView::OpenRewind,
            Intent::Rewind(id) => IntentView::Rewind(*id),
            Intent::New => IntentView::New,
            Intent::Quit => IntentView::Quit,
            Intent::Worktree(s) => IntentView::Worktree(s@),
            Intent::CommitSetting(p, v) => IntentView::CommitSetting(p@, v@),
            Intent::SettingEdit(p, v) => IntentView::SettingEdit(p@, v@),
            Intent::SettingWrite(p) => IntentView::SettingWrite(p@),
            Intent::SettingRevert(p) => IntentView::SettingRevert(p@),
            Intent::EditExternally => IntentView::EditExternally,
            Intent::LoopRound(s) => IntentView::LoopRound(s@),
            Intent::Loop(s) => IntentView::Loop(s@),
            Intent::Settings(s) => IntentView::Settings(s@),
            Intent::Line(s) => IntentView::Line(s@),
        }
    }
}

/// Intents, with their texts as sequences.
pub open spec fn intents_view(v: Seq<Intent>) -> Seq<IntentView> {
    Seq::new(v.len(), |i: int| v[i]@)
}

/// What a line asks for, as far as the surface answers it itself: its first
/// word is a command of the surface's, and the rest what the command is given.
pub open spec fn line_intent(line: Seq<char>) -> IntentView {
    let n = first_white(line);
    let word = line.take(n);
    let rest = trim(line.skip(n));
    if word == "/loop"@ {
        IntentView::Loop(rest)
    } else if word == "/settings"@ {
        IntentView::Settings(rest)
    } else {
        IntentView::Line(line)
    }
}

/// Read a line for the commands that the surface answers itself.
pub fn read(line: &str) -> (r: Intent)
    ensures
        r@ == line_intent(line@),
{
    let v = chars_of(line);
    let n = white_after(v.as_slice(), 0);
    assert(v@.skip(0) =~= v@);
    let word = copy_range(v.as_slice(), 0, n);
    assert(word@ =~= v@.take(n as int));
    let tail = copy_range(v.as_slice(), n, v.len());
    assert(tail@ =~= v@.skip(n as int));
    let rest = trimmed(tail.as_slice());
    let word = string_of(word.as_slice());
    if same_str(word.as_str(), "/loop") {
        Intent::Loop(string_of(rest.as_slice()))
    } else if same_str(word.as_str(), "/settings") {
        Intent::Settings(string_of(rest.as_slice()))
    } else {
        Intent::Line(line.to_owned())
    }
}

/// The last name of a dotted path.
pub open spec fn leaf_of(path: Seq<char>) -> Seq<char> {
    path.skip(last_index_of(path, '.') + 1)
}

/// Whether a setting of this name holds a secret.
pub open spec fn is_secret(name: Seq<char>) -> bool {
    name == "api_key"@
}

/// Whether the setting at a path holds a secret.
pub fn secret_path(path: &[char]) -> (r: bool)
    ensures
        r == is_secret(leaf_of(path@)),
{
    let at = crate::text::after_last(path, '.', path.len());
    assert(path@.take(path@.len() as int) =~= path@);
    let leaf = copy_range(path, at, path.len());
    assert(leaf@ =~= leaf_of(path@));
    let s = string_of(leaf.as_slice());
    same_str(s.as_str(), "api_key")
}

/// Whether `rest` sets a setting that holds a secret: its first word is `set`,
/// and what stands up to the next white space is the path.
pub open spec fn sets_secret(rest: Seq<char>) -> bool {
    let n = first_white(rest);
    let after = rest.skip(n + 1);
    rest.take(n) == "set"@ && n < rest.len() && is_secret(leaf_of(after.take(first_white(after))))
}

/// A `/settings set <path> <value>` whose path names a secret: the value must
/// not enter the recall history, which is written to disk in the clear.
pub fn secret_settings_set(line: &str) -> (r: bool)
    ensures
        r == (line_intent(line@) matches IntentView::Settings(rest) && sets_secret(rest)),
{
    match read(line) {
        Intent::Settings(rest) => {
            let v = chars_of(rest.as_str());
            let n = white_after(v.as_slice(), 0);
            assert(v@.skip(0) =~= v@);
            if n >= v.len() {
                return false;
            }
            let head = copy_range(v.as_slice(), 0, n);
            assert(head@ =~= v@.take(n as int));
            let verb = string_of(head.as_slice());
            let m = white_after(v.as_slice(), n + 1);
            let path = copy_range(v.as_slice(), n + 1, m);
            assert(path@ =~= v@.skip(n + 1).take(first_white(v@.skip(n + 1))));
            same_str(verb.as_str(), "set") && secret_path(path.as_slice())
        },
        _ => false,
    }
}

/// The program an editor setting names, and its arguments.
pub open spec fn editor_parts(raw: Seq<char>) -> (Seq<char>, Seq<Seq<char>>) {
    let all = words(raw);
    if all.len() == 0 {
        ("vi"@, Seq::empty())
    } else {
        (all[0], all.skip(1))
    }
}

/// Split rather than run whole (`code -w`), and never through a shell, which
/// would make every character in it live. The price is that quoting cannot.
pub fn split_editor(raw: &str) -> (r: (String, Vec<String>))
    ensures
        (r.0@, texts(r.1@)) == editor_parts(raw@),
{
    let v = chars_of(raw);
    let all = words_of(v.as_slice());
    let mut rest: Vec<String> = Vec::new();
    assert(rows(all@).len() == all@.len());
    if all.len() == 0 {
        assert(texts(rest@) =~= Seq::empty());
        return ("vi".to_owned(), rest);
    }
    assert(rows(all@)[0] == all@[0]@);
    let mut i: usize = 1;
    while i < all.len()
        invariant
            1 <= i <= all@.len(),
            rest@.len() == i - 1,
            forall|k: int| 0 <= k < rest@.len() ==> (#[trigger] rest@[k])@ == all@[k + 1]@,
        decreases all@.len() - i,
    {
        rest.push(string_of(all[i].as_slice()));
        i += 1;
    }
    assert(texts(rest@) =~= rows(all@).skip(1));
    (string_of(all[0].as_slice()), rest)
}

/// A loop's goal that starts a loop is a loop: it would arm itself every round.
pub proof fn law_a_loop_line_is_read_as_a_loop(goal: Seq<char>)
    ensures
        line_intent("/loop "@ + goal) == IntentView::Loop(trim(goal)),
{
    reveal_strlit("/loop ");
    reveal_strlit("/loop");
    let line = "/loop "@ + goal;
    reveal_with_fuel(first_white, 7);
    assert(line.skip(1).skip(1) =~= line.skip(2));
    assert(line.skip(2).skip(1) =~= line.skip(3));
    assert(line.skip(3).skip(1) =~= line.skip(4));
    assert(line.skip(4).skip(1) =~= line.skip(5));
    assert(first_white(line) == 5);
    assert(line.take(5) =~= "/loop"@);
    let rest = line.skip(5);
    assert(rest[0] == ' ');
    assert(rest.skip(1) =~= goal);
    assert(crate::text::trim_start(rest) == crate::text::trim_start(goal));
}

} // verus!
