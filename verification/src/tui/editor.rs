//! The line being typed: a text buffer, a caret, and the history behind it.

use crate::text::{
    after_last, blank, bytes_before, bytes_len, char_bytes, chars_of, copy_range, first_white, has,
    index_of, is_blank, is_white, last_index_of, lemma_bytes_concat, lines, lines_of, position,
    push_all, rows, skip_white, skip_white_back, string_of, texts, trim_end, trim_start, white,
    white_after, width_of,
};
use crate::width::{columns, columns_of};
use vstd::prelude::*;
use vstd::string::*;

verus! {

/// Columns the prompt marker occupies. Continuation rows are indented to match
/// so a wrapped line stays aligned under the first.
pub const GUTTER: usize = 2;

/// The line being typed, its caret counted in characters, and the history
/// behind it.
#[verifier::ext_equal]
pub struct EditorView {
    pub text: Seq<char>,
    /// How many characters stand before the caret.
    pub caret: int,
    pub history: Seq<Seq<char>>,
    /// Where browsing sits; the length of the history means the line itself.
    pub at: int,
    /// The line being typed, parked while history is being browsed.
    pub draft: Seq<char>,
    pub prompt: Seq<char>,
    pub prompt_bang: Seq<char>,
}

impl EditorView {
    /// The caret stands in the text, and browsing in the history.
    pub open spec fn valid(self) -> bool {
        0 <= self.caret <= self.text.len() && 0 <= self.at <= self.history.len()
    }

    /// The text with the characters `from..to` gone and the caret at `from`.
    pub open spec fn cut(self, from: int, to: int) -> EditorView {
        EditorView { text: self.text.take(from) + self.text.skip(to), caret: from, ..self }
    }

    /// The text with `s` put in at the caret, which moves past it.
    pub open spec fn inserted(self, s: Seq<char>) -> EditorView {
        EditorView {
            text: self.text.take(self.caret) + s + self.text.skip(self.caret),
            caret: self.caret + s.len(),
            ..self
        }
    }

    /// Another line in place of the text, with the caret at its end.
    pub open spec fn showing(self, line: Seq<char>) -> EditorView {
        EditorView { text: line, caret: line.len() as int, ..self }
    }

    /// The caret elsewhere.
    pub open spec fn moved(self, caret: int) -> EditorView {
        EditorView { caret, ..self }
    }
}

/// Where the last white space of `s` stands, or -1.
pub open spec fn last_white(s: Seq<char>) -> int
    decreases s.len(),
{
    if s.len() == 0 {
        -1
    } else if is_white(s.last()) {
        s.len() - 1
    } else {
        last_white(s.drop_last())
    }
}

/// Where the word before the caret starts: the white space in front of the
/// caret is skipped first.
pub open spec fn word_start(text: Seq<char>, caret: int) -> int {
    last_white(trim_end(text.take(caret))) + 1
}

/// Where the word after the caret ends: the white space behind the caret is
/// skipped first.
pub open spec fn word_end(text: Seq<char>, caret: int) -> int {
    let rest = trim_start(text.skip(caret));
    text.len() - rest.len() + first_white(rest)
}

/// Where the next word starts: what is left of the word at the caret is
/// skipped, and the white space behind it.
pub open spec fn next_word(text: Seq<char>, caret: int) -> int {
    let rest = text.skip(caret);
    text.len() - trim_start(rest.skip(first_white(rest))).len()
}

/// Where the line the caret is on starts.
pub open spec fn line_begin(text: Seq<char>, caret: int) -> int {
    last_index_of(text.take(caret), '\n') + 1
}

/// Where the line the caret is on ends.
pub open spec fn line_end(text: Seq<char>, caret: int) -> int {
    caret + index_of(text.skip(caret), '\n')
}

/// How many characters of `s` fit in `room` bytes.
pub open spec fn fitting(s: Seq<char>, room: int) -> int
    decreases s.len(),
{
    if s.len() == 0 || width_of(s[0]) > room {
        0
    } else {
        1 + fitting(s.skip(1), room - width_of(s[0]))
    }
}

/// How far into its line the caret is, in bytes.
pub open spec fn column(text: Seq<char>, caret: int) -> int {
    bytes_len(text.subrange(line_begin(text, caret), caret)) as int
}

/// Where the caret goes one line up: as many bytes into that line, or its end.
pub open spec fn caret_above(text: Seq<char>, caret: int) -> int {
    let start = line_begin(text, caret);
    if start == 0 {
        caret
    } else {
        let prev = line_begin(text, start - 1);
        prev + fitting(text.subrange(prev, start - 1), column(text, caret))
    }
}

/// Where the caret goes one line down: as many bytes into that line, or its
/// end.
pub open spec fn caret_below(text: Seq<char>, caret: int) -> int {
    let end = line_end(text, caret);
    if end >= text.len() {
        caret
    } else {
        let next = end + 1;
        next + fitting(text.subrange(next, line_end(text, next)), column(text, caret))
    }
}

/// The line handed over, remembered unless it is blank or the last one again.
pub open spec fn remembered(history: Seq<Seq<char>>, line: Seq<char>) -> Seq<Seq<char>> {
    if !blank(line) && !(history.len() > 0 && history.last() == line) {
        history.push(line)
    } else {
        history
    }
}

/// What the editor shows after Up: the caret on the row above, and an older line
/// where there is none.
pub open spec fn after_up(e: EditorView) -> EditorView {
    if line_begin(e.text, e.caret) > 0 {
        e.moved(caret_above(e.text, e.caret))
    } else if e.at == 0 {
        e
    } else {
        let parked = if e.at == e.history.len() {
            EditorView { draft: e.text, ..e }
        } else {
            e
        };
        EditorView { at: e.at - 1, ..parked }.showing(e.history[e.at - 1])
    }
}

/// What the editor shows after Down: the caret on the row below, as far as there
/// is one, where the line has several rows, and a newer line where it has one.
pub open spec fn after_down(e: EditorView) -> EditorView {
    if e.text.contains('\n') {
        e.moved(caret_below(e.text, e.caret))
    } else if e.at >= e.history.len() {
        e
    } else if e.at + 1 < e.history.len() {
        EditorView { at: e.at + 1, ..e }.showing(e.history[e.at + 1])
    } else {
        EditorView { at: e.at + 1, draft: Seq::empty(), ..e }.showing(e.draft)
    }
}

// ---------------------------------------------------------------------------
// Laying the text out in rows
// ---------------------------------------------------------------------------

/// Rows laid out so far, the row being filled, and the columns used on it.
#[verifier::ext_equal]
pub struct Laid {
    pub rows: Seq<Seq<char>>,
    pub row: Seq<char>,
    pub used: int,
}

/// The layout with its row closed.
pub open spec fn closed_row(l: Laid) -> Laid {
    Laid { rows: l.rows.push(l.row), row: Seq::empty(), used: 0 }
}

/// The layout just before `c` is put on it: a row it does not fit on is closed.
pub open spec fn before_char(l: Laid, c: char, avail: int) -> Laid {
    if c != '\n' && l.used + columns(c) > avail && l.row.len() > 0 {
        closed_row(l)
    } else {
        l
    }
}

/// The layout of the first `n` characters in `avail` columns.
pub open spec fn laid(s: Seq<char>, avail: int, n: int) -> Laid
    decreases n,
{
    if n <= 0 {
        Laid { rows: Seq::empty(), row: Seq::empty(), used: 0 }
    } else {
        let c = s[n - 1];
        let l = before_char(laid(s, avail, n - 1), c, avail);
        if c == '\n' {
            closed_row(l)
        } else {
            Laid { rows: l.rows, row: l.row.push(c), used: l.used + columns(c) }
        }
    }
}

/// The rows of a text in `avail` columns.
pub open spec fn laid_rows(s: Seq<char>, avail: int) -> Seq<Seq<char>> {
    let l = laid(s, avail, s.len() as int);
    l.rows.push(l.row)
}

/// The row and the column a caret before character `at` stands on: one exactly
/// on a break stands at the start of the new row.
pub open spec fn caret_cell(s: Seq<char>, avail: int, at: int) -> (int, int) {
    let l = if at < s.len() {
        before_char(laid(s, avail, at), s[at], avail)
    } else {
        laid(s, avail, s.len() as int)
    };
    (l.rows.len() as int, l.used)
}

/// Whether the line is a shell command: the bang takes the prompt's place.
pub open spec fn is_bang(text: Seq<char>) -> bool {
    text.len() > 0 && text[0] == '!'
}

/// What is laid out: the text without its bang.
pub open spec fn shown_text(text: Seq<char>) -> Seq<char> {
    if is_bang(text) {
        text.skip(1)
    } else {
        text
    }
}

/// The columns in front of the text.
pub open spec fn gutter(text: Seq<char>) -> int {
    if is_bang(text) {
        GUTTER - 1
    } else {
        GUTTER as int
    }
}

/// The columns the text has on a row of `width`.
pub open spec fn avail(text: Seq<char>, width: int) -> int {
    if width - gutter(text) >= 1 {
        width - gutter(text)
    } else {
        1
    }
}

/// What stands in front of the first row.
pub open spec fn prompt_of(e: EditorView) -> Seq<char> {
    if is_bang(e.text) {
        e.prompt_bang
    } else {
        e.prompt
    }
}

/// The rows to paint: the prompt in front of the first, an indent as wide in
/// front of the others.
pub open spec fn painted(e: EditorView, width: int) -> Seq<Seq<char>> {
    let body = laid_rows(shown_text(e.text), avail(e.text, width));
    let prompt = prompt_of(e);
    let indent = if is_bang(e.text) {
        seq![' ']
    } else {
        seq![' ', ' ']
    };
    Seq::new(
        body.len(),
        |i: int|
            if i == 0 {
                prompt + body[i]
            } else {
                indent + body[i]
            },
    )
}

/// Where the caret stands among the painted rows.
pub open spec fn painted_caret(e: EditorView, width: int) -> (int, int) {
    let at = if is_bang(e.text) && e.caret > 0 {
        e.caret - 1
    } else {
        e.caret
    };
    let (row, col) = caret_cell(shown_text(e.text), avail(e.text, width), at);
    (row, gutter(e.text) + col)
}

// ---------------------------------------------------------------------------
// The editor
// ---------------------------------------------------------------------------

/// The line being typed, its caret, and the history behind it.
pub struct Editor {
    text: String,
    caret: usize,
    history: Vec<String>,
    at: usize,
    draft: String,
    prompt: String,
    prompt_bang: String,
}

impl Editor {
    /// The line, its caret and its history, as sequences.
    pub closed spec fn state(&self) -> EditorView {
        EditorView {
            text: self.text@,
            caret: self.caret as int,
            history: texts(self.history@),
            at: self.at as int,
            draft: self.draft@,
            prompt: self.prompt@,
            prompt_bang: self.prompt_bang@,
        }
    }
}

impl Default for Editor {
    /// An empty line without history.
    fn default() -> (r: Editor)
        ensures
            r.state().valid(),
            r.state() == (EditorView {
                text: Seq::empty(),
                caret: 0,
                history: Seq::empty(),
                at: 0,
                draft: Seq::empty(),
                prompt: Seq::empty(),
                prompt_bang: Seq::empty(),
            }),
    {
        let r = Editor {
            text: String::new(),
            caret: 0,
            history: Vec::new(),
            at: 0,
            draft: String::new(),
            prompt: String::new(),
            prompt_bang: String::new(),
        };
        assert(r.state().history =~= Seq::empty());
        r
    }
}

impl Editor {
    /// The painted first-row gutters: the plain one, and the one of a `!` line.
    pub fn set_prompts(&mut self, prompt: String, bang: String)
        ensures
            final(self).state() == (EditorView {
                prompt: prompt@,
                prompt_bang: bang@,
                ..old(self).state()
            }),
    {
        self.prompt = prompt;
        self.prompt_bang = bang;
    }

    /// Whether nothing is typed.
    pub fn is_empty(&self) -> (r: bool)
        ensures
            r == (self.state().text.len() == 0),
    {
        self.text.as_str().is_empty()
    }

    /// What is typed.
    pub fn text(&self) -> (r: &str)
        ensures
            r@ == self.state().text,
    {
        self.text.as_str()
    }

    /// The byte offset of the caret, always on a character boundary.
    pub fn cursor(&self) -> (r: usize)
        requires
            self.state().valid(),
        ensures
            r == bytes_len(self.state().text.take(self.state().caret)),
    {
        bytes_before(self.text.as_str(), self.caret)
    }

    /// How many characters stand before the caret.
    pub fn caret(&self) -> (r: usize)
        ensures
            r == self.state().caret,
    {
        self.caret
    }

    /// Replace the whole buffer, caret at the end. For accepting a completion.
    pub fn set_line(&mut self, line: &str)
        ensures
            final(self).state() == old(self).state().showing(line@),
            old(self).state().valid() ==> final(self).state().valid(),
    {
        self.text = line.to_owned();
        self.caret = line.unicode_len();
    }

    /// Lines recalled with Up, oldest first.
    pub fn history(&self) -> (r: &[String])
        ensures
            texts(r@) == self.state().history,
    {
        self.history.as_slice()
    }

    /// Start with a history.
    pub fn seed_history(&mut self, lines: Vec<String>)
        ensures
            final(self).state() == (EditorView {
                history: texts(lines@),
                at: lines@.len() as int,
                ..old(self).state()
            }),
            old(self).state().valid() ==> final(self).state().valid(),
    {
        self.history = lines;
        self.at = self.history.len();
    }

    /// Drop the line.
    pub fn clear(&mut self)
        ensures
            final(self).state() == (EditorView {
                text: Seq::empty(),
                caret: 0,
                at: old(self).state().history.len() as int,
                ..old(self).state()
            }),
            final(self).state().valid(),
    {
        self.text = String::new();
        self.caret = 0;
        self.at = self.history.len();
    }

    /// Hand over the line and remember it.
    pub fn take(&mut self) -> (line: String)
        ensures
            line@ == old(self).state().text,
            final(self).state() == (EditorView {
                text: Seq::empty(),
                caret: 0,
                history: remembered(old(self).state().history, old(self).state().text),
                at: remembered(old(self).state().history, old(self).state().text).len() as int,
                draft: Seq::empty(),
                ..old(self).state()
            }),
            final(self).state().valid(),
    {
        let ghost before = texts(self.history@);
        let mut line = String::new();
        std::mem::swap(&mut line, &mut self.text);
        self.caret = 0;
        let chars = chars_of(line.as_str());
        let n = self.history.len();
        let again = n > 0 && self.history[n - 1] == line;
        proof {
            if n > 0 {
                assert(before.last() == self.history@[n - 1]@);
            }
        }
        // A line identical to the last is not worth a second history slot.
        if !is_blank(chars.as_slice()) && !again {
            self.history.push(line.clone());
            assert(texts(self.history@) =~= before.push(line@));
        }
        self.at = self.history.len();
        self.draft = String::new();
        line
    }

    fn put(&mut self, more: &[char])
        requires
            old(self).state().valid(),
        ensures
            final(self).state() == old(self).state().inserted(more@),
            final(self).state().valid(),
    {
        let t = chars_of(self.text.as_str());
        let mut v = copy_range(t.as_slice(), 0, self.caret);
        push_all(&mut v, more);
        let at = v.len();
        let tail = copy_range(t.as_slice(), self.caret, t.len());
        push_all(&mut v, tail.as_slice());
        proof {
            assert(t@.subrange(0, self.caret as int) =~= t@.take(self.caret as int));
            assert(tail@ =~= t@.skip(self.caret as int));
        }
        self.text = string_of(v.as_slice());
        self.caret = at;
        assert(self.state().text =~= old(self).state().inserted(more@).text);
    }

    /// Type one character.
    pub fn insert(&mut self, c: char)
        requires
            old(self).state().valid(),
        ensures
            final(self).state() == old(self).state().inserted(seq![c]),
            final(self).state().valid(),
    {
        let mut one: Vec<char> = Vec::new();
        one.push(c);
        assert(one@ =~= seq![c]);
        self.put(one.as_slice());
    }

    /// Type a whole text.
    pub fn insert_str(&mut self, s: &str)
        requires
            old(self).state().valid(),
        ensures
            final(self).state() == old(self).state().inserted(s@),
            final(self).state().valid(),
    {
        let v = chars_of(s);
        self.put(v.as_slice());
    }

    fn cut(&mut self, from: usize, to: usize)
        requires
            old(self).state().valid(),
            from <= to <= old(self).state().text.len(),
        ensures
            final(self).state() == old(self).state().cut(from as int, to as int),
            final(self).state().valid(),
    {
        let t = chars_of(self.text.as_str());
        let mut v = copy_range(t.as_slice(), 0, from);
        let tail = copy_range(t.as_slice(), to, t.len());
        push_all(&mut v, tail.as_slice());
        self.text = string_of(v.as_slice());
        self.caret = from;
        assert(self.state().text =~= old(self).state().cut(from as int, to as int).text);
    }

    /// Delete the character before the caret.
    pub fn backspace(&mut self)
        requires
            old(self).state().valid(),
        ensures
            final(self).state() == if old(self).state().caret > 0 {
                old(self).state().cut(old(self).state().caret - 1, old(self).state().caret)
            } else {
                old(self).state()
            },
            final(self).state().valid(),
    {
        if self.caret > 0 {
            let c = self.caret;
            self.cut(c - 1, c);
        }
    }

    /// Delete the character behind the caret.
    pub fn delete(&mut self)
        requires
            old(self).state().valid(),
        ensures
            final(self).state() == if old(self).state().caret < old(self).state().text.len() {
                old(self).state().cut(old(self).state().caret, old(self).state().caret + 1)
            } else {
                old(self).state()
            },
            final(self).state().valid(),
    {
        let n = self.text.as_str().unicode_len();
        if self.caret < n {
            let c = self.caret;
            self.cut(c, c + 1);
        }
    }

    /// One character left.
    pub fn left(&mut self)
        requires
            old(self).state().valid(),
        ensures
            final(self).state() == old(self).state().moved(
                if old(self).state().caret > 0 {
                    old(self).state().caret - 1
                } else {
                    0
                },
            ),
            final(self).state().valid(),
    {
        if self.caret > 0 {
            self.caret = self.caret - 1;
        }
    }

    /// One character right.
    pub fn right(&mut self)
        requires
            old(self).state().valid(),
        ensures
            final(self).state() == old(self).state().moved(
                if old(self).state().caret < old(self).state().text.len() {
                    old(self).state().caret + 1
                } else {
                    old(self).state().caret
                },
            ),
            final(self).state().valid(),
    {
        let n = self.text.as_str().unicode_len();
        if self.caret < n {
            self.caret = self.caret + 1;
        }
    }

    fn find_word_start(&self) -> (r: usize)
        requires
            self.state().valid(),
        ensures
            r == word_start(self.state().text, self.state().caret),
            r <= self.state().caret,
    {
        let t = chars_of(self.text.as_str());
        let end = skip_white_back(t.as_slice(), self.caret);
        let ghost head = t@.take(end as int);
        let mut i: usize = end;
        assert(head.take(i as int) =~= head);
        while i > 0 && !white(t[i - 1])
            invariant
                i <= end <= t@.len(),
                head == t@.take(end as int),
                last_white(head.take(i as int)) == last_white(head),
            decreases i,
        {
            assert(head.take(i as int).drop_last() =~= head.take(i - 1));
            i -= 1;
        }
        i
    }

    fn find_word_end(&self) -> (r: usize)
        requires
            self.state().valid(),
        ensures
            r == word_end(self.state().text, self.state().caret),
            self.state().caret <= r <= self.state().text.len(),
    {
        let t = chars_of(self.text.as_str());
        let from = skip_white(t.as_slice(), self.caret);
        white_after(t.as_slice(), from)
    }

    /// To the start of the word before the caret: the run of spaces is skipped
    /// first, so the caret lands where the word starts rather than on the space
    /// in front of it.
    pub fn word_left(&mut self)
        requires
            old(self).state().valid(),
        ensures
            final(self).state() == old(self).state().moved(
                word_start(old(self).state().text, old(self).state().caret),
            ),
            final(self).state().valid(),
    {
        self.caret = self.find_word_start();
    }

    /// To the end of the word behind the caret.
    pub fn word_right(&mut self)
        requires
            old(self).state().valid(),
        ensures
            final(self).state() == old(self).state().moved(
                word_end(old(self).state().text, old(self).state().caret),
            ),
            final(self).state().valid(),
    {
        self.caret = self.find_word_end();
    }

    /// To the start of the next word.
    pub fn word_next(&mut self)
        requires
            old(self).state().valid(),
        ensures
            final(self).state() == old(self).state().moved(
                next_word(old(self).state().text, old(self).state().caret),
            ),
            final(self).state().valid(),
    {
        let t = chars_of(self.text.as_str());
        let end = white_after(t.as_slice(), self.caret);
        let ghost rest = t@.skip(self.caret as int);
        assert(rest.skip(first_white(rest)) =~= t@.skip(end as int));
        let to = skip_white(t.as_slice(), end);
        assert(t@.skip(to as int).len() == t@.len() - to);
        self.caret = to;
    }

    /// Delete back to the start of the word.
    pub fn kill_word_back(&mut self)
        requires
            old(self).state().valid(),
        ensures
            final(self).state() == old(self).state().cut(
                word_start(old(self).state().text, old(self).state().caret),
                old(self).state().caret,
            ),
            final(self).state().valid(),
    {
        let start = self.find_word_start();
        let c = self.caret;
        self.cut(start, c);
    }

    fn begin(&self) -> (r: usize)
        requires
            self.state().valid(),
        ensures
            r == line_begin(self.state().text, self.state().caret),
            r <= self.state().caret,
    {
        let t = chars_of(self.text.as_str());
        after_last(t.as_slice(), '\n', self.caret)
    }

    fn finish(&self) -> (r: usize)
        requires
            self.state().valid(),
        ensures
            r == line_end(self.state().text, self.state().caret),
            self.state().caret <= r <= self.state().text.len(),
    {
        let t = chars_of(self.text.as_str());
        position(t.as_slice(), '\n', self.caret)
    }

    /// To the start of the current line, not of the whole buffer: a multi-line
    /// prompt otherwise has no way to reach a line's own start.
    pub fn home(&mut self)
        requires
            old(self).state().valid(),
        ensures
            final(self).state() == old(self).state().moved(
                line_begin(old(self).state().text, old(self).state().caret),
            ),
            final(self).state().valid(),
    {
        self.caret = self.begin();
    }

    /// To the end of the current line.
    pub fn end(&mut self)
        requires
            old(self).state().valid(),
        ensures
            final(self).state() == old(self).state().moved(
                line_end(old(self).state().text, old(self).state().caret),
            ),
            final(self).state().valid(),
    {
        self.caret = self.finish();
    }

    /// Delete to the end of the current line.
    pub fn kill_to_end(&mut self)
        requires
            old(self).state().valid(),
        ensures
            final(self).state() == old(self).state().cut(
                old(self).state().caret,
                line_end(old(self).state().text, old(self).state().caret),
            ),
            final(self).state().valid(),
    {
        let end = self.finish();
        let c = self.caret;
        self.cut(c, end);
    }

    /// Delete back to the start of the current line.
    pub fn kill_to_start(&mut self)
        requires
            old(self).state().valid(),
        ensures
            final(self).state() == old(self).state().cut(
                line_begin(old(self).state().text, old(self).state().caret),
                old(self).state().caret,
            ),
            final(self).state().valid(),
    {
        let start = self.begin();
        let c = self.caret;
        self.cut(start, c);
    }

    /// Older, unless the caret has somewhere to go within a multi-line buffer.
    pub fn up(&mut self)
        requires
            old(self).state().valid(),
        ensures
            final(self).state() == after_up(old(self).state()),
            final(self).state().valid(),
    {
        if self.begin() > 0 {
            self.caret_up();
            return;
        }
        if self.at == 0 {
            return;
        }
        if self.at == self.history.len() {
            self.draft = self.text.clone();
        }
        self.at = self.at - 1;
        self.text = self.history[self.at].clone();
        self.caret = self.text.as_str().unicode_len();
    }

    /// Newer, unless the buffer has several lines: the caret moves in those.
    pub fn down(&mut self)
        requires
            old(self).state().valid(),
        ensures
            final(self).state() == after_down(old(self).state()),
            final(self).state().valid(),
    {
        let t = chars_of(self.text.as_str());
        if has(t.as_slice(), '\n') {
            self.caret_down();
            return;
        }
        if self.at >= self.history.len() {
            return;
        }
        self.at = self.at + 1;
        if self.at < self.history.len() {
            self.text = self.history[self.at].clone();
        } else {
            let mut line = String::new();
            std::mem::swap(&mut line, &mut self.draft);
            self.text = line;
        }
        self.caret = self.text.as_str().unicode_len();
    }

    /// How many bytes the caret is past the character `start`.
    fn column_from(&self, start: usize) -> (r: usize)
        requires
            self.state().valid(),
            start <= self.state().caret,
        ensures
            r == bytes_len(self.state().text.subrange(start as int, self.state().caret)),
    {
        let a = bytes_before(self.text.as_str(), start);
        let b = bytes_before(self.text.as_str(), self.caret);
        proof {
            let head = self.state().text.take(start as int);
            let tail = self.state().text.subrange(start as int, self.state().caret);
            assert(head + tail =~= self.state().text.take(self.state().caret));
            lemma_bytes_concat(head, tail);
        }
        b - a
    }

    fn caret_up(&mut self)
        requires
            old(self).state().valid(),
        ensures
            final(self).state() == old(self).state().moved(
                caret_above(old(self).state().text, old(self).state().caret),
            ),
            final(self).state().valid(),
    {
        let t = chars_of(self.text.as_str());
        let start = after_last(t.as_slice(), '\n', self.caret);
        if start == 0 {
            return;
        }
        let prev = after_last(t.as_slice(), '\n', start - 1);
        let room = self.column_from(start);
        self.caret = level(t.as_slice(), room, prev, start - 1);
    }

    fn caret_down(&mut self)
        requires
            old(self).state().valid(),
        ensures
            final(self).state() == old(self).state().moved(
                caret_below(old(self).state().text, old(self).state().caret),
            ),
            final(self).state().valid(),
    {
        let t = chars_of(self.text.as_str());
        let start = after_last(t.as_slice(), '\n', self.caret);
        let end = position(t.as_slice(), '\n', self.caret);
        if end >= t.len() {
            return;
        }
        let next_end = position(t.as_slice(), '\n', end + 1);
        let room = self.column_from(start);
        self.caret = level(t.as_slice(), room, end + 1, next_end);
    }

    /// The rows to paint and where the caret sits among them.
    ///
    /// Wrapping is done here rather than left to the terminal: the live region
    /// is repainted by counting rows back, and a row the terminal wrapped on its
    /// own is a row the count does not know about.
    pub fn view(&self, width: usize) -> (r: (Vec<String>, (u16, u16)))
        requires
            self.state().valid(),
        ensures
            texts(r.0@) == painted(self.state(), width as int),
            r.1.0 == painted_caret(self.state(), width as int).0 % 0x10000,
            r.1.1 == painted_caret(self.state(), width as int).1 % 0x10000,
    {
        let t = chars_of(self.text.as_str());
        let bang = t.len() > 0 && t[0] == '!';
        let from: usize = if bang {
            1
        } else {
            0
        };
        let body = copy_range(t.as_slice(), from, t.len());
        assert(body@ =~= shown_text(self.state().text));
        let at: usize = if bang && self.caret > 0 {
            self.caret - 1
        } else {
            self.caret
        };
        let edge: usize = if bang {
            GUTTER - 1
        } else {
            GUTTER
        };
        let room: usize = if width > edge {
            width - edge
        } else {
            1
        };
        let (body_rows, cell) = lay_out(body.as_slice(), room, at);
        let mut out: Vec<String> = Vec::new();
        let mut i: usize = 0;
        let ghost want = painted(self.state(), width as int);
        while i < body_rows.len()
            invariant
                i <= body_rows@.len(),
                out@.len() == i,
                rows(body_rows@) == laid_rows(
                    shown_text(self.state().text),
                    avail(self.state().text, width as int),
                ),
                bang == is_bang(self.state().text),
                want == painted(self.state(), width as int),
                forall|k: int| 0 <= k < i ==> (#[trigger] out@[k])@ == want[k],
            decreases body_rows@.len() - i,
        {
            let mut row = String::new();
            if i == 0 {
                if bang {
                    row.append(self.prompt_bang.as_str());
                } else {
                    row.append(self.prompt.as_str());
                }
            } else {
                row.push(' ');
                if !bang {
                    row.push(' ');
                }
            }
            let ghost head = row@;
            let r = string_of(body_rows[i].as_slice());
            row.append(r.as_str());
            proof {
                assert(rows(body_rows@)[i as int] == r@);
                if i > 0 {
                    if bang {
                        assert(head =~= seq![' ']);
                    } else {
                        assert(head =~= seq![' ', ' ']);
                    }
                } else {
                    assert(head =~= if bang {
                        self.state().prompt_bang
                    } else {
                        self.state().prompt
                    });
                }
                assert(row@ =~= want[i as int]);
            }
            out.push(row);
            i += 1;
        }
        assert(texts(out@) =~= want);
        (out, (low_half(cell.0), low_half(edge + cell.1)))
    }
}

/// The low 16 bits of a count.
fn low_half(n: usize) -> (r: u16)
    ensures
        r == n % 0x10000,
{
    (n % 0x10000) as u16
}

/// The place on the line `to..to_end` that is `room` bytes in, or the end of
/// that line. A column landing inside a character does not split it.
fn level(t: &[char], room: usize, to: usize, to_end: usize) -> (r: usize)
    requires
        to <= to_end <= t@.len(),
    ensures
        r == to + fitting(t@.subrange(to as int, to_end as int), room as int),
        to <= r <= to_end,
{
    let ghost line = t@.subrange(to as int, to_end as int);
    let mut j: usize = to;
    let mut left: usize = room;
    assert(line.skip(0) =~= line);
    while j < to_end && char_bytes(t[j]) <= left
        invariant
            to <= j <= to_end <= t@.len(),
            line == t@.subrange(to as int, to_end as int),
            j - to + fitting(line.skip(j - to), left as int) == fitting(line, room as int),
        decreases to_end - j,
    {
        assert(line.skip(j - to)[0] == t@[j as int]);
        assert(line.skip(j - to).skip(1) =~= line.skip(j - to + 1));
        left -= char_bytes(t[j]);
        j += 1;
    }
    proof {
        if j < to_end {
            assert(line.skip(j - to)[0] == t@[j as int]);
        }
    }
    j
}

/// Lay a text out in rows of `room` columns, and find the cell of a caret
/// before character `at`.
fn lay_out(s: &[char], room: usize, at: usize) -> (r: (Vec<Vec<char>>, (usize, usize)))
    ensures
        rows(r.0@) == laid_rows(s@, room as int),
        (r.1.0 as int, r.1.1 as int) == caret_cell(s@, room as int, at as int),
        r.1.1 <= room || r.1.1 <= 3,
{
    let mut done: Vec<Vec<char>> = Vec::new();
    let mut row: Vec<char> = Vec::new();
    let mut used: usize = 0;
    let mut cell: Option<(usize, usize)> = None;
    let mut i: usize = 0;
    assert(rows(done@) =~= Seq::empty());
    while i < s.len()
        invariant
            i <= s@.len(),
            laid(s@, room as int, i as int) == (Laid {
                rows: rows(done@),
                row: row@,
                used: used as int,
            }),
            used <= room || used <= 3,
            row@.len() == 0 ==> used == 0,
            match cell {
                Some(c) => at < i && (c.0 as int, c.1 as int) == caret_cell(
                    s@,
                    room as int,
                    at as int,
                ) && (c.1 <= room || c.1 <= 3),
                None => at >= i,
            },
        decreases s@.len() - i,
    {
        let c = s[i];
        let ghost before = rows(done@);
        if c == '\n' {
            if i == at {
                cell = Some((done.len(), used));
            }
            let ghost r = row@;
            done.push(row);
            assert(rows(done@) =~= before.push(r));
            row = Vec::new();
            used = 0;
            i += 1;
            continue;
        }
        let w = columns_of(c);
        let full = row.len() > 0 && (w > room || used > room - w);
        assert(full == (used + w > room && row@.len() > 0));
        if full {
            let ghost r = row@;
            done.push(row);
            assert(rows(done@) =~= before.push(r));
            row = Vec::new();
            used = 0;
        }
        // After the wrap, so a caret sitting exactly on the break lands at the
        // start of the new row rather than off the end of the old one.
        if i == at {
            cell = Some((done.len(), used));
        }
        row.push(c);
        used += w;
        i += 1;
    }
    let end = match cell {
        Some(c) => c,
        None => (done.len(), used),
    };
    let ghost before = rows(done@);
    let ghost r = row@;
    done.push(row);
    assert(rows(done@) =~= before.push(r));
    (done, end)
}

// ---------------------------------------------------------------------------
// History in a file
// ---------------------------------------------------------------------------

/// An entry on one line: its backslashes and newlines escaped.
pub open spec fn escaped(s: Seq<char>) -> Seq<char>
    decreases s.len(),
{
    if s.len() == 0 {
        Seq::empty()
    } else {
        let rest = escaped(s.drop_last());
        if s.last() == '\\' {
            rest + seq!['\\', '\\']
        } else if s.last() == '\n' {
            rest + seq!['\\', 'n']
        } else {
            rest.push(s.last())
        }
    }
}

/// Every entry on a line of its own.
pub open spec fn encoded(entries: Seq<Seq<char>>) -> Seq<char>
    decreases entries.len(),
{
    if entries.len() == 0 {
        Seq::empty()
    } else {
        encoded(entries.drop_last()) + escaped(entries.last()) + seq!['\n']
    }
}

/// A line as the entry it was: `\n` is a newline, `\\` a backslash, and any other
/// backslash itself.
pub open spec fn unescaped(l: Seq<char>) -> Seq<char>
    decreases l.len(),
{
    if l.len() == 0 {
        Seq::empty()
    } else if l.len() >= 2 && l[0] == '\\' && l[1] == 'n' {
        seq!['\n'] + unescaped(l.skip(2))
    } else if l.len() >= 2 && l[0] == '\\' && l[1] == '\\' {
        seq!['\\'] + unescaped(l.skip(2))
    } else {
        seq![l[0]] + unescaped(l.skip(1))
    }
}

/// The lines that hold an entry, each as the entry it was.
pub open spec fn entries_of(all: Seq<Seq<char>>) -> Seq<Seq<char>>
    decreases all.len(),
{
    if all.len() == 0 {
        Seq::empty()
    } else {
        let rest = entries_of(all.drop_last());
        if all.last().len() > 0 {
            rest.push(unescaped(all.last()))
        } else {
            rest
        }
    }
}

fn escape(s: &[char]) -> (r: Vec<char>)
    ensures
        r@ == escaped(s@),
{
    let mut r: Vec<char> = Vec::new();
    let mut i: usize = 0;
    while i < s.len()
        invariant
            i <= s@.len(),
            r@ == escaped(s@.take(i as int)),
        decreases s@.len() - i,
    {
        let ghost before = r@;
        assert(s@.take(i + 1).drop_last() =~= s@.take(i as int));
        if s[i] == '\\' {
            r.push('\\');
            r.push('\\');
            assert(r@ =~= before + seq!['\\', '\\']);
        } else if s[i] == '\n' {
            r.push('\\');
            r.push('n');
            assert(r@ =~= before + seq!['\\', 'n']);
        } else {
            r.push(s[i]);
        }
        i += 1;
    }
    assert(s@.take(i as int) =~= s@);
    r
}

fn unescape(l: &[char]) -> (r: Vec<char>)
    ensures
        r@ == unescaped(l@),
{
    let mut r: Vec<char> = Vec::new();
    let mut i: usize = 0;
    assert(l@.skip(0) =~= l@);
    assert(r@ + unescaped(l@) =~= unescaped(l@));
    while i < l.len()
        invariant
            i <= l@.len(),
            r@ + unescaped(l@.skip(i as int)) == unescaped(l@),
        decreases l@.len() - i,
    {
        let ghost rest = l@.skip(i as int);
        let ghost before = r@;
        assert(rest[0] == l@[i as int]);
        let two = l.len() - i >= 2 && l[i] == '\\';
        if two && l[i + 1] == 'n' {
            assert(rest[1] == l@[i + 1]);
            assert(rest.skip(2) =~= l@.skip(i + 2));
            r.push('\n');
            assert(r@ + unescaped(l@.skip(i + 2)) =~= before + (seq!['\n'] + unescaped(
                l@.skip(i + 2),
            )));
            i += 2;
        } else if two && l[i + 1] == '\\' {
            assert(rest[1] == l@[i + 1]);
            assert(rest.skip(2) =~= l@.skip(i + 2));
            r.push('\\');
            assert(r@ + unescaped(l@.skip(i + 2)) =~= before + (seq!['\\'] + unescaped(
                l@.skip(i + 2),
            )));
            i += 2;
        } else {
            proof {
                if rest.len() >= 2 {
                    assert(rest[1] == l@[i + 1]);
                }
            }
            assert(rest.skip(1) =~= l@.skip(i + 1));
            r.push(l[i]);
            assert(r@ + unescaped(l@.skip(i + 1)) =~= before + (seq![l@[i as int]] + unescaped(
                l@.skip(i + 1),
            )));
            i += 1;
        }
    }
    assert(l@.skip(i as int) =~= Seq::empty());
    assert(r@ + unescaped(l@.skip(i as int)) =~= r@);
    r
}

/// One entry per line, with the newlines inside an entry escaped, so a
/// multi-line prompt recalls as the one thing it was.
pub fn encode(entries: &[String]) -> (r: String)
    ensures
        r@ == encoded(texts(entries@)),
{
    let mut r = String::new();
    let mut i: usize = 0;
    let ghost all = texts(entries@);
    assert(all.take(0) =~= Seq::empty());
    while i < entries.len()
        invariant
            i <= entries@.len(),
            all == texts(entries@),
            r@ == encoded(all.take(i as int)),
        decreases entries@.len() - i,
    {
        assert(all.take(i + 1).drop_last() =~= all.take(i as int));
        assert(all.take(i + 1).last() == entries@[i as int]@);
        let ghost before = r@;
        let c = chars_of(entries[i].as_str());
        let e = escape(c.as_slice());
        let t = string_of(e.as_slice());
        r.append(t.as_str());
        r.push('\n');
        assert(r@ =~= before + e@ + seq!['\n']);
        i += 1;
    }
    assert(all.take(i as int) =~= all);
    r
}

/// The entries of a history file, oldest first.
pub fn decode(body: &str) -> (r: Vec<String>)
    ensures
        texts(r@) == entries_of(lines(body@)),
{
    let c = chars_of(body);
    let all = lines_of(c.as_slice());
    let ghost seen = rows(all@);
    let mut r: Vec<String> = Vec::new();
    let mut i: usize = 0;
    assert(seen.take(0) =~= Seq::empty());
    assert(texts(r@) =~= entries_of(seen.take(0)));
    while i < all.len()
        invariant
            i <= all@.len(),
            seen == rows(all@),
            texts(r@) == entries_of(seen.take(i as int)),
        decreases all@.len() - i,
    {
        assert(seen.take(i + 1).drop_last() =~= seen.take(i as int));
        assert(seen.take(i + 1).last() == all@[i as int]@);
        if all[i].len() > 0 {
            let ghost before = texts(r@);
            let u = unescape(all[i].as_slice());
            let t = string_of(u.as_slice());
            r.push(t);
            assert(texts(r@) =~= before.push(t@));
        }
        i += 1;
    }
    assert(seen.take(i as int) =~= seen);
    r
}

} // verus!
