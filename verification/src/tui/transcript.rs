//! The transcript as rows, exactly as the live stream would have drawn them:
//! prompts with their gutter, answers for the renderer to style, tool calls as
//! their result lines, reasoning as a foldable block. A rewind rebuilds the
//! screen from this, so the view returns to the point the conversation did.

use crate::text::{chars_of, lines, lines_of, rows, same_str, string_of, texts};
use crate::tui::line::{lines_view, one_span, plain_style, Line, Role, Style};
use crate::tui::pane::{answer_row, unstyled_view, Pane, PaneView, Unstyled, UnstyledView};
use crate::tui::row::{
    all_valid, block_of, concat, fallback, muted_row, prompt_rows, result_row, rows_view,
    start_form, Row, RowView,
};
use crate::tui::thinking::Thinking;
use vstd::prelude::*;
use vstd::string::*;

verus! {

/// What the user's side of an entry holds.
#[derive(Debug)]
pub enum Body {
    Prompt(String),
    Aside(String),
    /// Machine prose, not the user's line.
    Note(String),
    /// What a call came back with: the texts of its content, and the sketch the
    /// tool made of it.
    Result {
        call: String,
        is_error: bool,
        name: String,
        content: Vec<String>,
        preview: Option<String>,
    },
    Image,
}

/// A block of what the model answered.
#[derive(Debug)]
pub enum Block {
    Text(String),
    ToolCall { id: String, name: String, summary: String },
    /// The texts of a reasoning block.
    Reasoning(Vec<String>),
}

/// One entry of the transcript.
#[derive(Debug)]
pub enum Entry {
    User { id: u64, body: Body },
    Assistant { id: u64, blocks: Vec<Block> },
    Compaction { id: u64 },
}

/// What the user's side of an entry holds, with its texts as sequences.
#[verifier::ext_equal]
pub enum BodyView {
    Prompt(Seq<char>),
    Aside(Seq<char>),
    Note(Seq<char>),
    Result {
        call: Seq<char>,
        is_error: bool,
        name: Seq<char>,
        content: Seq<Seq<char>>,
        preview: Option<Seq<char>>,
    },
    Image,
}

/// A block of an answer, with its texts as sequences.
#[verifier::ext_equal]
pub enum BlockView {
    Text(Seq<char>),
    ToolCall { id: Seq<char>, name: Seq<char>, summary: Seq<char> },
    Reasoning(Seq<Seq<char>>),
}

/// One entry, with its texts as sequences.
#[verifier::ext_equal]
pub enum EntryView {
    User { id: u64, body: BodyView },
    Assistant { id: u64, blocks: Seq<BlockView> },
    Compaction { id: u64 },
}

impl View for Body {
    type V = BodyView;

    open spec fn view(&self) -> BodyView {
        match self {
            Body::Prompt(s) => BodyView::Prompt(s@),
            Body::Aside(s) => BodyView::Aside(s@),
            Body::Note(s) => BodyView::Note(s@),
            Body::Result { call, is_error, name, content, preview } => BodyView::Result {
                call: call@,
                is_error: *is_error,
                name: name@,
                content: texts(content@),
                preview: match preview {
                    Some(p) => Some(p@),
                    None => None,
                },
            },
            Body::Image => BodyView::Image,
        }
    }
}

impl View for Block {
    type V = BlockView;

    open spec fn view(&self) -> BlockView {
        match self {
            Block::Text(s) => BlockView::Text(s@),
            Block::ToolCall { id, name, summary } => BlockView::ToolCall {
                id: id@,
                name: name@,
                summary: summary@,
            },
            Block::Reasoning(v) => BlockView::Reasoning(texts(v@)),
        }
    }
}

/// Blocks, with their texts as sequences.
pub open spec fn blocks_view(v: Seq<Block>) -> Seq<BlockView> {
    Seq::new(v.len(), |i: int| v[i]@)
}

impl View for Entry {
    type V = EntryView;

    open spec fn view(&self) -> EntryView {
        match self {
            Entry::User { id, body } => EntryView::User { id: *id, body: body@ },
            Entry::Assistant { id, blocks } => EntryView::Assistant {
                id: *id,
                blocks: blocks_view(blocks@),
            },
            Entry::Compaction { id } => EntryView::Compaction { id: *id },
        }
    }
}

/// Entries, with their texts as sequences.
pub open spec fn entries_view(v: Seq<Entry>) -> Seq<EntryView> {
    Seq::new(v.len(), |i: int| v[i]@)
}

/// What an entry is called.
pub open spec fn entry_id(e: EntryView) -> u64 {
    match e {
        EntryView::User { id, .. } => id,
        EntryView::Assistant { id, .. } => id,
        EntryView::Compaction { id } => id,
    }
}

/// Whether an entry is the result of a call.
pub open spec fn answers_call(e: EntryView, call: Seq<char>) -> bool {
    e matches EntryView::User { body: BodyView::Result { call: c, .. }, .. } && c == call
}

/// Whether a call has its result in the history.
pub open spec fn answered(history: Seq<EntryView>, call: Seq<char>) -> bool {
    exists|i: int| 0 <= i < history.len() && answers_call(#[trigger] history[i], call)
}

/// What has been rebuilt so far.
#[verifier::ext_equal]
pub struct Rebuilt {
    pub rows: Seq<RowView>,
    pub unstyled: Seq<UnstyledView>,
    pub thinking: Thinking,
    /// Whether the entries are out of the model's view by now.
    pub hidden: bool,
}

/// The lines of all the texts, in order.
pub open spec fn flat_lines(parts: Seq<Seq<char>>) -> Seq<Seq<char>>
    decreases parts.len(),
{
    if parts.len() == 0 {
        Seq::empty()
    } else {
        flat_lines(parts.drop_last()) + lines(parts.last())
    }
}

/// The rows of a note: machine prose, in the muted voice of a screen notice.
pub open spec fn note_rows(text: Seq<char>) -> Seq<RowView> {
    Seq::new(lines(text).len(), |i: int| muted_row(lines(text)[i]))
}

/// The rows of a text block, and what the renderer is to style of them: a fresh
/// markdown for each block.
pub open spec fn with_answer(r: Rebuilt, text: Seq<char>) -> Rebuilt {
    let all = lines(text);
    Rebuilt {
        rows: r.rows + Seq::new(all.len(), |i: int| answer_row(all[i])),
        unstyled: r.unstyled + Seq::new(
            all.len(),
            |i: int| UnstyledView { row: r.rows.len() + i, text: all[i], fresh: i == 0 },
        ),
        ..r
    }
}

/// One block of an answer rebuilt. A call whose result is in the session shows
/// only its result row; one that never got an answer shows the start line
/// instead.
pub open spec fn with_block(
    r: Rebuilt,
    b: BlockView,
    history: Seq<EntryView>,
    mark: Seq<char>,
) -> Rebuilt {
    match b {
        BlockView::Text(t) => with_answer(r, t),
        BlockView::ToolCall { id, name, summary } => if answered(history, id) {
            r
        } else {
            Rebuilt { rows: r.rows.push(muted_row(start_form(mark, name, summary))), ..r }
        },
        BlockView::Reasoning(parts) => {
            let all = flat_lines(parts);
            Rebuilt {
                rows: r.rows.push(
                    RowView::Reasoning {
                        block: r.thinking.next,
                        lines: Seq::new(
                            all.len(),
                            |i: int| one_span(all[i], plain_style(Role::Muted)),
                        ),
                        folded: r.thinking.folded,
                    },
                ),
                thinking: Thinking { next: (r.thinking.next + 1) as u64, ..r.thinking },
                ..r
            }
        },
    }
}

/// The first `n` blocks of an answer rebuilt.
pub open spec fn with_blocks(
    r: Rebuilt,
    blocks: Seq<BlockView>,
    n: int,
    history: Seq<EntryView>,
    mark: Seq<char>,
) -> Rebuilt
    decreases n,
{
    if n <= 0 {
        r
    } else {
        with_block(with_blocks(r, blocks, n - 1, history, mark), blocks[n - 1], history, mark)
    }
}

/// What the user's side of an entry shows.
pub open spec fn body_rows(b: BodyView) -> Seq<RowView> {
    match b {
        BodyView::Prompt(t) | BodyView::Aside(t) => prompt_rows(t),
        BodyView::Note(t) => note_rows(t),
        BodyView::Result { call, is_error, name, content, preview } => seq![
            result_row(
                !is_error,
                name,
                match preview {
                    Some(p) => p,
                    None => fallback(concat(content)),
                },
            ),
        ],
        BodyView::Image => Seq::empty(),
    }
}

/// The line that marks where the model's view ends.
pub open spec fn compacted_form() -> Seq<char> {
    "─── compacted; the model no longer sees the rest of this ───"@
}

/// The mark where the entries pass out of the model's view, or back into it.
pub open spec fn marked(r: Rebuilt, e: EntryView, unseen: Seq<u64>) -> Rebuilt {
    let gone = unseen.contains(entry_id(e));
    if gone != r.hidden && e !is Compaction {
        Rebuilt {
            rows: if gone {
                r.rows.push(muted_row(compacted_form()))
            } else {
                r.rows
            },
            hidden: gone,
            ..r
        }
    } else {
        r
    }
}

/// One entry rebuilt.
pub open spec fn with_entry(
    r: Rebuilt,
    e: EntryView,
    history: Seq<EntryView>,
    unseen: Seq<u64>,
    mark: Seq<char>,
) -> Rebuilt {
    let q = marked(r, e, unseen);
    match e {
        EntryView::User { body, .. } => Rebuilt { rows: q.rows + body_rows(body), ..q },
        EntryView::Assistant { blocks, .. } => with_blocks(
            q,
            blocks,
            blocks.len() as int,
            history,
            mark,
        ),
        EntryView::Compaction { .. } => q,
    }
}

/// The first `n` entries rebuilt.
pub open spec fn rebuilt(
    history: Seq<EntryView>,
    n: int,
    unseen: Seq<u64>,
    mark: Seq<char>,
    thinking: Thinking,
) -> Rebuilt
    decreases n,
{
    if n <= 0 {
        Rebuilt { rows: Seq::empty(), unstyled: Seq::empty(), thinking, hidden: false }
    } else {
        with_entry(
            rebuilt(history, n - 1, unseen, mark, thinking),
            history[n - 1],
            history,
            unseen,
            mark,
        )
    }
}

/// How many of the first `n` blocks are reasoning.
pub open spec fn thoughts(blocks: Seq<BlockView>, n: int) -> nat
    decreases n,
{
    if n <= 0 {
        0
    } else {
        thoughts(blocks, n - 1) + if blocks[n - 1] is Reasoning {
            1nat
        } else {
            0nat
        }
    }
}

/// How many blocks of reasoning the first `n` entries hold.
pub open spec fn all_thoughts(history: Seq<EntryView>, n: int) -> nat
    decreases n,
{
    if n <= 0 {
        0
    } else {
        all_thoughts(history, n - 1) + match history[n - 1] {
            EntryView::Assistant { blocks, .. } => thoughts(blocks, blocks.len() as int),
            _ => 0nat,
        }
    }
}

proof fn lemma_thoughts(blocks: Seq<BlockView>, i: int, n: int)
    requires
        0 <= i <= n,
    ensures
        thoughts(blocks, i) <= thoughts(blocks, n),
    decreases n - i,
{
    if i < n {
        lemma_thoughts(blocks, i, n - 1);
    }
}

proof fn lemma_all_thoughts(history: Seq<EntryView>, i: int, n: int)
    requires
        0 <= i <= n,
    ensures
        all_thoughts(history, i) <= all_thoughts(history, n),
    decreases n - i,
{
    if i < n {
        lemma_all_thoughts(history, i, n - 1);
    }
}

/// Each block of reasoning takes one id.
proof fn lemma_ids(
    r: Rebuilt,
    blocks: Seq<BlockView>,
    n: int,
    history: Seq<EntryView>,
    mark: Seq<char>,
)
    requires
        0 <= n <= blocks.len(),
        r.thinking.next + thoughts(blocks, n) <= u64::MAX,
    ensures
        with_blocks(r, blocks, n, history, mark).thinking == (Thinking {
            next: (r.thinking.next + thoughts(blocks, n)) as u64,
            ..r.thinking
        }),
        with_blocks(r, blocks, n, history, mark).hidden == r.hidden,
    decreases n,
{
    if n > 0 {
        lemma_ids(r, blocks, n - 1, history, mark);
    }
}

struct Work {
    rows: Vec<Row>,
    unstyled: Vec<Unstyled>,
    thinking: Thinking,
    hidden: bool,
}

impl Work {
    spec fn model(&self) -> Rebuilt {
        Rebuilt {
            rows: rows_view(self.rows@),
            unstyled: unstyled_view(self.unstyled@),
            thinking: self.thinking,
            hidden: self.hidden,
        }
    }

    spec fn valid(&self) -> bool {
        all_valid(self.rows@)
    }

    fn push(&mut self, row: Row)
        requires
            old(self).valid(),
            row.valid(),
        ensures
            final(self).valid(),
            final(self).model() == (Rebuilt {
                rows: old(self).model().rows.push(row@),
                ..old(self).model()
            }),
    {
        let ghost before = self.model();
        self.rows.push(row);
        assert(self.model().rows =~= before.rows.push(row@));
    }

    fn extend(&mut self, rows: Vec<Row>)
        requires
            old(self).valid(),
            all_valid(rows@),
        ensures
            final(self).valid(),
            final(self).model() == (Rebuilt {
                rows: old(self).model().rows + rows_view(rows@),
                ..old(self).model()
            }),
    {
        let ghost before = self.model();
        let ghost all = rows_view(rows@);
        let ghost mine = self.rows@;
        let mut rows = rows;
        self.rows.append(&mut rows);
        assert(rows_view(self.rows@) =~= before.rows + all);
        assert forall|i: int| 0 <= i < self.rows@.len() implies (#[trigger] self.rows@[i]).valid() by {
            if i < mine.len() {
                assert(self.rows@[i] == mine[i]);
            }
        }
    }

    fn answer(&mut self, text: &str)
        requires
            old(self).valid(),
        ensures
            final(self).valid(),
            final(self).model() == with_answer(old(self).model(), text@),
    {
        let ghost before = self.model();
        let v = chars_of(text);
        let all = lines_of(v.as_slice());
        let ghost every = lines(text@);
        let ghost goal = with_answer(before, text@);
        let mut i: usize = 0;
        assert(every.len() == all@.len());
        assert(self.model().rows =~= goal.rows.take(before.rows.len() as int));
        assert(self.model().unstyled =~= goal.unstyled.take(before.unstyled.len() as int));
        while i < all.len()
            invariant
                i <= all@.len(),
                self.valid(),
                rows(all@) == every,
                every == lines(text@),
                every.len() == all@.len(),
                goal == with_answer(before, text@),
                self.thinking == before.thinking,
                self.hidden == before.hidden,
                self.model().rows == goal.rows.take(before.rows.len() + i),
                self.model().unstyled == goal.unstyled.take(before.unstyled.len() + i),
                self.rows@.len() == before.rows.len() + i,
            decreases all@.len() - i,
        {
            assert(every[i as int] == all@[i as int]@);
            let row: usize = self.rows.len();
            let s = string_of(all[i].as_slice());
            let ghost had = self.model().unstyled;
            let ghost next = UnstyledView { row: row as int, text: s@, fresh: i == 0 };
            self.push(Row::notice(Line::of(s.as_str(), Style::of(Role::Plain))));
            self.unstyled.push(Unstyled { row, text: s, fresh: i == 0 });
            assert(self.model().unstyled =~= had.push(next));
            assert(goal.unstyled[before.unstyled.len() + i] == next);
            assert(self.model().rows =~= goal.rows.take(before.rows.len() + (i + 1)));
            assert(self.model().unstyled =~= goal.unstyled.take(before.unstyled.len() + (i + 1)));
            i += 1;
        }
        assert(goal.rows.take(before.rows.len() + i) =~= goal.rows);
        assert(goal.unstyled.take(before.unstyled.len() + i) =~= goal.unstyled);
    }
}

fn has_answer(history: &[Entry], call: &str) -> (r: bool)
    ensures
        r == answered(entries_view(history@), call@),
{
    let ghost all = entries_view(history@);
    let mut i: usize = 0;
    while i < history.len()
        invariant
            i <= history@.len(),
            all == entries_view(history@),
            forall|k: int| 0 <= k < i ==> !answers_call(#[trigger] all[k], call@),
        decreases history@.len() - i,
    {
        assert(all[i as int] == history@[i as int]@);
        if let Entry::User { body, .. } = &history[i] {
            if let Body::Result { call: c, .. } = body {
                if same_str(c.as_str(), call) {
                    assert(answers_call(all[i as int], call@));
                    return true;
                }
            }
        }
        i += 1;
    }
    false
}

fn note(text: &str) -> (r: Vec<Row>)
    ensures
        all_valid(r@),
        rows_view(r@) == note_rows(text@),
{
    let v = chars_of(text);
    let all = lines_of(v.as_slice());
    let ghost every = lines(text@);
    let mut r: Vec<Row> = Vec::new();
    let mut i: usize = 0;
    while i < all.len()
        invariant
            i <= all@.len(),
            rows(all@) == every,
            r@.len() == i,
            all_valid(r@),
            forall|k: int| 0 <= k < i ==> (#[trigger] r@[k])@ == muted_row(every[k]),
        decreases all@.len() - i,
    {
        assert(every[i as int] == all@[i as int]@);
        let s = string_of(all[i].as_slice());
        r.push(Row::muted(s.as_str()));
        i += 1;
    }
    assert(rows(all@).len() == all@.len());
    assert(rows_view(r@) =~= note_rows(text@));
    r
}

fn thought_lines(parts: &[String]) -> (r: Vec<Line>)
    ensures
        lines_view(r@) == Seq::new(
            flat_lines(texts(parts@)).len(),
            |i: int| one_span(flat_lines(texts(parts@))[i], plain_style(Role::Muted)),
        ),
{
    let ghost all = texts(parts@);
    let mut r: Vec<Line> = Vec::new();
    let mut i: usize = 0;
    assert(all.take(0) =~= Seq::empty());
    while i < parts.len()
        invariant
            i <= parts@.len(),
            all == texts(parts@),
            r@.len() == flat_lines(all.take(i as int)).len(),
            forall|k: int|
                0 <= k < r@.len() ==> (#[trigger] r@[k])@ == one_span(
                    flat_lines(all.take(i as int))[k],
                    plain_style(Role::Muted),
                ),
        decreases parts@.len() - i,
    {
        let ghost so_far = flat_lines(all.take(i as int));
        assert(all.take(i + 1).drop_last() =~= all.take(i as int));
        assert(all.take(i + 1).last() == parts@[i as int]@);
        let v = chars_of(parts[i].as_str());
        let these = lines_of(v.as_slice());
        let ghost more = lines(parts@[i as int]@);
        assert(rows(these@) == more);
        assert(more.len() == these@.len());
        let mut k: usize = 0;
        while k < these.len()
            invariant
                k <= these@.len(),
                rows(these@) == more,
                r@.len() == so_far.len() + k,
                forall|j: int|
                    0 <= j < r@.len() ==> (#[trigger] r@[j])@ == one_span(
                        (so_far + more)[j],
                        plain_style(Role::Muted),
                    ),
            decreases these@.len() - k,
        {
            assert(more[k as int] == these@[k as int]@);
            assert((so_far + more)[so_far.len() + k] == more[k as int]);
            let s = string_of(these[k].as_slice());
            r.push(Row::reasoning_line(s.as_str()));
            k += 1;
        }
        i += 1;
    }
    assert(all.take(i as int) =~= all);
    assert(lines_view(r@) =~= Seq::new(
        flat_lines(all).len(),
        |i: int| one_span(flat_lines(all)[i], plain_style(Role::Muted)),
    ));
    r
}

fn add_blocks(w: &mut Work, blocks: &[Block], history: &[Entry], mark: &str)
    requires
        old(w).valid(),
        old(w).thinking.next + thoughts(blocks_view(blocks@), blocks@.len() as int) <= u64::MAX,
    ensures
        final(w).valid(),
        final(w).model() == with_blocks(
            old(w).model(),
            blocks_view(blocks@),
            blocks@.len() as int,
            entries_view(history@),
            mark@,
        ),
{
    let ghost start = w.model();
    let ghost all = blocks_view(blocks@);
    let ghost hist = entries_view(history@);
    let mut i: usize = 0;
    while i < blocks.len()
        invariant
            i <= blocks@.len(),
            w.valid(),
            all == blocks_view(blocks@),
            hist == entries_view(history@),
            start.thinking.next + thoughts(all, all.len() as int) <= u64::MAX,
            w.model() == with_blocks(start, all, i as int, hist, mark@),
        decreases blocks@.len() - i,
    {
        assert(all[i as int] == blocks@[i as int]@);
        proof {
            lemma_thoughts(all, i + 1, all.len() as int);
            lemma_ids(start, all, i as int, hist, mark@);
        }
        match &blocks[i] {
            Block::Text(t) => {
                w.answer(t.as_str());
            },
            Block::ToolCall { id, name, summary } => {
                if !has_answer(history, id.as_str()) {
                    w.push(Row::tool_start(mark, name.as_str(), summary.as_str()));
                }
            },
            Block::Reasoning(parts) => {
                let lines = thought_lines(parts.as_slice());
                let id = w.thinking.take_id();
                let folded = w.thinking.folded;
                w.push(Row::reasoning(id, lines, folded));
            },
        }
        i += 1;
    }
}

fn id_in(ids: &[u64], id: u64) -> (r: bool)
    ensures
        r == ids@.contains(id),
{
    let mut i: usize = 0;
    while i < ids.len()
        invariant
            i <= ids@.len(),
            forall|k: int| 0 <= k < i ==> ids@[k] != id,
        decreases ids@.len() - i,
    {
        if ids[i] == id {
            return true;
        }
        i += 1;
    }
    false
}

fn add_body(w: &mut Work, body: &Body)
    requires
        old(w).valid(),
    ensures
        final(w).valid(),
        final(w).model() == (Rebuilt {
            rows: old(w).model().rows + body_rows(body@),
            ..old(w).model()
        }),
{
    let ghost before = w.model();
    match body {
        Body::Prompt(t) => {
            w.extend(Row::prompt(t.as_str()));
        },
        Body::Aside(t) => {
            w.extend(Row::prompt(t.as_str()));
        },
        Body::Note(t) => {
            w.extend(note(t.as_str()));
        },
        Body::Result { call, is_error, name, content, preview } => {
            let row = match preview {
                Some(p) => Row::stored_result(
                    *is_error,
                    name.clone(),
                    content.as_slice(),
                    Some(p.as_str()),
                ),
                None => Row::stored_result(*is_error, name.clone(), content.as_slice(), None),
            };
            w.push(row);
            assert(w.model().rows =~= before.rows + body_rows(body@));
        },
        Body::Image => {
            assert(before.rows + body_rows(body@) =~= before.rows);
        },
    }
}

fn add_entry(w: &mut Work, e: &Entry, history: &[Entry], unseen: &[u64], mark: &str)
    requires
        old(w).valid(),
        e@ matches EntryView::Assistant { blocks, .. } ==> old(w).thinking.next + thoughts(
            blocks,
            blocks.len() as int,
        ) <= u64::MAX,
    ensures
        final(w).valid(),
        final(w).model() == with_entry(
            old(w).model(),
            e@,
            entries_view(history@),
            unseen@,
            mark@,
        ),
{
    let id: u64 = match e {
        Entry::User { id, .. } => *id,
        Entry::Assistant { id, .. } => *id,
        Entry::Compaction { id } => *id,
    };
    let gone = id_in(unseen, id);
    let ghost before = w.model();
    let marks = match e {
        Entry::Compaction { .. } => false,
        _ => true,
    };
    if gone != w.hidden && marks {
        w.hidden = gone;
        if gone {
            w.push(
                Row::muted("─── compacted; the model no longer sees the rest of this ───"),
            );
        }
    }
    assert(w.model() =~= marked(before, e@, unseen@));
    match e {
        Entry::User { body, .. } => {
            add_body(w, body);
        },
        Entry::Assistant { blocks, .. } => {
            add_blocks(w, blocks.as_slice(), history, mark);
        },
        Entry::Compaction { .. } => {},
    }
}

/// The transcript as rows, with the answers' rows that the renderer is to style.
/// Blocks of reasoning take their ids from the counter the live stream draws
/// from, since there is only one rule for what a block id is.
///
/// History, not the model's view: compaction is the model losing sight of the
/// conversation, not the user. What it dropped is marked and kept.
pub fn scrollback_from(
    history: &[Entry],
    unseen: &[u64],
    mark: &str,
    thinking: &mut Thinking,
) -> (r: (Vec<Row>, Vec<Unstyled>))
    requires
        old(thinking).next + all_thoughts(entries_view(history@), history@.len() as int)
            <= u64::MAX,
    ensures
        all_valid(r.0@),
        ({
            let all = rebuilt(
                entries_view(history@),
                history@.len() as int,
                unseen@,
                mark@,
                *old(thinking),
            );
            &&& rows_view(r.0@) == all.rows
            &&& unstyled_view(r.1@) == all.unstyled
            &&& *final(thinking) == all.thinking
        }),
{
    let ghost start = *thinking;
    let ghost all = entries_view(history@);
    let mut w = Work { rows: Vec::new(), unstyled: Vec::new(), thinking: *thinking, hidden: false };
    assert(w.model().rows =~= Seq::empty());
    assert(w.model().unstyled =~= Seq::empty());
    let mut i: usize = 0;
    while i < history.len()
        invariant
            i <= history@.len(),
            w.valid(),
            all == entries_view(history@),
            start.next + all_thoughts(all, all.len() as int) <= u64::MAX,
            w.thinking.next == start.next + all_thoughts(all, i as int),
            w.model() == rebuilt(all, i as int, unseen@, mark@, start),
        decreases history@.len() - i,
    {
        assert(all[i as int] == history@[i as int]@);
        let ghost before = w.model();
        proof {
            lemma_all_thoughts(all, i + 1, all.len() as int);
            if let EntryView::Assistant { blocks, .. } = all[i as int] {
                lemma_ids(
                    marked(before, all[i as int], unseen@),
                    blocks,
                    blocks.len() as int,
                    all,
                    mark@,
                );
            }
        }
        add_entry(&mut w, &history[i], history, unseen, mark);
        i += 1;
    }
    *thinking = w.thinking;
    (w.rows, w.unstyled)
}

/// The lane with its history rebuilt from the transcript: everything the old
/// drawing showed is forgotten, the opening block with the rest.
pub open spec fn restored(
    p: PaneView,
    history: Seq<EntryView>,
    unseen: Seq<u64>,
    mark: Seq<char>,
) -> PaneView {
    let t = Thinking { streaming: None, last: p.thinking.folded, ..p.thinking };
    let all = rebuilt(history, history.len() as int, unseen, mark, t);
    PaneView {
        partial: Seq::empty(),
        reasoning: false,
        fresh: true,
        thinking: all.thinking,
        rows: all.rows,
        unstyled: all.unstyled,
        tools: Seq::empty(),
        opened: 0,
        scroll: 0,
        ..p
    }
}

impl Pane {
    /// Rebuild the history from the transcript, forgetting everything the old
    /// drawing showed: a rewind changes what the conversation is, and the screen
    /// has to show the new one, not the old one with a note on it.
    pub fn rebuild(&mut self, history: &[Entry], unseen: &[u64], mark: &str)
        requires
            old(self).thinking.next + all_thoughts(entries_view(history@), history@.len() as int)
                <= u64::MAX,
        ensures
            final(self).valid(),
            final(self)@ == restored(old(self)@, entries_view(history@), unseen@, mark@),
    {
        // The opening block goes with the rest; a rebuilt screen is the
        // conversation.
        self.opened = 0;
        self.partial = String::new();
        self.reasoning = false;
        self.fresh = true;
        self.tools = Vec::new();
        assert(self@.tools =~= Seq::empty());
        self.thinking.streaming = None;
        self.thinking.last = self.thinking.folded;
        self.scroll = 0;
        let (rows, unstyled) = scrollback_from(history, unseen, mark, &mut self.thinking);
        self.scrollback = rows;
        self.unstyled = unstyled;
    }
}

// ---------------------------------------------------------------------------
// Laws
// ---------------------------------------------------------------------------

/// The live row and the rebuilt row of one result are the same row: what the
/// stream drew when the tool ended is what the rebuild draws from the sketch
/// that was stored with it.
pub proof fn law_a_rebuilt_result_is_the_live_one(
    call: Seq<char>,
    is_error: bool,
    name: Seq<char>,
    content: Seq<Seq<char>>,
    preview: Seq<char>,
)
    ensures
        body_rows(
            BodyView::Result { call, is_error, name, content, preview: Some(preview) },
        ) == seq![result_row(!is_error, name, preview)],
{
}

/// A call that was answered shows its result and nothing else: its start line
/// is not in the rebuilt rows.
pub proof fn law_an_answered_call_shows_only_its_result(
    r: Rebuilt,
    history: Seq<EntryView>,
    mark: Seq<char>,
    id: Seq<char>,
    name: Seq<char>,
    summary: Seq<char>,
)
    requires
        answered(history, id),
    ensures
        with_block(r, BlockView::ToolCall { id, name, summary }, history, mark) == r,
{
}

/// Whether the ids of the blocks among the rows rise from the first row to the
/// last, each of them at `from` or above and below `next`.
pub open spec fn ids_rise(rows: Seq<RowView>, from: u64, next: u64) -> bool {
    &&& forall|i: int|
        0 <= i < rows.len() ==> match block_of(#[trigger] rows[i]) {
            Some(id) => from <= id < next,
            None => true,
        }
    &&& forall|i: int, j: int|
        0 <= i < j < rows.len() ==> match (
            block_of(#[trigger] rows[i]),
            block_of(#[trigger] rows[j]),
        ) {
            (Some(a), Some(b)) => a < b,
            _ => true,
        }
}

proof fn lemma_ids_push(rows: Seq<RowView>, more: Seq<RowView>, from: u64, next: u64)
    requires
        ids_rise(rows, from, next),
        forall|i: int| 0 <= i < more.len() ==> block_of(#[trigger] more[i]) is None,
    ensures
        ids_rise(rows + more, from, next),
{
    let all = rows + more;
    assert forall|i: int| 0 <= i < all.len() implies match block_of(#[trigger] all[i]) {
        Some(id) => from <= id < next,
        None => true,
    } by {
        if i < rows.len() {
            assert(all[i] == rows[i]);
        } else {
            assert(all[i] == more[i - rows.len()]);
        }
    }
    assert forall|i: int, j: int| 0 <= i < j < all.len() implies match (
        block_of(#[trigger] all[i]),
        block_of(#[trigger] all[j]),
    ) {
        (Some(a), Some(b)) => a < b,
        _ => true,
    } by {
        if j < rows.len() {
            assert(all[i] == rows[i] && all[j] == rows[j]);
        } else {
            assert(all[j] == more[j - rows.len()]);
        }
    }
}

proof fn lemma_blocks_rise(
    r: Rebuilt,
    blocks: Seq<BlockView>,
    n: int,
    history: Seq<EntryView>,
    mark: Seq<char>,
    from: u64,
)
    requires
        0 <= n <= blocks.len(),
        from <= r.thinking.next,
        r.thinking.next + thoughts(blocks, n) <= u64::MAX,
        ids_rise(r.rows, from, r.thinking.next),
    ensures
        ({
            let q = with_blocks(r, blocks, n, history, mark);
            ids_rise(q.rows, from, q.thinking.next)
        }),
    decreases n,
{
    if n > 0 {
        lemma_thoughts(blocks, n - 1, n);
        lemma_blocks_rise(r, blocks, n - 1, history, mark, from);
        lemma_ids(r, blocks, n - 1, history, mark);
        let p = with_blocks(r, blocks, n - 1, history, mark);
        let q = with_blocks(r, blocks, n, history, mark);
        match blocks[n - 1] {
            BlockView::Text(t) => {
                lemma_ids_push(
                    p.rows,
                    Seq::new(lines(t).len(), |i: int| answer_row(lines(t)[i])),
                    from,
                    p.thinking.next,
                );
            },
            BlockView::ToolCall { id, name, summary } => {
                let row = muted_row(start_form(mark, name, summary));
                lemma_ids_push(p.rows, seq![row], from, p.thinking.next);
                assert(p.rows.push(row) =~= p.rows + seq![row]);
            },
            BlockView::Reasoning(_) => {
                assert forall|i: int, j: int| 0 <= i < j < q.rows.len() implies match (
                    block_of(#[trigger] q.rows[i]),
                    block_of(#[trigger] q.rows[j]),
                ) {
                    (Some(a), Some(b)) => a < b,
                    _ => true,
                } by {
                    assert(q.rows[i] == p.rows[i]);
                    if j < p.rows.len() {
                        assert(q.rows[j] == p.rows[j]);
                    }
                }
                assert forall|i: int| 0 <= i < q.rows.len() implies match block_of(
                    #[trigger] q.rows[i],
                ) {
                    Some(id) => from <= id < q.thinking.next,
                    None => true,
                } by {
                    if i < p.rows.len() {
                        assert(q.rows[i] == p.rows[i]);
                    }
                }
            },
        }
    }
}

/// Over a whole history the ids of the rebuilt blocks rise from the first row to
/// the last, so no two blocks share one; and the counter is moved past them all,
/// so a block streamed afterwards cannot land on one of them.
pub proof fn law_rebuilt_blocks_have_ids_of_their_own(
    history: Seq<EntryView>,
    n: int,
    unseen: Seq<u64>,
    mark: Seq<char>,
    thinking: Thinking,
)
    requires
        0 <= n <= history.len(),
        thinking.next + all_thoughts(history, n) <= u64::MAX,
    ensures
        ({
            let q = rebuilt(history, n, unseen, mark, thinking);
            &&& ids_rise(q.rows, thinking.next, q.thinking.next)
            &&& q.thinking.next == thinking.next + all_thoughts(history, n)
        }),
    decreases n,
{
    if n > 0 {
        law_rebuilt_blocks_have_ids_of_their_own(history, n - 1, unseen, mark, thinking);
        let r = rebuilt(history, n - 1, unseen, mark, thinking);
        let e = history[n - 1];
        let m = marked(r, e, unseen);
        let row = muted_row(compacted_form());
        lemma_ids_push(r.rows, seq![row], thinking.next, r.thinking.next);
        assert(r.rows.push(row) =~= r.rows + seq![row]);
        match e {
            EntryView::User { body, .. } => {
                lemma_ids_push(m.rows, body_rows(body), thinking.next, m.thinking.next);
            },
            EntryView::Assistant { blocks, .. } => {
                lemma_ids(m, blocks, blocks.len() as int, history, mark);
                lemma_blocks_rise(m, blocks, blocks.len() as int, history, mark, thinking.next);
            },
            EntryView::Compaction { .. } => {},
        }
    }
}

} // verus!
