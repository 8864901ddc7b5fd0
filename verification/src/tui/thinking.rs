//! Whether reasoning is folded to its count line, and which block the stream is
//! filling right now.
//!
//! Thinking always lives in a foldable scrollback entry, folded or not: the
//! screen is repainted from its rows every frame, so a line already shown can
//! still be folded. A block's own state lasts only while it is last; the next
//! block pushes it back to the switch.

use crate::tui::row::{all_valid, block_of, fold_of, rows_view, with_fold, Row, RowView};
use vstd::prelude::*;

verus! {

/// How the reasoning blocks of one conversation are folded.
#[derive(Debug, Clone, Copy, PartialEq, Eq, Structural)]
pub struct Thinking {
    /// The next block id; closed rows keep the id they were born with.
    pub next: u64,
    /// The block streaming right now, if any.
    pub streaming: Option<u64>,
    /// What untouched blocks are folded to: the value a block that stops being
    /// last folds back to, and the target a global flip is measured from.
    pub folded: bool,
    /// How the last block, finished or streaming, is folded. It survives the
    /// block itself, so the next block is born with it.
    pub last: bool,
}

/// Where the newest row of a block stands, or -1.
pub open spec fn row_of_block(rows: Seq<RowView>, id: u64) -> int
    decreases rows.len(),
{
    if rows.len() == 0 {
        -1
    } else if block_of(rows.last()) == Some(id) {
        rows.len() - 1
    } else {
        row_of_block(rows.drop_last(), id)
    }
}

/// Where the newest row of any block stands, or -1.
pub open spec fn newest_block(rows: Seq<RowView>) -> int
    decreases rows.len(),
{
    if rows.len() == 0 {
        -1
    } else if block_of(rows.last()) is Some {
        rows.len() - 1
    } else {
        newest_block(rows.drop_last())
    }
}

/// The rows with the one at `i` folded or not; all of them where there is none.
pub open spec fn refolded(rows: Seq<RowView>, i: int, to: bool) -> Seq<RowView> {
    if 0 <= i < rows.len() {
        rows.update(i, with_fold(rows[i], to))
    } else {
        rows
    }
}

/// The newest block folded back to the switch.
pub open spec fn retired(t: Thinking, rows: Seq<RowView>) -> Seq<RowView> {
    refolded(rows, newest_block(rows), t.folded)
}

/// How the block streaming now is folded.
pub open spec fn stream_fold_of(t: Thinking, rows: Seq<RowView>) -> bool {
    match t.streaming {
        Some(id) => match fold_of_block(rows, id) {
            Some(folded) => folded,
            None => t.last,
        },
        None => t.last,
    }
}

/// How a block is folded, if it has a row.
pub open spec fn fold_of_block(rows: Seq<RowView>, id: u64) -> Option<bool> {
    let i = row_of_block(rows, id);
    if i >= 0 {
        fold_of(rows[i])
    } else {
        None
    }
}

/// A new block starts.
pub open spec fn started(t: Thinking) -> Thinking {
    Thinking { next: (t.next + 1) as u64, streaming: Some(t.next), ..t }
}

/// Every block folded the other way, and the switch with them.
pub open spec fn flipped(t: Thinking) -> Thinking {
    Thinking { folded: !t.folded, last: !t.folded, ..t }
}

/// Every row folded to `to`.
pub open spec fn all_folded(rows: Seq<RowView>, to: bool) -> Seq<RowView> {
    Seq::new(rows.len(), |i: int| with_fold(rows[i], to))
}

/// The rows once the last block is flipped to `to`: the one streaming, or the
/// newest finished one when nothing is.
pub open spec fn current_flipped(t: Thinking, rows: Seq<RowView>, to: bool) -> Seq<RowView> {
    refolded(
        rows,
        match t.streaming {
            Some(id) => row_of_block(rows, id),
            None => newest_block(rows),
        },
        to,
    )
}

proof fn lemma_row_of_block(rows: Seq<RowView>, id: u64, i: int)
    requires
        -1 <= i < rows.len(),
        i >= 0 ==> block_of(rows[i]) == Some(id),
        forall|k: int| i < k < rows.len() ==> block_of(#[trigger] rows[k]) != Some(id),
    ensures
        row_of_block(rows, id) == i,
    decreases rows.len(),
{
    if rows.len() > 0 && i < rows.len() - 1 {
        assert(block_of(rows[rows.len() - 1]) != Some(id));
        lemma_row_of_block(rows.drop_last(), id, i);
    }
}

proof fn lemma_newest_block(rows: Seq<RowView>, i: int)
    requires
        -1 <= i < rows.len(),
        i >= 0 ==> block_of(rows[i]) is Some,
        forall|k: int| i < k < rows.len() ==> block_of(#[trigger] rows[k]) is None,
    ensures
        newest_block(rows) == i,
    decreases rows.len(),
{
    if rows.len() > 0 && i < rows.len() - 1 {
        assert(block_of(rows[rows.len() - 1]) is None);
        lemma_newest_block(rows.drop_last(), i);
    }
}

/// Where the newest row of a block stands.
pub(crate) fn find_block(rows: &Vec<Row>, id: u64) -> (r: Option<usize>)
    ensures
        match r {
            Some(i) => i < rows@.len() && row_of_block(rows_view(rows@), id) == i,
            None => row_of_block(rows_view(rows@), id) == -1,
        },
{
    let ghost all = rows_view(rows@);
    let mut i: usize = rows.len();
    while i > 0
        invariant
            i <= rows@.len(),
            all == rows_view(rows@),
            forall|k: int| i <= k < all.len() ==> block_of(#[trigger] all[k]) != Some(id),
        decreases i,
    {
        assert(all[i - 1] == rows@[i - 1]@);
        if let Some(b) = rows[i - 1].block() {
            if b == id {
                proof {
                    lemma_row_of_block(all, id, i - 1);
                }
                return Some(i - 1);
            }
        }
        i -= 1;
    }
    proof {
        lemma_row_of_block(all, id, -1);
    }
    None
}

fn find_newest(rows: &Vec<Row>) -> (r: Option<usize>)
    ensures
        match r {
            Some(i) => i < rows@.len() && newest_block(rows_view(rows@)) == i,
            None => newest_block(rows_view(rows@)) == -1,
        },
{
    let ghost all = rows_view(rows@);
    let mut i: usize = rows.len();
    while i > 0
        invariant
            i <= rows@.len(),
            all == rows_view(rows@),
            forall|k: int| i <= k < all.len() ==> block_of(#[trigger] all[k]) is None,
        decreases i,
    {
        assert(all[i - 1] == rows@[i - 1]@);
        if rows[i - 1].block().is_some() {
            proof {
                lemma_newest_block(all, i - 1);
            }
            return Some(i - 1);
        }
        i -= 1;
    }
    proof {
        lemma_newest_block(all, -1);
    }
    None
}

fn fold_at(rows: &mut Vec<Row>, at: Option<usize>, to: bool)
    requires
        at matches Some(i) ==> i < old(rows)@.len(),
    ensures
        all_valid(old(rows)@) ==> all_valid(final(rows)@),
        rows_view(final(rows)@) == match at {
            Some(i) => refolded(rows_view(old(rows)@), i as int, to),
            None => rows_view(old(rows)@),
        },
{
    if let Some(i) = at {
        let ghost before = rows_view(rows@);
        rows[i].set_folded(to);
        assert(rows_view(rows@) =~= refolded(before, i as int, to));
    }
}

impl Default for Thinking {
    /// Shut: the reasoning is worth a glance while it runs and almost never
    /// worth the scrollback it costs afterwards.
    fn default() -> (r: Thinking)
        ensures
            r == (Thinking { next: 1, streaming: None, folded: true, last: true }),
    {
        Thinking { next: 1, streaming: None, folded: true, last: true }
    }
}

impl Thinking {
    /// Whether a reasoning row is hidden behind the count line: it is
    /// reasoning, and the streaming block is folded.
    pub fn holds(&self, reasoning: bool, scrollback: &Vec<Row>) -> (r: bool)
        ensures
            r == (reasoning && stream_fold_of(*self, rows_view(scrollback@))),
    {
        reasoning && self.stream_fold(scrollback)
    }

    /// How the block streaming now is folded: its entry's own state, or, before
    /// its first line lands, the last value.
    pub fn stream_fold(&self, scrollback: &Vec<Row>) -> (r: bool)
        ensures
            r == stream_fold_of(*self, rows_view(scrollback@)),
    {
        if let Some(id) = self.streaming {
            if let Some(i) = find_block(scrollback, id) {
                assert(rows_view(scrollback@)[i as int] == scrollback@[i as int]@);
                if let Some(folded) = scrollback[i].folded() {
                    return folded;
                }
            }
        }
        self.last
    }

    /// The block that was last stops being so: it folds back to the switch. A
    /// new input and a new block both push it out of last.
    pub fn retire_last(&mut self, scrollback: &mut Vec<Row>)
        ensures
            *final(self) == *old(self),
            all_valid(old(scrollback)@) ==> all_valid(final(scrollback)@),
            rows_view(final(scrollback)@) == retired(*old(self), rows_view(old(scrollback)@)),
    {
        let at = find_newest(scrollback);
        fold_at(scrollback, at, self.folded);
    }

    /// The next block id. The one place ids come from, so a rebuilt block and a
    /// streamed one can never mean the same number.
    pub fn take_id(&mut self) -> (id: u64)
        requires
            old(self).next < u64::MAX,
        ensures
            id == old(self).next,
            *final(self) == (Thinking { next: (old(self).next + 1) as u64, ..*old(self) }),
    {
        let id = self.next;
        self.next = id + 1;
        id
    }

    /// A new reasoning block is about to start. It gets an id the scrollback
    /// entry will be born with; its first line takes `birth_fold`.
    pub fn start(&mut self, scrollback: &mut Vec<Row>)
        requires
            old(self).next < u64::MAX,
        ensures
            *final(self) == started(*old(self)),
            all_valid(old(scrollback)@) ==> all_valid(final(scrollback)@),
            rows_view(final(scrollback)@) == retired(*old(self), rows_view(old(scrollback)@)),
    {
        self.retire_last(scrollback);
        let id = self.take_id();
        self.streaming = Some(id);
    }

    /// The block that was last stops being so the moment a new input is
    /// submitted.
    pub fn fold_previous(&mut self, scrollback: &mut Vec<Row>)
        ensures
            *final(self) == *old(self),
            all_valid(old(scrollback)@) ==> all_valid(final(scrollback)@),
            rows_view(final(scrollback)@) == retired(*old(self), rows_view(old(scrollback)@)),
    {
        self.retire_last(scrollback);
    }

    /// The streaming block is over; the entry it filled stays where it is.
    pub fn close_block(&mut self)
        ensures
            *final(self) == (Thinking { streaming: None, ..*old(self) }),
    {
        self.streaming = None;
    }

    /// The value the next block's entry is born with.
    pub fn birth_fold(&self) -> (r: bool)
        ensures
            r == self.last,
    {
        self.last
    }

    /// Fold or unfold every block in the scrollback and move the switch with
    /// them, the last block with the rest: rows and switch must never disagree.
    pub fn flip_all(&mut self, scrollback: &mut Vec<Row>)
        ensures
            *final(self) == flipped(*old(self)),
            all_valid(old(scrollback)@) ==> all_valid(final(scrollback)@),
            rows_view(final(scrollback)@) == all_folded(
                rows_view(old(scrollback)@),
                !old(self).folded,
            ),
    {
        self.folded = !self.folded;
        self.last = self.folded;
        let to = self.folded;
        let ghost before = scrollback@;
        let mut i: usize = 0;
        while i < scrollback.len()
            invariant
                i <= scrollback@.len(),
                scrollback@.len() == before.len(),
                forall|k: int|
                    0 <= k < i ==> (#[trigger] scrollback@[k])@ == with_fold(before[k]@, to),
                forall|k: int| i <= k < before.len() ==> scrollback@[k] == before[k],
                all_valid(before) ==> forall|k: int|
                    0 <= k < i ==> (#[trigger] scrollback@[k]).valid(),
            decreases scrollback@.len() - i,
        {
            assert(scrollback@[i as int] == before[i as int]);
            assert(all_valid(before) ==> before[i as int].valid());
            scrollback[i].set_folded(to);
            i += 1;
        }
        assert(rows_view(scrollback@) =~= all_folded(rows_view(before), to));
    }

    /// Flip the last block only: the one streaming, or the newest finished one
    /// when nothing is. The switch is left alone, so the blocks no one is
    /// touching keep what they had; a block with no entry yet is born with the
    /// flip.
    pub fn toggle_current(&mut self, scrollback: &mut Vec<Row>)
        ensures
            *final(self) == (Thinking { last: !old(self).last, ..*old(self) }),
            all_valid(old(scrollback)@) ==> all_valid(final(scrollback)@),
            rows_view(final(scrollback)@) == current_flipped(
                *old(self),
                rows_view(old(scrollback)@),
                !old(self).last,
            ),
    {
        self.last = !self.last;
        let at = match self.streaming {
            Some(id) => find_block(scrollback, id),
            None => find_newest(scrollback),
        };
        fold_at(scrollback, at, self.last);
    }
}

// ---------------------------------------------------------------------------
// Laws
// ---------------------------------------------------------------------------

/// After a global flip, rows and switch agree: every block is folded to the
/// switch, and the next block is born with it.
pub proof fn law_a_global_flip_leaves_one_state(t: Thinking, rows: Seq<RowView>, i: int)
    requires
        0 <= i < rows.len(),
        block_of(rows[i]) is Some,
    ensures
        fold_of(all_folded(rows, flipped(t).folded)[i]) == Some(flipped(t).folded),
        flipped(t).last == flipped(t).folded,
{
}

/// Two global flips fold every block to where the switch was.
pub proof fn law_two_global_flips_restore_the_switch(t: Thinking, rows: Seq<RowView>)
    ensures
        flipped(flipped(t)).folded == t.folded,
        all_folded(all_folded(rows, !t.folded), t.folded) == all_folded(rows, t.folded),
{
    assert(all_folded(all_folded(rows, !t.folded), t.folded) =~= all_folded(rows, t.folded));
}

/// Flipping the last block leaves every other row as it was.
pub proof fn law_toggling_touches_one_block(t: Thinking, rows: Seq<RowView>, to: bool, i: int)
    requires
        0 <= i < rows.len(),
        match t.streaming {
            Some(id) => i != row_of_block(rows, id),
            None => i != newest_block(rows),
        },
    ensures
        current_flipped(t, rows, to)[i] == rows[i],
        current_flipped(t, rows, to).len() == rows.len(),
{
}

/// A block started after another never has its number.
pub proof fn law_blocks_never_share_an_id(t: Thinking, rows: Seq<RowView>)
    requires
        t.next < u64::MAX,
        forall|i: int| 0 <= i < rows.len() ==> match block_of(#[trigger] rows[i]) {
            Some(id) => id < t.next,
            None => true,
        },
    ensures
        started(t).streaming == Some(t.next),
        row_of_block(rows, t.next) == -1,
        forall|i: int| 0 <= i < rows.len() ==> match block_of(#[trigger] rows[i]) {
            Some(id) => id < started(t).next,
            None => true,
        },
{
    lemma_row_of_block(rows, t.next, -1);
}

} // verus!
