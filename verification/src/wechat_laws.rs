//! What the phone is sent and what it is heard to say, stated on the texts.

use crate::text::{
    blank, bytes_len, decimal, join, lemma_bytes_concat, lemma_bytes_prefix, occurs_at, width_of,
};
use crate::wechat::{
    cut, fitting, heard, last_occurrence, leading_breaks, pieces, reach, received, received_one,
    split_form, turn_finished, worth, BridgeView, EventView, InboundView, MessageView, OutboundView,
    Received,
};
use vstd::prelude::*;
use vstd::string::*;

verus! {

// ---------------------------------------------------------------------------
// Where a long message breaks
// ---------------------------------------------------------------------------

/// Whether `end` is as many characters as fit the budget in bytes, and one where
/// none does.
pub open spec fn fills(s: Seq<char>, budget: int, end: int) -> bool {
    &&& 1 <= end <= s.len()
    &&& end == 1 || bytes_len(s.take(end)) <= budget
    &&& end == s.len() || bytes_len(s.take(end + 1)) > budget
}

/// Whether position `p` is past the middle of the first `end` characters, in
/// bytes.
pub open spec fn past_middle(s: Seq<char>, end: int, p: int) -> bool {
    2 * bytes_len(s.take(p)) > bytes_len(s.take(end))
}

/// Whether a paragraph ends at `p`, past the middle of the first `end`
/// characters.
pub open spec fn paragraph_ends(s: Seq<char>, end: int, p: int) -> bool {
    0 <= p && p + 2 <= end && s[p] == '\n' && s[p + 1] == '\n' && past_middle(s, end, p)
}

/// Whether a line ends there.
pub open spec fn line_ends(s: Seq<char>, end: int, p: int) -> bool {
    0 <= p < end && s[p] == '\n' && past_middle(s, end, p)
}

/// Whether a space stands there.
pub open spec fn space_stands(s: Seq<char>, end: int, p: int) -> bool {
    0 <= p < end && s[p] == ' ' && past_middle(s, end, p)
}

proof fn lemma_fitting(s: Seq<char>, budget: int)
    ensures
        0 <= fitting(s, budget) <= s.len(),
        fitting(s, budget) > 0 ==> bytes_len(s.take(fitting(s, budget))) <= budget,
        fitting(s, budget) < s.len() ==> bytes_len(s.take(fitting(s, budget) + 1)) > budget,
    decreases s.len(),
{
    let k = fitting(s, budget);
    if s.len() > 0 {
        let one = seq![s[0]];
        assert(one.drop_last() =~= Seq::empty());
        assert(bytes_len(one.drop_last()) == 0);
        assert(bytes_len(one) == width_of(s[0]));
        if width_of(s[0]) > budget {
            assert(s.take(1) =~= one);
        } else {
            let t = s.skip(1);
            lemma_fitting(t, budget - width_of(s[0]));
            let m = fitting(t, budget - width_of(s[0]));
            assert(s.take(k) =~= one + t.take(m));
            lemma_bytes_concat(one, t.take(m));
            if m == 0 {
                assert(t.take(0) =~= Seq::empty());
                assert(bytes_len(t.take(0)) == 0);
            }
            if m < t.len() {
                assert(s.take(k + 1) =~= one + t.take(m + 1));
                lemma_bytes_concat(one, t.take(m + 1));
            }
        }
    }
}

proof fn lemma_last_occurrence(s: Seq<char>, sep: Seq<char>, from: int)
    ensures
        ({
            let r = last_occurrence(s, sep, from);
            &&& r >= 0 ==> r <= from && occurs_at(s, sep, r)
            &&& forall|p: int| r < p <= from ==> !#[trigger] occurs_at(s, sep, p)
            &&& r >= -1
        }),
    decreases from + 1,
{
    if from >= 0 && !occurs_at(s, sep, from) {
        lemma_last_occurrence(s, sep, from - 1);
    }
}

proof fn lemma_leading_breaks(s: Seq<char>)
    ensures
        0 <= leading_breaks(s) <= s.len(),
        forall|k: int| 0 <= k < leading_breaks(s) ==> #[trigger] s[k] == '\n' || s[k] == '\r',
        leading_breaks(s) < s.len() ==> s[leading_breaks(s)] != '\n' && s[leading_breaks(s)]
            != '\r',
    decreases s.len(),
{
    if s.len() > 0 && (s[0] == '\n' || s[0] == '\r') {
        lemma_leading_breaks(s.skip(1));
        assert forall|k: int| 0 <= k < leading_breaks(s) implies #[trigger] s[k] == '\n' || s[k]
            == '\r' by {
            if k > 0 {
                assert(s.skip(1)[k - 1] == s[k]);
            }
        }
    }
}

proof fn lemma_later_is_past(s: Seq<char>, end: int, p: int, r: int)
    requires
        0 <= p <= r <= end <= s.len(),
    ensures
        bytes_len(s.take(p)) <= bytes_len(s.take(r)),
        worth(s.take(end), r) == past_middle(s, end, r),
{
    lemma_bytes_prefix(s, p, r);
    assert(s.take(end).take(r) =~= s.take(r));
}

proof fn lemma_spelt(s: Seq<char>, end: int, p: int)
    requires
        0 <= end <= s.len(),
    ensures
        occurs_at(s.take(end), "\n\n"@, p) == (0 <= p && p + 2 <= end && s[p] == '\n' && s[p + 1]
            == '\n'),
        occurs_at(s.take(end), "\n"@, p) == (0 <= p < end && s[p] == '\n'),
        occurs_at(s.take(end), " "@, p) == (0 <= p < end && s[p] == ' '),
{
    reveal_strlit("\n\n");
    reveal_strlit("\n");
    reveal_strlit(" ");
    let head = s.take(end);
    if 0 <= p && p + 2 <= end {
        let part = head.subrange(p, p + 2);
        assert(part[0] == s[p] && part[1] == s[p + 1]);
        if s[p] == '\n' && s[p + 1] == '\n' {
            assert(part =~= "\n\n"@);
        }
    }
    if 0 <= p < end {
        let part = head.subrange(p, p + 1);
        assert(part[0] == s[p]);
        if s[p] == '\n' {
            assert(part =~= "\n"@);
        }
        if s[p] == ' ' {
            assert(part =~= " "@);
        }
    }
}

/// A long message takes what fits, and breaks in the second half of that: at the
/// last paragraph there, else at the last line, else at the last space, else
/// where it is full. The breaks it broke at are dropped, the space is, and
/// nothing else.
pub proof fn law_a_message_breaks_at_the_best_place(s: Seq<char>, budget: int)
    requires
        s.len() > 0,
    ensures
        exists|end: int|
            {
                let (n, skip) = cut(s, budget);
                let broke = (exists|p: int| #[trigger] paragraph_ends(s, end, p)) || (exists|p: int| #[trigger]
                    line_ends(s, end, p));
                &&& #[trigger] fills(s, budget, end)
                &&& (exists|p: int| #[trigger] paragraph_ends(s, end, p)) ==> paragraph_ends(s, end, n)
                    && forall|p: int| #[trigger] paragraph_ends(s, end, p) ==> p <= n
                &&& !(exists|p: int| #[trigger] paragraph_ends(s, end, p)) && (exists|p: int| #[trigger]
                    line_ends(s, end, p)) ==> line_ends(s, end, n) && forall|p: int| #[trigger]
                    line_ends(s, end, p) ==> p <= n
                &&& broke ==> n + skip <= s.len() && (forall|k: int|
                    n <= k < n + skip ==> #[trigger] s[k] == '\n' || s[k] == '\r') && (n + skip
                    < s.len() ==> s[n + skip] != '\n' && s[n + skip] != '\r')
                &&& !broke && (exists|p: int| #[trigger] space_stands(s, end, p)) ==> skip == 1
                    && space_stands(s, end, n) && forall|p: int| #[trigger]
                    space_stands(s, end, p) ==> p <= n
                &&& !broke && !(exists|p: int| #[trigger] space_stands(s, end, p)) ==> n == end && skip
                    == 0
            },
{
    lemma_fitting(s, budget);
    let end = reach(s, budget);
    if fitting(s, budget) == 0 && s.len() > 1 {
        lemma_bytes_prefix(s, 1, 2);
    }
    assert(fills(s, budget, end));
    let head = s.take(end);
    let para = last_occurrence(head, "\n\n"@, end);
    let line = last_occurrence(head, "\n"@, end);
    let space = last_occurrence(head, " "@, end);
    lemma_last_occurrence(head, "\n\n"@, end);
    lemma_last_occurrence(head, "\n"@, end);
    lemma_last_occurrence(head, " "@, end);
    lemma_spelt(s, end, para);
    lemma_spelt(s, end, line);
    lemma_spelt(s, end, space);
    if para >= 0 {
        lemma_later_is_past(s, end, para, para);
        lemma_leading_breaks(s.skip(para));
    }
    if line >= 0 {
        lemma_later_is_past(s, end, line, line);
        lemma_leading_breaks(s.skip(line));
    }
    if space >= 0 {
        lemma_later_is_past(s, end, space, space);
    }
    assert forall|p: int| #[trigger] paragraph_ends(s, end, p) implies p <= para && worth(head, para) by {
        lemma_spelt(s, end, p);
        assert(occurs_at(head, "\n\n"@, p));
        lemma_later_is_past(s, end, p, para);
    }
    assert forall|p: int| #[trigger] line_ends(s, end, p) implies p <= line && worth(head, line) by {
        lemma_spelt(s, end, p);
        assert(occurs_at(head, "\n"@, p));
        lemma_later_is_past(s, end, p, line);
    }
    assert forall|p: int| #[trigger] space_stands(s, end, p) implies p <= space && worth(head, space) by {
        lemma_spelt(s, end, p);
        assert(occurs_at(head, " "@, p));
        lemma_later_is_past(s, end, p, space);
    }
    if worth(head, para) {
        assert(paragraph_ends(s, end, para));
        lemma_dropped(s, para);
    } else if worth(head, line) {
        assert(line_ends(s, end, line));
        lemma_dropped(s, line);
    } else if worth(head, space) {
        assert(space_stands(s, end, space));
    }
}

proof fn lemma_dropped(s: Seq<char>, n: int)
    requires
        0 <= n <= s.len(),
    ensures
        ({
            let skip = leading_breaks(s.skip(n));
            &&& n + skip <= s.len()
            &&& forall|k: int| n <= k < n + skip ==> #[trigger] s[k] == '\n' || s[k] == '\r'
            &&& n + skip < s.len() ==> s[n + skip] != '\n' && s[n + skip] != '\r'
        }),
{
    let t = s.skip(n);
    lemma_leading_breaks(t);
    assert forall|k: int| n <= k < n + leading_breaks(t) implies #[trigger] s[k] == '\n' || s[k]
        == '\r' by {
        assert(t[k - n] == s[k]);
    }
}

/// A message within the limit goes out as it is; a longer one in pieces that say
/// which of how many they are, where they are more than one.
pub proof fn law_a_long_message_is_numbered(s: Seq<char>, limit: int)
    ensures
        bytes_len(s) <= limit ==> split_form(s, limit) == seq![s],
        bytes_len(s) > limit && limit >= 13 && pieces(s, limit - 12).len() <= 1 ==> split_form(
            s,
            limit,
        ) == pieces(s, limit - 12),
        bytes_len(s) > limit && limit >= 13 && pieces(s, limit - 12).len() > 1 ==> {
            let all = pieces(s, limit - 12);
            &&& split_form(s, limit).len() == all.len()
            &&& forall|i: int|
                0 <= i < all.len() ==> #[trigger] split_form(s, limit)[i] == "("@ + decimal(
                    (i + 1) as nat,
                ) + "/"@ + decimal(all.len()) + ") "@ + all[i]
        },
{
}

// ---------------------------------------------------------------------------
// A turn
// ---------------------------------------------------------------------------

/// The bridge after a run of text.
pub open spec fn after_text(b: BridgeView, said: Seq<Seq<char>>, now: u64, alive: bool) -> BridgeView
    decreases said.len(),
{
    if said.len() == 0 {
        b
    } else {
        heard(
            after_text(b, said.drop_last(), now, alive),
            EventView::TextDelta(said.last()),
            now,
            alive,
        ).bridge
    }
}

/// All of a run of text.
pub open spec fn all_said(said: Seq<Seq<char>>) -> Seq<char>
    decreases said.len(),
{
    if said.len() == 0 {
        Seq::empty()
    } else {
        all_said(said.drop_last()) + said.last()
    }
}

proof fn lemma_after_text(b: BridgeView, said: Seq<Seq<char>>, now: u64, alive: bool)
    ensures
        after_text(b, said, now, alive) == (BridgeView { out: b.out + all_said(said), ..b }),
    decreases said.len(),
{
    if said.len() > 0 {
        lemma_after_text(b, said.drop_last(), now, alive);
        assert(b.out + all_said(said) =~= (b.out + all_said(said.drop_last())) + said.last());
    } else {
        assert(b.out + all_said(said) =~= b.out);
    }
}

/// The answer of a turn goes out when the turn is done, whole and once: all the
/// text since the turn started, as it came; an answer that says nothing does not;
/// and the typing mark, on since the start, goes off behind it.
pub proof fn law_the_answer_is_all_that_was_said(
    b: BridgeView,
    said: Seq<Seq<char>>,
    now: u64,
    cancelled: bool,
)
    requires
        !b.typing_on,
    ensures
        ({
            let start = heard(b, EventView::TurnStart { turn: 1 }, now, true);
            let ran = after_text(start.bridge, said, now, true);
            let done = heard(ran, EventView::Done, now, true);
            let again = turn_finished(done.bridge, true, cancelled);
            &&& start.sent == seq![OutboundView::Typing(true)]
            &&& !blank(all_said(said)) ==> done.sent == seq![
                OutboundView::Line(all_said(said)),
                OutboundView::Typing(false),
            ]
            &&& blank(all_said(said)) ==> done.sent == seq![OutboundView::Typing(false)]
            &&& again.sent == Seq::<OutboundView>::empty()
        }),
{
    let start = heard(b, EventView::TurnStart { turn: 1 }, now, true);
    lemma_after_text(start.bridge, said, now, true);
    let ran = after_text(start.bridge, said, now, true);
    assert(ran.out =~= all_said(said));
    let done = heard(ran, EventView::Done, now, true);
    let again = turn_finished(done.bridge, true, cancelled);
    if blank(all_said(said)) {
        assert(done.sent =~= seq![OutboundView::Typing(false)]);
    } else {
        assert(done.sent =~= seq![
            OutboundView::Line(all_said(said)),
            OutboundView::Typing(false),
        ]);
    }
    assert(again.sent =~= Seq::<OutboundView>::empty());
}

/// A stopped turn that said something says that it was stopped.
pub proof fn law_a_stopped_answer_says_so(b: BridgeView)
    requires
        !b.flushed,
        b.tool_buf.len() == 0,
        !b.typing_on,
        !blank(b.out),
    ensures
        turn_finished(b, true, true).sent == seq![OutboundView::Line(b.out + "\n\n(stopped)"@)],
        turn_finished(b, true, false).sent == seq![OutboundView::Line(b.out)],
{
    let text = b.out + "\n\n(stopped)"@;
    let k = choose|i: int| 0 <= i < b.out.len() && !crate::text::is_white(#[trigger] b.out[i]);
    assert(text[k] == b.out[k]);
    assert(!blank(text));
    assert(turn_finished(b, true, true).sent =~= seq![OutboundView::Line(text)]);
    assert(turn_finished(b, true, false).sent =~= seq![OutboundView::Line(b.out)]);
}

/// Calls less than five seconds behind the last that went out are held; the first
/// behind that takes them all out with it, each on a line.
pub proof fn law_calls_close_together_go_out_together(
    b: BridgeView,
    name: Seq<char>,
    summary: Seq<char>,
    then: u64,
    now: u64,
)
    requires
        then <= now,
        b.last_tool == Some(then),
    ensures
        ({
            let h = heard(b, EventView::ToolStart { name, summary }, now, true);
            let line = if summary.len() == 0 {
                "⚙ "@ + name
            } else {
                "⚙ "@ + name + " "@ + summary
            };
            &&& now - then < 5000 ==> h.sent == Seq::<OutboundView>::empty() && h.bridge.tool_buf
                == b.tool_buf.push(line) && h.bridge.last_tool == Some(then)
            &&& now - then >= 5000 ==> h.sent == seq![
                OutboundView::Line(join(b.tool_buf.push(line), "\n"@)),
            ] && h.bridge.tool_buf.len() == 0 && h.bridge.last_tool == Some(now)
        }),
{
}

// ---------------------------------------------------------------------------
// What comes in
// ---------------------------------------------------------------------------

/// Of what comes in only a user's text counts: a stop is passed on as one and
/// changes nothing else; any other text is passed on as it is, and its sender is
/// who is answered from then on.
pub proof fn law_only_a_users_text_is_let_in(r: Received, m: MessageView)
    ensures
        ({
            let after = received_one(r, m);
            let stop = crate::text::trim(m.text) == "/stop"@ || crate::text::trim(m.text)
                == "/esc"@;
            &&& m.message_type != 1 || m.text.len() == 0 ==> after == r
            &&& m.message_type == 1 && m.text.len() > 0 && stop ==> after.state == r.state
                && after.dirty == r.dirty && after.inbound == r.inbound.push(InboundView::Stop)
            &&& m.message_type == 1 && m.text.len() > 0 && !stop ==> after.inbound
                == r.inbound.push(InboundView::Text { text: m.text }) && after.state.peer == Some(
                m.from_user_id,
            ) && after.dirty && after.state.token == r.state.token && after.state.base_url
                == r.state.base_url && after.state.get_updates_buf == r.state.get_updates_buf && (
            m.context_token is Some ==> after.state.context_token == m.context_token) && (
            m.context_token is None ==> after.state.context_token == r.state.context_token)
        }),
{
}

/// Messages are taken one after another: two batches in a row are as one.
pub proof fn law_batches_are_taken_in_order(
    start: Received,
    a: Seq<MessageView>,
    b: Seq<MessageView>,
)
    ensures
        received(received(start, a), b) == received(start, a + b),
        received(start, a).inbound.len() >= start.inbound.len(),
        received(start, a).inbound.take(start.inbound.len() as int) == start.inbound,
    decreases a.len() + b.len(), b.len(),
{
    if b.len() > 0 {
        law_batches_are_taken_in_order(start, a, b.drop_last());
        assert((a + b).drop_last() =~= a + b.drop_last());
        assert((a + b).last() == b.last());
    } else {
        assert(a + b =~= a);
        if a.len() > 0 {
            law_batches_are_taken_in_order(start, a.drop_last(), Seq::empty());
            let before = received(start, a.drop_last()).inbound;
            let now = received(start, a).inbound;
            assert(now.take(start.inbound.len() as int) =~= before.take(
                start.inbound.len() as int,
            ));
        } else {
            assert(start.inbound.take(start.inbound.len() as int) =~= start.inbound);
        }
    }
}

} // verus!
