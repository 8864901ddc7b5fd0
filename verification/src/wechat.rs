//! The WeChat bridge: what goes out to the phone, what comes in from it, and how
//! long to rest when the service fails. The service itself is spoken to
//! elsewhere; what it answered comes in as plain values.
//!
//! One task at a time: first login (QR → confirm → credentials), then the
//! long-poll loop, both reporting to the surface through what they hand back.

use crate::text::{
    append_count, append_number, append_signed, blank, bytes_before, bytes_len, char_bytes,
    chars_of, copy_range, decimal, is_blank, join, lemma_bytes_concat, lemma_bytes_prefix,
    occurs_at, rows, same_str, signed, string_of, texts, trim, trimmed, width_of,
};
use crate::tui::bar::cropped_text;
use crate::tui::surface::clip_text;
use vstd::prelude::*;
use vstd::string::*;

verus! {

/// How long tool notices are held before going out as one message, in
/// milliseconds; a turn can call dozens of tools and each as its own message
/// would flood the phone.
pub const TOOL_INTERVAL: u64 = 5000;

/// The byte budget for one outbound message. The protocol documents no limit,
/// so this is a floor we chose, not a ceiling anyone published. Bytes rather
/// than characters: nothing says whether the server counts UTF-8 bytes or
/// UTF-16 units, and for the CJK an answer is likely to contain, bytes are the
/// smaller of the two budgets.
pub const MESSAGE_LIMIT: usize = 2000;

/// Room held back for the `(n/m)` marker so a piece plus its marker still fits
/// the budget. Ten bytes at three digits a side, rounded up.
pub const MARKER_RESERVE: usize = 12;

/// The pause between pieces of one split message, in milliseconds. The terms of
/// use let the server rate-limit, and a burst is what a rate limiter watches
/// for; at this length the reader cannot tell.
pub const PIECE_INTERVAL: u64 = 500;

/// What `/wechat` alone reports when the bridge is idle.
pub const OFF_MESSAGE: &'static str = "wechat: off — /wechat on to connect";

/// Said when a poll finds no token to ask with, and the polling ends.
pub const NO_TOKEN: &'static str =
    "wechat: no token — /wechat off, then /wechat on to log in again";

// ---------------------------------------------------------------------------
// Splitting a message
// ---------------------------------------------------------------------------

/// How many characters of a text fit into `budget` bytes.
pub open spec fn fitting(s: Seq<char>, budget: int) -> int
    decreases s.len(),
{
    if s.len() == 0 || width_of(s[0]) > budget {
        0
    } else {
        1 + fitting(s.skip(1), budget - width_of(s[0]))
    }
}

/// How many characters a piece can reach: those that fit, and one where none
/// does.
pub open spec fn reach(s: Seq<char>, budget: int) -> int {
    if fitting(s, budget) > 0 {
        fitting(s, budget)
    } else {
        1
    }
}

/// Where `sep` last stands in a text, or -1 where it does not.
pub open spec fn last_occurrence(s: Seq<char>, sep: Seq<char>, from: int) -> int
    decreases from + 1,
{
    if from < 0 {
        -1
    } else if occurs_at(s, sep, from) {
        from
    } else {
        last_occurrence(s, sep, from - 1)
    }
}

/// Whether a separator that stands there is worth breaking at: one in the first
/// half of the reach is worse than none at all, since taking it doubles the
/// number of messages.
pub open spec fn worth(head: Seq<char>, at: int) -> bool {
    at >= 0 && bytes_len(head.take(at)) > bytes_len(head) / 2
}

/// How many line ends open a text.
pub open spec fn leading_breaks(s: Seq<char>) -> int
    decreases s.len(),
{
    if s.len() > 0 && (s[0] == '\n' || s[0] == '\r') {
        1 + leading_breaks(s.skip(1))
    } else {
        0
    }
}

/// Where to end a piece that overflows, and how many separator characters to
/// drop after it: the last paragraph break within reach, else the last line
/// break, else the last space, else what the reach holds. A hard cut drops
/// nothing — indentation inside a code block is content, and the halves have to
/// rejoin exactly.
pub open spec fn cut(s: Seq<char>, budget: int) -> (int, int) {
    let end = reach(s, budget);
    let head = s.take(end);
    let para = last_occurrence(head, "\n\n"@, end);
    let line = last_occurrence(head, "\n"@, end);
    let space = last_occurrence(head, " "@, end);
    if worth(head, para) {
        (para, leading_breaks(s.skip(para)))
    } else if worth(head, line) {
        (line, leading_breaks(s.skip(line)))
    } else if worth(head, space) {
        (space, 1)
    } else {
        (end, 0)
    }
}

/// The pieces of a text that each fit `budget` bytes.
pub open spec fn pieces(s: Seq<char>, budget: int) -> Seq<Seq<char>>
    decreases s.len(),
    via pieces_end
{
    if s.len() == 0 {
        Seq::empty()
    } else if bytes_len(s) <= budget {
        seq![s]
    } else {
        let (n, skip) = cut(s, budget);
        seq![s.take(n)] + pieces(s.skip(n + skip), budget)
    }
}

#[via_fn]
proof fn pieces_end(s: Seq<char>, budget: int) {
    if s.len() > 0 {
        lemma_cut(s, budget);
    }
}

/// A piece with the mark that says which of how many it is.
pub open spec fn marked(i: int, total: nat, piece: Seq<char>) -> Seq<char> {
    "("@ + decimal((i + 1) as nat) + "/"@ + decimal(total) + ") "@ + piece
}

/// What is left for the text of a marked piece.
pub open spec fn budget_of(limit: int) -> int {
    if limit - MARKER_RESERVE > 1 {
        limit - MARKER_RESERVE
    } else {
        1
    }
}

/// An outbound message as it is sent: whole where it fits `limit` bytes, else
/// its pieces, marked where there are several.
pub open spec fn split_form(s: Seq<char>, limit: int) -> Seq<Seq<char>> {
    if bytes_len(s) <= limit {
        seq![s]
    } else {
        let all = pieces(s, budget_of(limit));
        if all.len() > 1 {
            Seq::new(all.len(), |i: int| marked(i, all.len(), all[i]))
        } else {
            all
        }
    }
}

/// A start of a text fits into the bytes counted for it, and nothing longer
/// does.
proof fn lemma_fitting(s: Seq<char>, budget: int)
    ensures
        0 <= fitting(s, budget) <= s.len(),
        fitting(s, budget) > 0 ==> bytes_len(s.take(fitting(s, budget))) <= budget,
        fitting(s, budget) < s.len() ==> bytes_len(s.take(fitting(s, budget) + 1)) > budget,
    decreases s.len(),
{
    let n = fitting(s, budget);
    if s.len() > 0 {
        let one = seq![s[0]];
        assert(one.drop_last() =~= Seq::<char>::empty());
        assert(bytes_len(Seq::<char>::empty()) == 0);
        assert(bytes_len(one) == width_of(s[0]));
        assert(s.take(1) =~= one);
        if width_of(s[0]) <= budget {
            let rest = s.skip(1);
            lemma_fitting(rest, budget - width_of(s[0]));
            let m = fitting(rest, budget - width_of(s[0]));
            assert(s.take(n) =~= one + rest.take(m));
            lemma_bytes_concat(one, rest.take(m));
            assert(rest.take(0) =~= Seq::empty());
            if m < rest.len() {
                assert(s.take(n + 1) =~= one + rest.take(m + 1));
                lemma_bytes_concat(one, rest.take(m + 1));
            }
        }
    }
}

proof fn lemma_last_occurrence(s: Seq<char>, sep: Seq<char>, from: int)
    ensures
        -1 <= last_occurrence(s, sep, from),
        last_occurrence(s, sep, from) <= from || last_occurrence(s, sep, from) == -1,
        last_occurrence(s, sep, from) >= 0 ==> occurs_at(s, sep, last_occurrence(s, sep, from)),
    decreases from + 1,
{
    if from >= 0 && !occurs_at(s, sep, from) {
        lemma_last_occurrence(s, sep, from - 1);
    }
}

proof fn lemma_leading_breaks(s: Seq<char>)
    ensures
        0 <= leading_breaks(s) <= s.len(),
        forall|i: int|
            0 <= i < leading_breaks(s) ==> #[trigger] s[i] == '\n' || s[i] == '\r',
    decreases s.len(),
{
    if s.len() > 0 && (s[0] == '\n' || s[0] == '\r') {
        lemma_leading_breaks(s.skip(1));
        assert forall|i: int| 0 <= i < leading_breaks(s) implies #[trigger] s[i] == '\n' || s[i]
            == '\r' by {
            if i > 0 {
                assert(s.skip(1)[i - 1] == s[i]);
            }
        }
    }
}

/// A piece is never empty, and what is dropped after it is a separator.
proof fn lemma_cut(s: Seq<char>, budget: int)
    requires
        s.len() > 0,
    ensures
        1 <= cut(s, budget).0 <= reach(s, budget) <= s.len(),
        0 <= cut(s, budget).1,
        cut(s, budget).0 + cut(s, budget).1 <= s.len(),
        forall|i: int|
            cut(s, budget).0 <= i < cut(s, budget).0 + cut(s, budget).1 ==> is_separator(
                #[trigger] s[i],
            ),
{
    reveal_strlit("\n\n");
    reveal_strlit("\n");
    reveal_strlit(" ");
    lemma_fitting(s, budget);
    let end = reach(s, budget);
    let head = s.take(end);
    lemma_last_occurrence(head, "\n\n"@, end);
    lemma_last_occurrence(head, "\n"@, end);
    lemma_last_occurrence(head, " "@, end);
    let (n, skip) = cut(s, budget);
    if n < end || skip > 0 {
        lemma_leading_breaks(s.skip(n));
        if n == 0 {
            assert(head.take(0) =~= Seq::empty());
            assert(bytes_len(head.take(0)) == 0);
        }
        let space = last_occurrence(head, " "@, end);
        if skip == 1 && n == space {
            assert(head.subrange(space, space + 1)[0] == ' ');
        }
        assert forall|i: int| n <= i < n + skip implies is_separator(#[trigger] s[i]) by {
            assert(s.skip(n)[i - n] == s[i]);
        }
    }
}

/// Whether a character may be dropped between two pieces.
pub open spec fn is_separator(c: char) -> bool {
    c == '\n' || c == '\r' || c == ' '
}

fn last_at(s: &[char], sep: &[char]) -> (r: Option<usize>)
    requires
        sep@.len() > 0,
    ensures
        match r {
            Some(i) => last_occurrence(s@, sep@, s@.len() as int) == i && i < s@.len(),
            None => last_occurrence(s@, sep@, s@.len() as int) == -1,
        },
{
    let mut n: usize = s.len();
    loop
        invariant
            n <= s@.len(),
            sep@.len() > 0,
            last_occurrence(s@, sep@, s@.len() as int) == last_occurrence(s@, sep@, n as int),
        decreases n,
    {
        if crate::text::matches_at(s, sep, n) {
            return Some(n);
        }
        if n == 0 {
            assert(last_occurrence(s@, sep@, -1) == -1);
            return None;
        }
        n -= 1;
    }
}

fn bytes_upto(s: &[char], to: usize, Ghost(whole): Ghost<Seq<char>>) -> (r: usize)
    requires
        to <= s@.len() <= whole.len(),
        s@ == whole.take(s@.len() as int),
        bytes_len(whole) <= usize::MAX,
    ensures
        r == bytes_len(s@.take(to as int)),
        bytes_len(s@) <= usize::MAX,
{
    proof {
        assert(whole.take(whole.len() as int) =~= whole);
        lemma_bytes_prefix(whole, s@.len() as int, whole.len() as int);
        assert(s@.take(s@.len() as int) =~= s@);
    }
    let mut n: usize = 0;
    let mut i: usize = 0;
    while i < to
        invariant
            i <= to <= s@.len(),
            bytes_len(s@) <= usize::MAX,
            s@.take(s@.len() as int) == s@,
            n == bytes_len(s@.take(i as int)),
        decreases to - i,
    {
        proof {
            assert(s@.take(i + 1).drop_last() =~= s@.take(i as int));
            lemma_bytes_prefix(s@, i + 1, s@.len() as int);
        }
        n += char_bytes(s[i]);
        i += 1;
    }
    n
}

/// Where to break at a separator, if it is worth it.
fn break_at(head: &[char], sep: &str, total: usize, Ghost(whole): Ghost<Seq<char>>) -> (r: Option<
    usize,
>)
    requires
        sep@.len() > 0,
        head@.len() <= whole.len(),
        head@ == whole.take(head@.len() as int),
        bytes_len(whole) <= usize::MAX,
        total == bytes_len(head@),
    ensures
        match r {
            Some(i) => last_occurrence(head@, sep@, head@.len() as int) == i && worth(
                head@,
                i as int,
            ) && i < head@.len(),
            None => !worth(head@, last_occurrence(head@, sep@, head@.len() as int)),
        },
{
    let sep = chars_of(sep);
    match last_at(head, sep.as_slice()) {
        Some(i) => {
            if bytes_upto(head, i, Ghost(whole)) > total / 2 {
                Some(i)
            } else {
                None
            }
        },
        None => None,
    }
}

fn breaks_after(s: &[char], from: usize) -> (r: usize)
    requires
        from <= s@.len(),
    ensures
        r == leading_breaks(s@.skip(from as int)),
        from + r <= s@.len(),
{
    let mut i: usize = from;
    while i < s.len() && (s[i] == '\n' || s[i] == '\r')
        invariant
            from <= i <= s@.len(),
            leading_breaks(s@.skip(from as int)) == (i - from) + leading_breaks(s@.skip(i as int)),
        decreases s@.len() - i,
    {
        assert(s@.skip(i as int)[0] == s@[i as int]);
        assert(s@.skip(i as int).skip(1) =~= s@.skip(i + 1));
        i += 1;
    }
    proof {
        if i < s@.len() {
            assert(s@.skip(i as int)[0] == s@[i as int]);
        }
    }
    i - from
}

/// Where to end a piece that overflows `budget` bytes, and how many separator
/// characters to drop after it.
///
/// The cut is never zero: a budget shorter than the first character would
/// otherwise leave the caller's loop exactly where it started, forever.
pub fn boundary(rest: &[char], budget: usize) -> (r: (usize, usize))
    requires
        rest@.len() > 0,
        bytes_len(rest@) <= usize::MAX,
    ensures
        (r.0 as int, r.1 as int) == cut(rest@, budget as int),
        1 <= r.0,
        r.0 + r.1 <= rest@.len(),
{
    let mut end: usize = 0;
    let mut total: usize = 0;
    assert(rest@.skip(0) =~= rest@);
    assert(rest@.take(0) =~= Seq::empty());
    while end < rest.len() && char_bytes(rest[end]) <= budget - total
        invariant
            end <= rest@.len(),
            total <= budget,
            total == bytes_len(rest@.take(end as int)),
            fitting(rest@, budget as int) == end + fitting(
                rest@.skip(end as int),
                budget - total,
            ),
        decreases rest@.len() - end,
    {
        proof {
            assert(rest@.skip(end as int)[0] == rest@[end as int]);
            assert(rest@.skip(end as int).skip(1) =~= rest@.skip(end + 1));
            assert(rest@.take(end + 1).drop_last() =~= rest@.take(end as int));
        }
        total += char_bytes(rest[end]);
        end += 1;
    }
    proof {
        if end < rest@.len() {
            assert(rest@.skip(end as int)[0] == rest@[end as int]);
        }
    }
    if end == 0 {
        end = 1;
        total = char_bytes(rest[0]);
        assert(rest@.take(1).drop_last() =~= Seq::<char>::empty());
    }
    let head = copy_range(rest, 0, end);
    assert(head@ =~= rest@.take(end as int));
    proof {
        reveal_strlit("\n\n");
        reveal_strlit("\n");
        reveal_strlit(" ");
        lemma_cut(rest@, budget as int);
    }
    if let Some(i) = break_at(head.as_slice(), "\n\n", total, Ghost(rest@)) {
        return (i, breaks_after(rest, i));
    }
    if let Some(i) = break_at(head.as_slice(), "\n", total, Ghost(rest@)) {
        return (i, breaks_after(rest, i));
    }
    if let Some(i) = break_at(head.as_slice(), " ", total, Ghost(rest@)) {
        return (i, 1);
    }
    (end, 0)
}

fn whole_bytes(text: &str) -> (r: usize)
    ensures
        r == bytes_len(text@),
{
    let v = chars_of(text);
    assert(v@.take(v@.len() as int) =~= v@);
    bytes_before(text, v.len())
}

fn mark(piece: &[char], i: usize, total: usize) -> (r: String)
    requires
        i < total,
    ensures
        r@ == marked(i as int, total as nat, piece@),
{
    let mut r = "(".to_owned();
    append_number(&mut r, i + 1);
    r.append("/");
    append_number(&mut r, total);
    r.append(") ");
    let rest = string_of(piece);
    r.append(rest.as_str());
    r
}

/// Cut an outbound message into pieces that each fit `limit` bytes. One that
/// already fits comes back whole and unmarked; anything longer is marked
/// `(n/m)`, so a reader on the phone can tell a message still arriving from one
/// that ended — a send the server blocks reports on the local terminal only,
/// and the phone would otherwise see a truncated answer as the whole answer.
pub fn split(text: &str, limit: usize) -> (r: Vec<String>)
    ensures
        texts(r@) == split_form(text@, limit as int),
{
    let mut out: Vec<String> = Vec::new();
    let size = whole_bytes(text);
    // Against the real limit, not the loop's smaller budget: text that fits
    // unmarked should go out unmarked rather than become two marked pieces.
    if size <= limit {
        out.push(text.to_owned());
        assert(texts(out@) =~= seq![text@]);
        return out;
    }
    let v = chars_of(text);
    proof {
        assert(v@.take(v@.len() as int) =~= v@);
        lemma_bytes_prefix(v@, 0, v@.len() as int);
    }
    let budget: usize = if limit > MARKER_RESERVE && limit - MARKER_RESERVE > 1 {
        limit - MARKER_RESERVE
    } else {
        1
    };
    let mut rest = copy_range(v.as_slice(), 0, v.len());
    assert(rest@ =~= v@);
    let mut left: usize = size;
    let mut parts: Vec<Vec<char>> = Vec::new();
    let ghost all = pieces(v@, budget as int);
    assert(rows(parts@) + all =~= all);
    while rest.len() > 0
        invariant
            all == pieces(v@, budget as int),
            rows(parts@) + pieces(rest@, budget as int) == all,
            left == bytes_len(rest@),
        decreases rest@.len(),
    {
        let ghost done = rows(parts@);
        if left <= budget {
            let ghost piece = rest@;
            parts.push(rest);
            assert(rows(parts@) =~= done.push(piece));
            rest = Vec::new();
            left = 0;
            assert(pieces(piece, budget as int) =~= seq![piece]);
            assert(rows(parts@) + pieces(rest@, budget as int) =~= all);
        } else {
            proof {
                assert(rest@.take(rest@.len() as int) =~= rest@);
                lemma_bytes_prefix(rest@, 0, rest@.len() as int);
                lemma_length_fits(rest@);
            }
            let (n, skip) = boundary(rest.as_slice(), budget);
            let piece = copy_range(rest.as_slice(), 0, n);
            let less = copy_range(rest.as_slice(), n + skip, rest.len());
            proof {
                assert(piece@ =~= rest@.take(n as int));
                assert(less@ =~= rest@.skip(n + skip));
                assert(rest@ =~= rest@.take(n + skip) + less@);
                lemma_bytes_concat(rest@.take(n + skip), less@);
            }
            let gone = bytes_upto(rest.as_slice(), n + skip, Ghost(rest@));
            parts.push(piece);
            assert(rows(parts@) =~= done.push(piece@));
            assert(pieces(rest@, budget as int) == seq![piece@] + pieces(less@, budget as int));
            assert(rows(parts@) + pieces(less@, budget as int) =~= done + (seq![piece@] + pieces(
                less@,
                budget as int,
            )));
            left = left - gone;
            rest = less;
        }
    }
    assert(pieces(rest@, budget as int) =~= Seq::empty());
    assert(rows(parts@) =~= all);
    let total = parts.len();
    let mut i: usize = 0;
    while i < parts.len()
        invariant
            i <= parts@.len() == total,
            all == rows(parts@),
            out@.len() == i,
            forall|k: int|
                0 <= k < i ==> (#[trigger] out@[k])@ == if total > 1 {
                    marked(k, total as nat, all[k])
                } else {
                    all[k]
                },
        decreases parts@.len() - i,
    {
        assert(all[i as int] == parts@[i as int]@);
        if total > 1 {
            out.push(mark(parts[i].as_slice(), i, total));
        } else {
            out.push(string_of(parts[i].as_slice()));
        }
        i += 1;
    }
    assert(texts(out@) =~= split_form(text@, limit as int));
    out
}

/// A text of more than one character is longer in bytes than nothing.
proof fn lemma_length_fits(s: Seq<char>)
    ensures
        s.len() <= bytes_len(s),
{
    assert(s.take(s.len() as int) =~= s);
    assert(s.take(0) =~= Seq::empty());
    lemma_bytes_prefix(s, 0, s.len() as int);
}

// ---------------------------------------------------------------------------
// What goes out
// ---------------------------------------------------------------------------

/// What a tool call reads as on the phone.
pub open spec fn tool_form(name: Seq<char>, summary: Seq<char>) -> Seq<char> {
    if summary.len() == 0 {
        "⚙ "@ + name
    } else {
        "⚙ "@ + name + " "@ + summary
    }
}

/// The one-line tool notice the phone gets: the name plus the argument the
/// summary picked out. An empty summary collapses to the bare name so the line
/// never ends on a stray space.
pub fn tool_line(name: &str, summary: &str) -> (r: String)
    ensures
        r@ == tool_form(name@, summary@),
{
    let mut r = "⚙ ".to_owned();
    r.append(name);
    if !summary.is_empty() {
        r.append(" ");
        r.append(summary);
    }
    r
}

/// What the run reports, as far as the phone hears of it.
#[derive(Debug, Clone, PartialEq, Eq)]
pub enum Event {
    TurnStart { turn: u64 },
    TextDelta(String),
    ToolStart { name: String, summary: String },
    ToolEnd { name: String, is_error: bool, preview: String },
    ToolDenied { name: String, reason: String },
    Retrying { attempt: u64, delay_ms: u64, reason: String },
    Warning(String),
    Compacted { before: u64, after: u64 },
    Done,
    /// Anything else: the phone hears nothing of it.
    Other,
}

/// What the run reports, with its texts as sequences.
#[verifier::ext_equal]
pub enum EventView {
    TurnStart { turn: u64 },
    TextDelta(Seq<char>),
    ToolStart { name: Seq<char>, summary: Seq<char> },
    ToolEnd { name: Seq<char>, is_error: bool, preview: Seq<char> },
    ToolDenied { name: Seq<char>, reason: Seq<char> },
    Retrying { attempt: u64, delay_ms: u64, reason: Seq<char> },
    Warning(Seq<char>),
    Compacted { before: u64, after: u64 },
    Done,
    Other,
}

impl View for Event {
    type V = EventView;

    open spec fn view(&self) -> EventView {
        match self {
            Event::TurnStart { turn } => EventView::TurnStart { turn: *turn },
            Event::TextDelta(s) => EventView::TextDelta(s@),
            Event::ToolStart { name, summary } => EventView::ToolStart {
                name: name@,
                summary: summary@,
            },
            Event::ToolEnd { name, is_error, preview } => EventView::ToolEnd {
                name: name@,
                is_error: *is_error,
                preview: preview@,
            },
            Event::ToolDenied { name, reason } => EventView::ToolDenied {
                name: name@,
                reason: reason@,
            },
            Event::Retrying { attempt, delay_ms, reason } => EventView::Retrying {
                attempt: *attempt,
                delay_ms: *delay_ms,
                reason: reason@,
            },
            Event::Warning(s) => EventView::Warning(s@),
            Event::Compacted { before, after } => EventView::Compacted {
                before: *before,
                after: *after,
            },
            Event::Done => EventView::Done,
            Event::Other => EventView::Other,
        }
    }
}

/// What is to be sent.
#[derive(Debug, Clone, PartialEq, Eq)]
pub enum Outbound {
    /// A message, not yet cut to the limit.
    Line(String),
    /// The typing indicator, on or off.
    Typing(bool),
}

/// What is to be sent, with its texts as sequences.
#[verifier::ext_equal]
pub enum OutboundView {
    Line(Seq<char>),
    Typing(bool),
}

impl View for Outbound {
    type V = OutboundView;

    open spec fn view(&self) -> OutboundView {
        match self {
            Outbound::Line(s) => OutboundView::Line(s@),
            Outbound::Typing(on) => OutboundView::Typing(*on),
        }
    }
}

/// What is to be sent, in order.
pub open spec fn outbound_view(v: Seq<Outbound>) -> Seq<OutboundView> {
    Seq::new(v.len(), |i: int| v[i]@)
}

/// The outbound accumulator.
#[derive(Debug, Clone, PartialEq, Eq)]
pub struct Bridge {
    /// Reply text accumulated for the running turn.
    pub out: String,
    /// True once `Done` has flushed; a failed turn flushes what is left.
    pub flushed: bool,
    /// When the last tool batch went out, for the interval.
    pub last_tool: Option<u64>,
    /// Tool notices held since that send. Coalescing them is what keeps a
    /// parallel call — same instant as its sibling — from being lost.
    pub tool_buf: Vec<String>,
    /// Whether the indicator is currently marked on. Optimistic: a failed send
    /// only leaves the mark stale.
    pub typing_on: bool,
}

/// The accumulator, with its texts as sequences.
#[verifier::ext_equal]
pub struct BridgeView {
    pub out: Seq<char>,
    pub flushed: bool,
    pub last_tool: Option<u64>,
    pub tool_buf: Seq<Seq<char>>,
    pub typing_on: bool,
}

impl View for Bridge {
    type V = BridgeView;

    open spec fn view(&self) -> BridgeView {
        BridgeView {
            out: self.out@,
            flushed: self.flushed,
            last_tool: self.last_tool,
            tool_buf: texts(self.tool_buf@),
            typing_on: self.typing_on,
        }
    }
}

/// The accumulator after something was heard, and what that sends.
#[verifier::ext_equal]
pub struct Heard {
    pub bridge: BridgeView,
    pub sent: Seq<OutboundView>,
}

/// A message, where the bridge is on: the surface reports whether or not it is,
/// and an ended bridge would otherwise keep sending.
pub open spec fn line_sent(alive: bool, text: Seq<char>) -> Seq<OutboundView> {
    if alive {
        seq![OutboundView::Line(text)]
    } else {
        Seq::empty()
    }
}

/// What the interval has held, sent as one multi-line message.
pub open spec fn tools_flushed(b: BridgeView, alive: bool) -> Heard {
    if b.tool_buf.len() == 0 {
        Heard { bridge: b, sent: Seq::empty() }
    } else {
        Heard {
            bridge: BridgeView { tool_buf: Seq::empty(), ..b },
            sent: line_sent(alive, join(b.tool_buf, "\n"@)),
        }
    }
}

/// One outbound line that is not a tool notice. Held tool lines go first, so the
/// phone reads the turn in the order it happened.
pub open spec fn said(b: BridgeView, alive: bool, text: Seq<char>) -> Heard {
    let h = tools_flushed(b, alive);
    Heard { sent: h.sent + line_sent(alive, text), ..h }
}

/// The typing indicator, on or off.
pub open spec fn typing_set(b: BridgeView, alive: bool, on: bool) -> Heard {
    if !alive || b.typing_on == on {
        Heard { bridge: b, sent: Seq::empty() }
    } else {
        Heard { bridge: BridgeView { typing_on: on, ..b }, sent: seq![OutboundView::Typing(on)] }
    }
}

/// The answer as it goes out.
pub open spec fn answer(out: Seq<char>, cancelled: bool) -> Seq<char> {
    if cancelled && !blank(out) {
        out + "\n\n(stopped)"@
    } else {
        out
    }
}

/// Everything that is held sent: the last tool lines, then the answer, then the
/// indicator off. The answer arriving first would read as the tools running
/// after it.
pub open spec fn all_flushed(b: BridgeView, alive: bool, cancelled: bool) -> Heard {
    let text = answer(b.out, cancelled);
    let h = tools_flushed(BridgeView { out: Seq::empty(), flushed: true, ..b }, alive);
    let t = typing_set(h.bridge, alive, false);
    Heard {
        bridge: t.bridge,
        sent: h.sent + (if blank(text) {
            Seq::empty()
        } else {
            line_sent(alive, text)
        }) + t.sent,
    }
}

/// Whether the interval since the last batch is over.
pub open spec fn rested(last: Option<u64>, now: u64) -> bool {
    match last {
        Some(t) => now - t >= TOOL_INTERVAL,
        None => true,
    }
}

/// The bridge after one event. Text deltas and tool lines accumulate; every
/// other notice, and `Done`, flush what is held before saying its own.
pub open spec fn heard(b: BridgeView, e: EventView, now: u64, alive: bool) -> Heard {
    match e {
        EventView::TurnStart { turn } => if turn == 1 {
            typing_set(
                BridgeView {
                    out: Seq::empty(),
                    tool_buf: Seq::empty(),
                    flushed: false,
                    last_tool: None,
                    ..b
                },
                alive,
                true,
            )
        } else {
            Heard { bridge: b, sent: Seq::empty() }
        },
        EventView::TextDelta(d) => Heard {
            bridge: BridgeView { out: b.out + d, ..b },
            sent: Seq::empty(),
        },
        EventView::ToolStart { name, summary } => {
            let held = BridgeView { tool_buf: b.tool_buf.push(tool_form(name, summary)), ..b };
            if rested(b.last_tool, now) {
                tools_flushed(BridgeView { last_tool: Some(now), ..held }, alive)
            } else {
                Heard { bridge: held, sent: Seq::empty() }
            }
        },
        EventView::ToolEnd { name, is_error, preview } => if is_error {
            said(b, alive, "✗ "@ + name + " failed — "@ + cropped_text(preview, 80))
        } else {
            Heard { bridge: b, sent: Seq::empty() }
        },
        EventView::ToolDenied { name, reason } => said(
            b,
            alive,
            "✗ "@ + name + " denied — "@ + reason,
        ),
        EventView::Retrying { attempt, delay_ms, reason } => said(
            b,
            alive,
            "↻ retry "@ + decimal(attempt as nat) + " in "@ + decimal((delay_ms / 1000) as nat)
                + "s — "@ + reason,
        ),
        EventView::Warning(w) => said(b, alive, w),
        EventView::Compacted { before, after } => said(
            b,
            alive,
            "history compacted "@ + decimal(before as nat) + " → "@ + decimal(after as nat)
                + " tokens"@,
        ),
        EventView::Done => all_flushed(b, alive, false),
        EventView::Other => Heard { bridge: b, sent: Seq::empty() },
    }
}

/// The bridge once a turn has ended. A successful run already flushed on `Done`;
/// a cancelled or failed one sends what it has.
pub open spec fn turn_finished(b: BridgeView, alive: bool, cancelled: bool) -> Heard {
    if b.flushed {
        let h = tools_flushed(b, alive);
        let t = typing_set(h.bridge, alive, false);
        Heard { bridge: t.bridge, sent: h.sent + t.sent }
    } else {
        all_flushed(b, alive, cancelled)
    }
}

fn one_line(alive: bool, text: &str) -> (r: Vec<Outbound>)
    ensures
        outbound_view(r@) == line_sent(alive, text@),
{
    let mut r: Vec<Outbound> = Vec::new();
    if alive {
        r.push(Outbound::Line(text.to_owned()));
    }
    assert(outbound_view(r@) =~= line_sent(alive, text@));
    r
}

fn joined(v: &[String]) -> (r: String)
    ensures
        r@ == join(texts(v@), "\n"@),
{
    let ghost all = texts(v@);
    let mut r = String::new();
    let mut i: usize = 0;
    assert(all.take(0) =~= Seq::empty());
    while i < v.len()
        invariant
            i <= v@.len(),
            all == texts(v@),
            r@ == join(all.take(i as int), "\n"@),
        decreases v@.len() - i,
    {
        let ghost t = all.take(i + 1);
        assert(t.drop_last() =~= all.take(i as int));
        assert(t.last() == v@[i as int]@);
        if i > 0 {
            r.append("\n");
        } else {
            assert(t =~= seq![v@[0]@]);
            assert(r@ =~= Seq::empty());
        }
        r.append(v[i].as_str());
        assert(i == 0 ==> r@ =~= v@[0]@);
        i += 1;
    }
    assert(all.take(i as int) =~= all);
    r
}

fn append_sent(sent: &mut Vec<Outbound>, more: Vec<Outbound>)
    ensures
        outbound_view(final(sent)@) == outbound_view(old(sent)@) + outbound_view(more@),
{
    let ghost a = sent@;
    let ghost b = more@;
    let mut more = more;
    sent.append(&mut more);
    assert(outbound_view(sent@) =~= outbound_view(a) + outbound_view(b));
}

impl Bridge {
    /// A bridge that has heard nothing.
    pub fn new() -> (r: Bridge)
        ensures
            r@ == (BridgeView {
                out: Seq::empty(),
                flushed: false,
                last_tool: None,
                tool_buf: Seq::empty(),
                typing_on: false,
            }),
    {
        let r = Bridge {
            out: String::new(),
            flushed: false,
            last_tool: None,
            tool_buf: Vec::new(),
            typing_on: false,
        };
        assert(r@.tool_buf =~= Seq::empty());
        r
    }

    /// What `/wechat` alone reports.
    pub fn status(alive: bool) -> (r: String)
        ensures
            r@ == if alive {
                "wechat: connected — /wechat off to disconnect"@
            } else {
                OFF_MESSAGE@
            },
    {
        if alive {
            "wechat: connected — /wechat off to disconnect".to_owned()
        } else {
            OFF_MESSAGE.to_owned()
        }
    }

    /// `/wechat on`: what is to be started, if anything, and what is said. With a
    /// saved token the long-poll starts immediately; without one a login runs.
    pub fn on(alive: bool, token: bool) -> (r: (Start, String))
        ensures
            r.0 == if alive {
                Start::Nothing
            } else if token {
                Start::Poll
            } else {
                Start::Login
            },
            r.1@ == match r.0 {
                Start::Nothing => "wechat is already connected"@,
                Start::Poll => "wechat connected — long-polling for messages"@,
                Start::Login =>
                    "wechat login started — the QR appears in the session; scan it with WeChat"@,
            },
    {
        if alive {
            (Start::Nothing, "wechat is already connected".to_owned())
        } else if token {
            (Start::Poll, "wechat connected — long-polling for messages".to_owned())
        } else {
            (
                Start::Login,
                "wechat login started — the QR appears in the session; scan it with WeChat".to_owned(),
            )
        }
    }

    /// `/wechat off`: nothing that was held goes out later.
    pub fn off(&mut self) -> (r: String)
        ensures
            final(self)@ == (BridgeView {
                out: Seq::empty(),
                flushed: false,
                last_tool: None,
                tool_buf: Seq::empty(),
                typing_on: false,
            }),
            r@ == "wechat bridge stopped — /wechat on to reconnect"@,
    {
        *self = Bridge::new();
        "wechat bridge stopped — /wechat on to reconnect".to_owned()
    }

    /// Watch one event of the run at `now`, in milliseconds: what it sends.
    pub fn observe(&mut self, event: &Event, now: u64, alive: bool) -> (r: Vec<Outbound>)
        ensures
            heard(old(self)@, event@, now, alive) == (Heard {
                bridge: final(self)@,
                sent: outbound_view(r@),
            }),
    {
        let r: Vec<Outbound> = Vec::new();
        assert(outbound_view(r@) =~= Seq::empty());
        match event {
            Event::TurnStart { turn } => {
                if *turn == 1 {
                    self.out = String::new();
                    // A turn that ended out of sight never reached
                    // `finish_turn`, and its leftovers would surface inside
                    // this turn's first batch.
                    self.tool_buf = Vec::new();
                    self.flushed = false;
                    // Or the previous turn's last send would swallow this
                    // one's first tool line, seconds after the user asked.
                    self.last_tool = None;
                    assert(self@.tool_buf =~= Seq::empty());
                    self.typing(true, alive)
                } else {
                    r
                }
            },
            Event::TextDelta(text) => {
                self.out.append(text.as_str());
                r
            },
            Event::ToolStart { name, summary } => {
                let line = tool_line(name.as_str(), summary.as_str());
                let ghost before = self@.tool_buf;
                let ghost l = line@;
                self.tool_buf.push(line);
                assert(self@.tool_buf =~= before.push(l));
                let due = match self.last_tool {
                    Some(t) => now >= t && now - t >= TOOL_INTERVAL,
                    None => true,
                };
                if due {
                    self.last_tool = Some(now);
                    self.flush_tools(alive)
                } else {
                    r
                }
            },
            Event::ToolEnd { name, is_error, preview } => {
                if *is_error {
                    let mut s = "✗ ".to_owned();
                    s.append(name.as_str());
                    s.append(" failed — ");
                    let shown = clip_text(preview.as_str(), 80);
                    s.append(shown.as_str());
                    self.say(s.as_str(), alive)
                } else {
                    r
                }
            },
            Event::ToolDenied { name, reason } => {
                let mut s = "✗ ".to_owned();
                s.append(name.as_str());
                s.append(" denied — ");
                s.append(reason.as_str());
                self.say(s.as_str(), alive)
            },
            Event::Retrying { attempt, delay_ms, reason } => {
                let mut s = "↻ retry ".to_owned();
                append_count(&mut s, *attempt);
                s.append(" in ");
                append_count(&mut s, *delay_ms / 1000);
                s.append("s — ");
                s.append(reason.as_str());
                self.say(s.as_str(), alive)
            },
            Event::Warning(w) => self.say(w.as_str(), alive),
            Event::Compacted { before, after } => {
                let mut s = "history compacted ".to_owned();
                append_count(&mut s, *before);
                s.append(" → ");
                append_count(&mut s, *after);
                s.append(" tokens");
                self.say(s.as_str(), alive)
            },
            Event::Done => self.flush(false, alive),
            Event::Other => r,
        }
    }

    /// The turn has ended: what is still to be sent.
    pub fn finish_turn(&mut self, cancelled: bool, alive: bool) -> (r: Vec<Outbound>)
        ensures
            turn_finished(old(self)@, alive, cancelled) == (Heard {
                bridge: final(self)@,
                sent: outbound_view(r@),
            }),
    {
        if self.flushed {
            let mut r = self.flush_tools(alive);
            let t = self.typing(false, alive);
            append_sent(&mut r, t);
            r
        } else {
            self.flush(cancelled, alive)
        }
    }

    fn flush(&mut self, cancelled: bool, alive: bool) -> (r: Vec<Outbound>)
        ensures
            all_flushed(old(self)@, alive, cancelled) == (Heard {
                bridge: final(self)@,
                sent: outbound_view(r@),
            }),
    {
        let mut text = String::new();
        text.append(self.out.as_str());
        assert(text@ =~= self@.out);
        let v = chars_of(text.as_str());
        let empty = is_blank(v.as_slice());
        if cancelled && !empty {
            text.append("\n\n(stopped)");
        }
        self.out = String::new();
        self.flushed = true;
        let mut r = self.flush_tools(alive);
        let ghost h = outbound_view(r@);
        let w = chars_of(text.as_str());
        if !is_blank(w.as_slice()) {
            append_sent(&mut r, one_line(alive, text.as_str()));
        } else {
            assert(h + Seq::<OutboundView>::empty() =~= h);
        }
        let t = self.typing(false, alive);
        append_sent(&mut r, t);
        r
    }

    /// Send what the interval has held as one multi-line message. Empty is the
    /// ordinary case — most drains find nothing to say.
    fn flush_tools(&mut self, alive: bool) -> (r: Vec<Outbound>)
        ensures
            tools_flushed(old(self)@, alive) == (Heard {
                bridge: final(self)@,
                sent: outbound_view(r@),
            }),
    {
        assert(self@.tool_buf.len() == self.tool_buf@.len());
        if self.tool_buf.len() == 0 {
            let r: Vec<Outbound> = Vec::new();
            assert(outbound_view(r@) =~= Seq::empty());
            return r;
        }
        let text = joined(self.tool_buf.as_slice());
        self.tool_buf = Vec::new();
        assert(self@.tool_buf =~= Seq::empty());
        one_line(alive, text.as_str())
    }

    fn say(&mut self, text: &str, alive: bool) -> (r: Vec<Outbound>)
        ensures
            said(old(self)@, alive, text@) == (Heard {
                bridge: final(self)@,
                sent: outbound_view(r@),
            }),
    {
        let mut r = self.flush_tools(alive);
        append_sent(&mut r, one_line(alive, text));
        r
    }

    fn typing(&mut self, on: bool, alive: bool) -> (r: Vec<Outbound>)
        ensures
            typing_set(old(self)@, alive, on) == (Heard {
                bridge: final(self)@,
                sent: outbound_view(r@),
            }),
    {
        let mut r: Vec<Outbound> = Vec::new();
        if alive && self.typing_on != on {
            self.typing_on = on;
            r.push(Outbound::Typing(on));
            assert(outbound_view(r@) =~= seq![OutboundView::Typing(on)]);
        } else {
            assert(outbound_view(r@) =~= Seq::empty());
        }
        r
    }
}

/// What `/wechat on` starts.
#[derive(Debug, Clone, Copy, PartialEq, Eq, Structural)]
pub enum Start {
    Nothing,
    Poll,
    Login,
}

/// What is said of a send that failed.
pub open spec fn send_failed_form(i: nat, total: nat, why: Seq<char>) -> Seq<char> {
    "wechat send failed"@ + (if total > 1 {
        " (piece "@ + decimal(i + 1) + "/"@ + decimal(total) + ")"@
    } else {
        Seq::empty()
    }) + ": "@ + why + " — try sending a message from the phone first"@
}

/// What is said of a send that failed, at piece `i` of `total`. A later piece
/// without the ones before it reads as garbage, so a failed send ends the
/// message rather than skipping a hole.
pub fn send_failed(i: usize, total: usize, why: &str) -> (r: String)
    requires
        i < total,
    ensures
        r@ == send_failed_form(i as nat, total as nat, why@),
{
    let mut r = "wechat send failed".to_owned();
    if total > 1 {
        let mut part = " (piece ".to_owned();
        append_number(&mut part, i + 1);
        part.append("/");
        append_number(&mut part, total);
        part.append(")");
        r.append(part.as_str());
    } else {
        assert(r@ =~= r@ + Seq::<char>::empty());
    }
    r.append(": ");
    r.append(why);
    r.append(" — try sending a message from the phone first");
    r
}

// ---------------------------------------------------------------------------
// What comes in
// ---------------------------------------------------------------------------

/// What persists between runs. One peer per session, so the reply address and
/// the context token are single slots.
#[derive(Debug, Clone, PartialEq, Eq)]
pub struct State {
    pub token: Option<String>,
    pub base_url: String,
    pub peer: Option<String>,
    pub get_updates_buf: String,
    pub context_token: Option<String>,
}

/// What persists, with its texts as sequences.
#[verifier::ext_equal]
pub struct StateView {
    pub token: Option<Seq<char>>,
    pub base_url: Seq<char>,
    pub peer: Option<Seq<char>>,
    pub get_updates_buf: Seq<char>,
    pub context_token: Option<Seq<char>>,
}

/// An optional string as a sequence.
pub open spec fn opt_text(s: Option<String>) -> Option<Seq<char>> {
    match s {
        Some(s) => Some(s@),
        None => None,
    }
}

impl View for State {
    type V = StateView;

    open spec fn view(&self) -> StateView {
        StateView {
            token: opt_text(self.token),
            base_url: self.base_url@,
            peer: opt_text(self.peer),
            get_updates_buf: self.get_updates_buf@,
            context_token: opt_text(self.context_token),
        }
    }
}

/// What the bridge hands the surface.
#[derive(Debug, Clone, PartialEq, Eq)]
pub enum Inbound {
    /// A text message from the peer.
    Text { text: String },
    /// Something worth saying on the local terminal (status, errors, QR).
    Notice(String),
    /// The peer typed `/stop` or `/esc`: interrupt the running turn now.
    Stop,
}

/// What the bridge hands the surface, with its texts as sequences.
#[verifier::ext_equal]
pub enum InboundView {
    Text { text: Seq<char> },
    Notice(Seq<char>),
    Stop,
}

impl View for Inbound {
    type V = InboundView;

    open spec fn view(&self) -> InboundView {
        match self {
            Inbound::Text { text } => InboundView::Text { text: text@ },
            Inbound::Notice(s) => InboundView::Notice(s@),
            Inbound::Stop => InboundView::Stop,
        }
    }
}

/// What the bridge hands the surface, in order.
pub open spec fn inbound_view(v: Seq<Inbound>) -> Seq<InboundView> {
    Seq::new(v.len(), |i: int| v[i]@)
}

/// A message from the service.
#[derive(Debug, Clone, PartialEq, Eq)]
pub struct Message {
    /// A user's message is of type 1.
    pub message_type: i64,
    pub text: String,
    pub from_user_id: String,
    pub context_token: Option<String>,
}

/// A message, with its texts as sequences.
#[verifier::ext_equal]
pub struct MessageView {
    pub message_type: i64,
    pub text: Seq<char>,
    pub from_user_id: Seq<char>,
    pub context_token: Option<Seq<char>>,
}

impl View for Message {
    type V = MessageView;

    open spec fn view(&self) -> MessageView {
        MessageView {
            message_type: self.message_type,
            text: self.text@,
            from_user_id: self.from_user_id@,
            context_token: opt_text(self.context_token),
        }
    }
}

/// Messages, with their texts as sequences.
pub open spec fn messages_view(v: Seq<Message>) -> Seq<MessageView> {
    Seq::new(v.len(), |i: int| v[i]@)
}

/// Whether a message asks to stop.
pub open spec fn stops(text: Seq<char>) -> bool {
    trim(text) == "/stop"@ || trim(text) == "/esc"@
}

/// Whether a message asks to stop the running turn.
pub fn is_stop(text: &str) -> (r: bool)
    ensures
        r == stops(text@),
{
    let v = chars_of(text);
    let t = trimmed(v.as_slice());
    let word = string_of(t.as_slice());
    same_str(word.as_str(), "/stop") || same_str(word.as_str(), "/esc")
}

/// What one poll answered: what came, or how it failed.
#[derive(Debug, Clone, PartialEq, Eq)]
pub enum Answer {
    Messages {
        /// Where the next poll goes on from; empty where it says nothing.
        buf: String,
        /// How long the next poll may wait, in milliseconds.
        timeout_ms: Option<u64>,
        msgs: Vec<Message>,
    },
    /// The token is no longer taken.
    Stale,
    /// The service said no, and how.
    Error { ret: i64, errcode: Option<i64>, errmsg: Option<String> },
}

/// A text as Rust shows it to a programmer: between double quotes, with the
/// characters escaped that would not read as themselves.
pub uninterp spec fn debug_text(s: Seq<char>) -> Seq<char>;

/// `Debug` of `str`, as `{:?}` writes it. The result depends on the text alone;
/// which characters are escaped, and how, is not stated.
#[verifier::external_body]
fn debug_of(s: &str) -> (r: String)
    ensures
        r@ == debug_text(s@),
{
    format!("{:?}", s)
}

/// What may be missing, as Rust shows it to a programmer, given how it is shown
/// where it is there.
pub open spec fn maybe_form(shown: Option<Seq<char>>) -> Seq<char> {
    match shown {
        Some(t) => "Some("@ + t + ")"@,
        None => "None"@,
    }
}

/// What is said of an answer that is an error, given how its message is shown.
pub open spec fn error_form(ret: int, errcode: Option<i64>, errmsg: Option<Seq<char>>) -> Seq<
    char,
> {
    "wechat getupdates error: ret="@ + signed(ret) + " errcode="@ + maybe_form(
        match errcode {
            Some(n) => Some(signed(n as int)),
            None => None,
        },
    ) + " errmsg="@ + maybe_form(errmsg)
}

fn append_maybe(s: &mut String, shown: &Option<String>)
    ensures
        final(s)@ == old(s)@ + maybe_form(opt_text(*shown)),
{
    match shown {
        Some(t) => {
            s.append("Some(");
            s.append(t.as_str());
            s.append(")");
        },
        None => {
            s.append("None");
        },
    }
    assert(s@ =~= old(s)@ + maybe_form(opt_text(*shown)));
}

/// What is said of an answer that is an error. `errmsg` is its message as it is
/// to be shown.
pub fn error_notice(ret: i64, errcode: Option<i64>, errmsg: &Option<String>) -> (r: String)
    ensures
        r@ == error_form(ret as int, errcode, opt_text(*errmsg)),
{
    let mut s = "wechat getupdates error: ret=".to_owned();
    append_signed(&mut s, ret);
    s.append(" errcode=");
    let code = match errcode {
        Some(n) => {
            let mut t = String::new();
            append_signed(&mut t, n);
            assert(t@ =~= signed(n as int));
            Some(t)
        },
        None => None,
    };
    append_maybe(&mut s, &code);
    s.append(" errmsg=");
    append_maybe(&mut s, errmsg);
    assert(s@ =~= error_form(ret as int, errcode, opt_text(*errmsg)));
    s
}

/// The state after some messages, what they hand the surface, and whether there
/// is anything to save.
#[verifier::ext_equal]
pub struct Received {
    pub state: StateView,
    pub inbound: Seq<InboundView>,
    pub dirty: bool,
}

/// One more message received. A tokenless message must not erase the last valid
/// token.
pub open spec fn received_one(r: Received, m: MessageView) -> Received {
    if m.message_type != 1 || m.text.len() == 0 {
        r
    } else if stops(m.text) {
        Received { inbound: r.inbound.push(InboundView::Stop), ..r }
    } else {
        Received {
            state: StateView {
                peer: Some(m.from_user_id),
                context_token: if m.context_token is Some {
                    m.context_token
                } else {
                    r.state.context_token
                },
                ..r.state
            },
            inbound: r.inbound.push(InboundView::Text { text: m.text }),
            dirty: true,
        }
    }
}

/// Messages received one after the other.
pub open spec fn received(start: Received, msgs: Seq<MessageView>) -> Received
    decreases msgs.len(),
{
    if msgs.len() == 0 {
        start
    } else {
        received_one(received(start, msgs.drop_last()), msgs.last())
    }
}

/// How long to rest after a failure, in seconds, and the failures counted after
/// it.
pub open spec fn rest_after(failures: u32) -> (u64, u32) {
    if failures >= 3 {
        (30, 0)
    } else {
        (2, failures)
    }
}

/// 2s between ordinary retries, 30s once three have failed in a row; the counter
/// resets on the 30s step.
pub fn backoff(failures: &mut u32) -> (r: u64)
    ensures
        (r, *final(failures)) == rest_after(*old(failures)),
{
    if *failures >= 3 {
        *failures = 0;
        30
    } else {
        2
    }
}

/// A poll that never came back: what is said, if anything, and how long to rest.
pub fn poll_failed(failures: &mut u32, why: &str) -> (r: (Option<String>, u64))
    requires
        *old(failures) < u32::MAX,
    ensures
        (r.1, *final(failures)) == rest_after((*old(failures) + 1) as u32),
        match r.0 {
            Some(s) => *old(failures) == 2 && s@ == "wechat getupdates failing — backing off: "@
                + why@,
            None => *old(failures) != 2,
        },
{
    *failures = *failures + 1;
    let said = if *failures == 3 {
        let mut s = "wechat getupdates failing — backing off: ".to_owned();
        s.append(why);
        Some(s)
    } else {
        None
    };
    let rest = backoff(failures);
    (said, rest)
}

/// What an answer leaves to do.
#[derive(Debug, Clone, PartialEq, Eq)]
pub struct Handled {
    pub inbound: Vec<Inbound>,
    /// Whether the state is to be saved.
    pub save: bool,
    /// How long to rest before the next poll, in seconds.
    pub rest: u64,
}

/// One answer of the service taken in: a stale token is reported and gone until
/// a fresh login; an error backs off; messages go to the surface.
pub fn handle_update(
    state: &mut State,
    update: Answer,
    failures: &mut u32,
    timeout_ms: &mut u64,
) -> (r: Handled)
    requires
        *old(failures) < u32::MAX,
    ensures
        match update {
            Answer::Stale => {
                &&& final(state)@ == (StateView { token: None, ..old(state)@ })
                &&& r.save
                &&& r.rest == 0
                &&& inbound_view(r.inbound@) == seq![
                    InboundView::Notice(
                        "wechat token expired — /wechat off, then /wechat on to rescan"@,
                    ),
                ]
                &&& *final(failures) == *old(failures)
                &&& *final(timeout_ms) == *old(timeout_ms)
            },
            Answer::Error { ret, errcode, errmsg } => {
                &&& final(state)@ == old(state)@
                &&& !r.save
                &&& (r.rest, *final(failures)) == rest_after((*old(failures) + 1) as u32)
                &&& inbound_view(r.inbound@) == seq![
                    InboundView::Notice(
                        error_form(
                            ret as int,
                            errcode,
                            match errmsg {
                                Some(m) => Some(debug_text(m@)),
                                None => None,
                            },
                        ),
                    ),
                ]
                &&& *final(timeout_ms) == *old(timeout_ms)
            },
            Answer::Messages { buf, timeout_ms: t, msgs } => {
                let start = Received {
                    state: if buf@.len() > 0 {
                        StateView { get_updates_buf: buf@, ..old(state)@ }
                    } else {
                        old(state)@
                    },
                    inbound: Seq::empty(),
                    dirty: buf@.len() > 0,
                };
                let end = received(start, messages_view(msgs@));
                &&& final(state)@ == end.state
                &&& inbound_view(r.inbound@) == end.inbound
                &&& r.save == end.dirty
                &&& r.rest == 0
                &&& *final(failures) == 0
                &&& *final(timeout_ms) == match t {
                    Some(t) if t > 0 => t,
                    _ => *old(timeout_ms),
                }
            },
        },
{
    let mut inbound: Vec<Inbound> = Vec::new();
    match update {
        Answer::Stale => {
            state.token = None;
            inbound.push(
                Inbound::Notice(
                    "wechat token expired — /wechat off, then /wechat on to rescan".to_owned(),
                ),
            );
            assert(inbound_view(inbound@) =~= seq![
                InboundView::Notice(
                    "wechat token expired — /wechat off, then /wechat on to rescan"@,
                ),
            ]);
            Handled { inbound, save: true, rest: 0 }
        },
        Answer::Error { ret, errcode, errmsg } => {
            *failures = *failures + 1;
            let shown = match &errmsg {
                Some(m) => Some(debug_of(m.as_str())),
                None => None,
            };
            let said = error_notice(ret, errcode, &shown);
            let ghost text = said@;
            inbound.push(Inbound::Notice(said));
            assert(inbound_view(inbound@) =~= seq![InboundView::Notice(text)]);
            let rest = backoff(failures);
            Handled { inbound, save: false, rest }
        },
        Answer::Messages { buf, timeout_ms: t, msgs } => {
            *failures = 0;
            if let Some(t) = t {
                if t > 0 {
                    *timeout_ms = t;
                }
            }
            let mut dirty = false;
            if !buf.as_str().is_empty() {
                state.get_updates_buf = buf;
                dirty = true;
            }
            assert(inbound_view(inbound@) =~= Seq::empty());
            let ghost start = Received { state: state@, inbound: Seq::empty(), dirty };
            let ghost all = messages_view(msgs@);
            let mut i: usize = 0;
            assert(all.take(0) =~= Seq::empty());
            while i < msgs.len()
                invariant
                    i <= msgs@.len(),
                    all == messages_view(msgs@),
                    received(start, all.take(i as int)) == (Received {
                        state: state@,
                        inbound: inbound_view(inbound@),
                        dirty,
                    }),
                decreases msgs@.len() - i,
            {
                proof {
                    assert(all.take(i + 1).drop_last() =~= all.take(i as int));
                    assert(all.take(i + 1).last() == msgs@[i as int]@);
                }
                let msg = &msgs[i];
                let ghost before = inbound_view(inbound@);
                if msg.message_type == 1 && !msg.text.as_str().is_empty() {
                    if is_stop(msg.text.as_str()) {
                        inbound.push(Inbound::Stop);
                        assert(inbound_view(inbound@) =~= before.push(InboundView::Stop));
                    } else {
                        state.peer = Some(msg.from_user_id.clone());
                        if let Some(token) = &msg.context_token {
                            state.context_token = Some(token.clone());
                        }
                        dirty = true;
                        inbound.push(Inbound::Text { text: msg.text.clone() });
                        assert(inbound_view(inbound@) =~= before.push(
                            InboundView::Text { text: msg.text@ },
                        ));
                    }
                }
                i += 1;
            }
            assert(all.take(i as int) =~= all);
            Handled { inbound, save: dirty, rest: 0 }
        },
    }
}

/// The context a message is sent in, empty before the peer gave one.
pub open spec fn context_of(s: StateView) -> Seq<char> {
    match s.context_token {
        Some(c) => c,
        None => Seq::empty(),
    }
}

/// A message on its way out.
#[derive(Debug, Clone, PartialEq, Eq)]
pub struct Letter {
    pub token: String,
    pub peer: String,
    pub context_token: String,
    pub pieces: Vec<String>,
}

/// Where the ticket for a typing indicator comes from.
#[derive(Debug, Clone, PartialEq, Eq)]
pub enum Ticket {
    Kept(String),
    Ask { token: String, peer: String, context_token: String },
    Nobody,
}

/// Take the ticket the service answered with, an empty one where it had none,
/// and keep it for the next time unless it is empty.
pub fn ticket_came(kept: &mut Option<String>, got: Option<String>) -> (r: String)
    ensures
        r@ == match opt_text(got) {
            Some(t) => t,
            None => Seq::empty(),
        },
        opt_text(*final(kept)) == if r@.len() > 0 {
            Some(r@)
        } else {
            opt_text(*old(kept))
        },
{
    let ticket = match got {
        Some(t) => t,
        None => String::new(),
    };
    assert(got is None ==> ticket@ =~= Seq::empty());
    if !ticket.as_str().is_empty() {
        *kept = Some(ticket.clone());
    }
    ticket
}

/// How a login ended.
#[derive(Debug, Clone, PartialEq, Eq)]
pub enum Login {
    Stopped,
    /// It went through, with a token and the host to talk to.
    Granted { token: String, base_url: String },
    Failed(String),
}

/// What is said of a login.
pub open spec fn login_form(l: Login) -> Seq<char> {
    match l {
        Login::Stopped => "wechat login stopped — /wechat on to start again"@,
        Login::Granted { .. } => "wechat connected — polling for messages"@,
        Login::Failed(why) => "wechat login failed: "@ + why@,
    }
}

/// What a login leaves: the state to save and poll with, where it went through,
/// and what to say of it.
pub fn login_ended(l: Login) -> (r: (Option<State>, String))
    ensures
        r.1@ == login_form(l),
        match l {
            Login::Granted { token, base_url } => r.0 matches Some(s) && s@ == (StateView {
                token: Some(token@),
                base_url: base_url@,
                peer: None,
                get_updates_buf: Seq::empty(),
                context_token: None,
            }),
            _ => r.0 is None,
        },
{
    match l {
        Login::Stopped => (None, "wechat login stopped — /wechat on to start again".to_owned()),
        Login::Granted { token, base_url } => (
            Some(State::logged_in(token, base_url)),
            "wechat connected — polling for messages".to_owned(),
        ),
        Login::Failed(why) => {
            let mut said = "wechat login failed: ".to_owned();
            said.append(why.as_str());
            (None, said)
        },
    }
}

impl State {
    /// What the next poll asks with, or what is said in its place without a
    /// token: the polling ends there.
    pub fn poll_with(&self) -> (r: Result<(String, String), String>)
        ensures
            match r {
                Ok((token, buf)) => self@.token == Some(token@) && buf@
                    == self@.get_updates_buf,
                Err(said) => self@.token is None && said@ == NO_TOKEN@,
            },
    {
        match &self.token {
            Some(token) => Ok((token.clone(), self.get_updates_buf.clone())),
            None => Err(NO_TOKEN.to_owned()),
        }
    }

    /// Whom a message goes to, and with which token and context: nobody without
    /// a login, or before the peer has written.
    pub fn address(&self) -> (r: Option<(String, String, String)>)
        ensures
            match r {
                Some((token, peer, context)) => {
                    &&& self@.token == Some(token@)
                    &&& self@.peer == Some(peer@)
                    &&& context@ == context_of(self@)
                },
                None => self@.token is None || self@.peer is None,
            },
    {
        match (&self.token, &self.peer) {
            (Some(token), Some(peer)) => {
                let context = match &self.context_token {
                    Some(c) => c.clone(),
                    None => String::new(),
                };
                assert(self.context_token is None ==> context@ =~= Seq::empty());
                Some((token.clone(), peer.clone(), context))
            },
            _ => None,
        }
    }

    /// What a message goes out as: to whom, and in which pieces. Nothing where
    /// the bridge has ended or nobody can be addressed: `off` keeps the
    /// credentials, so an ended bridge would keep sending.
    pub fn outgoing(&self, text: &str, alive: bool) -> (r: Option<Letter>)
        ensures
            match r {
                Some(l) => {
                    &&& alive
                    &&& self@.token == Some(l.token@)
                    &&& self@.peer == Some(l.peer@)
                    &&& l.context_token@ == context_of(self@)
                    &&& texts(l.pieces@) == split_form(text@, MESSAGE_LIMIT as int)
                },
                None => !alive || self@.token is None || self@.peer is None,
            },
    {
        if !alive {
            return None;
        }
        match self.address() {
            Some((token, peer, context_token)) => Some(
                Letter { token, peer, context_token, pieces: split(text, MESSAGE_LIMIT) },
            ),
            None => None,
        }
    }

    /// Where the ticket a typing indicator needs comes from: the one kept for
    /// the peer, or a question to the service, which nobody can ask without an
    /// address.
    pub fn ticket(&self, kept: &Option<String>) -> (r: Ticket)
        ensures
            match r {
                Ticket::Kept(t) => opt_text(*kept) == Some(t@),
                Ticket::Ask { token, peer, context_token } => {
                    &&& kept is None
                    &&& self@.token == Some(token@)
                    &&& self@.peer == Some(peer@)
                    &&& context_token@ == context_of(self@)
                },
                Ticket::Nobody => kept is None && (self@.token is None || self@.peer is None),
            },
    {
        if let Some(t) = kept {
            return Ticket::Kept(t.clone());
        }
        match self.address() {
            Some((token, peer, context_token)) => Ticket::Ask { token, peer, context_token },
            None => Ticket::Nobody,
        }
    }

    /// Which host to talk to: the one a login was redirected to, or `default`.
    pub fn base(&self, default: &str) -> (r: String)
        ensures
            r@ == if self@.base_url.len() == 0 {
                default@
            } else {
                self@.base_url
            },
    {
        if self.base_url.as_str().is_empty() {
            default.to_owned()
        } else {
            self.base_url.clone()
        }
    }

    /// A login that went through: whatever belonged to the last one is gone.
    pub fn logged_in(token: String, base_url: String) -> (r: State)
        ensures
            r@ == (StateView {
                token: Some(token@),
                base_url: base_url@,
                peer: None,
                get_updates_buf: Seq::empty(),
                context_token: None,
            }),
    {
        let r = State {
            token: Some(token),
            base_url,
            peer: None,
            get_updates_buf: String::new(),
            context_token: None,
        };
        assert(r@.get_updates_buf =~= Seq::empty());
        r
    }
}

// ---------------------------------------------------------------------------
// Laws
// ---------------------------------------------------------------------------

/// Three failures in a row: two short rests and a long one, and the count starts
/// over.
pub proof fn law_the_rests_go_round()
    ensures
        ({
            let (a, n1) = rest_after(1);
            let (b, n2) = rest_after((n1 + 1) as u32);
            let (c, n3) = rest_after((n2 + 1) as u32);
            a == 2 && b == 2 && c == 30 && n3 == 0
        }),
{
}

/// The pieces of a text one after the other.
pub open spec fn rejoined(parts: Seq<Seq<char>>) -> Seq<char>
    decreases parts.len(),
{
    if parts.len() == 0 {
        Seq::empty()
    } else {
        parts[0] + rejoined(parts.skip(1))
    }
}

/// A text without its line ends and spaces.
pub open spec fn content(s: Seq<char>) -> Seq<char>
    decreases s.len(),
{
    if s.len() == 0 {
        Seq::empty()
    } else if is_separator(s.last()) {
        content(s.drop_last())
    } else {
        content(s.drop_last()).push(s.last())
    }
}

proof fn lemma_content(a: Seq<char>, b: Seq<char>)
    ensures
        content(a + b) == content(a) + content(b),
    decreases b.len(),
{
    if b.len() == 0 {
        assert(a + b =~= a);
        assert(content(a) + content(b) =~= content(a));
    } else {
        lemma_content(a, b.drop_last());
        assert((a + b).drop_last() =~= a + b.drop_last());
        assert((a + b).last() == b.last());
        if !is_separator(b.last()) {
            assert((content(a) + content(b.drop_last())).push(b.last()) =~= content(a) + content(
                b.drop_last(),
            ).push(b.last()));
        }
    }
}

proof fn lemma_no_content(s: Seq<char>)
    requires
        forall|i: int| 0 <= i < s.len() ==> is_separator(#[trigger] s[i]),
    ensures
        content(s) == Seq::<char>::empty(),
    decreases s.len(),
{
    if s.len() > 0 {
        assert(is_separator(s[s.len() - 1]));
        let less = s.drop_last();
        assert forall|i: int| 0 <= i < less.len() implies is_separator(#[trigger] less[i]) by {
            assert(less[i] == s[i]);
        }
        lemma_no_content(less);
    }
}

/// Cutting a message loses nothing but line ends and spaces between its pieces.
pub proof fn law_a_break_eats_no_content(s: Seq<char>, budget: int)
    ensures
        content(rejoined(pieces(s, budget))) == content(s),
    decreases s.len(),
{
    if s.len() == 0 {
        assert(pieces(s, budget) =~= Seq::empty());
    } else if bytes_len(s) <= budget {
        let all = pieces(s, budget);
        assert(all.skip(1) =~= Seq::empty());
        assert(rejoined(all.skip(1)) =~= Seq::empty());
        assert(rejoined(all) =~= s);
    } else {
        lemma_cut(s, budget);
        let (n, skip) = cut(s, budget);
        let rest = s.skip(n + skip);
        law_a_break_eats_no_content(rest, budget);
        let all = pieces(s, budget);
        assert(all.skip(1) =~= pieces(rest, budget));
        let gap = s.subrange(n, n + skip);
        assert(s =~= s.take(n) + (gap + rest));
        assert forall|i: int| 0 <= i < gap.len() implies is_separator(#[trigger] gap[i]) by {
            assert(gap[i] == s[n + i]);
        }
        lemma_no_content(gap);
        lemma_content(gap, rest);
        lemma_content(s.take(n), gap + rest);
        lemma_content(s.take(n), rejoined(pieces(rest, budget)));
        assert(content(gap) + content(rest) =~= content(rest));
    }
}

/// Where a text offers nowhere to break, its pieces rejoin to it exactly.
pub proof fn law_a_hard_cut_rejoins_exactly(s: Seq<char>, budget: int)
    requires
        forall|i: int| 0 <= i < s.len() ==> !is_separator(#[trigger] s[i]),
    ensures
        rejoined(pieces(s, budget)) == s,
    decreases s.len(),
{
    if s.len() == 0 {
        assert(pieces(s, budget) =~= Seq::empty());
    } else if bytes_len(s) <= budget {
        let all = pieces(s, budget);
        assert(all.skip(1) =~= Seq::empty());
        assert(rejoined(all.skip(1)) =~= Seq::empty());
        assert(rejoined(all) =~= s);
    } else {
        lemma_cut(s, budget);
        let (n, skip) = cut(s, budget);
        if skip > 0 {
            assert(is_separator(s[n]));
        }
        let rest = s.skip(n + skip);
        assert forall|i: int| 0 <= i < rest.len() implies !is_separator(#[trigger] rest[i]) by {
            assert(rest[i] == s[n + skip + i]);
        }
        law_a_hard_cut_rejoins_exactly(rest, budget);
        let all = pieces(s, budget);
        assert(all.skip(1) =~= pieces(rest, budget));
        assert(s.take(n) + rest =~= s);
    }
}

/// Every piece fits the budget it was cut to, where a single character does.
pub proof fn law_a_piece_fits_its_budget(s: Seq<char>, budget: int, i: int)
    requires
        budget >= 4,
        0 <= i < pieces(s, budget).len(),
    ensures
        0 < pieces(s, budget)[i].len(),
        bytes_len(pieces(s, budget)[i]) <= budget,
    decreases s.len(),
{
    if s.len() > 0 && bytes_len(s) > budget {
        lemma_cut(s, budget);
        lemma_fitting(s, budget);
        let (n, skip) = cut(s, budget);
        if i == 0 {
            lemma_bytes_prefix(s, n, reach(s, budget));
            assert(width_of(s[0]) <= 4);
            lemma_fitting(s.skip(1), budget - width_of(s[0]));
            assert(fitting(s, budget) > 0);
        } else {
            let rest = s.skip(n + skip);
            law_a_piece_fits_its_budget(rest, budget, i - 1);
            assert(pieces(s, budget)[i] == pieces(rest, budget)[i - 1]);
        }
    }
}

proof fn lemma_decimal_short(n: nat)
    requires
        n <= 9999,
    ensures
        decimal(n).len() <= 4,
        bytes_len(decimal(n)) <= 4,
{
    reveal_with_fuel(decimal, 5);
    reveal_with_fuel(bytes_len, 6);
    lemma_ascii_bytes(decimal(n));
}

proof fn lemma_ascii_bytes(s: Seq<char>)
    requires
        forall|i: int| 0 <= i < s.len() ==> (#[trigger] s[i]) as u32 <= 0x7f,
    ensures
        bytes_len(s) == s.len(),
    decreases s.len(),
{
    if s.len() > 0 {
        let less = s.drop_last();
        assert forall|i: int| 0 <= i < less.len() implies (#[trigger] less[i]) as u32 <= 0x7f by {
            assert(less[i] == s[i]);
        }
        lemma_ascii_bytes(less);
        assert(s[s.len() - 1] as u32 <= 0x7f);
    }
}

/// Every message sent fits the limit, marker and all, as long as it is cut into
/// fewer than ten thousand pieces and the limit holds a marker and a character.
pub proof fn law_a_sent_message_fits_the_limit(s: Seq<char>, limit: int, i: int)
    requires
        limit >= MARKER_RESERVE + 4,
        0 <= i < split_form(s, limit).len() <= 9999,
    ensures
        bytes_len(split_form(s, limit)[i]) <= limit,
{
    if bytes_len(s) > limit {
        let budget = budget_of(limit);
        let all = pieces(s, budget);
        law_a_piece_fits_its_budget(s, budget, i);
        if all.len() > 1 {
            reveal_strlit("(");
            reveal_strlit("/");
            reveal_strlit(") ");
            lemma_decimal_short((i + 1) as nat);
            lemma_decimal_short(all.len());
            lemma_ascii_bytes("("@);
            lemma_ascii_bytes("/"@);
            lemma_ascii_bytes(") "@);
            let a = "("@ + decimal((i + 1) as nat);
            lemma_bytes_concat("("@, decimal((i + 1) as nat));
            lemma_bytes_concat(a, "/"@);
            lemma_bytes_concat(a + "/"@, decimal(all.len()));
            lemma_bytes_concat(a + "/"@ + decimal(all.len()), ") "@);
            lemma_bytes_concat(a + "/"@ + decimal(all.len()) + ") "@, all[i]);
        }
    }
}

/// A break taken before the reach is over lies in its second half.
pub proof fn law_a_soft_break_is_past_the_middle(s: Seq<char>, budget: int)
    requires
        s.len() > 0,
    ensures
        bytes_len(s.take(cut(s, budget).0)) > bytes_len(s.take(reach(s, budget))) / 2,
{
    lemma_cut(s, budget);
    let (n, skip) = cut(s, budget);
    let end = reach(s, budget);
    let head = s.take(end);
    if n < end {
        assert(head.take(n) =~= s.take(n));
    } else {
        lemma_bytes_prefix(s, 0, end);
        assert(s.take(0) =~= Seq::empty());
    }
}

/// A bridge that is off sends nothing, whatever it hears.
pub proof fn law_an_ended_bridge_is_silent(b: BridgeView, e: EventView, now: u64, cancelled: bool)
    ensures
        heard(b, e, now, false).sent =~= Seq::<OutboundView>::empty(),
        turn_finished(b, false, cancelled).sent =~= Seq::<OutboundView>::empty(),
{
}

/// A first turn starts with nothing left over from the last, and its first tool
/// line goes out at once.
pub proof fn law_a_new_turn_starts_clean(
    b: BridgeView,
    now: u64,
    later: u64,
    name: Seq<char>,
    summary: Seq<char>,
)
    ensures
        ({
            let h = heard(b, EventView::TurnStart { turn: 1 }, now, true);
            let t = heard(h.bridge, EventView::ToolStart { name, summary }, later, true);
            &&& h.bridge.out.len() == 0
            &&& h.bridge.tool_buf.len() == 0
            &&& t.bridge.tool_buf.len() == 0
            &&& t.sent == seq![OutboundView::Line(tool_form(name, summary))]
        }),
{
    let h = heard(b, EventView::TurnStart { turn: 1 }, now, true);
    let one = h.bridge.tool_buf.push(tool_form(name, summary));
    assert(one =~= seq![tool_form(name, summary)]);
    assert(join(one, "\n"@) =~= tool_form(name, summary));
}

/// A call inside the interval is held, not dropped: it goes out with the next
/// thing said, before it.
pub proof fn law_a_held_call_goes_out_before_what_follows(
    b: BridgeView,
    name: Seq<char>,
    summary: Seq<char>,
    now: u64,
    warning: Seq<char>,
)
    requires
        !rested(b.last_tool, now),
    ensures
        ({
            let h = heard(b, EventView::ToolStart { name, summary }, now, true);
            let w = heard(h.bridge, EventView::Warning(warning), now, true);
            &&& h.sent.len() == 0
            &&& h.bridge.tool_buf == b.tool_buf.push(tool_form(name, summary))
            &&& w.bridge.tool_buf.len() == 0
            &&& w.sent == seq![
                OutboundView::Line(join(b.tool_buf.push(tool_form(name, summary)), "\n"@)),
                OutboundView::Line(warning),
            ]
        }),
{
    let h = heard(b, EventView::ToolStart { name, summary }, now, true);
    let w = heard(h.bridge, EventView::Warning(warning), now, true);
    assert(w.sent =~= seq![
        OutboundView::Line(join(b.tool_buf.push(tool_form(name, summary)), "\n"@)),
        OutboundView::Line(warning),
    ]);
}

} // verus!
