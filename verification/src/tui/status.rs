//! The one line that says the run is still alive and what it has spent.

use crate::render::{in_out, in_out_form};
use crate::text::{append_count, decimal, digit_char, join};
use vstd::prelude::*;
use vstd::string::*;

verus! {

/// How long a frame of the spinner stands, in milliseconds.
pub const SPIN: u64 = 90;

/// The mark of one frame of the spinner.
pub open spec fn frame_mark(n: int) -> char {
    if n == 0 {
        '⠋'
    } else if n == 1 {
        '⠙'
    } else if n == 2 {
        '⠹'
    } else if n == 3 {
        '⠸'
    } else if n == 4 {
        '⠼'
    } else if n == 5 {
        '⠴'
    } else if n == 6 {
        '⠦'
    } else if n == 7 {
        '⠧'
    } else if n == 8 {
        '⠇'
    } else {
        '⠏'
    }
}

/// The mark of a frame of the spinner, which goes round.
pub fn frame(n: usize) -> (c: char)
    ensures
        c == frame_mark(n as int % 10),
{
    match n % 10 {
        0 => '⠋',
        1 => '⠙',
        2 => '⠹',
        3 => '⠸',
        4 => '⠼',
        5 => '⠴',
        6 => '⠦',
        7 => '⠧',
        8 => '⠇',
        _ => '⠏',
    }
}

/// How long something took: seconds, and minutes once there are any.
pub open spec fn elapsed_form(s: nat) -> Seq<char> {
    if s < 60 {
        decimal(s).push('s')
    } else {
        decimal(s / 60).push('m').push(digit_char(s % 60 / 10)).push(digit_char(s % 60 % 10)).push(
            's',
        )
    }
}

/// How long something took: seconds, and minutes once there are any.
pub fn elapsed(seconds: u64) -> (r: String)
    ensures
        r@ == elapsed_form(seconds as nat),
{
    let mut r = String::new();
    if seconds < 60 {
        append_count(&mut r, seconds);
        r.push('s');
        assert(r@ =~= elapsed_form(seconds as nat));
    } else {
        append_count(&mut r, seconds / 60);
        r.push('m');
        let rest: u64 = seconds % 60;
        append_count(&mut r, rest / 10);
        append_count(&mut r, rest % 10);
        assert(decimal((rest / 10) as nat) =~= seq![digit_char((rest / 10) as nat)]);
        assert(decimal((rest % 10) as nat) =~= seq![digit_char((rest % 10) as nat)]);
        r.push('s');
        assert(r@ =~= elapsed_form(seconds as nat));
    }
    r
}

/// What the line should show, as far as the provider has stated it.
///
/// An unstated half reads as a dash, never as a number of ours: most hosts
/// report nothing until the stream ends, and a count we made for the gap
/// would pass a guess off as a measurement.
#[derive(Debug, Clone, Copy, PartialEq, Eq, Structural)]
pub struct Counts {
    pub input: u64,
    pub output: u64,
}

impl Default for Counts {
    /// Nothing stated.
    fn default() -> (r: Counts)
        ensures
            r == (Counts { input: 0, output: 0 }),
    {
        Counts { input: 0, output: 0 }
    }
}

/// What the status line says after its mark.
pub open spec fn line_parts(seconds: nat, c: Counts, queued: nat, stopping: bool) -> Seq<Seq<char>> {
    seq![elapsed_form(seconds), in_out_form(c.input as nat, c.output as nat)] + (if queued > 0 {
        seq![decimal(queued) + " queued"@]
    } else {
        Seq::empty()
    }) + (if stopping {
        seq!["stopping…"@]
    } else {
        seq!["esc to stop"@]
    })
}

/// The status line.
pub open spec fn line_form(
    frame: int,
    seconds: nat,
    c: Counts,
    queued: nat,
    stopping: bool,
) -> Seq<char> {
    let mark = if stopping {
        '·'
    } else {
        frame_mark(frame % 10)
    };
    seq![mark, ' '] + join(line_parts(seconds, c, queued, stopping), " · "@)
}

/// The status line of a run `since` seconds old.
///
/// `stopping` is its own state rather than an absence: a cancelled run keeps
/// going until the request it is inside of returns, and a status line that
/// stayed unchanged would read as the key press having been missed.
pub fn line(frame_at: usize, since: u64, c: &Counts, queued: usize, stopping: bool) -> (r: String)
    ensures
        r@ == line_form(frame_at as int, since as nat, *c, queued as nat, stopping),
{
    let mut r = String::new();
    let mark: char = if stopping {
        '·'
    } else {
        frame(frame_at)
    };
    r.push(mark);
    r.push(' ');
    let ghost head = r@;
    assert(head =~= seq![mark, ' ']);
    let ghost sep = " · "@;
    let ghost mut parts: Seq<Seq<char>> = seq![elapsed_form(since as nat)];
    let e = elapsed(since);
    r.append(e.as_str());
    assert(r@ =~= head + join(parts, sep));
    let io = in_out(c.input, c.output);
    proof {
        lemma_join_push(parts, sep, io@);
        parts = parts.push(io@);
    }
    r.append(" · ");
    r.append(io.as_str());
    assert(r@ =~= head + join(parts, sep));
    if queued > 0 {
        r.append(" · ");
        append_count(&mut r, queued as u64);
        r.append(" queued");
        proof {
            let q = decimal(queued as nat) + " queued"@;
            lemma_join_push(parts, sep, q);
            parts = parts.push(q);
        }
        assert(r@ =~= head + join(parts, sep));
    }
    r.append(" · ");
    if stopping {
        r.append("stopping…");
        proof {
            lemma_join_push(parts, sep, "stopping…"@);
            parts = parts.push("stopping…"@);
        }
    } else {
        r.append("esc to stop");
        proof {
            lemma_join_push(parts, sep, "esc to stop"@);
            parts = parts.push("esc to stop"@);
        }
    }
    assert(r@ =~= head + join(parts, sep));
    assert(parts =~= line_parts(since as nat, *c, queued as nat, stopping));
    r
}

/// Joining one piece more.
pub proof fn lemma_join_push(parts: Seq<Seq<char>>, sep: Seq<char>, more: Seq<char>)
    requires
        parts.len() > 0,
    ensures
        join(parts.push(more), sep) == join(parts, sep) + sep + more,
{
    assert(parts.push(more).drop_last() =~= parts);
}

/// A run that has stated nothing shows a dash for each half, whatever else the
/// line says.
pub proof fn law_unstated_halves_read_as_dashes()
    ensures
        in_out_form(0, 0) == "-"@ + " in / "@ + "-"@ + " out"@,
{
    reveal_strlit("-");
    assert("-"@ =~= seq!['-']);
}

} // verus!
