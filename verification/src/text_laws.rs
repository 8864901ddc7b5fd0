//! What texts, numbers and sizes read as, stated on their characters.

use crate::hashline::edit_laws::{closed, no_returns};
use crate::render::{short_form, tenths};
use crate::text::{
    blank, cropped, decimal, digit_char, first_white, index_of, is_white, join, lemma_index_of,
    lemma_trim_end, lemma_trim_start, lines, signed, split, trim, trim_end, trim_start, without_cr,
    words,
};
use crate::tui::status::elapsed_form;
use vstd::prelude::*;

verus! {

// ---------------------------------------------------------------------------
// Numbers
// ---------------------------------------------------------------------------

/// What a digit is worth.
pub open spec fn worth_of(c: char) -> int {
    c as int - '0' as int
}

/// Whether a character is a digit.
pub open spec fn a_digit(c: char) -> bool {
    '0' as int <= c as int <= '9' as int
}

/// The number that digits spell.
pub open spec fn number_in(s: Seq<char>) -> int
    decreases s.len(),
{
    if s.len() == 0 {
        0
    } else {
        10 * number_in(s.drop_last()) + worth_of(s.last())
    }
}

/// A number is written with digits alone, without a zero in front, and reads back
/// as the number; one below zero has a minus in front.
pub proof fn law_a_number_reads_back(n: nat)
    ensures
        number_in(decimal(n)) == n,
        decimal(n).len() > 0,
        forall|i: int| 0 <= i < decimal(n).len() ==> a_digit(#[trigger] decimal(n)[i]),
        n > 0 ==> decimal(n)[0] != '0',
        n == 0 ==> decimal(n).len() == 1,
        signed(n as int) == decimal(n),
        n > 0 ==> signed(-(n as int))[0] == '-' && number_in(signed(-(n as int)).skip(1)) == n,
    decreases n,
{
    if n >= 10 {
        law_a_number_reads_back(n / 10);
        let s = decimal(n);
        assert(s.drop_last() =~= decimal(n / 10));
    } else {
        let s = decimal(n);
        assert(s.drop_last() =~= Seq::empty());
        assert(number_in(s.drop_last()) == 0);
    }
    if n > 0 {
        assert(signed(-(n as int)).skip(1) =~= decimal(n));
    }
}

/// Two digits after another are the tens and the ones.
proof fn lemma_digit(n: nat)
    requires
        n < 10,
    ensures
        a_digit(digit_char(n)),
        worth_of(digit_char(n)) == n,
{
}

/// A size is told in thousands or millions to the nearest tenth, and in full
/// below a thousand.
pub proof fn law_a_short_size_is_the_nearest_tenth(n: nat)
    ensures
        n < 1000 ==> short_form(n) == decimal(n),
        1000 <= n < 1_000_000 ==> exists|t: nat|
            100 * t <= n + 50 && n < 100 * t + 50 && short_form(n) == #[trigger] decimal(t / 10)
                + seq!['.', digit_char(t % 10), 'k'],
        1_000_000 <= n ==> exists|t: nat|
            100_000 * t <= n + 50_000 && n < 100_000 * t + 50_000 && short_form(n)
                == #[trigger] decimal(t / 10) + seq!['.', digit_char(t % 10), 'm'],
{
    if 1000 <= n < 1_000_000 {
        let t = tenths(n, 100);
        assert(100 * t <= n + 50 && n < 100 * t + 50);
        assert(short_form(n) =~= decimal(t / 10) + seq!['.', digit_char(t % 10), 'k']);
    } else if n >= 1_000_000 {
        let t = tenths(n, 100_000);
        assert(100_000 * t <= n + 50_000 && n < 100_000 * t + 50_000);
        assert(short_form(n) =~= decimal(t / 10) + seq!['.', digit_char(t % 10), 'm']);
    }
}

/// Minutes, and two digits of seconds.
pub open spec fn minutes_and(m: nat, a: char, b: char) -> Seq<char> {
    decimal(m) + seq!['m', a, b, 's']
}

/// A time is told in seconds, and from a minute on in minutes and two digits of
/// seconds: the two make up the time.
pub proof fn law_a_time_is_minutes_and_seconds(s: nat)
    ensures
        s < 60 ==> elapsed_form(s) == decimal(s) + seq!['s'],
        s >= 60 ==> exists|m: nat, a: char, b: char|
            {
                &&& elapsed_form(s) == #[trigger] minutes_and(m, a, b)
                &&& a_digit(a) && a_digit(b)
                &&& 10 * worth_of(a) + worth_of(b) < 60
                &&& 60 * m + 10 * worth_of(a) + worth_of(b) == s
            },
{
    if s < 60 {
        assert(elapsed_form(s) =~= decimal(s) + seq!['s']);
    } else {
        let m = s / 60;
        let a = digit_char(s % 60 / 10);
        let b = digit_char(s % 60 % 10);
        lemma_digit(s % 60 / 10);
        lemma_digit(s % 60 % 10);
        assert(elapsed_form(s) =~= minutes_and(m, a, b));
    }
}

// ---------------------------------------------------------------------------
// White and words
// ---------------------------------------------------------------------------

/// The white characters among the plain ones are the space, the tab, the line
/// breaks and the feeds.
pub proof fn law_the_plain_white_characters(c: char)
    ensures
        (c as u32) < 0x80 ==> is_white(c) == (c == ' ' || c == '\t' || c == '\n' || c == '\r' || c
            == '\u{b}' || c == '\u{c}'),
        c == '\u{a0}' || c == '\u{3000}' || c == '\u{2003}' ==> is_white(c),
        c == '\u{200b}' || c == '\u{feff}' ==> !is_white(c),
{
}

/// Trimming takes the white off both ends, all of it and nothing else.
pub proof fn law_trimming_takes_the_white_off_both_ends(s: Seq<char>)
    ensures
        exists|a: int, b: int|
            {
                &&& 0 <= a <= b <= s.len()
                &&& trim(s) == #[trigger] s.subrange(a, b)
                &&& forall|i: int| 0 <= i < a || b <= i < s.len() ==> is_white(#[trigger] s[i])
                &&& a < b ==> !is_white(s[a]) && !is_white(s[b - 1])
            },
        (trim(s).len() == 0) == blank(s),
{
    lemma_trim_start(s);
    let t = trim_start(s);
    lemma_trim_end(t);
    let u = trim_end(t);
    let a = s.len() - t.len();
    let b = a + u.len();
    assert(u =~= s.subrange(a, b));
    assert forall|i: int| 0 <= i < a || b <= i < s.len() implies is_white(#[trigger] s[i]) by {
        if i >= b {
            assert(t[i - a] == s[i]);
        }
    }
    if a < b {
        assert(u[0] == t[0]);
        assert(s[a] == t[0]);
        assert(s[b - 1] == u[u.len() - 1]);
    }
    if u.len() > 0 {
        assert(s[a] == u[0]);
    }
}

/// The characters that are not white, in order.
pub open spec fn solid(s: Seq<char>) -> Seq<char>
    decreases s.len(),
{
    if s.len() == 0 {
        Seq::empty()
    } else if is_white(s[0]) {
        solid(s.skip(1))
    } else {
        seq![s[0]] + solid(s.skip(1))
    }
}

/// How many words start in a text, what stands in front of it being white or not.
pub open spec fn word_starts(s: Seq<char>, after_white: bool) -> int
    decreases s.len(),
{
    if s.len() == 0 {
        0
    } else {
        word_starts(s.skip(1), is_white(s[0])) + if after_white && !is_white(s[0]) {
            1int
        } else {
            0
        }
    }
}

/// The words after another, with nothing between them.
pub open spec fn run_together(w: Seq<Seq<char>>) -> Seq<char>
    decreases w.len(),
{
    if w.len() == 0 {
        Seq::empty()
    } else {
        w[0] + run_together(w.skip(1))
    }
}

proof fn lemma_solid_word(t: Seq<char>, n: int, after_white: bool)
    requires
        0 <= n <= t.len(),
        forall|i: int| 0 <= i < n ==> !is_white(t[i]),
        n == t.len() || is_white(t[n]),
    ensures
        solid(t) == t.take(n) + solid(t.skip(n)),
        word_starts(t, after_white) == word_starts(t.skip(n), n == 0 && after_white) + if n > 0
            && after_white {
            1int
        } else {
            0
        },
    decreases n,
{
    if n > 0 {
        let u = t.skip(1);
        assert forall|i: int| 0 <= i < n - 1 implies !is_white(u[i]) by {
            assert(u[i] == t[i + 1]);
        }
        lemma_solid_word(u, n - 1, false);
        assert(u.skip(n - 1) =~= t.skip(n));
        assert(t.take(n) =~= seq![t[0]] + u.take(n - 1));
        assert(solid(t) =~= t.take(n) + solid(t.skip(n)));
    } else {
        assert(t.skip(0) =~= t);
        assert(t.take(0) + solid(t) =~= solid(t));
    }
}

proof fn lemma_none_before(s: Seq<char>)
    ensures
        0 <= first_white(s) <= s.len(),
        first_white(s) < s.len() ==> is_white(s[first_white(s)]),
        forall|i: int| 0 <= i < first_white(s) ==> !is_white(s[i]),
    decreases s.len(),
{
    if s.len() > 0 && !is_white(s[0]) {
        lemma_none_before(s.skip(1));
        assert forall|i: int| 0 <= i < first_white(s) implies !is_white(s[i]) by {
            if i > 0 {
                assert(s.skip(1)[i - 1] == s[i]);
            }
        }
    }
}

proof fn lemma_solid_white(s: Seq<char>, after_white: bool)
    ensures
        solid(s) == solid(trim_start(s)),
        trim_start(s).len() < s.len() || after_white ==> word_starts(s, after_white) == word_starts(
            trim_start(s),
            true,
        ),
    decreases s.len(),
{
    if s.len() > 0 && is_white(s[0]) {
        lemma_solid_white(s.skip(1), true);
    }
}

/// The words of a text: none of them empty or with white in it, all that is not
/// white in them in order, and as many as start behind white or at the front.
pub proof fn law_words_are_what_white_parts(s: Seq<char>)
    ensures
        run_together(words(s)) == solid(s),
        words(s).len() == word_starts(s, true),
        forall|k: int, i: int|
            0 <= k < words(s).len() && 0 <= i < words(s)[k].len() ==> !is_white(
                #[trigger] words(s)[k][i],
            ),
        forall|k: int| 0 <= k < words(s).len() ==> (#[trigger] words(s)[k]).len() > 0,
    decreases s.len(),
{
    let t = trim_start(s);
    lemma_trim_start(s);
    lemma_solid_white(s, true);
    let all = words(s);
    if t.len() > 0 {
        let n = first_white(t);
        lemma_none_before(t);
        lemma_solid_word(t, n, true);
        let rest = t.skip(n);
        law_words_are_what_white_parts(rest);
        let less = words(rest);
        assert(all == seq![t.take(n)] + less);
        assert(all.skip(1) =~= less);
        assert(all[0] == t.take(n));
        assert(n > 0);
        if rest.len() > 0 {
            assert(is_white(rest[0]));
            assert(word_starts(rest, true) == word_starts(rest, false));
        }
        assert forall|k: int, i: int| 0 <= k < all.len() && 0 <= i < all[k].len() implies !is_white(
            #[trigger] all[k][i],
        ) by {
            if k > 0 {
                assert(all[k] == less[k - 1]);
                assert(!is_white(less[k - 1][i]));
            } else {
                assert(all[0][i] == t[i]);
            }
        }
        assert forall|k: int| 0 <= k < all.len() implies (#[trigger] all[k]).len() > 0 by {
            if k > 0 {
                assert(all[k] == less[k - 1]);
            }
        }
    } else {
        assert(all =~= Seq::empty());
        assert(solid(t) =~= Seq::empty());
    }
}

// ---------------------------------------------------------------------------
// Lines
// ---------------------------------------------------------------------------

/// The lines of a text are its characters between the breaks: joined by breaks,
/// with one more where the text ends with one, they are the text; and no line
/// holds a break.
pub proof fn law_lines_make_the_text_again(s: Seq<char>)
    ensures
        no_returns(s) ==> s == join(lines(s), seq!['\n']) + if closed(s) {
            seq!['\n']
        } else {
            Seq::empty()
        },
        forall|k: int, i: int|
            0 <= k < lines(s).len() && 0 <= i < lines(s)[k].len() ==> #[trigger] lines(s)[k][i]
                != '\n',
        (lines(s).len() == 0) == (s.len() == 0),
    decreases s.len(),
{
    lemma_index_of(s, '\n');
    let n = index_of(s, '\n');
    let all = lines(s);
    let lf = seq!['\n'];
    if s.len() == 0 {
        assert(all =~= Seq::empty());
        assert(s =~= join(all, lf) + Seq::<char>::empty());
    } else if n >= s.len() {
        assert(all =~= seq![s]);
        assert(join(all, lf) == s);
        assert(s =~= s + Seq::<char>::empty());
    } else {
        let rest = s.skip(n + 1);
        let less = lines(rest);
        let first = without_cr(s.take(n));
        law_lines_make_the_text_again(rest);
        assert(all == seq![first] + less);
        assert forall|k: int, i: int| 0 <= k < all.len() && 0 <= i < all[k].len() implies #[trigger] all[k][i]
            != '\n' by {
            if k > 0 {
                assert(all[k] == less[k - 1]);
                assert(less[k - 1][i] != '\n');
            } else {
                assert(all[0][i] == s[i]);
            }
        }
        if no_returns(s) {
            if n > 0 {
                assert(s.take(n).last() == s[n - 1]);
            }
            assert(first == s.take(n));
            assert forall|i: int| 0 <= i < rest.len() implies #[trigger] rest[i] != '\r' by {
                assert(rest[i] == s[n + 1 + i]);
            }
            assert(s =~= s.take(n) + lf + rest);
            if rest.len() == 0 {
                assert(all =~= seq![first]);
                assert(join(all, lf) == first);
                assert(s =~= join(all, lf) + lf);
            } else {
                lemma_join_first(first, less, lf);
                assert(rest[rest.len() - 1] == s[s.len() - 1]);
                assert(s =~= join(all, lf) + if closed(s) {
                    lf
                } else {
                    Seq::empty()
                });
            }
        }
    }
}

proof fn lemma_join_first(first: Seq<char>, rest: Seq<Seq<char>>, sep: Seq<char>)
    requires
        rest.len() > 0,
    ensures
        join(seq![first] + rest, sep) == first + sep + join(rest, sep),
    decreases rest.len(),
{
    let all = seq![first] + rest;
    assert(all.drop_last() =~= seq![first] + rest.drop_last());
    if rest.len() == 1 {
        assert(all.drop_last() =~= seq![first]);
        assert(join(all.drop_last(), sep) == first);
    } else {
        lemma_join_first(first, rest.drop_last(), sep);
    }
    assert(join(all, sep) =~= first + sep + join(rest, sep));
}

/// A text that is too long is cut to the length and an ellipsis; any other stays.
pub proof fn law_a_cropped_text_keeps_its_front(s: Seq<char>, max: int)
    requires
        0 <= max,
    ensures
        s.len() <= max ==> cropped(s, max) == s,
        s.len() > max ==> cropped(s, max).len() == max + 1 && cropped(s, max)[max] == '…'
            && forall|i: int| 0 <= i < max ==> #[trigger] cropped(s, max)[i] == s[i],
{
}

/// A text that is split at a character is what is left between each two of them:
/// joined by it the pieces are the text, and none of them holds it.
pub proof fn law_split_pieces_make_the_text_again(s: Seq<char>, c: char)
    ensures
        split(s, c).len() > 0,
        join(split(s, c), seq![c]) == s,
        forall|k: int, i: int|
            0 <= k < split(s, c).len() && 0 <= i < split(s, c)[k].len() ==> #[trigger] split(
                s,
                c,
            )[k][i] != c,
    decreases s.len(),
{
    lemma_index_of(s, c);
    let n = index_of(s, c);
    let all = split(s, c);
    if n < s.len() {
        let rest = s.skip(n + 1);
        let less = split(rest, c);
        law_split_pieces_make_the_text_again(rest, c);
        lemma_join_first(s.take(n), less, seq![c]);
        assert(s =~= s.take(n) + seq![c] + rest);
        assert forall|k: int, i: int| 0 <= k < all.len() && 0 <= i < all[k].len() implies #[trigger] all[k][i]
            != c by {
            if k > 0 {
                assert(all[k] == less[k - 1]);
                assert(less[k - 1][i] != c);
            } else {
                assert(all[0][i] == s[i]);
            }
        }
    } else {
        assert(all =~= seq![s]);
        assert(join(all, seq![c]) == s);
    }
}

} // verus!
