//! The small forms numbers are shown in.

use crate::text::{append_count, decimal, digit_char};
use vstd::prelude::*;
use vstd::string::*;

verus! {

/// `n` in tenths of ten `step`s, to the nearest, halves up.
pub open spec fn tenths(n: nat, step: nat) -> nat {
    n / step + if n % step >= step / 2 {
        1nat
    } else {
        0nat
    }
}

/// Tenths, as a number with one decimal.
pub open spec fn one_decimal(t: nat) -> Seq<char> {
    (decimal(t / 10)).push('.').push(digit_char(t % 10))
}

/// A count as it is shown: plain below a thousand, then thousands and millions
/// with one decimal.
pub open spec fn short_form(n: nat) -> Seq<char> {
    if n < 1000 {
        decimal(n)
    } else if n < 1_000_000 {
        one_decimal(tenths(n, 100)).push('k')
    } else {
        one_decimal(tenths(n, 100_000)).push('m')
    }
}

fn append_tenths(s: &mut String, t: u64)
    ensures
        final(s)@ == old(s)@ + one_decimal(t as nat),
{
    let ghost before = s@;
    append_count(s, t / 10);
    s.push('.');
    append_count(s, t % 10);
    assert(decimal((t % 10) as nat) =~= seq![digit_char((t % 10) as nat)]);
    assert(s@ =~= before + one_decimal(t as nat));
}

/// A count, rounded once it stops being readable.
pub fn short(n: u64) -> (r: String)
    ensures
        r@ == short_form(n as nat),
{
    let mut r = String::new();
    if n < 1000 {
        append_count(&mut r, n);
        assert(r@ =~= decimal(n as nat));
    } else if n < 1_000_000 {
        let t: u64 = n / 100 + if n % 100 >= 50 {
            1
        } else {
            0
        };
        append_tenths(&mut r, t);
        r.push('k');
        assert(r@ =~= one_decimal(tenths(n as nat, 100)).push('k'));
    } else {
        let t: u64 = n / 100_000 + if n % 100_000 >= 50_000 {
            1
        } else {
            0
        };
        append_tenths(&mut r, t);
        r.push('m');
        assert(r@ =~= one_decimal(tenths(n as nat, 100_000)).push('m'));
    }
    r
}

/// A count as it is shown, and a dash for one that has not been stated.
pub open spec fn stated(n: nat) -> Seq<char> {
    if n == 0 {
        seq!['-']
    } else {
        short_form(n)
    }
}

/// What went in and what came out.
pub open spec fn in_out_form(input: nat, output: nat) -> Seq<char> {
    stated(input) + " in / "@ + stated(output) + " out"@
}

/// What went in and what came out, a dash for a half that was not stated.
pub fn in_out(input: u64, output: u64) -> (r: String)
    ensures
        r@ == in_out_form(input as nat, output as nat),
{
    let mut r = if input == 0 {
        "-".to_owned()
    } else {
        short(input)
    };
    proof {
        reveal_strlit("-");
        assert("-"@ =~= seq!['-']);
    }
    r.append(" in / ");
    if output == 0 {
        r.append("-");
    } else {
        let o = short(output);
        r.append(o.as_str());
    }
    r.append(" out");
    r
}

} // verus!
