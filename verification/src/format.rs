//! Numbers and columns as text.

use vstd::prelude::*;
use crate::duration::{pow10, power_of_ten};
use crate::text::string_of;

verus! {

/// The character of a decimal digit.
pub open spec fn digit_char(d: nat) -> char
    recommends
        d < 10,
{
    (('0' as u8) + d as u8) as char
}

/// The decimal numeral of `n`, without leading zeros.
pub open spec fn numeral(n: nat) -> Seq<char>
    decreases n,
{
    if n < 10 {
        seq![digit_char(n)]
    } else {
        numeral(n / 10).push(digit_char(n % 10))
    }
}

/// The last `width` decimal digits of `n`, zeros in front where it has fewer.
pub open spec fn fixed_numeral(n: nat, width: nat) -> Seq<char>
    decreases width,
{
    if width == 0 {
        Seq::empty()
    } else {
        fixed_numeral(n / 10, (width - 1) as nat).push(digit_char(n % 10))
    }
}

/// `count` times the character `c`.
pub open spec fn run_of(c: char, count: nat) -> Seq<char> {
    Seq::new(count, |i: int| c)
}

/// `s` with blanks behind it up to `width` characters; `s` itself where it is
/// that long already.
pub open spec fn padded(s: Seq<char>, width: nat) -> Seq<char> {
    if s.len() >= width {
        s
    } else {
        s + run_of(' ', (width - s.len()) as nat)
    }
}

/// A time in nanoseconds as milliseconds with one digit before the point at
/// least and `precision` digits behind it, rounded to the nearest, upwards
/// from the half. Without digits behind the point there is no point either.
pub open spec fn millis_text(nanos: nat, precision: nat) -> Seq<char> {
    if precision >= 6 {
        numeral(nanos / 1_000_000) + seq!['.'] + fixed_numeral(nanos % 1_000_000, 6) + run_of(
            '0',
            (precision - 6) as nat,
        )
    } else {
        let unit = pow10((6 - precision) as nat);
        let scaled = (nanos + unit / 2) / unit;
        let whole = numeral(scaled / pow10(precision));
        if precision == 0 {
            whole
        } else {
            whole + seq!['.'] + fixed_numeral(scaled % pow10(precision), precision)
        }
    }
}

fn digit_to_char(d: u8) -> (c: char)
    requires
        d < 10,
    ensures
        c == digit_char(d as nat),
{
    ('0' as u8 + d) as char
}

/// Appends the decimal numeral of `n`.
fn push_numeral(out: &mut Vec<char>, n: u128)
    ensures
        final(out)@ == old(out)@ + numeral(n as nat),
    decreases n,
{
    if n >= 10 {
        push_numeral(out, n / 10);
    }
    out.push(digit_to_char((n % 10) as u8));
    proof {
        if n >= 10 {
            assert(out@ =~= old(out)@ + numeral((n / 10) as nat).push(digit_char((n % 10) as nat)));
        } else {
            assert(out@ =~= old(out)@ + seq![digit_char(n as nat)]);
        }
    }
}

/// Appends the last `width` decimal digits of `n`.
fn push_fixed_numeral(out: &mut Vec<char>, n: u128, width: usize)
    ensures
        final(out)@ == old(out)@ + fixed_numeral(n as nat, width as nat),
    decreases width,
{
    if width > 0 {
        push_fixed_numeral(out, n / 10, width - 1);
        out.push(digit_to_char((n % 10) as u8));
        assert(out@ =~= old(out)@ + fixed_numeral((n / 10) as nat, (width - 1) as nat).push(
            digit_char((n % 10) as nat),
        ));
    } else {
        assert(out@ =~= old(out)@ + Seq::<char>::empty());
    }
}

/// Appends `count` times the character `c`.
fn push_run(out: &mut Vec<char>, c: char, count: usize)
    ensures
        final(out)@ == old(out)@ + run_of(c, count as nat),
{
    let mut i: usize = 0;
    assert(out@ =~= old(out)@ + run_of(c, 0));
    while i < count
        invariant
            i <= count,
            out@ == old(out)@ + run_of(c, i as nat),
        decreases count - i,
    {
        out.push(c);
        assert(out@ =~= old(out)@ + run_of(c, (i + 1) as nat));
        i += 1;
    }
}

/// A number below the power of ten with exponent `k` has `k` digits at most.
pub proof fn lemma_numeral_len(n: nat, k: nat)
    requires
        k >= 1,
        n < pow10(k),
    ensures
        numeral(n).len() <= k,
    decreases k,
{
    reveal_with_fuel(pow10, 2);
    if n >= 10 {
        assert(k >= 2) by {
            if k == 1 {
                assert(pow10(1) == 10);
            }
        }
        lemma_numeral_len(n / 10, (k - 1) as nat);
    }
}

/// The decimal numeral of `n`.
pub fn numeral_of(n: usize) -> (text: Vec<char>)
    ensures
        text@ == numeral(n as nat),
        text@.len() <= 20,
{
    let mut text: Vec<char> = Vec::new();
    push_numeral(&mut text, n as u128);
    proof {
        assert(text@ =~= numeral(n as nat));
        assert(pow10(20) == 100_000_000_000_000_000_000) by {
            reveal_with_fuel(pow10, 21);
        }
        lemma_numeral_len(n as nat, 20);
    }
    text
}

/// Appends `s` and blanks behind it up to `width` characters.
pub fn push_padded(out: &mut Vec<char>, s: &Vec<char>, width: usize)
    ensures
        final(out)@ == old(out)@ + padded(s@, width as nat),
{
    let mut i: usize = 0;
    assert(out@ =~= old(out)@ + s@.take(0));
    while i < s.len()
        invariant
            i <= s.len(),
            out@ == old(out)@ + s@.take(i as int),
        decreases s.len() - i,
    {
        out.push(s[i]);
        assert(out@ =~= old(out)@ + s@.take(i + 1));
        i += 1;
    }
    assert(s@.take(i as int) =~= s@);
    if s.len() < width {
        push_run(out, ' ', width - s.len());
        assert(out@ =~= old(out)@ + (s@ + run_of(' ', (width - s.len()) as nat)));
    }
}

/// Appends a time in nanoseconds as milliseconds with `precision` digits
/// behind the point.
pub fn push_millis(out: &mut Vec<char>, nanos: u64, precision: usize)
    ensures
        final(out)@ == old(out)@ + millis_text(nanos as nat, precision as nat),
{
    let ghost start = out@;
    if precision >= 6 {
        push_numeral(out, (nanos / 1_000_000) as u128);
        out.push('.');
        push_fixed_numeral(out, (nanos % 1_000_000) as u128, 6);
        push_run(out, '0', precision - 6);
        assert(out@ =~= start + millis_text(nanos as nat, precision as nat));
    } else {
        let unit = power_of_ten(6 - precision);
        let scale = power_of_ten(precision);
        let scaled = (nanos as u128 + unit / 2) / unit;
        push_numeral(out, scaled / scale);
        if precision > 0 {
            out.push('.');
            push_fixed_numeral(out, scaled % scale, precision);
        }
        assert(out@ =~= start + millis_text(nanos as nat, precision as nat));
    }
}

/// A time in nanoseconds as milliseconds with `precision` digits behind the
/// point.
pub fn millis(nanos: u64, precision: usize) -> (text: String)
    ensures
        text@ == millis_text(nanos as nat, precision as nat),
{
    let mut out: Vec<char> = Vec::new();
    push_millis(&mut out, nanos, precision);
    assert(out@ =~= millis_text(nanos as nat, precision as nat));
    string_of(&out)
}

} // verus!
