//! Durations as they stand in a trace: milliseconds in decimal or scientific
//! notation, read into whole nanoseconds.

use vstd::prelude::*;
use crate::text::chars_of;

verus! {

/// Nanoseconds in one millisecond.
pub const NANOS_PER_MILLI: u64 = 1_000_000;

/// The number of fraction digits of a millisecond that a nanosecond resolves.
pub const FRACTION_DIGITS: usize = 6;

/// `c` is one of the ten decimal digits.
pub open spec fn is_digit(c: char) -> bool {
    '0' <= c && c <= '9'
}

/// The number that a decimal digit stands for.
pub open spec fn digit_value(c: char) -> nat {
    (c as u32 - '0' as u32) as nat
}

/// `s` holds decimal digits only.
pub open spec fn all_digits(s: Seq<char>) -> bool {
    forall|i: int| 0 <= i < s.len() ==> is_digit(#[trigger] s[i])
}

/// The number that a run of decimal digits writes.
pub open spec fn decimal(digits: Seq<char>) -> nat
    decreases digits.len(),
{
    if digits.len() == 0 {
        0
    } else {
        decimal(digits.drop_last()) * 10 + digit_value(digits.last())
    }
}

/// Ten to the power of `e`.
pub open spec fn pow10(e: nat) -> nat
    decreases e,
{
    if e == 0 {
        1
    } else {
        10 * pow10((e - 1) as nat)
    }
}

/// How many digits a token starts with.
pub open spec fn leading_digits(t: Seq<char>) -> nat
    decreases t.len(),
{
    if t.len() > 0 && is_digit(t[0]) {
        1 + leading_digits(t.drop_first())
    } else {
        0
    }
}

/// The nanoseconds that the digits after the decimal point stand for: the
/// first six count, what follows them is below the resolution.
pub open spec fn fraction_nanos(f: Seq<char>) -> nat {
    let k = if f.len() < 6 {
        f.len()
    } else {
        6
    };
    decimal(f.take(k as int)) * pow10((6 - k) as nat)
}

/// `c` opens the exponent of a number in scientific notation.
pub open spec fn is_exponent_mark(c: char) -> bool {
    c == 'e' || c == 'E'
}

/// The nanoseconds that a duration token stands for. A token is a number of
/// milliseconds in one of three forms: digits; digits, a point and digits;
/// or digits, an `e` or `E` and digits, the latter the power of ten that the
/// former are multiplied by.
pub open spec fn duration_nanos(t: Seq<char>) -> Option<nat> {
    let w = leading_digits(t) as int;
    let f = t.skip(w + 1);
    if w == 0 {
        None
    } else if w == t.len() {
        Some(decimal(t) * 1_000_000)
    } else if t[w] == '.' && f.len() > 0 && all_digits(f) {
        Some(decimal(t.take(w)) * 1_000_000 + fraction_nanos(f))
    } else if is_exponent_mark(t[w]) && f.len() > 0 && all_digits(f) {
        Some(decimal(t.take(w)) * pow10(decimal(f) + 6))
    } else {
        None
    }
}

/// What reading a token yields: its nanoseconds where they fit in `u64`.
pub open spec fn duration_of(t: Seq<char>) -> Option<u64> {
    match duration_nanos(t) {
        Some(n) => if n <= u64::MAX {
            Some(n as u64)
        } else {
            None
        },
        None => None,
    }
}

proof fn lemma_decimal_push(s: Seq<char>, i: int)
    requires
        0 <= i < s.len(),
    ensures
        decimal(s.take(i + 1)) == decimal(s.take(i)) * 10 + digit_value(s[i]),
{
    assert(s.take(i + 1).drop_last() =~= s.take(i));
}

proof fn lemma_decimal_grows(s: Seq<char>, i: int, j: int)
    requires
        0 <= i <= j <= s.len(),
    ensures
        decimal(s.take(i)) <= decimal(s.take(j)),
    decreases j - i,
{
    if i < j {
        lemma_decimal_grows(s, i, j - 1);
        lemma_decimal_push(s, j - 1);
    }
}

proof fn lemma_leading_digits(t: Seq<char>, w: int)
    requires
        0 <= w <= t.len(),
        all_digits(t.take(w)),
        w == t.len() || !is_digit(t[w]),
    ensures
        leading_digits(t) == w,
    decreases w,
{
    if w == 0 {
    } else {
        assert(t.take(w)[0] == t[0]);
        let rest = t.drop_first();
        assert forall|i: int| 0 <= i < w - 1 implies is_digit(#[trigger] rest.take(w - 1)[i]) by {
            assert(rest.take(w - 1)[i] == t.take(w)[i + 1]);
        }
        lemma_leading_digits(rest, w - 1);
    }
}

/// A larger exponent gives no smaller power of ten, and none is zero.
pub proof fn lemma_pow10_grows(a: nat, b: nat)
    requires
        a <= b,
    ensures
        1 <= pow10(a) <= pow10(b),
    decreases b,
{
    if b == 0 {
    } else if a == b {
        lemma_pow10_grows((a - 1) as nat, (b - 1) as nat);
    } else {
        lemma_pow10_grows(a, (b - 1) as nat);
    }
}

/// Ten to the power of nineteen is the largest power of ten within `u64`.
pub proof fn lemma_pow10_limits()
    ensures
        pow10(19) == 10_000_000_000_000_000_000,
        pow10(20) == 100_000_000_000_000_000_000,
        pow10(19) <= u64::MAX < pow10(20),
{
    reveal_with_fuel(pow10, 21);
}

/// Ten to the power of `e`.
pub fn power_of_ten(e: usize) -> (p: u128)
    requires
        e <= 19,
    ensures
        p == pow10(e as nat),
        1 <= p <= 10_000_000_000_000_000_000,
{
    let mut p: u128 = 1;
    let mut i: usize = 0;
    proof {
        lemma_pow10_limits();
        lemma_pow10_grows(0, 19);
    }
    while i < e
        invariant
            i <= e <= 19,
            p == pow10(i as nat),
            pow10(19) == 10_000_000_000_000_000_000,
            1 <= p <= pow10(19),
        decreases e - i,
    {
        proof {
            lemma_pow10_grows((i + 1) as nat, 19);
        }
        p = p * 10;
        i += 1;
    }
    p
}

fn is_decimal(c: char) -> (b: bool)
    ensures
        b == is_digit(c),
{
    '0' <= c && c <= '9'
}

fn digit(c: char) -> (d: u64)
    requires
        is_digit(c),
    ensures
        d == digit_value(c),
        d <= 9,
{
    (c as u32 - '0' as u32) as u64
}

fn scale_fraction(value: u64, digits: usize) -> (r: u64)
    requires
        digits <= 6,
        value < pow10(digits as nat),
    ensures
        r == value * pow10((6 - digits) as nat),
        r < 1_000_000,
{
    proof {
        lemma_pow10_values();
    }
    if digits == 0 {
        assert(value * pow10(6) == 0);
        0
    } else if digits == 1 {
        assert(value * pow10(5) == value * 100_000);
        value * 100_000
    } else if digits == 2 {
        assert(value * pow10(4) == value * 10_000);
        value * 10_000
    } else if digits == 3 {
        assert(value * pow10(3) == value * 1_000);
        value * 1_000
    } else if digits == 4 {
        assert(value * pow10(2) == value * 100);
        value * 100
    } else if digits == 5 {
        assert(value * pow10(1) == value * 10);
        value * 10
    } else {
        assert(value * pow10(0) == value);
        value
    }
}

/// The powers of ten up to a million.
pub proof fn lemma_pow10_values()
    ensures
        pow10(0) == 1,
        pow10(1) == 10,
        pow10(2) == 100,
        pow10(3) == 1_000,
        pow10(4) == 10_000,
        pow10(5) == 100_000,
        pow10(6) == 1_000_000,
{
    reveal_with_fuel(pow10, 8);
}

/// Reads the digits of an exponent, which begin at `from` and make up the
/// rest of the token. The exponent comes back as it is up to nineteen, and
/// as some number above nineteen beyond that; `None` where the rest holds
/// anything but digits.
fn read_exponent(t: &Vec<char>, from: usize) -> (r: Option<u64>)
    requires
        from < t.len(),
    ensures
        r is Some <==> all_digits(t@.skip(from as int)),
        r matches Some(x) ==> {
            let e = decimal(t@.skip(from as int));
            if e <= 19 {
                x == e
            } else {
                x > 19
            }
        },
{
    let ghost f = t@.skip(from as int);
    let mut x: u64 = 0;
    let mut j: usize = from;
    while j < t.len()
        invariant
            from <= j <= t.len(),
            f == t@.skip(from as int),
            all_digits(f.take(j - from)),
            x <= 208,
            decimal(f.take(j - from)) <= 19 ==> x == decimal(f.take(j - from)),
            decimal(f.take(j - from)) > 19 ==> x > 19,
        decreases t.len() - j,
    {
        assert(f[j - from] == t@[j as int]);
        if !is_decimal(t[j]) {
            return None;
        }
        let d = digit(t[j]);
        proof {
            lemma_decimal_push(f, j - from);
            assert forall|i: int| 0 <= i < j + 1 - from implies is_digit(
                #[trigger] f.take(j + 1 - from)[i],
            ) by {
                if i < j - from {
                    assert(f.take(j - from)[i] == f[i]);
                }
            }
        }
        if x <= 19 {
            x = x * 10 + d;
        }
        j += 1;
    }
    assert(f.take(j - from) =~= f);
    Some(x)
}

/// The nanoseconds of `whole` milliseconds times ten to the power of the
/// exponent that `exponent` stands for, where they fit.
fn scale_whole(whole: u64, exponent: u64, Ghost(e): Ghost<nat>) -> (r: Option<u64>)
    requires
        whole <= u64::MAX / 1_000_000,
        if e <= 19 {
            exponent == e
        } else {
            exponent > 19
        },
    ensures
        r == if whole * pow10(e + 6) <= u64::MAX {
            Some((whole * pow10(e + 6)) as u64)
        } else {
            None::<u64>
        },
{
    if whole == 0 {
        assert(whole * pow10(e + 6) == 0) by (nonlinear_arith)
            requires
                whole == 0,
        ;
        return Some(0);
    }
    if exponent > 13 {
        proof {
            lemma_pow10_limits();
            lemma_pow10_grows(20, e + 6);
            assert(whole * pow10(e + 6) > u64::MAX) by (nonlinear_arith)
                requires
                    whole >= 1,
                    pow10(e + 6) > u64::MAX,
            ;
        }
        return None;
    }
    let scale = power_of_ten(exponent as usize + 6);
    assert(whole * scale <= u128::MAX) by (nonlinear_arith)
        requires
            whole <= u64::MAX,
            scale <= 10_000_000_000_000_000_000,
    ;
    let nanos = whole as u128 * scale;
    if nanos > u64::MAX as u128 {
        None
    } else {
        Some(nanos as u64)
    }
}

/// Reads a duration token of a trace into nanoseconds. `None` stands for a
/// token that is no number of the three forms or whose value does not fit.
pub fn parse_duration(token: &str) -> (r: Option<u64>)
    ensures
        r == duration_of(token@),
{
    let t = chars_of(token);
    let n = t.len();
    let limit: u64 = u64::MAX / NANOS_PER_MILLI;
    let mut whole: u64 = 0;
    let mut w: usize = 0;
    while w < n && is_decimal(t[w])
        invariant
            w <= n,
            n == t@.len(),
            t@ == token@,
            limit == u64::MAX / 1_000_000,
            all_digits(t@.take(w as int)),
            whole == decimal(t@.take(w as int)),
            whole <= limit,
        decreases n - w,
    {
        let d = digit(t[w]);
        proof {
            lemma_decimal_push(t@, w as int);
        }
        if whole > (limit - d) / 10 {
            proof {
                lemma_overflow(t@, w as int, limit as int);
            }
            return None;
        }
        whole = whole * 10 + d;
        assert(all_digits(t@.take(w + 1))) by {
            assert forall|i: int| 0 <= i < w + 1 implies is_digit(#[trigger] t@.take(w + 1)[i]) by {
                if i < w {
                    assert(t@.take(w as int)[i] == t@[i]);
                }
            }
        }
        w += 1;
    }
    proof {
        lemma_leading_digits(t@, w as int);
    }
    if w == 0 {
        return None;
    }
    if w == n {
        assert(t@.take(w as int) =~= t@);
        return Some(whole * NANOS_PER_MILLI);
    }
    if w + 1 == n {
        return None;
    }
    if t[w] == 'e' || t[w] == 'E' {
        return match read_exponent(&t, w + 1) {
            Some(exponent) => scale_whole(whole, exponent, Ghost(decimal(t@.skip(w + 1)))),
            None => None,
        };
    }
    if t[w] != '.' {
        return None;
    }
    let ghost f = t@.skip(w + 1);
    let mut value: u64 = 0;
    let mut kept: usize = 0;
    let mut j: usize = w + 1;
    while j < n
        invariant
            w + 1 <= j <= n,
            n == t@.len(),
            t@ == token@,
            f == t@.skip(w + 1),
            w == leading_digits(t@),
            t@[w as int] == '.',
            all_digits(f.take(j - w - 1)),
            kept == if j - w - 1 < 6 { (j - w - 1) as int } else { 6 },
            value == decimal(f.take(kept as int)),
            value < pow10(kept as nat),
        decreases n - j,
    {
        assert(f[j - w - 1] == t@[j as int]);
        if !is_decimal(t[j]) {
            return None;
        }
        let d = digit(t[j]);
        assert(all_digits(f.take(j + 1 - w - 1))) by {
            assert forall|i: int| 0 <= i < j - w implies is_digit(
                #[trigger] f.take(j + 1 - w - 1)[i],
            ) by {
                if i < j - w - 1 {
                    assert(f.take(j - w - 1)[i] == f[i]);
                }
            }
        }
        if kept < FRACTION_DIGITS {
            proof {
                lemma_decimal_push(f, kept as int);
                lemma_pow10_values();
            }
            value = value * 10 + d;
            kept += 1;
        }
        j += 1;
    }
    assert(f.take(j - w - 1) =~= f);
    let fraction = scale_fraction(value, kept);
    (whole * NANOS_PER_MILLI).checked_add(fraction)
}

proof fn lemma_overflow(t: Seq<char>, w: int, limit: int)
    requires
        0 <= w < t.len(),
        limit == u64::MAX / 1_000_000,
        all_digits(t.take(w)),
        is_digit(t[w]),
        decimal(t.take(w + 1)) > limit,
    ensures
        duration_of(t) is None,
{
    let full = leading_digits(t) as int;
    lemma_leading_bounds(t);
    if full <= w {
        // impossible: the first w + 1 characters are digits
        lemma_leading_stops(t);
        if full < t.len() {
            if full < w {
                assert(t.take(w)[full] == t[full]);
            }
        }
        assert(false);
    }
    lemma_decimal_grows(t, w + 1, full);
    assert(t.take(t.len() as int) =~= t);
    assert(decimal(t.take(full)) * 1_000_000 > u64::MAX) by (nonlinear_arith)
        requires
            decimal(t.take(full)) > limit,
            limit == u64::MAX / 1_000_000,
    ;
    let scale = pow10(decimal(t.skip(full + 1)) + 6);
    lemma_pow10_values();
    lemma_pow10_grows(6, decimal(t.skip(full + 1)) + 6);
    assert(decimal(t.take(full)) * scale > u64::MAX) by (nonlinear_arith)
        requires
            decimal(t.take(full)) * 1_000_000 > u64::MAX,
            scale >= 1_000_000,
    ;
}

proof fn lemma_leading_bounds(t: Seq<char>)
    ensures
        leading_digits(t) <= t.len(),
    decreases t.len(),
{
    if t.len() > 0 && is_digit(t[0]) {
        lemma_leading_bounds(t.drop_first());
    }
}

proof fn lemma_leading_stops(t: Seq<char>)
    ensures
        leading_digits(t) < t.len() ==> !is_digit(t[leading_digits(t) as int]),
        all_digits(t.take(leading_digits(t) as int)),
    decreases t.len(),
{
    lemma_leading_bounds(t);
    if t.len() > 0 && is_digit(t[0]) {
        let rest = t.drop_first();
        lemma_leading_stops(rest);
        lemma_leading_bounds(rest);
        let w = leading_digits(t) as int;
        assert forall|i: int| 0 <= i < w implies is_digit(#[trigger] t.take(w)[i]) by {
            if i > 0 {
                assert(rest.take(w - 1)[i - 1] == t[i]);
            }
        }
        if w < t.len() {
            assert(rest[w - 1] == t[w]);
        }
    }
}

} // verus!
