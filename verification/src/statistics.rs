//! Descriptive statistics of a run of samples, in whole nanoseconds.

use vstd::prelude::*;
use vstd::relations::{sorted_by, total_ordering};
use vstd::seq_lib::{lemma_sorted_unique, to_multiset_build, to_multiset_insert};

verus! {

/// The sum of the samples.
pub open spec fn sum(s: Seq<u64>) -> nat
    decreases s.len(),
{
    if s.len() == 0 {
        0
    } else {
        sum(s.drop_last()) + s.last() as nat
    }
}

/// The arithmetic mean of the samples, rounded down.
pub open spec fn mean(s: Seq<u64>) -> nat
    recommends
        s.len() > 0,
{
    sum(s) / s.len()
}

/// The sum of the squared distances of the samples from `center`.
pub open spec fn spread(s: Seq<u64>, center: int) -> nat
    decreases s.len(),
{
    if s.len() == 0 {
        0
    } else {
        spread(s.drop_last(), center) + ((s.last() - center) * (s.last() - center)) as nat
    }
}

/// The population variance of the samples about their mean, rounded down:
/// the squared distances are divided by the number of samples, not by one less.
pub open spec fn variance(s: Seq<u64>) -> nat
    recommends
        s.len() > 0,
{
    spread(s, mean(s) as int) / s.len()
}

/// `r` is the square root of `n`, rounded down.
pub open spec fn is_root(r: nat, n: nat) -> bool {
    r * r <= n < (r + 1) * (r + 1)
}

/// The order of the samples by size.
pub open spec fn at_most() -> spec_fn(u64, u64) -> bool {
    |a: u64, b: u64| a <= b
}

/// No sample is followed by a smaller one.
pub open spec fn ascending(s: Seq<u64>) -> bool {
    forall|i: int, j: int| 0 <= i < j < s.len() ==> s[i] <= s[j]
}

/// The samples in ascending order.
pub open spec fn ordered(s: Seq<u64>) -> Seq<u64> {
    s.sort_by(at_most())
}

/// The middle of samples that stand in ascending order: the central one, or
/// the mean of the two central ones, rounded down.
pub open spec fn middle(s: Seq<u64>) -> nat
    recommends
        s.len() > 0,
{
    let mid = (s.len() / 2) as int;
    if s.len() % 2 == 0 {
        ((s[mid - 1] + s[mid]) / 2) as nat
    } else {
        s[mid] as nat
    }
}

/// The median of the samples.
pub open spec fn median(s: Seq<u64>) -> nat
    recommends
        s.len() > 0,
{
    middle(ordered(s))
}

/// `m` is the largest of the samples.
pub open spec fn is_max(s: Seq<u64>, m: u64) -> bool {
    s.contains(m) && forall|i: int| 0 <= i < s.len() ==> s[i] <= m
}

/// `m` is the smallest of the samples.
pub open spec fn is_min(s: Seq<u64>, m: u64) -> bool {
    s.contains(m) && forall|i: int| 0 <= i < s.len() ==> m <= s[i]
}

/// The largest of the samples.
pub open spec fn maximum(s: Seq<u64>) -> u64
    recommends
        s.len() > 0,
{
    choose|m: u64| is_max(s, m)
}

/// The smallest of the samples.
pub open spec fn minimum(s: Seq<u64>) -> u64
    recommends
        s.len() > 0,
{
    choose|m: u64| is_min(s, m)
}

/// The population standard deviation of the samples: the square root of
/// their variance, rounded down.
pub open spec fn deviation(s: Seq<u64>) -> nat
    recommends
        s.len() > 0,
{
    choose|r: nat| is_root(r, variance(s))
}

/// A number has one square root only.
pub proof fn lemma_root_unique(a: nat, b: nat, n: nat)
    requires
        is_root(a, n),
        is_root(b, n),
    ensures
        a == b,
{
    if a < b {
        assert((a + 1) * (a + 1) <= b * b) by (nonlinear_arith)
            requires
                a + 1 <= b,
        ;
    } else if b < a {
        assert((b + 1) * (b + 1) <= a * a) by (nonlinear_arith)
            requires
                b + 1 <= a,
        ;
    }
}

/// What is the largest of the samples is their maximum.
pub proof fn lemma_maximum(s: Seq<u64>, m: u64)
    requires
        is_max(s, m),
    ensures
        m == maximum(s),
{
    let other = maximum(s);
    let i = choose|i: int| 0 <= i < s.len() && s[i] == m;
    let k = choose|k: int| 0 <= k < s.len() && s[k] == other;
    assert(s[i] <= other && s[k] <= m);
}

/// What is the smallest of the samples is their minimum.
pub proof fn lemma_minimum(s: Seq<u64>, m: u64)
    requires
        is_min(s, m),
    ensures
        m == minimum(s),
{
    let other = minimum(s);
    let i = choose|i: int| 0 <= i < s.len() && s[i] == m;
    let k = choose|k: int| 0 <= k < s.len() && s[k] == other;
    assert(other <= s[i] && m <= s[k]);
}

proof fn lemma_sum_step(s: Seq<u64>, i: int)
    requires
        0 <= i < s.len(),
    ensures
        sum(s.take(i + 1)) == sum(s.take(i)) + s[i],
{
    assert(s.take(i + 1).drop_last() =~= s.take(i));
}

proof fn lemma_spread_step(s: Seq<u64>, center: int, i: int)
    requires
        0 <= i < s.len(),
    ensures
        spread(s.take(i + 1), center) == spread(s.take(i), center) + (s[i] - center) * (s[i]
            - center),
{
    assert(s.take(i + 1).drop_last() =~= s.take(i));
    assert((s[i] - center) * (s[i] - center) >= 0) by (nonlinear_arith);
}

/// The sum of the samples is at most their number times the largest `u64`.
pub proof fn lemma_sum_bound(s: Seq<u64>)
    ensures
        sum(s) <= s.len() * u64::MAX,
    decreases s.len(),
{
    if s.len() > 0 {
        lemma_sum_bound(s.drop_last());
        assert(sum(s) <= s.len() * u64::MAX) by (nonlinear_arith)
            requires
                sum(s) == sum(s.drop_last()) + s.last(),
                sum(s.drop_last()) <= (s.len() - 1) * u64::MAX,
                s.last() <= u64::MAX,
        ;
    }
}

/// The mean of samples is no larger than the largest `u64`.
pub proof fn lemma_mean_bound(s: Seq<u64>)
    requires
        s.len() > 0,
    ensures
        mean(s) <= u64::MAX,
{
    lemma_sum_bound(s);
    let n = s.len() as int;
    let t = sum(s) as int;
    assert(t / n <= u64::MAX) by (nonlinear_arith)
        requires
            n > 0,
            0 <= t <= n * u64::MAX,
    ;
}

/// Ascending samples with the same members as `s` are `s` in order.
pub proof fn lemma_ordered(s: Seq<u64>, t: Seq<u64>)
    requires
        ascending(t),
        t.to_multiset() == s.to_multiset(),
    ensures
        t == ordered(s),
{
    let leq = at_most();
    assert(total_ordering(leq));
    s.lemma_sort_by_ensures(leq);
    assert(sorted_by(t, leq));
    lemma_sorted_unique(t, s.sort_by(leq), leq);
}

/// The sum of the samples.
pub fn total(samples: &Vec<u64>) -> (t: u128)
    ensures
        t == sum(samples@),
{
    let mut t: u128 = 0;
    let mut i: usize = 0;
    while i < samples.len()
        invariant
            i <= samples.len(),
            t == sum(samples@.take(i as int)),
        decreases samples.len() - i,
    {
        proof {
            lemma_sum_step(samples@, i as int);
            lemma_sum_bound(samples@.take(i + 1));
            assert(samples@.take(i + 1).len() * u64::MAX <= usize::MAX * u64::MAX)
                by (nonlinear_arith)
                requires
                    samples@.take(i + 1).len() <= usize::MAX,
            ;
        }
        t = t + samples[i] as u128;
        i += 1;
    }
    assert(samples@.take(i as int) =~= samples@);
    t
}

/// The arithmetic mean of the samples, rounded down to a whole nanosecond.
pub fn average(samples: &Vec<u64>) -> (m: u64)
    requires
        samples@.len() > 0,
    ensures
        m == mean(samples@),
{
    let t = total(samples);
    proof {
        lemma_mean_bound(samples@);
    }
    (t / samples.len() as u128) as u64
}

/// The largest of the samples.
pub fn largest(samples: &Vec<u64>) -> (m: u64)
    requires
        samples@.len() > 0,
    ensures
        is_max(samples@, m),
        m == maximum(samples@),
{
    let mut m = samples[0];
    let mut i: usize = 1;
    while i < samples.len()
        invariant
            1 <= i <= samples.len(),
            exists|k: int| 0 <= k < i && samples@[k] == m,
            forall|k: int| 0 <= k < i ==> samples@[k] <= m,
        decreases samples.len() - i,
    {
        if samples[i] > m {
            m = samples[i];
        }
        i += 1;
    }
    proof {
        lemma_maximum(samples@, m);
    }
    m
}

/// The smallest of the samples.
pub fn smallest(samples: &Vec<u64>) -> (m: u64)
    requires
        samples@.len() > 0,
    ensures
        is_min(samples@, m),
        m == minimum(samples@),
{
    let mut m = samples[0];
    let mut i: usize = 1;
    while i < samples.len()
        invariant
            1 <= i <= samples.len(),
            exists|k: int| 0 <= k < i && samples@[k] == m,
            forall|k: int| 0 <= k < i ==> m <= samples@[k],
        decreases samples.len() - i,
    {
        if samples[i] < m {
            m = samples[i];
        }
        i += 1;
    }
    proof {
        lemma_minimum(samples@, m);
    }
    m
}

/// The samples in ascending order.
pub fn sorted(samples: &Vec<u64>) -> (out: Vec<u64>)
    ensures
        out@ == ordered(samples@),
        ascending(out@),
        out@.to_multiset() == samples@.to_multiset(),
{
    let mut out: Vec<u64> = Vec::new();
    let mut i: usize = 0;
    assert(out@ =~= samples@.take(0));
    while i < samples.len()
        invariant
            i <= samples.len(),
            ascending(out@),
            out@.len() == i,
            out@.to_multiset() == samples@.take(i as int).to_multiset(),
        decreases samples.len() - i,
    {
        let x = samples[i];
        let mut at: usize = 0;
        while at < out.len() && out[at] <= x
            invariant
                at <= out.len(),
                forall|k: int| 0 <= k < at ==> out@[k] <= x,
            decreases out.len() - at,
        {
            at += 1;
        }
        proof {
            assert(samples@.take(i + 1) =~= samples@.take(i as int).push(x));
            to_multiset_build(samples@.take(i as int), x);
            to_multiset_insert(out@, at as int, x);
            let grown = out@.insert(at as int, x);
            assert forall|a: int, b: int| 0 <= a < b < grown.len() implies grown[a]
                <= grown[b] by {
                if a < at && b > at {
                    assert(grown[a] == out@[a] && grown[b] == out@[b - 1]);
                } else if a > at {
                    assert(grown[a] == out@[a - 1] && grown[b] == out@[b - 1]);
                    assert(out@[at as int] <= out@[a - 1]);
                } else if a == at {
                    assert(grown[b] == out@[b - 1]);
                    assert(out@[at as int] <= out@[b - 1]);
                }
            }
        }
        out.insert(at, x);
        i += 1;
    }
    proof {
        assert(samples@.take(i as int) =~= samples@);
        lemma_ordered(samples@, out@);
    }
    out
}

/// The median of the samples: the middle one by size, or the mean of the two
/// middle ones, rounded down to a whole nanosecond.
pub fn middle_value(samples: &Vec<u64>) -> (m: u64)
    requires
        samples@.len() > 0,
    ensures
        m == median(samples@),
{
    let values = sorted(samples);
    proof {
        vstd::seq_lib::to_multiset_len(values@);
        vstd::seq_lib::to_multiset_len(samples@);
    }
    let mid = values.len() / 2;
    if values.len() % 2 == 0 {
        ((values[mid - 1] as u128 + values[mid] as u128) / 2) as u64
    } else {
        values[mid]
    }
}

/// The square root of `n`, rounded down.
pub fn square_root(n: u128) -> (r: u64)
    ensures
        is_root(r as nat, n as nat),
{
    let mut low: u128 = 0;
    let mut high: u128 = 0x1_0000_0000_0000_0000;
    assert(high * high > n) by (nonlinear_arith)
        requires
            high == 0x1_0000_0000_0000_0000,
            n <= u128::MAX,
    ;
    while high - low > 1
        invariant
            low < high <= 0x1_0000_0000_0000_0000,
            low * low <= n < high * high,
        decreases high - low,
    {
        let mid = low + (high - low) / 2;
        assert(mid * mid <= u128::MAX) by (nonlinear_arith)
            requires
                0 <= mid < 0x1_0000_0000_0000_0000,
        ;
        if mid * mid <= n {
            low = mid;
        } else {
            high = mid;
        }
    }
    low as u64
}

/// The population standard deviation of the samples: the square root of the
/// mean squared distance from their mean, each step rounded down.
pub fn standard_deviation(samples: &Vec<u64>) -> (d: u64)
    requires
        samples@.len() > 0,
    ensures
        is_root(d as nat, variance(samples@)),
        d == deviation(samples@),
{
    let center = average(samples);
    let n = samples.len() as u128;
    let mut quotient: u128 = 0;
    let mut rest: u128 = 0;
    let mut i: usize = 0;
    let ghost top: int = u64::MAX * u64::MAX;
    while i < samples.len()
        invariant
            i <= samples.len(),
            n == samples.len(),
            n > 0,
            top == u64::MAX * u64::MAX,
            rest < n,
            quotient * n + rest == spread(samples@.take(i as int), center as int),
            spread(samples@.take(i as int), center as int) <= i * top,
        decreases samples.len() - i,
    {
        let x = samples[i];
        let distance: u128 = if x >= center {
            (x - center) as u128
        } else {
            (center - x) as u128
        };
        assert(distance * distance <= top && distance * distance == (x - center) * (x - center))
            by (nonlinear_arith)
            requires
                distance == x - center || distance == center - x,
                0 <= distance <= u64::MAX,
                top == u64::MAX * u64::MAX,
        ;
        let square = distance * distance;
        let whole = square / n;
        let part = square % n;
        proof {
            lemma_spread_step(samples@, center as int, i as int);
            let before = spread(samples@.take(i as int), center as int) as int;
            let after = spread(samples@.take(i + 1), center as int) as int;
            assert(after == before + square);
            assert(square == whole * n + part) by (nonlinear_arith)
                requires
                    whole == square / n,
                    part == square % n,
                    n > 0,
            ;
            assert(after <= (i + 1) * top) by (nonlinear_arith)
                requires
                    after == before + square,
                    before <= i * top,
                    square <= top,
            ;
            assert((quotient + whole) * n + (rest + part) == after) by (nonlinear_arith)
                requires
                    quotient * n + rest == before,
                    square == whole * n + part,
                    after == before + square,
            ;
            assert(quotient + whole + 1 <= top + 1) by (nonlinear_arith)
                requires
                    (quotient + whole) * n + (rest + part) == after,
                    after <= (i + 1) * top,
                    i + 1 <= n,
                    n > 0,
                    rest + part >= 0,
                    top >= 0,
            ;
        }
        quotient = quotient + whole;
        rest = rest + part;
        if rest >= n {
            proof {
                let after = spread(samples@.take(i + 1), center as int) as int;
                assert(quotient + 1 <= top) by (nonlinear_arith)
                    requires
                        quotient * n + rest == after,
                        rest >= n,
                        after <= (i + 1) * top,
                        i + 1 <= n,
                        n > 0,
                        top >= 0,
                ;
                assert((quotient + 1) * n + (rest - n) == quotient * n + rest)
                    by (nonlinear_arith);
            }
            quotient = quotient + 1;
            rest = rest - n;
        }
        i += 1;
    }
    proof {
        assert(samples@.take(i as int) =~= samples@);
        let all = spread(samples@, center as int) as int;
        vstd::arithmetic::div_mod::lemma_fundamental_div_mod_converse(
            all,
            n as int,
            quotient as int,
            rest as int,
        );
    }
    let d = square_root(quotient);
    proof {
        lemma_root_unique(d as nat, deviation(samples@), variance(samples@));
    }
    d
}

} // verus!
