//! A collection of plugins: ranking by average and the figures that scale a
//! table or a chart of it.

use vstd::prelude::*;
use vstd::utf8::{encode_scalar, encode_utf8};
use crate::plugin::{Plugin, Record};
use crate::statistics::mean;

verus! {

/// Every record has at least one sample.
pub open spec fn all_measured(records: Seq<Record>) -> bool {
    forall|i: int| 0 <= i < records.len() ==> (#[trigger] records[i]).1.len() > 0
}

/// The average of each record, in the order of the records.
pub open spec fn averages(records: Seq<Record>) -> Seq<nat> {
    records.map_values(|r: Record| mean(r.1))
}

/// An average of `a` may stand ahead of an average of `b`: it is no smaller,
/// or no larger where `reversed`.
pub open spec fn ahead(a: nat, b: nat, reversed: bool) -> bool {
    if reversed {
        a <= b
    } else {
        a >= b
    }
}

/// The records stand by falling average, or by rising average where `reversed`.
pub open spec fn in_order(records: Seq<Record>, reversed: bool) -> bool {
    forall|i: int, j: int|
        0 <= i < j < records.len() ==> ahead(
            mean((#[trigger] records[i]).1),
            mean((#[trigger] records[j]).1),
            reversed,
        )
}

/// Picks the records whose average is `m`.
pub open spec fn with_average(m: nat) -> spec_fn(Record) -> bool {
    |r: Record| mean(r.1) == m
}

/// `after` holds the records of `before`, and those of equal average in the
/// order in which `before` has them.
pub open spec fn same_records(before: Seq<Record>, after: Seq<Record>) -> bool {
    &&& after.to_multiset() == before.to_multiset()
    &&& forall|m: nat| #[trigger] after.filter(with_average(m)) == before.filter(with_average(m))
}

/// `after` is the ranking of `before`: the same records, slowest first (or
/// fastest first where `reversed`), ties left as they stood.
pub open spec fn ranked(before: Seq<Record>, after: Seq<Record>, reversed: bool) -> bool {
    in_order(after, reversed) && same_records(before, after)
}

/// The bytes that a character takes in UTF-8: one to four, by its code point.
pub open spec fn char_width(c: char) -> nat {
    let point = c as u32;
    if point < 0x80 {
        1
    } else if point < 0x800 {
        2
    } else if point < 0x1_0000 {
        3
    } else {
        4
    }
}

/// The width of a name: its length in bytes, which is the sum of the bytes
/// that its characters take.
pub open spec fn width(name: Seq<char>) -> nat
    decreases name.len(),
{
    if name.len() == 0 {
        0
    } else {
        char_width(name[0]) + width(name.drop_first())
    }
}

/// The width of a name is the length of its UTF-8 encoding.
pub proof fn lemma_width_encoded(name: Seq<char>)
    ensures
        width(name) == encode_utf8(name).len(),
    decreases name.len(),
{
    if name.len() > 0 {
        vstd::utf8::char_is_scalar(name[0]);
        assert(encode_scalar(name[0] as u32).len() == char_width(name[0]));
        lemma_width_encoded(name.drop_first());
    }
}

/// The length of a name in bytes.
fn width_of(name: &String) -> (w: usize)
    ensures
        w == width(name@),
{
    proof {
        lemma_width_encoded(name@);
    }
    name.as_str().as_bytes().len()
}

/// The width of the longest name of the records, in bytes; zero where there
/// is none.
pub open spec fn widest(records: Seq<Record>) -> nat
    decreases records.len(),
{
    if records.len() == 0 {
        0
    } else {
        let rest = widest(records.drop_last());
        if width(records.last().0) > rest {
            width(records.last().0)
        } else {
            rest
        }
    }
}

/// The widths of the names of the records.
pub open spec fn widths(records: Seq<Record>) -> Seq<nat> {
    records.map_values(|r: Record| width(r.0))
}

/// `m` is the largest (or, where `least`, the smallest) of the values.
pub open spec fn is_extreme(values: Seq<nat>, m: nat, least: bool) -> bool {
    &&& values.contains(m)
    &&& forall|i: int|
        0 <= i < values.len() ==> if least {
            m <= #[trigger] values[i]
        } else {
            values[i] <= m
        }
}

/// Ranking and scaling of a collection of plugins.
pub trait Plugins {
    /// The plugins as values.
    spec fn records(&self) -> Seq<Record>;

    /// Ranks the plugins by average start time, slowest first, or fastest
    /// first where `reversed`; returns a copy of the ranking.
    fn sort(&mut self, reversed: bool) -> (sorted: Vec<Plugin>)
        requires
            all_measured(old(self).records()),
        ensures
            ranked(old(self).records(), final(self).records(), reversed),
            sorted.deep_view() == final(self).records(),
    ;

    /// The largest average of the collection.
    fn max(&self) -> (m: u64)
        requires
            self.records().len() > 0,
            all_measured(self.records()),
        ensures
            is_extreme(averages(self.records()), m as nat, false),
    ;

    /// The smallest average of the collection.
    fn min(&self) -> (m: u64)
        requires
            self.records().len() > 0,
            all_measured(self.records()),
        ensures
            is_extreme(averages(self.records()), m as nat, true),
    ;

    /// The width of the longest name of the collection: its length in bytes.
    fn len_largest(&self) -> (w: usize)
        requires
            self.records().len() > 0,
        ensures
            is_extreme(widths(self.records()), w as nat, false),
            w == widest(self.records()),
    ;
}

/// Whether a record of average `a` keeps its place ahead of a newcomer of
/// average `b`.
fn keeps_place(a: u64, b: u64, reversed: bool) -> (keeps: bool)
    ensures
        keeps == ahead(a as nat, b as nat, reversed),
{
    if reversed {
        a <= b
    } else {
        a >= b
    }
}

/// A copy of the plugins, one by one.
pub fn copy_all(plugins: &Vec<Plugin>) -> (out: Vec<Plugin>)
    ensures
        out.deep_view() == plugins.deep_view(),
{
    let mut out: Vec<Plugin> = Vec::new();
    let mut i: usize = 0;
    while i < plugins.len()
        invariant
            i <= plugins.len(),
            out.len() == i,
            forall|k: int| 0 <= k < i ==> out@[k]@ == plugins@[k]@,
        decreases plugins.len() - i,
    {
        out.push(plugins[i].copy());
        i += 1;
    }
    assert(out.deep_view() =~= plugins.deep_view());
    out
}

/// The average of each plugin.
fn averages_of(plugins: &Vec<Plugin>) -> (keys: Vec<u64>)
    requires
        all_measured(plugins.deep_view()),
    ensures
        keys@.len() == plugins@.len(),
        forall|i: int| 0 <= i < keys@.len() ==> keys@[i] == mean(plugins@[i].times@),
{
    let mut keys: Vec<u64> = Vec::new();
    let mut i: usize = 0;
    while i < plugins.len()
        invariant
            i <= plugins.len(),
            keys@.len() == i,
            all_measured(plugins.deep_view()),
            forall|k: int| 0 <= k < i ==> keys@[k] == mean(plugins@[k].times@),
        decreases plugins.len() - i,
    {
        assert(plugins.deep_view()[i as int].1.len() > 0);
        keys.push(plugins[i].average());
        i += 1;
    }
    keys
}

/// The width of the longest name is the largest of the widths.
pub proof fn lemma_widest(records: Seq<Record>)
    requires
        records.len() > 0,
    ensures
        is_extreme(widths(records), widest(records), false),
    decreases records.len(),
{
    let all = widths(records);
    let rest = records.drop_last();
    let last = width(records.last().0);
    assert(all[records.len() - 1] == last);
    if rest.len() == 0 {
        assert(widest(rest) == 0);
    } else {
        lemma_widest(rest);
        let short = widths(rest);
        assert forall|i: int| 0 <= i < short.len() implies short[i] == all[i] by {}
        if last <= widest(rest) {
            let k = choose|k: int| 0 <= k < short.len() && short[k] == widest(rest);
            assert(all[k] == widest(rest));
        }
    }
    assert forall|i: int| 0 <= i < all.len() implies #[trigger] all[i] <= widest(records) by {
        if i < rest.len() {
            assert(widths(rest)[i] == all[i]);
        }
    }
}

/// The largest of values is one value only.
pub proof fn lemma_extreme_unique(values: Seq<nat>, a: nat, b: nat, least: bool)
    requires
        is_extreme(values, a, least),
        is_extreme(values, b, least),
    ensures
        a == b,
{
    let i = choose|i: int| 0 <= i < values.len() && values[i] == a;
    let k = choose|k: int| 0 <= k < values.len() && values[k] == b;
    assert(values[i] == a && values[k] == b);
}

/// A collection has one ranking only: two rankings of the same records are
/// the same sequence.
pub proof fn lemma_ranking_unique(
    before: Seq<Record>,
    first: Seq<Record>,
    second: Seq<Record>,
    reversed: bool,
)
    requires
        ranked(before, first, reversed),
        ranked(before, second, reversed),
    ensures
        first == second,
    decreases first.len(),
{
    vstd::seq_lib::to_multiset_len(first);
    vstd::seq_lib::to_multiset_len(second);
    if first.len() == 0 {
        assert(first =~= second);
    } else {
        let x = first.last();
        let y = second.last();
        let a = first.drop_last();
        let b = second.drop_last();
        assert(first =~= a.push(x));
        assert(second =~= b.push(y));
        // the two last records have the same average, the one furthest down
        first.to_multiset_ensures();
        second.to_multiset_ensures();
        assert(second.contains(y) && first.contains(x));
        assert(second.to_multiset().count(y) > 0 && first.to_multiset().count(x) > 0);
        assert(first.to_multiset().count(y) > 0 && second.to_multiset().count(x) > 0);
        assert(first.contains(y) && second.contains(x));
        let i = choose|i: int| 0 <= i < first.len() && first[i] == y;
        let k = choose|k: int| 0 <= k < second.len() && second[k] == x;
        let n = first.len() as int;
        if i < n - 1 {
            assert(ahead(mean(first[i].1), mean(first[n - 1].1), reversed));
        }
        if k < n - 1 {
            assert(ahead(mean(second[k].1), mean(second[n - 1].1), reversed));
        }
        let m = mean(x.1);
        assert(mean(y.1) == m);
        // so they are the last of the records of that average, in both
        a.lemma_filter_push(x, with_average(m));
        b.lemma_filter_push(y, with_average(m));
        assert(first.filter(with_average(m)) == second.filter(with_average(m)));
        assert(a.filter(with_average(m)).push(x).last() == x);
        assert(b.filter(with_average(m)).push(y).last() == y);
        assert(x == y);
        // and what stands before them is ranked the same
        assert forall|n: nat| #[trigger] a.filter(with_average(n)) == b.filter(with_average(n)) by {
            a.lemma_filter_push(x, with_average(n));
            b.lemma_filter_push(y, with_average(n));
            assert(first.filter(with_average(n)) == second.filter(with_average(n)));
            if n == m {
                assert(a.filter(with_average(n)).push(x).drop_last() =~= a.filter(
                    with_average(n),
                ));
                assert(b.filter(with_average(n)).push(y).drop_last() =~= b.filter(
                    with_average(n),
                ));
            }
        }
        vstd::seq_lib::to_multiset_build(a, x);
        vstd::seq_lib::to_multiset_build(b, y);
        assert(a.to_multiset() =~= b.to_multiset()) by {
            assert forall|r: Record| a.to_multiset().count(r) == b.to_multiset().count(r) by {
                assert(a.to_multiset().insert(x).count(r) == b.to_multiset().insert(x).count(r));
            }
        }
        assert forall|p: int, q: int| 0 <= p < q < a.len() implies ahead(
            mean((#[trigger] a[p]).1),
            mean((#[trigger] a[q]).1),
            reversed,
        ) by {
            assert(a[p] == first[p] && a[q] == first[q]);
        }
        assert forall|p: int, q: int| 0 <= p < q < b.len() implies ahead(
            mean((#[trigger] b[p]).1),
            mean((#[trigger] b[q]).1),
            reversed,
        ) by {
            assert(b[p] == second[p] && b[q] == second[q]);
        }
        lemma_ranking_unique(a, a, b, reversed);
    }
}

/// No two records have the same average.
pub open spec fn distinct_averages(records: Seq<Record>) -> bool {
    forall|i: int, j: int|
        0 <= i < j < records.len() ==> mean((#[trigger] records[i]).1) != mean(
            (#[trigger] records[j]).1,
        )
}

/// Read backwards, records are the same records.
proof fn lemma_reverse_members(s: Seq<Record>)
    ensures
        s.reverse().to_multiset() == s.to_multiset(),
    decreases s.len(),
{
    if s.len() == 0 {
        assert(s.reverse() =~= s);
    } else {
        let a = s.drop_last();
        let x = s.last();
        assert(s =~= a.push(x));
        assert(s.reverse() =~= seq![x] + a.reverse());
        lemma_reverse_members(a);
        vstd::seq_lib::to_multiset_build(a, x);
        vstd::seq_lib::to_multiset_insert(a.reverse(), 0, x);
        assert(a.reverse().insert(0, x) =~= seq![x] + a.reverse());
    }
}

/// Read backwards, records of distinct averages give the same selections.
proof fn lemma_reverse_selection(s: Seq<Record>, m: nat)
    requires
        distinct_averages(s),
    ensures
        s.reverse().filter(with_average(m)) == s.filter(with_average(m)),
    decreases s.len(),
{
    let pred = with_average(m);
    if s.len() == 0 {
        assert(s.reverse() =~= s);
    } else {
        let a = s.drop_last();
        let x = s.last();
        assert(s =~= a.push(x));
        assert(s.reverse() =~= seq![x] + a.reverse());
        assert forall|i: int, j: int| 0 <= i < j < a.len() implies mean((#[trigger] a[i]).1)
            != mean((#[trigger] a[j]).1) by {
            assert(a[i] == s[i] && a[j] == s[j]);
        }
        lemma_reverse_selection(a, m);
        a.reverse().lemma_filter_prepend(x, pred);
        a.lemma_filter_push(x, pred);
        if pred(x) {
            assert forall|i: int| 0 <= i < a.len() implies !pred(#[trigger] a[i]) by {
                assert(a[i] == s[i]);
                assert(mean(s[i].1) != mean(s[s.len() - 1].1));
            }
            lemma_none_pass(a, pred);
            assert(seq![x] + Seq::<Record>::empty() =~= Seq::<Record>::empty().push(x));
        } else {
            assert(Seq::<Record>::empty() + a.filter(pred) =~= a.filter(pred));
        }
    }
}

/// Where no two plugins have the same average, the ranking fastest first is
/// the ranking slowest first read backwards.
pub proof fn lemma_reversed_ranking(before: Seq<Record>, down: Seq<Record>, up: Seq<Record>)
    requires
        ranked(before, down, false),
        ranked(before, up, true),
        distinct_averages(down),
    ensures
        up == down.reverse(),
{
    let back = down.reverse();
    lemma_reverse_members(down);
    assert forall|m: nat| #[trigger] back.filter(with_average(m)) == before.filter(
        with_average(m),
    ) by {
        lemma_reverse_selection(down, m);
        assert(down.filter(with_average(m)) == before.filter(with_average(m)));
    }
    assert forall|i: int, j: int| 0 <= i < j < back.len() implies ahead(
        mean((#[trigger] back[i]).1),
        mean((#[trigger] back[j]).1),
        true,
    ) by {
        let n = down.len() as int;
        assert(back[i] == down[n - 1 - i] && back[j] == down[n - 1 - j]);
        assert(ahead(mean(down[n - 1 - j].1), mean(down[n - 1 - i].1), false));
    }
    lemma_ranking_unique(before, up, back, true);
}

/// A selection that no record passes is empty.
proof fn lemma_none_pass(s: Seq<Record>, pred: spec_fn(Record) -> bool)
    requires
        forall|i: int| 0 <= i < s.len() ==> !pred(#[trigger] s[i]),
    ensures
        s.filter(pred) == Seq::<Record>::empty(),
{
    let picked = s.filter(pred);
    if picked.len() > 0 {
        s.lemma_filter_pred(pred, 0);
        s.lemma_filter_len(pred);
        assert(picked.contains(picked[0]));
        s.lemma_filter_contains_rev(pred, picked[0]);
        let i = choose|i: int| 0 <= i < s.len() && s[i] == picked[0];
        assert(!pred(s[i]));
    }
    assert(picked =~= Seq::<Record>::empty());
}

/// What putting `x` into a ranking does to each selection by average, where
/// `x` goes behind every record of its own average.
proof fn lemma_insert_selection(s: Seq<Record>, at: int, x: Record, m: nat)
    requires
        0 <= at <= s.len(),
        forall|i: int| at <= i < s.len() ==> mean((#[trigger] s[i]).1) != mean(x.1),
    ensures
        s.insert(at, x).filter(with_average(m)) == if mean(x.1) == m {
            s.filter(with_average(m)).push(x)
        } else {
            s.filter(with_average(m))
        },
{
    let pred = with_average(m);
    let head = s.take(at);
    let tail = s.skip(at);
    assert(s.insert(at, x) =~= head + (seq![x] + tail));
    assert(s =~= head + tail);
    Seq::filter_distributes_over_add(head, seq![x] + tail, pred);
    Seq::filter_distributes_over_add(head, tail, pred);
    tail.lemma_filter_prepend(x, pred);
    if mean(x.1) == m {
        assert forall|i: int| 0 <= i < tail.len() implies !pred(#[trigger] tail[i]) by {
            assert(tail[i] == s[at + i]);
        }
        lemma_none_pass(tail, pred);
        assert(s.insert(at, x).filter(pred) =~= s.filter(pred).push(x));
    } else {
        assert(s.insert(at, x).filter(pred) =~= s.filter(pred));
    }
}

/// Putting `x` into a ranking behind the records that may stand ahead of it
/// and before the first that may not gives a ranking again, with `x` as the
/// last of the records of its average.
proof fn lemma_rank_insert(ranking: Seq<Record>, at: int, x: Record, reversed: bool)
    requires
        in_order(ranking, reversed),
        0 <= at <= ranking.len(),
        forall|k: int|
            0 <= k < at ==> ahead(mean((#[trigger] ranking[k]).1), mean(x.1), reversed),
        at < ranking.len() ==> !ahead(mean(ranking[at].1), mean(x.1), reversed),
    ensures
        in_order(ranking.insert(at, x), reversed),
        forall|m: nat| #[trigger]
            ranking.insert(at, x).filter(with_average(m)) == if mean(x.1) == m {
                ranking.filter(with_average(m)).push(x)
            } else {
                ranking.filter(with_average(m))
            },
{
    let grown = ranking.insert(at, x);
    assert forall|k: int| at <= k < ranking.len() implies mean((#[trigger] ranking[k]).1) != mean(
        x.1,
    ) by {
        if k > at {
            assert(ahead(mean(ranking[at].1), mean(ranking[k].1), reversed));
        }
    }
    assert forall|m: nat| #[trigger]
        grown.filter(with_average(m)) == if mean(x.1) == m {
            ranking.filter(with_average(m)).push(x)
        } else {
            ranking.filter(with_average(m))
        } by {
        lemma_insert_selection(ranking, at, x, m);
    }
    assert forall|a: int, b: int| 0 <= a < b < grown.len() implies ahead(
        mean((#[trigger] grown[a]).1),
        mean((#[trigger] grown[b]).1),
        reversed,
    ) by {
        if a < at && b == at {
            assert(grown[a] == ranking[a]);
        } else if a < at && b > at {
            assert(grown[a] == ranking[a] && grown[b] == ranking[b - 1]);
        } else if a == at {
            assert(grown[b] == ranking[b - 1]);
            if b - 1 > at {
                assert(ahead(mean(ranking[at].1), mean(ranking[b - 1].1), reversed));
            }
        } else if a > at {
            assert(grown[a] == ranking[a - 1] && grown[b] == ranking[b - 1]);
        } else {
            assert(grown[a] == ranking[a] && grown[b] == ranking[b]);
        }
    }
}

impl Plugins for Vec<Plugin> {
    open spec fn records(&self) -> Seq<Record> {
        self.deep_view()
    }

    fn sort(&mut self, reversed: bool) -> (sorted: Vec<Plugin>) {
        let ghost before = self.deep_view();
        let mut out: Vec<Plugin> = Vec::new();
        let mut keys: Vec<u64> = Vec::new();
        let mut i: usize = 0;
        assert(out.deep_view() =~= before.take(0));
        while i < self.len()
            invariant
                i <= self.len(),
                before == self.deep_view(),
                all_measured(before),
                out.len() == i,
                keys.len() == i,
                forall|k: int| 0 <= k < i ==> keys@[k] == mean(#[trigger] out.deep_view()[k].1),
                in_order(out.deep_view(), reversed),
                same_records(before.take(i as int), out.deep_view()),
            decreases self.len() - i,
        {
            assert(before[i as int].1.len() > 0);
            let key = self[i].average();
            let mut at: usize = 0;
            while at < keys.len() && keeps_place(keys[at], key, reversed)
                invariant
                    at <= keys.len(),
                    forall|k: int| 0 <= k < at ==> ahead(keys@[k] as nat, key as nat, reversed),
                decreases keys.len() - at,
            {
                at += 1;
            }
            let item = self[i].copy();
            let ghost ranking = out.deep_view();
            let ghost old_keys = keys@;
            proof {
                let x = item@;
                assert(before.take(i + 1) =~= before.take(i as int).push(x));
                vstd::seq_lib::to_multiset_build(before.take(i as int), x);
                vstd::seq_lib::to_multiset_insert(ranking, at as int, x);
                lemma_rank_insert(ranking, at as int, x, reversed);
                assert forall|m: nat| #[trigger]
                    ranking.insert(at as int, x).filter(with_average(m)) == before.take(
                        i + 1,
                    ).filter(with_average(m)) by {
                    before.take(i as int).lemma_filter_push(x, with_average(m));
                    assert(ranking.filter(with_average(m)) == before.take(i as int).filter(
                        with_average(m),
                    ));
                }
            }
            out.insert(at, item);
            keys.insert(at, key);
            proof {
                assert(out.deep_view() =~= ranking.insert(at as int, item@));
                assert forall|k: int| 0 <= k < i + 1 implies keys@[k] == mean(
                    #[trigger] out.deep_view()[k].1,
                ) by {
                    if k < at {
                        assert(out.deep_view()[k] == ranking[k]);
                    } else if k > at {
                        assert(out.deep_view()[k] == ranking[k - 1]);
                        assert(keys@[k] == old_keys[k - 1]);
                    }
                }
            }
            i += 1;
        }
        assert(before.take(i as int) =~= before);
        let sorted = copy_all(&out);
        *self = out;
        sorted
    }

    fn max(&self) -> (m: u64) {
        let keys = averages_of(self);
        let m = crate::statistics::largest(&keys);
        proof {
            let values = averages(self.deep_view());
            let k = choose|k: int| 0 <= k < keys@.len() && keys@[k] == m;
            assert(values[k] == m as nat);
            assert forall|i: int| 0 <= i < values.len() implies #[trigger] values[i] <= m by {
                assert(keys@[i] <= m);
            }
        }
        m
    }

    fn min(&self) -> (m: u64) {
        let keys = averages_of(self);
        let m = crate::statistics::smallest(&keys);
        proof {
            let values = averages(self.deep_view());
            let k = choose|k: int| 0 <= k < keys@.len() && keys@[k] == m;
            assert(values[k] == m as nat);
            assert forall|i: int| 0 <= i < values.len() implies m <= #[trigger] values[i] by {
                assert(m <= keys@[i]);
            }
        }
        m
    }

    fn len_largest(&self) -> (w: usize) {
        let ghost sizes = widths(self.deep_view());
        let mut w = width_of(&self[0].name);
        let mut i: usize = 1;
        assert(sizes[0] == w);
        while i < self.len()
            invariant
                1 <= i <= self.len(),
                sizes == widths(self.deep_view()),
                exists|k: int| 0 <= k < i && sizes[k] == w,
                forall|k: int| 0 <= k < i ==> sizes[k] <= w,
            decreases self.len() - i,
        {
            let n = width_of(&self[i].name);
            assert(sizes[i as int] == n);
            if n > w {
                w = n;
            }
            i += 1;
        }
        proof {
            let k = choose|k: int| 0 <= k < i && sizes[k] == w;
            assert(sizes[k] == w as nat);
            lemma_widest(self.deep_view());
            lemma_extreme_unique(sizes, w as nat, widest(self.deep_view()), false);
        }
        w
    }
}

} // verus!
