//! The samples of a run as they gather: after each launch of the editor the
//! time attributed to a name becomes one more sample of that name.

use vstd::prelude::*;
use crate::plugin::{Plugin, Record};
use crate::plugins::all_measured;
use crate::root::Groups;
use crate::timing::{attributed, distinct_names, lists, named, total, Share};

verus! {

/// The samples that `records` holds for `name`: none where it has no such record.
pub open spec fn samples_of(records: Seq<Record>, name: Seq<char>) -> Seq<u64> {
    if lists(records, name) {
        records[choose|p: int| 0 <= p < records.len() && (#[trigger] records[p]).0 == name].1
    } else {
        Seq::empty()
    }
}

/// The sample that one launch adds for `name`: the time attributed to it, or
/// nothing where the launch attributed none.
pub open spec fn gain(shares: Seq<Share>, name: Seq<char>) -> Seq<u64> {
    if lists(shares, name) {
        seq![shares[choose|p: int| 0 <= p < shares.len() && (#[trigger] shares[p]).0 == name].1]
    } else {
        Seq::empty()
    }
}

/// Records that can gather samples: no name twice, no record without a sample.
pub open spec fn gathered(records: Seq<Record>) -> bool {
    distinct_names(records) && all_measured(records)
}

/// `after` is `before` with the shares of one launch taken in: each name has
/// the samples that it had, followed by its share where it has one.
pub open spec fn merged(before: Seq<Record>, shares: Seq<Share>, after: Seq<Record>) -> bool {
    &&& gathered(after)
    &&& forall|name: Seq<char>| #[trigger]
        samples_of(after, name) == samples_of(before, name) + gain(shares, name)
}

/// The samples of the record at `p` are those of its name.
pub proof fn lemma_samples_at(records: Seq<Record>, p: int)
    requires
        distinct_names(records),
        0 <= p < records.len(),
    ensures
        samples_of(records, records[p].0) == records[p].1,
{
    let name = records[p].0;
    let q = choose|q: int| 0 <= q < records.len() && (#[trigger] records[q]).0 == name;
    if q < p {
        assert(records[q].0 != records[p].0);
    } else if p < q {
        assert(records[p].0 != records[q].0);
    }
}

/// The share at `p` is the gain of its name.
pub proof fn lemma_gain_at(shares: Seq<Share>, p: int)
    requires
        distinct_names(shares),
        0 <= p < shares.len(),
    ensures
        gain(shares, shares[p].0) == seq![shares[p].1],
{
    let name = shares[p].0;
    let q = choose|q: int| 0 <= q < shares.len() && (#[trigger] shares[q]).0 == name;
    if q < p {
        assert(shares[q].0 != shares[p].0);
    } else if p < q {
        assert(shares[p].0 != shares[q].0);
    }
}

/// What a launch adds for a name, told from its matches: the total of the
/// name where a complete match names it.
pub proof fn lemma_gain_of_matches(found: Seq<Groups>, shares: Seq<Share>, name: Seq<char>)
    requires
        attributed(found, shares),
    ensures
        gain(shares, name) == if named(found, name) {
            seq![total(found, name) as u64]
        } else {
            Seq::<u64>::empty()
        },
{
    if lists(shares, name) {
        let p = choose|p: int| 0 <= p < shares.len() && (#[trigger] shares[p]).0 == name;
        lemma_gain_at(shares, p);
    }
}

/// How many of the launches attributed time to `name`.
pub open spec fn launches_naming(launches: Seq<Seq<Share>>, name: Seq<char>) -> nat
    decreases launches.len(),
{
    if launches.len() == 0 {
        0
    } else {
        launches_naming(launches.drop_last(), name) + if lists(launches.last(), name) {
            1nat
        } else {
            0nat
        }
    }
}

/// `states` are the records of a run before its first launch and after each
/// launch: it begins with none, and every launch is taken in.
pub open spec fn gathers(launches: Seq<Seq<Share>>, states: Seq<Seq<Record>>) -> bool {
    &&& states.len() == launches.len() + 1
    &&& states[0].len() == 0
    &&& forall|k: int|
        0 <= k < launches.len() ==> merged(#[trigger] states[k], launches[k], states[k + 1])
}

/// A name has as many samples at the end of a run as there were launches
/// that attributed time to it: a launch that did not source it adds nothing,
/// not even a zero.
pub proof fn lemma_one_sample_per_launch(
    launches: Seq<Seq<Share>>,
    states: Seq<Seq<Record>>,
    name: Seq<char>,
)
    requires
        gathers(launches, states),
    ensures
        samples_of(states.last(), name).len() == launches_naming(launches, name),
    decreases launches.len(),
{
    if launches.len() == 0 {
        assert(!lists(states[0], name));
    } else {
        let n = launches.len() as int;
        let earlier = launches.drop_last();
        let before = states.drop_last();
        assert forall|k: int| 0 <= k < earlier.len() implies merged(
            #[trigger] before[k],
            earlier[k],
            before[k + 1],
        ) by {
            assert(merged(states[k], launches[k], states[k + 1]));
        }
        lemma_one_sample_per_launch(earlier, before, name);
        assert(before.last() == states[n - 1]);
        assert(merged(states[n - 1], launches[n - 1], states[n]));
        assert(samples_of(states[n], name) == samples_of(states[n - 1], name) + gain(
            launches[n - 1],
            name,
        ));
    }
}

/// The place of the record of `name`.
fn record_of(records: &Vec<Plugin>, name: &String) -> (at: Option<usize>)
    ensures
        match at {
            Some(p) => p < records.len() && records.deep_view()[p as int].0 == name@,
            None => !lists(records.deep_view(), name@),
        },
{
    let mut p: usize = 0;
    while p < records.len()
        invariant
            p <= records.len(),
            forall|q: int| 0 <= q < p ==> (#[trigger] records.deep_view()[q]).0 != name@,
        decreases records.len() - p,
    {
        if records[p].name == *name {
            return Some(p);
        }
        p += 1;
    }
    None
}

proof fn lemma_take_in_first(before: Seq<Record>, name: Seq<char>, time: u64, other: Seq<char>)
    requires
        gathered(before),
        !lists(before, name),
    ensures
        gathered(before.push((name, seq![time]))),
        samples_of(before.push((name, seq![time])), other) == samples_of(before, other) + if other
            == name {
            seq![time]
        } else {
            Seq::<u64>::empty()
        },
{
    let after = before.push((name, seq![time]));
    assert forall|p: int, q: int| 0 <= p < q < after.len() implies (#[trigger] after[p]).0 != (
    #[trigger] after[q]).0 by {
        assert(after[p] == before[p]);
        if q < before.len() {
            assert(after[q] == before[q]);
        }
    }
    assert forall|i: int| 0 <= i < after.len() implies (#[trigger] after[i]).1.len() > 0 by {
        if i < before.len() {
            assert(after[i] == before[i]);
        }
    }
    if other == name {
        lemma_samples_at(after, before.len() as int);
        assert(samples_of(before, other) + seq![time] =~= seq![time]);
    } else if lists(before, other) {
        let p = choose|p: int| 0 <= p < before.len() && (#[trigger] before[p]).0 == other;
        assert(after[p] == before[p]);
        lemma_samples_at(after, p);
        lemma_samples_at(before, p);
        assert(samples_of(before, other) + Seq::<u64>::empty() =~= samples_of(before, other));
    } else {
        if lists(after, other) {
            let p = choose|p: int| 0 <= p < after.len() && (#[trigger] after[p]).0 == other;
            assert(after[p] == before[p]);
        }
        assert(samples_of(before, other) + Seq::<u64>::empty() =~= samples_of(before, other));
    }
}

proof fn lemma_take_in_again(
    before: Seq<Record>,
    at: int,
    time: u64,
    after: Seq<Record>,
    other: Seq<char>,
)
    requires
        gathered(before),
        0 <= at < before.len(),
        after == before.update(at, (before[at].0, before[at].1.push(time))),
    ensures
        gathered(after),
        samples_of(after, other) == samples_of(before, other) + if other == before[at].0 {
            seq![time]
        } else {
            Seq::<u64>::empty()
        },
{
    assert forall|p: int, q: int| 0 <= p < q < after.len() implies (#[trigger] after[p]).0 != (
    #[trigger] after[q]).0 by {
        assert(after[p].0 == before[p].0);
        assert(after[q].0 == before[q].0);
    }
    assert forall|i: int| 0 <= i < after.len() implies (#[trigger] after[i]).1.len() > 0 by {
        if i != at {
            assert(after[i] == before[i]);
        }
    }
    if lists(before, other) {
        let p = choose|p: int| 0 <= p < before.len() && (#[trigger] before[p]).0 == other;
        assert(after[p].0 == other);
        lemma_samples_at(after, p);
        lemma_samples_at(before, p);
        if p == at {
            assert(before[at].1.push(time) =~= before[at].1 + seq![time]);
        } else {
            assert(before[p].0 != before[at].0);
            assert(samples_of(before, other) + Seq::<u64>::empty() =~= samples_of(before, other));
        }
    } else {
        if lists(after, other) {
            let p = choose|p: int| 0 <= p < after.len() && (#[trigger] after[p]).0 == other;
            assert(before[p].0 == other);
        }
        assert(before[at].0 != other);
        assert(samples_of(before, other) + Seq::<u64>::empty() =~= samples_of(before, other));
    }
}

proof fn lemma_gain_step(shares: Seq<Share>, j: int, name: Seq<char>)
    requires
        distinct_names(shares),
        0 <= j < shares.len(),
    ensures
        gain(shares.take(j + 1), name) == gain(shares.take(j), name) + if name == shares[j].0 {
            seq![shares[j].1]
        } else {
            Seq::<u64>::empty()
        },
        name == shares[j].0 ==> !lists(shares.take(j), name),
{
    let short = shares.take(j);
    let long = shares.take(j + 1);
    assert forall|p: int, q: int| 0 <= p < q < long.len() implies (#[trigger] long[p]).0 != (
    #[trigger] long[q]).0 by {
        assert(long[p] == shares[p] && long[q] == shares[q]);
    }
    assert forall|p: int, q: int| 0 <= p < q < short.len() implies (#[trigger] short[p]).0 != (
    #[trigger] short[q]).0 by {
        assert(short[p] == shares[p] && short[q] == shares[q]);
    }
    if lists(short, name) {
        let p = choose|p: int| 0 <= p < short.len() && (#[trigger] short[p]).0 == name;
        assert(short[p] == shares[p]);
        assert(shares[p].0 != shares[j].0);
        assert(long[p] == short[p]);
        lemma_gain_at(short, p);
        lemma_gain_at(long, p);
        assert(gain(short, name) + Seq::<u64>::empty() =~= gain(short, name));
    } else if name == shares[j].0 {
        assert(long[j] == shares[j]);
        lemma_gain_at(long, j);
        assert(gain(short, name) + seq![shares[j].1] =~= seq![shares[j].1]);
    } else {
        if lists(long, name) {
            let p = choose|p: int| 0 <= p < long.len() && (#[trigger] long[p]).0 == name;
            if p < j {
                assert(short[p] == long[p]);
            }
        }
        assert(gain(short, name) + Seq::<u64>::empty() =~= gain(short, name));
    }
}

/// Takes the shares of one launch into the records: a name that has a record
/// gets one more sample, a new name gets a record of its own, and a name
/// without a share is left as it is.
pub fn accumulate(records: &mut Vec<Plugin>, shares: &Vec<(String, u64)>)
    requires
        gathered(old(records).deep_view()),
        distinct_names(shares.deep_view()),
    ensures
        merged(old(records).deep_view(), shares.deep_view(), final(records).deep_view()),
{
    let ghost before = records.deep_view();
    let ghost all = shares.deep_view();
    let mut j: usize = 0;
    proof {
        assert forall|name: Seq<char>| #[trigger]
            samples_of(before, name) == samples_of(before, name) + gain(all.take(0), name) by {
            assert(!lists(all.take(0), name));
            assert(samples_of(before, name) + Seq::<u64>::empty() =~= samples_of(before, name));
        }
    }
    while j < shares.len()
        invariant
            j <= shares.len(),
            all == shares.deep_view(),
            all.len() == shares.len(),
            distinct_names(all),
            gathered(before),
            merged(before, all.take(j as int), records.deep_view()),
        decreases shares.len() - j,
    {
        let ghost current = records.deep_view();
        let name = &shares[j].0;
        let time = shares[j].1;
        assert(all[j as int] == (name@, time));
        match record_of(records, name) {
            Some(p) => {
                records[p].times.push(time);
                proof {
                    let after = records.deep_view();
                    assert(after =~= current.update(
                        p as int,
                        (current[p as int].0, current[p as int].1.push(time)),
                    ));
                    assert forall|other: Seq<char>| #[trigger]
                        samples_of(after, other) == samples_of(before, other) + gain(
                            all.take(j + 1),
                            other,
                        ) by {
                        lemma_take_in_again(current, p as int, time, after, other);
                        lemma_gain_step(all, j as int, other);
                        assert(samples_of(current, other) == samples_of(before, other) + gain(
                            all.take(j as int),
                            other,
                        ));
                    }
                    lemma_take_in_again(current, p as int, time, after, name@);
                }
            },
            None => {
                let mut times: Vec<u64> = Vec::new();
                times.push(time);
                records.push(Plugin::new(name.clone(), times));
                proof {
                    let after = records.deep_view();
                    assert(after =~= current.push((name@, seq![time])));
                    assert forall|other: Seq<char>| #[trigger]
                        samples_of(after, other) == samples_of(before, other) + gain(
                            all.take(j + 1),
                            other,
                        ) by {
                        lemma_take_in_first(current, name@, time, other);
                        lemma_gain_step(all, j as int, other);
                        assert(samples_of(current, other) == samples_of(before, other) + gain(
                            all.take(j as int),
                            other,
                        ));
                    }
                    lemma_take_in_first(current, name@, time, name@);
                }
            },
        }
        j += 1;
    }
    assert(all.take(j as int) =~= all);
}

} // verus!
