//! Attribution: the self time of every timing line, credited to the plugin or
//! the script that the line names, and summed per name.

use vstd::prelude::*;
use crate::duration::{duration_of, parse_duration};
use crate::error::Error;
use crate::pattern::Capture;
use crate::root::Groups;

verus! {

/// A name with the time attributed to it.
pub type Share = (Seq<char>, u64);

/// The match names something and carries a time for it.
pub open spec fn complete(g: Groups) -> bool {
    g.0 is Some && g.1 is Some
}

/// The time of a complete match can be read.
pub open spec fn readable(g: Groups) -> bool {
    complete(g) ==> duration_of(g.0->0) is Some
}

/// What one match adds to the time of `name`.
pub open spec fn credit(g: Groups, name: Seq<char>) -> nat {
    if complete(g) && g.1->0 == name && duration_of(g.0->0) is Some {
        duration_of(g.0->0)->0 as nat
    } else {
        0
    }
}

/// The time that all the matches together attribute to `name`.
pub open spec fn total(found: Seq<Groups>, name: Seq<char>) -> nat
    decreases found.len(),
{
    if found.len() == 0 {
        0
    } else {
        total(found.drop_last(), name) + credit(found.last(), name)
    }
}

/// Some complete match names `name`.
pub open spec fn named(found: Seq<Groups>, name: Seq<char>) -> bool {
    exists|i: int| 0 <= i < found.len() && complete(#[trigger] found[i]) && found[i].1->0 == name
}

/// Every time can be read and every sum fits in `u64`.
pub open spec fn summable(found: Seq<Groups>) -> bool {
    &&& forall|i: int| 0 <= i < found.len() ==> readable(#[trigger] found[i])
    &&& forall|name: Seq<char>| #[trigger] total(found, name) <= u64::MAX
}

/// No name stands twice in `shares`.
pub open spec fn distinct_names<T>(shares: Seq<(Seq<char>, T)>) -> bool {
    forall|p: int, q: int|
        0 <= p < q < shares.len() ==> (#[trigger] shares[p]).0 != (#[trigger] shares[q]).0
}

/// `shares` lists `name`.
pub open spec fn lists<T>(shares: Seq<(Seq<char>, T)>, name: Seq<char>) -> bool {
    exists|p: int| 0 <= p < shares.len() && (#[trigger] shares[p]).0 == name
}

/// `shares` is the attribution of the matches: one share for each name that
/// a complete match names, holding the sum of the times of its matches.
pub open spec fn attributed(found: Seq<Groups>, shares: Seq<Share>) -> bool {
    &&& distinct_names(shares)
    &&& forall|p: int|
        0 <= p < shares.len() ==> named(found, (#[trigger] shares[p]).0) && shares[p].1 == total(
            found,
            shares[p].0,
        )
    &&& forall|name: Seq<char>| #[trigger] named(found, name) ==> lists(shares, name)
}

proof fn lemma_total_step(found: Seq<Groups>, i: int, name: Seq<char>)
    requires
        0 <= i < found.len(),
    ensures
        total(found.take(i + 1), name) == total(found.take(i), name) + credit(found[i], name),
{
    assert(found.take(i + 1).drop_last() =~= found.take(i));
}

proof fn lemma_total_grows(found: Seq<Groups>, i: int, name: Seq<char>)
    requires
        0 <= i <= found.len(),
    ensures
        total(found.take(i), name) <= total(found, name),
    decreases found.len() - i,
{
    if i < found.len() {
        lemma_total_step(found, i, name);
        lemma_total_grows(found, i + 1, name);
    } else {
        assert(found.take(i) =~= found);
    }
}

proof fn lemma_named_step(found: Seq<Groups>, i: int, name: Seq<char>)
    requires
        0 <= i < found.len(),
    ensures
        named(found.take(i + 1), name) <==> named(found.take(i), name) || (complete(found[i])
            && found[i].1->0 == name),
{
    let short = found.take(i);
    let long = found.take(i + 1);
    if named(short, name) {
        let k = choose|k: int| 0 <= k < short.len() && complete(#[trigger] short[k]) && short[k].1->0 == name;
        assert(long[k] == short[k]);
    }
    if complete(found[i]) && found[i].1->0 == name {
        assert(long[i] == found[i]);
    }
    if named(long, name) {
        let k = choose|k: int| 0 <= k < long.len() && complete(#[trigger] long[k]) && long[k].1->0 == name;
        if k < i {
            assert(short[k] == long[k]);
        }
    }
}

/// The state of the sums after the first `i` matches: their times could be
/// read, and `shares` is their attribution.
spec fn summed(found: Seq<Groups>, i: int, shares: Seq<Share>) -> bool {
    &&& 0 <= i <= found.len()
    &&& forall|j: int| 0 <= j < i ==> readable(#[trigger] found[j])
    &&& attributed(found.take(i), shares)
}

/// A name that no share lists has no time.
proof fn lemma_unlisted(found: Seq<Groups>, shares: Seq<Share>, name: Seq<char>)
    requires
        attributed(found, shares),
        !lists(shares, name),
    ensures
        total(found, name) == 0,
{
    assert(!named(found, name));
    lemma_unnamed(found, name);
}

/// A name that no complete match names has no time.
proof fn lemma_unnamed(found: Seq<Groups>, name: Seq<char>)
    requires
        !named(found, name),
    ensures
        total(found, name) == 0,
    decreases found.len(),
{
    if found.len() > 0 {
        let rest = found.drop_last();
        if named(rest, name) {
            let k = choose|k: int|
                0 <= k < rest.len() && complete(#[trigger] rest[k]) && rest[k].1->0 == name;
            assert(found[k] == rest[k]);
        }
        assert(found[found.len() - 1] == found.last());
        lemma_unnamed(rest, name);
    }
}

/// A match that names nothing, or carries no time, leaves the sums as they are.
proof fn lemma_sum_incomplete(found: Seq<Groups>, i: int, shares: Seq<Share>)
    requires
        summed(found, i, shares),
        i < found.len(),
        !complete(found[i]),
    ensures
        summed(found, i + 1, shares),
{
    assert forall|q: int| 0 <= q < shares.len() implies named(
        found.take(i + 1),
        (#[trigger] shares[q]).0,
    ) && shares[q].1 == total(found.take(i + 1), shares[q].0) by {
        lemma_named_step(found, i, shares[q].0);
        lemma_total_step(found, i, shares[q].0);
    }
    assert forall|name: Seq<char>| #[trigger] named(found.take(i + 1), name) implies lists(
        shares,
        name,
    ) by {
        lemma_named_step(found, i, name);
    }
}

/// A match for a name that has a share adds its time to the share.
proof fn lemma_sum_again(found: Seq<Groups>, i: int, shares: Seq<Share>, at: int, time: u64)
    requires
        summed(found, i, shares),
        i < found.len(),
        complete(found[i]),
        duration_of(found[i].0->0) == Some(time),
        0 <= at < shares.len(),
        shares[at].0 == found[i].1->0,
    ensures
        total(found.take(i + 1), shares[at].0) == shares[at].1 + time,
        shares[at].1 + time <= u64::MAX ==> summed(
            found,
            i + 1,
            shares.update(at, (shares[at].0, (shares[at].1 + time) as u64)),
        ),
{
    let name = shares[at].0;
    lemma_total_step(found, i, name);
    if shares[at].1 + time <= u64::MAX {
        let after = shares.update(at, (name, (shares[at].1 + time) as u64));
        assert forall|p: int, q: int| 0 <= p < q < after.len() implies (#[trigger] after[p]).0 != (
        #[trigger] after[q]).0 by {
            assert(after[p].0 == shares[p].0 && after[q].0 == shares[q].0);
        }
        assert forall|q: int| 0 <= q < after.len() implies named(
            found.take(i + 1),
            (#[trigger] after[q]).0,
        ) && after[q].1 == total(found.take(i + 1), after[q].0) by {
            lemma_named_step(found, i, after[q].0);
            lemma_total_step(found, i, after[q].0);
            assert(after[q].0 == shares[q].0);
            if q < at {
                assert(shares[q].0 != shares[at].0);
            } else if at < q {
                assert(shares[at].0 != shares[q].0);
            }
        }
        assert forall|other: Seq<char>| #[trigger]
            named(found.take(i + 1), other) implies lists(after, other) by {
            lemma_named_step(found, i, other);
            if named(found.take(i), other) {
                let q = choose|q: int| 0 <= q < shares.len() && (#[trigger] shares[q]).0 == other;
                assert(after[q].0 == other);
            } else {
                assert(after[at].0 == other);
            }
        }
    }
}

/// A match for a name that has no share yet gives it one.
proof fn lemma_sum_first(found: Seq<Groups>, i: int, shares: Seq<Share>, time: u64)
    requires
        summed(found, i, shares),
        i < found.len(),
        complete(found[i]),
        duration_of(found[i].0->0) == Some(time),
        !lists(shares, found[i].1->0),
    ensures
        summed(found, i + 1, shares.push((found[i].1->0, time))),
{
    let name = found[i].1->0;
    let after = shares.push((name, time));
    lemma_unlisted(found.take(i), shares, name);
    assert forall|p: int, q: int| 0 <= p < q < after.len() implies (#[trigger] after[p]).0 != (
    #[trigger] after[q]).0 by {
        assert(after[p] == shares[p]);
        if q < shares.len() {
            assert(after[q] == shares[q]);
        }
    }
    assert forall|q: int| 0 <= q < after.len() implies named(
        found.take(i + 1),
        (#[trigger] after[q]).0,
    ) && after[q].1 == total(found.take(i + 1), after[q].0) by {
        lemma_named_step(found, i, after[q].0);
        lemma_total_step(found, i, after[q].0);
        if q < shares.len() {
            assert(after[q] == shares[q]);
        }
    }
    assert forall|other: Seq<char>| #[trigger]
        named(found.take(i + 1), other) implies lists(after, other) by {
        lemma_named_step(found, i, other);
        if named(found.take(i), other) {
            let q = choose|q: int| 0 <= q < shares.len() && (#[trigger] shares[q]).0 == other;
            assert(after[q] == shares[q]);
        } else {
            assert(after[shares.len() as int].0 == other);
        }
    }
}

/// Sums that stand after the last match are the attribution of all of them.
proof fn lemma_sum_all(found: Seq<Groups>, shares: Seq<Share>)
    requires
        summed(found, found.len() as int, shares),
    ensures
        summable(found),
        attributed(found, shares),
{
    assert(found.take(found.len() as int) =~= found);
    assert forall|name: Seq<char>| #[trigger] total(found, name) <= u64::MAX by {
        if lists(shares, name) {
            let q = choose|q: int| 0 <= q < shares.len() && (#[trigger] shares[q]).0 == name;
            assert(shares[q].1 == total(found, name));
        } else {
            lemma_unlisted(found, shares, name);
        }
    }
}

/// The place of `name` among the names so far.
fn share_of(shares: &Vec<(String, u64)>, name: &String) -> (at: Option<usize>)
    ensures
        match at {
            Some(p) => p < shares.len() && shares.deep_view()[p as int].0 == name@,
            None => !lists(shares.deep_view(), name@),
        },
{
    let mut p: usize = 0;
    while p < shares.len()
        invariant
            p <= shares.len(),
            forall|q: int| 0 <= q < p ==> (#[trigger] shares.deep_view()[q]).0 != name@,
        decreases shares.len() - p,
    {
        if shares[p].0 == *name {
            return Some(p);
        }
        p += 1;
    }
    None
}

/// Sums the times of the matches per name. Fails with `NumericParse` where a
/// time cannot be read or a sum does not fit, and never drops a match.
pub fn attribute(found: &Vec<Capture>) -> (r: Result<Vec<(String, u64)>, Error>)
    ensures
        match r {
            Ok(shares) => summable(found.deep_view()) && attributed(
                found.deep_view(),
                shares.deep_view(),
            ),
            Err(e) => e is NumericParse && !summable(found.deep_view()),
        },
{
    let ghost all = found.deep_view();
    let mut shares: Vec<(String, u64)> = Vec::new();
    let mut i: usize = 0;
    proof {
        assert forall|name: Seq<char>| !named(all.take(0), name) by {}
    }
    while i < found.len()
        invariant
            all == found.deep_view(),
            all.len() == found.len(),
            summed(all, i as int, shares.deep_view()),
        decreases found.len() - i,
    {
        let ghost before = shares.deep_view();
        match (&found[i].0, &found[i].1) {
            (Some(token), Some(name)) => {
                let time = match parse_duration(token.as_str()) {
                    Some(time) => time,
                    None => {
                        assert(!readable(all[i as int]));
                        return Err(Error::NumericParse);
                    },
                };
                match share_of(&shares, name) {
                    Some(p) => {
                        proof {
                            lemma_sum_again(all, i as int, before, p as int, time);
                        }
                        let sum = match shares[p].1.checked_add(time) {
                            Some(sum) => sum,
                            None => {
                                proof {
                                    lemma_total_grows(all, i + 1, name@);
                                    assert(total(all, name@) > u64::MAX);
                                }
                                return Err(Error::NumericParse);
                            },
                        };
                        shares[p].1 = sum;
                        assert(shares.deep_view() =~= before.update(p as int, (name@, sum)));
                    },
                    None => {
                        proof {
                            lemma_sum_first(all, i as int, before, time);
                        }
                        shares.push((name.clone(), time));
                        assert(shares.deep_view() =~= before.push((name@, time)));
                    },
                }
            },
            _ => {
                proof {
                    lemma_sum_incomplete(all, i as int, before);
                }
            },
        }
        i += 1;
    }
    proof {
        lemma_sum_all(all, shares.deep_view());
    }
    Ok(shares)
}

} // verus!
