//! Inference of the plugin root: the directory that most timing lines place
//! a plugin in.

use vstd::prelude::*;
use vstd::seq_lib::to_multiset_build;
use crate::pattern::Capture;
use crate::text::starts_with;

verus! {

/// A capture as a value: the two groups as texts.
pub type Groups = (Option<Seq<char>>, Option<Seq<char>>);

/// Directories that begin like this belong to the system, not to the user.
pub const SYSTEM_PREFIX: &'static str = "/usr";

/// The directory that one match votes for. A match whose first group took no
/// part, or names a system directory, abstains.
pub open spec fn ballot(g: Groups) -> Option<Seq<char>> {
    match g.0 {
        Some(dir) => if SYSTEM_PREFIX@.is_prefix_of(dir) {
            None
        } else {
            Some(dir)
        },
        None => None,
    }
}

/// The votes of all matches, in the order of the trace.
pub open spec fn ballots(found: Seq<Groups>) -> Seq<Option<Seq<char>>> {
    found.map_values(|g: Groups| ballot(g))
}

/// How often `choice` was voted for.
pub open spec fn votes(cast: Seq<Option<Seq<char>>>, choice: Option<Seq<char>>) -> nat {
    cast.to_multiset().count(choice)
}

/// The vote at `i` wins: no directory has more votes, and every directory
/// voted for earlier in the trace has fewer.
pub open spec fn wins(cast: Seq<Option<Seq<char>>>, i: int) -> bool {
    &&& 0 <= i < cast.len()
    &&& cast[i] is Some
    &&& forall|j: int|
        0 <= j < cast.len() && cast[j] is Some ==> votes(cast, #[trigger] cast[j]) <= votes(
            cast,
            cast[i],
        )
    &&& forall|j: int|
        0 <= j < i && cast[j] is Some ==> votes(cast, #[trigger] cast[j]) < votes(cast, cast[i])
}

/// `root` is the outcome of the vote: the winner, or nothing where nobody voted.
pub open spec fn elected(cast: Seq<Option<Seq<char>>>, root: Option<Seq<char>>) -> bool {
    match root {
        None => forall|j: int| 0 <= j < cast.len() ==> (#[trigger] cast[j]) is None,
        Some(dir) => exists|i: int| wins(cast, i) && cast[i] == Some(dir),
    }
}

/// The directory that the vote elects: the one of the winning vote.
pub open spec fn winner(cast: Seq<Option<Seq<char>>>) -> Option<Seq<char>> {
    if exists|i: int| wins(cast, i) {
        cast[choose|i: int| wins(cast, i)]
    } else {
        None
    }
}

/// At most one vote wins.
pub proof fn lemma_winner_unique(cast: Seq<Option<Seq<char>>>, i: int, k: int)
    requires
        wins(cast, i),
        wins(cast, k),
    ensures
        i == k,
{
    if i < k {
        assert(votes(cast, cast[i]) < votes(cast, cast[k]));
        assert(votes(cast, cast[k]) <= votes(cast, cast[i]));
    } else if k < i {
        assert(votes(cast, cast[k]) < votes(cast, cast[i]));
        assert(votes(cast, cast[i]) <= votes(cast, cast[k]));
    }
}

/// The outcome of a vote is determined by the votes.
pub proof fn lemma_elected_unique(
    cast: Seq<Option<Seq<char>>>,
    a: Option<Seq<char>>,
    b: Option<Seq<char>>,
)
    requires
        elected(cast, a),
        elected(cast, b),
    ensures
        a == b,
{
    match (a, b) {
        (Some(x), Some(y)) => {
            let i = choose|i: int| wins(cast, i) && cast[i] == Some(x);
            let k = choose|k: int| wins(cast, k) && cast[k] == Some(y);
            lemma_winner_unique(cast, i, k);
        },
        (Some(x), None) => {
            let i = choose|i: int| wins(cast, i) && cast[i] == Some(x);
            assert(cast[i] is None);
        },
        (None, Some(y)) => {
            let k = choose|k: int| wins(cast, k) && cast[k] == Some(y);
            assert(cast[k] is None);
        },
        (None, None) => {},
    }
}

/// What a vote elects is its winner.
pub proof fn lemma_elected_winner(cast: Seq<Option<Seq<char>>>, root: Option<Seq<char>>)
    requires
        elected(cast, root),
    ensures
        root == winner(cast),
{
    match root {
        Some(dir) => {
            let i = choose|i: int| wins(cast, i) && cast[i] == Some(dir);
            let k = choose|k: int| wins(cast, k);
            lemma_winner_unique(cast, i, k);
        },
        None => {
            if exists|i: int| wins(cast, i) {
                let i = choose|i: int| wins(cast, i);
                assert(cast[i] is None);
            }
        },
    }
}

/// The directory that the match at `i` votes for, if it votes.
fn ballot_at(found: &Vec<Capture>, i: usize) -> (dir: Option<&String>)
    requires
        i < found.len(),
    ensures
        dir.deep_view() == ballots(found.deep_view())[i as int],
        dir matches Some(d) ==> found@[i as int].0 == Some(*d),
{
    match &found[i].0 {
        Some(dir) => {
            if starts_with(dir.as_str(), SYSTEM_PREFIX) {
                None
            } else {
                Some(dir)
            }
        },
        None => None,
    }
}

/// The position in `firsts` of the directory `dir`, if it was voted for before.
fn position_of(found: &Vec<Capture>, firsts: &Vec<usize>, dir: &String) -> (at: Option<usize>)
    requires
        forall|p: int|
            0 <= p < firsts.len() ==> (#[trigger] firsts[p]) < found.len() && ballots(
                found.deep_view(),
            )[firsts[p] as int] is Some,
    ensures
        match at {
            Some(p) => p < firsts.len() && ballots(found.deep_view())[firsts[p as int] as int]
                == Some(dir@),
            None => forall|p: int|
                0 <= p < firsts.len() ==> ballots(found.deep_view())[#[trigger] firsts[p] as int]
                    != Some(dir@),
        },
{
    let mut p: usize = 0;
    while p < firsts.len()
        invariant
            p <= firsts.len(),
            forall|q: int|
                0 <= q < firsts.len() ==> (#[trigger] firsts[q]) < found.len() && ballots(
                    found.deep_view(),
                )[firsts[q] as int] is Some,
            forall|q: int|
                0 <= q < p ==> ballots(found.deep_view())[#[trigger] firsts[q] as int] != Some(
                    dir@,
                ),
        decreases firsts.len() - p,
    {
        let known = ballot_at(found, firsts[p]);
        match known {
            Some(d) => {
                if *d == *dir {
                    return Some(p);
                }
            },
            None => {},
        }
        p += 1;
    }
    None
}

/// The state of the count after the first `i` votes: `firsts` holds, for each
/// directory voted for so far, where it was voted for first, in rising order,
/// and `counts` its votes so far.
spec fn counted(
    cast: Seq<Option<Seq<char>>>,
    i: int,
    firsts: Seq<usize>,
    counts: Seq<usize>,
) -> bool {
    &&& 0 <= i <= cast.len()
    &&& firsts.len() == counts.len()
    &&& forall|p: int|
        0 <= p < firsts.len() ==> {
            &&& (#[trigger] firsts[p]) < i
            &&& cast[firsts[p] as int] is Some
            &&& counts[p] == votes(cast.take(i), cast[firsts[p] as int])
            &&& 1 <= counts[p] <= i
        }
    &&& forall|p: int, j: int|
        0 <= p < firsts.len() && 0 <= j < firsts[p] ==> #[trigger] cast[j] != cast[#[trigger] firsts[p] as int]
    &&& forall|p: int, q: int|
        0 <= p < q < firsts.len() ==> (#[trigger] firsts[p]) < (#[trigger] firsts[q])
    &&& forall|j: int| 0 <= j < i && (#[trigger] cast[j]) is Some ==> known(cast, firsts, j)
}

/// The directory voted for at `j` has a place in `firsts`.
spec fn known(cast: Seq<Option<Seq<char>>>, firsts: Seq<usize>, j: int) -> bool {
    exists|p: int| 0 <= p < firsts.len() && cast[#[trigger] firsts[p] as int] == cast[j]
}

proof fn lemma_take_votes(cast: Seq<Option<Seq<char>>>, i: int, choice: Option<Seq<char>>)
    requires
        0 <= i < cast.len(),
    ensures
        votes(cast.take(i + 1), choice) == votes(cast.take(i), choice) + if cast[i] == choice {
            1nat
        } else {
            0nat
        },
{
    assert(cast.take(i + 1) =~= cast.take(i).push(cast[i]));
    to_multiset_build(cast.take(i), cast[i]);
}

proof fn lemma_count_abstention(
    cast: Seq<Option<Seq<char>>>,
    i: int,
    firsts: Seq<usize>,
    counts: Seq<usize>,
)
    requires
        counted(cast, i, firsts, counts),
        i < cast.len(),
        cast[i] is None,
    ensures
        counted(cast, i + 1, firsts, counts),
{
    assert forall|p: int| 0 <= p < firsts.len() implies counts[p] == votes(
        cast.take(i + 1),
        cast[(#[trigger] firsts[p]) as int],
    ) by {
        lemma_take_votes(cast, i, cast[firsts[p] as int]);
    }
    assert forall|j: int| 0 <= j < i + 1 && (#[trigger] cast[j]) is Some implies known(
        cast,
        firsts,
        j,
    ) by {}
}

proof fn lemma_count_repeated(
    cast: Seq<Option<Seq<char>>>,
    i: int,
    firsts: Seq<usize>,
    counts: Seq<usize>,
    at: int,
)
    requires
        counted(cast, i, firsts, counts),
        i < cast.len(),
        i < usize::MAX,
        0 <= at < firsts.len(),
        cast[firsts[at] as int] == cast[i],
    ensures
        counts[at] < i + 1,
        counted(cast, i + 1, firsts, counts.update(at, (counts[at] + 1) as usize)),
{
    let next = counts.update(at, (counts[at] + 1) as usize);
    assert forall|p: int| 0 <= p < firsts.len() implies {
        &&& next[p] == votes(cast.take(i + 1), cast[(#[trigger] firsts[p]) as int])
        &&& 1 <= next[p] <= i + 1
    } by {
        lemma_take_votes(cast, i, cast[firsts[p] as int]);
        if p != at && cast[firsts[p] as int] == cast[i] {
            // two places for one directory: the later one breaks the rule
            // that nothing before a first vote names its directory
            if p < at {
                assert(firsts[p] < firsts[at]);
                assert(cast[firsts[p] as int] != cast[firsts[at] as int]);
            } else {
                assert(firsts[at] < firsts[p]);
                assert(cast[firsts[at] as int] != cast[firsts[p] as int]);
            }
        }
    }
    assert forall|j: int| 0 <= j < i + 1 && (#[trigger] cast[j]) is Some implies known(
        cast,
        firsts,
        j,
    ) by {
        if j == i {
            assert(cast[firsts[at] as int] == cast[j]);
        }
    }
}

proof fn lemma_count_first(
    cast: Seq<Option<Seq<char>>>,
    i: int,
    firsts: Seq<usize>,
    counts: Seq<usize>,
)
    requires
        counted(cast, i, firsts, counts),
        i < cast.len(),
        i <= usize::MAX,
        cast[i] is Some,
        forall|p: int| 0 <= p < firsts.len() ==> cast[#[trigger] firsts[p] as int] != cast[i],
    ensures
        counted(cast, i + 1, firsts.push(i as usize), counts.push(1)),
{
    let more = firsts.push(i as usize);
    let next = counts.push(1);
    assert forall|j: int| 0 <= j < i implies cast[j] != cast[i] by {
        if cast[j] == cast[i] {
            assert(known(cast, firsts, j));
            let p = choose|p: int| 0 <= p < firsts.len() && cast[#[trigger] firsts[p] as int] == cast[j];
            assert(false);
        }
    }
    lemma_unseen(cast, i);
    assert forall|p: int| 0 <= p < more.len() implies {
        &&& (#[trigger] more[p]) < i + 1
        &&& cast[more[p] as int] is Some
        &&& next[p] == votes(cast.take(i + 1), cast[more[p] as int])
        &&& 1 <= next[p] <= i + 1
    } by {
        lemma_take_votes(cast, i, cast[more[p] as int]);
        if p < firsts.len() {
            assert(more[p] == firsts[p]);
        }
    }
    assert forall|p: int, j: int| 0 <= p < more.len() && 0 <= j < more[p] implies #[trigger] cast[j]
        != cast[#[trigger] more[p] as int] by {
        if p < firsts.len() {
            assert(more[p] == firsts[p]);
        }
    }
    assert forall|p: int, q: int| 0 <= p < q < more.len() implies (#[trigger] more[p]) < (
    #[trigger] more[q]) by {
        assert(more[p] == firsts[p]);
        if q < firsts.len() {
            assert(more[q] == firsts[q]);
        }
    }
    assert forall|j: int| 0 <= j < i + 1 && (#[trigger] cast[j]) is Some implies known(
        cast,
        more,
        j,
    ) by {
        if j < i {
            assert(known(cast, firsts, j));
            let p = choose|p: int| 0 <= p < firsts.len() && cast[#[trigger] firsts[p] as int] == cast[j];
            assert(more[p] == firsts[p]);
        } else {
            assert(more[firsts.len() as int] == i);
        }
    }
}

/// The place with the most votes, the first of them, holds the winner.
proof fn lemma_count_winner(
    cast: Seq<Option<Seq<char>>>,
    firsts: Seq<usize>,
    counts: Seq<usize>,
    best: int,
)
    requires
        counted(cast, cast.len() as int, firsts, counts),
        0 <= best < firsts.len(),
        forall|q: int| 0 <= q < firsts.len() ==> counts[q] <= counts[best],
        forall|q: int| 0 <= q < best ==> counts[q] < counts[best],
    ensures
        wins(cast, firsts[best] as int),
{
    let winner = firsts[best] as int;
    assert(cast.take(cast.len() as int) =~= cast);
    assert forall|j: int| 0 <= j < cast.len() && cast[j] is Some implies votes(
        cast,
        #[trigger] cast[j],
    ) <= votes(cast, cast[winner]) by {
        assert(known(cast, firsts, j));
        let q = choose|q: int| 0 <= q < firsts.len() && cast[#[trigger] firsts[q] as int] == cast[j];
        assert(counts[q] <= counts[best]);
    }
    assert forall|j: int| 0 <= j < winner && cast[j] is Some implies votes(
        cast,
        #[trigger] cast[j],
    ) < votes(cast, cast[winner]) by {
        assert(known(cast, firsts, j));
        let q = choose|q: int| 0 <= q < firsts.len() && cast[#[trigger] firsts[q] as int] == cast[j];
        if q > best {
            assert(firsts[best] < firsts[q]);
            assert(cast[j] != cast[firsts[q] as int]);
        } else if q == best {
            assert(false);
        }
        assert(counts[q] < counts[best]);
    }
}

/// Counts the votes and returns the directory that wins them, the one voted
/// for first where several have the most votes.
pub fn most_common_root(found: &Vec<Capture>) -> (root: Option<String>)
    ensures
        elected(ballots(found.deep_view()), root.deep_view()),
        root.deep_view() == winner(ballots(found.deep_view())),
{
    let root = count_votes(found);
    proof {
        lemma_elected_winner(ballots(found.deep_view()), root.deep_view());
    }
    root
}

fn count_votes(found: &Vec<Capture>) -> (root: Option<String>)
    ensures
        elected(ballots(found.deep_view()), root.deep_view()),
{
    let ghost cast = ballots(found.deep_view());
    let mut firsts: Vec<usize> = Vec::new();
    let mut counts: Vec<usize> = Vec::new();
    let mut i: usize = 0;
    while i < found.len()
        invariant
            i <= found.len(),
            cast == ballots(found.deep_view()),
            cast.len() == found.len(),
            counted(cast, i as int, firsts@, counts@),
        decreases found.len() - i,
    {
        match ballot_at(found, i) {
            None => {
                proof {
                    lemma_count_abstention(cast, i as int, firsts@, counts@);
                }
            },
            Some(dir) => {
                match position_of(found, &firsts, dir) {
                    Some(p) => {
                        proof {
                            lemma_count_repeated(cast, i as int, firsts@, counts@, p as int);
                        }
                        let c = counts[p];
                        counts.set(p, c + 1);
                    },
                    None => {
                        proof {
                            lemma_count_first(cast, i as int, firsts@, counts@);
                        }
                        firsts.push(i);
                        counts.push(1);
                    },
                }
            },
        }
        i += 1;
    }
    if firsts.len() == 0 {
        assert forall|j: int| 0 <= j < cast.len() implies (#[trigger] cast[j]) is None by {
            if cast[j] is Some {
                assert(known(cast, firsts@, j));
            }
        }
        return None;
    }
    let mut best: usize = 0;
    let mut p: usize = 1;
    while p < firsts.len()
        invariant
            1 <= p <= firsts.len(),
            firsts.len() == counts.len(),
            best < p,
            forall|q: int| 0 <= q < p ==> counts[q] <= counts[best as int],
            forall|q: int| 0 <= q < best ==> counts[q] < counts[best as int],
        decreases firsts.len() - p,
    {
        if counts[p] > counts[best] {
            best = p;
        }
        p += 1;
    }
    let winner = firsts[best];
    proof {
        lemma_count_winner(cast, firsts@, counts@, best as int);
    }
    match ballot_at(found, winner) {
        Some(dir) => Some(dir.clone()),
        None => None,
    }
}

/// A directory that no earlier match voted for has no votes so far.
proof fn lemma_unseen(cast: Seq<Option<Seq<char>>>, i: int)
    requires
        0 <= i < cast.len(),
        forall|j: int| 0 <= j < i ==> cast[j] != cast[i],
    ensures
        votes(cast.take(i), cast[i]) == 0,
{
    let before = cast.take(i);
    before.to_multiset_ensures();
    if before.contains(cast[i]) {
        let j = choose|j: int| 0 <= j < before.len() && before[j] == cast[i];
        assert(cast[j] == cast[i]);
    }
}

} // verus!
