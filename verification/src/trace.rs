//! Reading a start-up trace: which directory holds the user's plugins, and
//! how much time each plugin took.

use vstd::prelude::*;
use crate::error::Error;
use crate::pattern::{
    find_captures, multiline_captures, plugin_pattern, plugin_pattern_for, system_pattern,
    system_pattern_for, ROOT_PATTERN,
};
use crate::root::{ballots, most_common_root, winner, Groups, SYSTEM_PREFIX};
use crate::text::{normalize, normalized};
use crate::timing::{attribute, attributed, lists, named, summable, total, Share};

verus! {

/// The second system root; the first is `SYSTEM_PREFIX`.
pub const LOCAL_PREFIX: &'static str = "/usr/local";

/// The plugin root of a trace: the winner of the vote of its timing lines,
/// taken after path separators are normalized. An error where the engine
/// refuses the pattern.
pub open spec fn inferred_root(text: Seq<char>) -> Result<Option<Seq<char>>, Error> {
    match multiline_captures(ROOT_PATTERN@, normalized(text)) {
        Some(found) => Ok(winner(ballots(found))),
        None => Err(Error::Pattern),
    }
}

/// The matches that carry the timings of a trace: those of the plugins below
/// `root`, followed where system scripts are asked for by those below each of
/// the two system roots. Nothing where the engine refuses a pattern.
pub open spec fn timing_matches(text: Seq<char>, root: Seq<char>, include_system: bool) -> Option<
    Seq<Groups>,
> {
    let plugins = multiline_captures(plugin_pattern(root), normalized(text));
    let system = multiline_captures(system_pattern(SYSTEM_PREFIX@), normalized(text));
    let local = multiline_captures(system_pattern(LOCAL_PREFIX@), normalized(text));
    if !include_system {
        plugins
    } else if plugins is Some && system is Some && local is Some {
        Some(plugins->0 + system->0 + local->0)
    } else {
        None
    }
}

/// `outcome` is what extraction yields for a trace, a root and a choice on
/// system scripts.
pub open spec fn extraction(
    text: Seq<char>,
    root: Option<Seq<char>>,
    include_system: bool,
    outcome: Result<Seq<Share>, Error>,
) -> bool {
    match root {
        None => outcome == Err::<Seq<Share>, Error>(Error::PluginDirectory),
        Some(dir) => match timing_matches(text, dir, include_system) {
            None => outcome == Err::<Seq<Share>, Error>(Error::Pattern),
            Some(found) => match outcome {
                Ok(shares) => summable(found) && attributed(found, shares),
                Err(e) => e == Error::NumericParse && !summable(found),
            },
        },
    }
}

/// The time that `shares` holds for each name it lists.
pub open spec fn share_map(shares: Seq<Share>) -> Map<Seq<char>, u64> {
    Map::new(
        |name: Seq<char>| lists(shares, name),
        |name: Seq<char>|
            shares[choose|p: int| 0 <= p < shares.len() && (#[trigger] shares[p]).0 == name].1,
    )
}

/// Extraction is repeatable: whatever it yields for a trace, a root and a
/// choice on system scripts, it yields every time, the same error or the
/// same time for the same names.
pub proof fn lemma_extraction_repeatable(
    text: Seq<char>,
    root: Option<Seq<char>>,
    include_system: bool,
    first: Result<Seq<Share>, Error>,
    second: Result<Seq<Share>, Error>,
)
    requires
        extraction(text, root, include_system, first),
        extraction(text, root, include_system, second),
    ensures
        first is Ok <==> second is Ok,
        first is Err ==> first == second,
        first is Ok ==> share_map(first->Ok_0) == share_map(second->Ok_0),
{
    if first is Ok {
        let found = timing_matches(text, root->0, include_system)->0;
        let a = first->Ok_0;
        let b = second->Ok_0;
        assert forall|name: Seq<char>| lists(a, name) <==> lists(b, name) by {
            if lists(a, name) {
                let p = choose|p: int| 0 <= p < a.len() && (#[trigger] a[p]).0 == name;
                assert(named(found, a[p].0));
            }
            if lists(b, name) {
                let p = choose|p: int| 0 <= p < b.len() && (#[trigger] b[p]).0 == name;
                assert(named(found, b[p].0));
            }
        }
        assert forall|name: Seq<char>| lists(a, name) implies share_map(a)[name] == share_map(
            b,
        )[name] by {
            let p = choose|p: int| 0 <= p < a.len() && (#[trigger] a[p]).0 == name;
            let q = choose|q: int| 0 <= q < b.len() && (#[trigger] b[q]).0 == name;
            assert(a[p].1 == total(found, a[p].0));
            assert(b[q].1 == total(found, b[q].0));
        }
        assert(share_map(a) =~= share_map(b));
    }
}

/// The outcome of an extraction as a value.
pub open spec fn shares_view(r: Result<Vec<(String, u64)>, Error>) -> Result<Seq<Share>, Error> {
    match r {
        Ok(shares) => Ok(shares.deep_view()),
        Err(e) => Err(e),
    }
}

/// Infers the directory below which the user's plugins live: the directory
/// that most timing lines of the trace place a plugin in, system directories
/// aside. `Ok(None)` where no line gives evidence.
pub fn infer_root(content: &str) -> (r: Result<Option<String>, Error>)
    ensures
        match r {
            Ok(root) => inferred_root(content@) == Ok::<Option<Seq<char>>, Error>(
                root.deep_view(),
            ),
            Err(e) => inferred_root(content@) == Err::<Option<Seq<char>>, Error>(e),
        },
{
    let text = normalize(content);
    match find_captures(ROOT_PATTERN, text.as_str()) {
        Some(found) => Ok(most_common_root(&found)),
        None => Err(Error::Pattern),
    }
}

/// Extracts the time that the trace attributes to each plugin below `root`
/// and, where `include_system` is set, to each system script by its file
/// name. Times of one name add up.
pub fn extract(content: &str, root: &Option<String>, include_system: bool) -> (r: Result<
    Vec<(String, u64)>,
    Error,
>)
    ensures
        extraction(content@, root.deep_view(), include_system, shares_view(r)),
{
    let dir = match root {
        Some(dir) => dir,
        None => {
            return Err(Error::PluginDirectory);
        },
    };
    let text = normalize(content);
    let pattern = plugin_pattern_for(dir.as_str());
    let plugins = find_captures(pattern.as_str(), text.as_str());
    if !include_system {
        return match plugins {
            Some(found) => attribute(&found),
            None => Err(Error::Pattern),
        };
    }
    let system = find_captures(system_pattern_for(SYSTEM_PREFIX).as_str(), text.as_str());
    let local = find_captures(system_pattern_for(LOCAL_PREFIX).as_str(), text.as_str());
    match (plugins, system, local) {
        (Some(mut found), Some(mut system), Some(mut local)) => {
            let ghost parts = (found.deep_view(), system.deep_view(), local.deep_view());
            found.append(&mut system);
            found.append(&mut local);
            assert(found.deep_view() =~= parts.0 + parts.1 + parts.2);
            attribute(&found)
        },
        _ => Err(Error::Pattern),
    }
}

} // verus!
