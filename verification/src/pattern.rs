//! The regular expressions that pick the timing lines out of a trace, and the
//! calls into the regex engine that applies them.

use vstd::prelude::*;
use vstd::string::StringExecFns;
use regex::RegexBuilder;

verus! {

/// One match of a trace pattern: the text of its first and of its second
/// capture group, each absent where the group took no part in the match.
pub type Capture = (Option<String>, Option<String>);

/// A line that sources a script below a marker directory of a plugin; the
/// first group is the directory that holds the plugin's own directory. The
/// fields are parted by white space other than a line break, and no part of
/// the pattern reaches over the end of a line, so every line counts.
pub const ROOT_PATTERN: &'static str =
    r"^\d+.\d+[\s&&[^\n]]+\d+.\d+[\s&&[^\n]]+\d+.\d+: sourcing (.+?)/(?:[^/\n]+/)(?:autoload|ftdetect|plugin|syntax)/[^/\n]+";

/// The head of every timing pattern, up to the directory that is looked for;
/// its group is the self time of the line.
pub const TIMING_PREFIX: &'static str = r"^\d+.\d+[\s&&[^\n]]+\d+.\d+[\s&&[^\n]]+(\d+.\d+): sourcing ";

/// What follows the plugin root: the plugin's directory is the second group.
pub const PLUGIN_SUFFIX: &'static str = r"/([^/\n]+)/";

/// What follows a system root, up to the line break: the script's file name
/// is the second group.
pub const SYSTEM_SUFFIX: &'static str = r"/.+/([^/\n]+.vim)\n";

/// The characters that have a meaning of their own in a pattern.
pub open spec fn is_meta(c: char) -> bool {
    c == '\\' || c == '.' || c == '+' || c == '*' || c == '?' || c == '(' || c == ')' || c == '|'
        || c == '[' || c == ']' || c == '{' || c == '}' || c == '^' || c == '$' || c == '#' || c
        == '&' || c == '-' || c == '~'
}

/// A text with a backslash put before each of its meta characters.
pub open spec fn escaped(text: Seq<char>) -> Seq<char>
    decreases text.len(),
{
    if text.len() == 0 {
        Seq::empty()
    } else if is_meta(text.last()) {
        escaped(text.drop_last()).push('\\').push(text.last())
    } else {
        escaped(text.drop_last()).push(text.last())
    }
}

/// The pattern for the timing lines of the plugins below `root`.
pub open spec fn plugin_pattern(root: Seq<char>) -> Seq<char> {
    TIMING_PREFIX@ + escaped(root) + PLUGIN_SUFFIX@
}

/// The pattern for the timing lines of the system scripts below `root`.
pub open spec fn system_pattern(root: Seq<char>) -> Seq<char> {
    TIMING_PREFIX@ + escaped(root) + SYSTEM_SUFFIX@
}

/// What the regex engine finds when it applies `pattern`, in multi-line mode,
/// to `haystack`: the first two capture groups of each successive match, or
/// nothing where it refuses the pattern, as ill-formed or as too large.
pub uninterp spec fn multiline_captures(pattern: Seq<char>, haystack: Seq<char>) -> Option<
    Seq<(Option<Seq<char>>, Option<Seq<char>>)>,
>;

/// Calls `regex::escape`, which puts a backslash before each character that
/// `regex_syntax::is_meta_character` lists and copies the others.
#[verifier::external_body]
fn escape(text: &str) -> (quoted: String)
    ensures
        quoted@ == escaped(text@),
{
    regex::escape(text)
}

/// Compiles `pattern` with `regex::RegexBuilder`, multi-line mode switched on,
/// and walks `Regex::captures_iter` over `haystack`, copying out what
/// `Captures::get` gives for groups one and two of every match. What comes
/// back is the engine's answer, which `multiline_captures` names; a pattern
/// that `RegexBuilder::build` refuses gives `None`.
#[verifier::external_body]
pub(crate) fn find_captures(pattern: &str, haystack: &str) -> (found: Option<Vec<Capture>>)
    ensures
        found.deep_view() == multiline_captures(pattern@, haystack@),
{
    let re = RegexBuilder::new(pattern).multi_line(true).build().ok()?;
    let mut found = Vec::new();
    for c in re.captures_iter(haystack) {
        let first = c.get(1).map(|m| String::from(m.as_str()));
        let second = c.get(2).map(|m| String::from(m.as_str()));
        found.push((first, second));
    }
    Some(found)
}

/// Builds the pattern for the timing lines of the plugins below `root`.
pub fn plugin_pattern_for(root: &str) -> (pattern: String)
    ensures
        pattern@ == plugin_pattern(root@),
{
    let quoted = escape(root);
    String::from_str(TIMING_PREFIX).concat(quoted.as_str()).concat(PLUGIN_SUFFIX)
}

/// Builds the pattern for the timing lines of the system scripts below `root`.
pub fn system_pattern_for(root: &str) -> (pattern: String)
    ensures
        pattern@ == system_pattern(root@),
{
    let quoted = escape(root);
    String::from_str(TIMING_PREFIX).concat(quoted.as_str()).concat(SYSTEM_SUFFIX)
}

} // verus!
