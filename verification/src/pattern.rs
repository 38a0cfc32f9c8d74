//! Shell-style glob patterns (`*`, `**`, `?`, `[...]`), matched against
//! path strings.

use vstd::prelude::*;
use crate::text::strs;

verus! {

/// What the `glob` crate says of `pattern` and `path`: `None` where
/// `pattern` does not compile, else whether the compiled pattern matches the
/// whole of `path` under the crate's default match options (case sensitive;
/// `*` and `?` may match a separator or a leading dot).
pub uninterp spec fn glob_match(pattern: Seq<char>, path: Seq<char>) -> Option<bool>;

/// Compiles `pattern` with `glob::Pattern::new` and, where that succeeds,
/// asks `glob::Pattern::matches` whether it matches `path`.
///
/// Both are computed from the two strings alone; which characters count as
/// path separators is fixed when the library is built. The contract names
/// the outcome and claims nothing of its value.
#[verifier::external_body]
fn glob_outcome(pattern: &str, path: &str) -> (r: Option<bool>)
    ensures
        r == glob_match(pattern@, path@),
{
    match glob::Pattern::new(pattern) {
        Ok(compiled) => Some(compiled.matches(path)),
        Err(_) => None,
    }
}

/// `pattern` compiles and matches `path`. A pattern that does not compile
/// matches nothing.
pub open spec fn pattern_hits(pattern: Seq<char>, path: Seq<char>) -> bool {
    glob_match(pattern, path) == Some(true)
}

/// One of `patterns` compiles and matches `path`.
pub open spec fn any_pattern_hits(patterns: Seq<Seq<char>>, path: Seq<char>) -> bool {
    exists|k: int| 0 <= k < patterns.len() && pattern_hits(#[trigger] patterns[k], path)
}

/// One of `patterns` compiles and matches one of `paths`.
pub open spec fn any_path_hit(patterns: Seq<Seq<char>>, paths: Seq<Seq<char>>) -> bool {
    exists|f: int| 0 <= f < paths.len() && any_pattern_hits(patterns, #[trigger] paths[f])
}

/// What the matcher says of `pattern` and `path`: `None` where the pattern does not
/// compile.
pub fn match_pattern(pattern: &str, path: &str) -> (r: Option<bool>)
    ensures
        r == glob_match(pattern@, path@),
{
    glob_outcome(pattern, path)
}

/// Whether a matcher outcome counts as a match: a pattern that does not
/// compile matches nothing.
pub fn outcome_is_hit(outcome: Option<bool>) -> (r: bool)
    ensures
        r == (outcome == Some(true)),
{
    match outcome {
        Some(hit) => hit,
        None => false,
    }
}

/// Whether `pattern` compiles and matches `path`.
pub fn pattern_matches(pattern: &str, path: &str) -> (r: bool)
    ensures
        r == pattern_hits(pattern@, path@),
{
    outcome_is_hit(glob_outcome(pattern, path))
}

/// Whether one of `patterns` compiles and matches `path`.
pub fn any_pattern_matches(patterns: &Vec<String>, path: &str) -> (r: bool)
    ensures
        r == any_pattern_hits(strs(patterns@), path@),
{
    let mut k: usize = 0;
    while k < patterns.len()
        invariant
            k <= patterns@.len(),
            forall|j: int| 0 <= j < k ==> !pattern_hits(#[trigger] strs(patterns@)[j], path@),
        decreases patterns.len() - k,
    {
        if pattern_matches(patterns[k].as_str(), path) {
            assert(pattern_hits(strs(patterns@)[k as int], path@));
            return true;
        }
        k += 1;
    }
    false
}

/// Whether one of `patterns` compiles and matches one of `paths`.
pub fn any_path_matches(patterns: &Vec<String>, paths: &[String]) -> (r: bool)
    ensures
        r == any_path_hit(strs(patterns@), strs(paths@)),
{
    let mut f: usize = 0;
    while f < paths.len()
        invariant
            f <= paths@.len(),
            forall|j: int|
                0 <= j < f ==> !any_pattern_hits(strs(patterns@), #[trigger] strs(paths@)[j]),
        decreases paths.len() - f,
    {
        if any_pattern_matches(patterns, paths[f].as_str()) {
            assert(any_pattern_hits(strs(patterns@), strs(paths@)[f as int]));
            return true;
        }
        f += 1;
    }
    false
}

} // verus!
