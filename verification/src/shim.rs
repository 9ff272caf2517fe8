//! The two places where the library leans on an outside crate: glob
//! matching of reference names, and date-range parsing.

use vstd::prelude::*;

verus! {

/// Patterns longer than this are refused before the glob engine sees them.
/// The bound keeps the engine's literal matcher far below its automaton
/// size limits, whose overflow it would not report as a value; reference
/// globs are orders of magnitude shorter.
pub const MAX_GLOB_PATTERN_LEN: usize = 10000;

/// What `globset` answers when the pattern `pat` is matched against `text`:
/// within one build, a function of the two strings alone. The engine
/// normalizes path separators on non-Unix targets, so the function differs
/// between targets for backslash-holding strings.
pub uninterp spec fn glob_matches(pat: Seq<char>, text: Seq<char>) -> bool;

/// Whether `globset` accepts `pat` end to end: the pattern parses and its
/// matcher compiles. A function of the pattern alone.
pub uninterp spec fn glob_pat_ok(pat: Seq<char>) -> bool;

/// Relies on `globset::Glob::new`, `GlobSetBuilder::build` and
/// `GlobSet::is_match`: whether the glob pattern matches the text, or
/// `None` when the pattern is malformed or its matcher will not compile
/// (`build` returns the compile error as a value). Oversized patterns are
/// excluded: the set's literal fast path unwraps its automaton build, which
/// only errs far beyond this length bound. All three calls are
/// deterministic in their string arguments.
#[verifier::external_body]
pub fn glob_is_match(pat: &str, text: &str) -> (r: Option<bool>)
    requires
        pat@.len() <= MAX_GLOB_PATTERN_LEN,
    ensures
        r is Some <==> glob_pat_ok(pat@),
        r matches Some(b) ==> b == glob_matches(pat@, text@),
{
    let glob = match globset::Glob::new(pat) {
        Ok(glob) => glob,
        Err(_) => return None,
    };
    let mut builder = globset::GlobSetBuilder::new();
    builder.add(glob);
    match builder.build() {
        Ok(set) => Some(set.is_match(text)),
        Err(_) => None,
    }
}

/// Relies on `hgtime::HgTime::parse_range`: parses a date-range spec into
/// its start and end unix timestamps, `None` on a malformed spec. The
/// engine's end lies one second past the range; the evaluator filters
/// inclusively on both bounds, as the original did. Relative specs read
/// the clock, so nothing is promised of which pair comes back.
#[verifier::external_body]
pub fn parse_date_range(s: &str) -> (r: Option<(i64, i64)>)
{
    hgtime::HgTime::parse_range(s).map(|r| (r.start.unixtime, r.end.unixtime))
}

} // verus!
