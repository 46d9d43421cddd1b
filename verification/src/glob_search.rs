//! The glob search, and what it found for a pattern.
use vstd::prelude::*;

verus! {

/// Names whether `glob::glob` accepts a pattern: it refuses a pattern that does not parse,
/// and what it accepts depends on the pattern's text alone.
pub uninterp spec fn glob_accepts(pattern: Seq<char>) -> bool;

/// What one glob search found: the pattern searched for and the texts of the paths found.
/// Only the search itself makes one, so a value of this type is always what the search
/// gave for its pattern.
#[derive(Debug)]
pub struct GlobHits {
    pattern: String,
    paths: Vec<String>,
}

impl GlobHits {
    /// The pattern searched for.
    pub closed spec fn pattern(self) -> Seq<char> {
        self.pattern@
    }

    /// The texts of the paths found, in the order found.
    pub closed spec fn found(self) -> Seq<Seq<char>> {
        self.paths@.map_values(|s: String| s@)
    }

    /// The texts of the paths found, in the order found.
    pub fn paths(&self) -> (r: &Vec<String>)
        ensures
            r@.map_values(|s: String| s@) == self.found(),
    {
        &self.paths
    }
}

/// Calls `glob::glob` and collects the texts of the paths it finds, leaving out the entries
/// it could not read, together with the pattern searched for. It is `None` exactly when
/// the pattern is refused. Which paths are found depends on the disk, and nothing is
/// stated of them.
#[verifier::external_body]
pub(crate) fn glob_matches(pattern: &str) -> (r: Option<GlobHits>)
    ensures
        r is Some <==> glob_accepts(pattern@),
        match r {
            Some(h) => h.pattern() == pattern@,
            None => true,
        },
{
    match glob::glob(pattern) {
        Ok(paths) => Some(GlobHits {
            pattern: pattern.to_string(),
            paths: paths.filter_map(Result::ok).map(|p| p.to_string_lossy().into_owned()).collect(),
        }),
        Err(_) => None,
    }
}

} // verus!
