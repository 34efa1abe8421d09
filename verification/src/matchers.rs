//! Path matchers: a predicate over file paths together with a hint
//! about which directories are worth visiting.

use vstd::prelude::*;
use crate::repo_path::RepoPath;

verus! {

/// What a matcher expects inside a directory.
#[derive(Debug, PartialEq, Eq, Clone, Copy)]
pub enum Visit {
    /// Nothing in the directory can match: the walk may skip it.
    Nothing,
    /// Anything in the directory may match.
    Everything,
}

impl Visit {
    pub fn is_nothing(&self) -> (r: bool)
        ensures
            r == (*self is Nothing),
    {
        match self {
            Visit::Nothing => true,
            Visit::Everything => false,
        }
    }

    pub fn is_nonempty(&self) -> (r: bool)
        ensures
            r == !(*self is Nothing),
    {
        match self {
            Visit::Nothing => false,
            Visit::Everything => true,
        }
    }
}

/// A path predicate with a directory-visit hint.  A sound matcher never
/// reports `Nothing` for a directory under which a path matches; the
/// walk relies on that to prune.
pub trait Matcher {
    spec fn matches_spec(&self, path: Seq<Seq<u8>>) -> bool;

    spec fn visit_spec(&self, dir: Seq<Seq<u8>>) -> Visit;

    fn matches(&self, path: &RepoPath) -> (r: bool)
        ensures
            r == self.matches_spec(path@),
    ;

    fn visit(&self, dir: &RepoPath) -> (r: Visit)
        ensures
            r == self.visit_spec(dir@),
    ;
}

/// The matcher that accepts every path and visits every directory.
#[derive(Debug, Clone, Copy)]
pub struct EverythingMatcher;

impl Matcher for EverythingMatcher {
    open spec fn matches_spec(&self, path: Seq<Seq<u8>>) -> bool {
        true
    }

    open spec fn visit_spec(&self, dir: Seq<Seq<u8>>) -> Visit {
        Visit::Everything
    }

    fn matches(&self, path: &RepoPath) -> (r: bool) {
        true
    }

    fn visit(&self, dir: &RepoPath) -> (r: Visit) {
        Visit::Everything
    }
}

} // verus!
