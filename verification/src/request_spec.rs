//! The contract between the router and the route specifications it scans.

use vstd::prelude::*;

verus! {

/// Outcome of holding one route specification against one request.
#[derive(Clone, Copy, Debug, PartialEq, Eq, Structural)]
pub enum Match {
    /// Path and method both fit.
    Yes,
    /// The path fits, the method does not.
    MethodNotAllowed,
    /// The path does not fit.
    No,
}

/// A route specification: a specificity rank and a match predicate.
///
/// Both are pure: `rank_of` and `outcome` say, as mathematical functions of
/// the specification and the request, what `rank` and `matches` return. An
/// implementation in unverified code writes the two as ordinary functions
/// that return just that.
pub trait RequestSpec {
    /// What requests look like to this kind of specification.
    type Request;

    /// The specificity score; a higher rank is a more specific route.
    spec fn rank_of(&self) -> usize;

    /// The verdict of this specification on `request`.
    spec fn outcome(&self, request: &Self::Request) -> Match;

    /// Returns the specificity score.
    fn rank(&self) -> (r: usize)
        ensures
            r == self.rank_of(),
    ;

    /// Decides whether `request` is for this route.
    fn matches(&self, request: &Self::Request) -> (m: Match)
        ensures
            m == self.outcome(request),
    ;
}

} // verus!
