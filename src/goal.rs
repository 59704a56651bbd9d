use std::hash::Hash;
use vstd::prelude::*;

verus! {

/// A condition on states that a plan tries to bring about.
///
/// Besides the test itself, a goal gives a heuristic estimate of the cost that
/// remains (it should never overestimate) and a priority, which may depend on
/// the state; goals are ranked by priority in descending order.
pub trait Goal<S: Clone + Hash + Eq>: Sized {
    /// Whether the goal holds in `state`.
    ///
    /// A verified implementation defines this and the other spec functions;
    /// the defaults only let an unverified one leave them out.
    open spec fn satisfied(&self, state: S) -> bool {
        false
    }

    /// The estimated remaining cost from `state`.
    open spec fn estimate(&self, state: S) -> int {
        0
    }

    /// The goal's priority in `state`.
    open spec fn rank(&self, state: S) -> int {
        0
    }

    /// Returns true if the goal is satisfied in the given state.
    fn is_satisfied(&self, state: &S) -> (r: bool)
        ensures
            r == self.satisfied(*state),
    ;

    /// Returns an estimate of the cost that remains to satisfy the goal from the given state.
    fn heuristic(&self, state: &S) -> (r: i32)
        ensures
            r as int == self.estimate(*state),
    ;

    /// Returns the priority of this goal in the given state.
    fn priority(&self, state: &S) -> (r: i32)
        ensures
            r as int == self.rank(*state),
    ;
}

} // verus!
