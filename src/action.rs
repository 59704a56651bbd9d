use std::hash::Hash;
use vstd::prelude::*;

verus! {

/// Cloning a value of `T` yields a value equal to it (value semantics).
pub open spec fn clones_equal<T: Clone>() -> bool {
    forall|a: T, b: T| #[trigger] call_ensures(T::clone, (&a,), b) ==> a == b
}

/// A state transition with a pre-condition and a cost.
///
/// The spec functions describe the transition mathematically; the executable
/// methods must agree with them. Enums make good implementations, since a
/// returned plan can then be matched step by step.
pub trait Action<S: Clone + Hash + Eq>: Sized {
    /// Whether the action may be taken in `state`.
    ///
    /// A verified implementation defines this and the other spec functions;
    /// the defaults only let an unverified one leave them out.
    open spec fn applicable(&self, state: S) -> bool {
        true
    }

    /// The state that taking the action in `state` leads to.
    open spec fn successor(&self, state: S) -> S {
        state
    }

    /// What taking the action in `state` costs.
    open spec fn step_cost(&self, state: S) -> int {
        1
    }

    /// Returns true if the action can be applied to the given state.
    fn is_applicable(&self, state: &S) -> (r: bool)
        ensures
            r == self.applicable(*state),
    ;

    /// Applies the action to the given state in place.
    fn apply_mut(&self, state: &mut S)
        requires
            self.applicable(*old(state)),
        ensures
            *final(state) == self.successor(*old(state)),
    ;

    /// Returns a copy of the given state with the action applied.
    fn apply(&self, state: &S) -> (r: S)
        requires
            self.applicable(*state),
            clones_equal::<S>(),
        ensures
            r == self.successor(*state),
    {
        let mut new_state = state.clone();
        self.apply_mut(&mut new_state);
        new_state
    }

    /// Returns the cost of applying the action to the given state.
    fn cost(&self, state: &S) -> (r: i32)
        ensures
            r as int == self.step_cost(*state),
    ;
}

} // verus!
