//! What the engine asks of a process.

use vstd::prelude::*;

verus! {

/// A unit with a state-dependent rate and a state-changing effect.
///
/// The rate is a non-negative integer propensity. A rate of 0 means that the
/// process is inert under the state but stays registered. The three
/// specification functions say what the process is; `rate` and `perform` are
/// held to them.
pub trait Process<S> {
    /// Whether the process is defined on the state: its rate can be
    /// evaluated and, while that rate is positive, its effect can be applied.
    spec fn admits(&self, state: &S) -> bool;

    /// The rate of the process under the state.
    spec fn rate_of(&self, state: &S) -> u64;

    /// Whether firing the process on `state` may leave the process as `next`
    /// and the state as `after`.
    spec fn fires(&self, state: &S, next: &Self, after: &S) -> bool;

    /// Evaluates the rate under the state.
    fn rate(&self, state: &S) -> (rate: u64)
        requires
            self.admits(state),
        ensures
            rate == self.rate_of(state),
    ;

    /// Fires the process: applies its effect to the state.
    fn perform(&mut self, state: &mut S)
        requires
            old(self).admits(old(state)),
            old(self).rate_of(old(state)) > 0,
        ensures
            old(self).fires(old(state), final(self), final(state)),
    ;
}

} // verus!
