//! The simulation that the engine explores.

use vstd::prelude::*;
use crate::scalar::Scalar;

verus! {

/// The state of a sequential decision problem and the ways to transform and
/// to observe it.
///
/// `valid` says when the state can be used at all; every operation keeps it.
/// `horizon` bounds the number of steps that can still be taken before the
/// state is terminal: it is what makes an episode end. `same_state`,
/// `steps_to` and `resets_to` say what a copy, a step and a reset lead to.
/// These five are predicates of the proofs and are never evaluated: an
/// implementation that is not verified may give them any body.
pub trait Simulation: Sized {
    /// The state is usable: every operation below may be called on it.
    spec fn valid(&self) -> bool;

    /// An upper bound on the number of steps before a terminal state.
    spec fn horizon(&self) -> usize;

    /// `other` holds the same state as `self`.
    spec fn same_state(&self, other: &Self) -> bool;

    /// `next` is a state that `action` may lead to from `self`.
    spec fn steps_to(&self, action: usize, next: &Self) -> bool;

    /// `next` is an initial state that a reset of `self` may lead to.
    spec fn resets_to(&self, next: &Self) -> bool;

    /// The number of possible actions.
    fn num_actions(&self) -> usize
        requires
            self.valid(),
    ;

    /// The shape of the observations.
    fn obs_shape(&self) -> Vec<usize>
        requires
            self.valid(),
    ;

    /// Sets the difficulty that `reset` aims for. A simulation without
    /// difficulties ignores it.
    fn set_difficulty(&mut self, difficulty: usize)
        requires
            old(self).valid(),
        default_ensures
            *final(self) == *old(self),
    {
    }

    /// The difficulty that `reset` aims for; 1 for a simulation without
    /// difficulties.
    fn get_difficulty(&self) -> (difficulty: usize)
        requires
            self.valid(),
        default_ensures
            difficulty == 1,
    {
        1
    }

    /// Replaces the state by the one that `state` encodes.
    fn set_state(&mut self, state: Vec<i64>)
        requires
            old(self).valid(),
    ;

    /// Replaces the state by a random initial state.
    fn reset(&mut self)
        requires
            old(self).valid(),
        ensures
            final(self).valid(),
            old(self).resets_to(final(self)),
    ;

    /// Applies one action to the state.
    fn step(&mut self, action: usize)
        requires
            old(self).valid(),
        ensures
            final(self).valid(),
            old(self).steps_to(action, final(self)),
            final(self).horizon() < old(self).horizon() || final(self).horizon() == 0,
    ;

    /// For each action, whether it is allowed in the current state. Every
    /// action is, unless the simulation says otherwise.
    fn masks(&self) -> (masks: Vec<bool>)
        requires
            self.valid(),
        default_ensures
            call_ensures(Self::num_actions, (self,), masks.len()),
            forall|i: int| 0 <= i < masks.len() ==> masks[i],
    {
        let n = self.num_actions();
        let mut masks: Vec<bool> = Vec::new();
        let mut i: usize = 0;
        while i < n
            invariant
                i <= n,
                masks.len() == i,
                forall|j: int| 0 <= j < i ==> masks[j],
            decreases n - i,
        {
            masks.push(true);
            i += 1;
        }
        masks
    }

    /// Whether the state is terminal. A state whose horizon is zero is.
    fn is_final(&self) -> (done: bool)
        requires
            self.valid(),
        ensures
            self.horizon() == 0 ==> done,
    ;

    /// The current state as a list of active feature indices.
    fn observe(&self) -> Vec<usize>
        requires
            self.valid(),
    ;

    /// Symmetries of the problem: permutations of the observation indices and
    /// the matching permutations of the actions. None, unless the simulation
    /// declares some.
    fn twists(&self) -> (twists: (Vec<Vec<usize>>, Vec<Vec<usize>>))
        requires
            self.valid(),
        default_ensures
            twists.0.len() == 0,
            twists.1.len() == 0,
    {
        (Vec::new(), Vec::new())
    }

    /// An independent copy of the state.
    fn snapshot(&self) -> (copy: Self)
        requires
            self.valid(),
        ensures
            copy.valid(),
            self.same_state(&copy),
            copy.horizon() == self.horizon(),
    ;
}

/// A sequential decision problem: a simulation with a reward, measured in
/// the numbers `S`, attached to every state.
pub trait Env<S: Scalar>: Simulation {
    /// The value of the current state.
    fn reward(&self) -> S
        requires
            self.valid(),
    ;
}

} // verus!
