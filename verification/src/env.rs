//! The environment abstraction: a capability contract with `step` and
//! `reset`, parameterized by an action type and a state type. Every call
//! returns a fresh result record.

use vstd::prelude::*;

use crate::agent::Agent;

verus! {

/// The uniform record returned by every `step` or `reset` call: the (copied)
/// environment state, a reward, the terminal flag, and a free-form
/// diagnostic string.
#[derive(Debug, Clone)]
pub struct EnvResult<S> {
    pub state: S,
    pub reward: i64,
    pub done: bool,
    pub info: String,
}

/// A turn-based environment. Implementations choose an invariant `inv` that
/// construction establishes and both operations preserve, and say which
/// `(agent, action)` pairs `step` accepts.
pub trait Env: Sized {
    type Action;

    type State;

    /// The implementation's well-formedness invariant.
    spec fn inv(&self) -> bool;

    /// The agent/action pairs on which `step` may be called.
    spec fn step_ok(&self, agent: &Agent, action: &Self::Action) -> bool;

    /// Applies `action` on behalf of `agent` if and only if it is currently
    /// legal; an illegal action leaves the state unchanged. Either way a
    /// fresh result record reflecting the current state comes back.
    fn step(&mut self, agent: &Agent, action: Self::Action) -> (r: EnvResult<Self::State>)
        requires
            old(self).inv(),
            old(self).step_ok(agent, &action),
        ensures
            final(self).inv(),
    ;

    /// Reinitializes the internal state to the environment's initial
    /// configuration; always succeeds, and the returned record is never
    /// terminal.
    fn reset(&mut self) -> (r: EnvResult<Self::State>)
        requires
            old(self).inv(),
        ensures
            final(self).inv(),
            !r.done,
    ;
}

} // verus!
