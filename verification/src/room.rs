//! Room bookkeeping: a named room and the agents in it.

use vstd::prelude::*;

use crate::agent::Agent;

verus! {

/// A room: an opaque identifier plus the agents in it.
pub struct Room {
    pub id: String,
    pub agents: Vec<Agent>,
}

} // verus!
