//! Session bookkeeping: each session carries a freshly drawn opaque
//! identifier and the agents that joined it.

use vstd::prelude::*;

use crate::agent::Agent;

verus! {

/// Relies on `uuid::Uuid::new_v4` and its `Display` impl: a freshly drawn
/// random version-4 UUID, rendered in the 36-character hyphenated lowercase
/// hexadecimal format. The value is random, so nothing beyond its length is
/// promised.
#[verifier::external_body]
fn fresh_session_id() -> (r: String)
    ensures
        r@.len() == 36,
{
    uuid::Uuid::new_v4().to_string()
}

/// A session: an opaque identifier plus the agents that joined it.
#[derive(Clone)]
pub struct Session {
    pub id: String,
    pub agents: Vec<Agent>,
}

impl Session {
    /// A fresh session with a newly drawn identifier and no agents.
    pub fn new() -> (r: Session)
        ensures
            r.id@.len() == 36,
            r.agents@.len() == 0,
    {
        Session { id: fresh_session_id(), agents: Vec::new() }
    }
}

} // verus!
