//! Participant identities: opaque strings used only for equality and lookup,
//! never parsed.

use vstd::prelude::*;

verus! {

/// A participant in an environment, named by an opaque identifier.
pub struct Agent {
    pub id: String,
}

impl Clone for Agent {
    fn clone(&self) -> (r: Self)
        ensures
            r.id@ == self.id@,
    {
        Agent { id: self.id.clone() }
    }
}

impl PartialEq for Agent {
    fn eq(&self, other: &Agent) -> (r: bool) {
        self.id == other.id
    }
}

impl vstd::std_specs::cmp::PartialEqSpecImpl for Agent {
    open spec fn obeys_eq_spec() -> bool {
        true
    }

    open spec fn eq_spec(&self, other: &Agent) -> bool {
        self.id@ == other.id@
    }
}

} // verus!
