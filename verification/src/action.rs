//! Actions: named, costed transformations of the world state.

use vstd::prelude::*;

verus! {

use crate::state::State;

/// An action that can be used to influence the world state: it is applicable
/// when every atom of `pre_conditions` holds, and it then overwrites every
/// atom of `post_conditions`. The name identifies the action in results.
pub struct Action {
    pub name: String,
    pub cost: usize,
    pub pre_conditions: State,
    pub post_conditions: State,
}

impl Action {
    /// Well-formed: both partial states list each atom name at most once.
    pub open spec fn wf(self) -> bool {
        self.pre_conditions.wf() && self.post_conditions.wf()
    }

    /// A new action with the given name and cost and no pre- or postconditions.
    pub fn new(name: String, cost: usize) -> (a: Action)
        ensures
            a.wf(),
            a.name == name,
            a.cost == cost,
            a.pre_conditions@ == Map::<Seq<char>, bool>::empty(),
            a.post_conditions@ == Map::<Seq<char>, bool>::empty(),
            a.pre_conditions.kvs().len() == 0,
            a.post_conditions.kvs().len() == 0,
    {
        Action { name, cost, pre_conditions: State::new(), post_conditions: State::new() }
    }
}

} // verus!
