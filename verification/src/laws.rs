//! Laws of the planner that relate whole plans to the catalog, proved once
//! and for all inputs.

use vstd::prelude::*;

verus! {

use crate::action::Action;
use crate::model::{AtomMap, achieves, in_catalog, outcome};

/// An atom that neither the start state nor any postcondition maps to the
/// wanted value stays missing or wrong after any catalog plan.
proof fn lemma_atom_never_right(
    init: AtomMap,
    acts: Seq<Action>,
    q: Seq<usize>,
    k: Seq<char>,
    v: bool,
)
    requires
        in_catalog(acts, q),
        !(init.contains_key(k) && init[k] == v),
        forall|j: int|
            0 <= j < acts.len() ==> !((#[trigger] acts[j]).post_conditions@.contains_key(k)
                && acts[j].post_conditions@[k] == v),
    ensures
        !(outcome(init, acts, q).contains_key(k) && outcome(init, acts, q)[k] == v),
    decreases q.len(),
{
    if q.len() > 0 {
        let q0 = q.drop_last();
        assert forall|i: int| 0 <= i < q0.len() implies (#[trigger] q0[i]) < acts.len() by {
            assert(q0[i] == q[i]);
        }
        lemma_atom_never_right(init, acts, q0, k, v);
        assert(q[q.len() - 1] < acts.len());
    }
}

/// Unreachable goal: when some goal atom is not already satisfied at the
/// start and no postcondition can ever satisfy it, no action sequence
/// achieves the goal, so `plan` reports the absence of a plan.
pub proof fn lemma_unreachable_goal(init: AtomMap, acts: Seq<Action>, goal: AtomMap, k: Seq<char>)
    requires
        goal.contains_key(k),
        !(init.contains_key(k) && init[k] == goal[k]),
        forall|j: int|
            0 <= j < acts.len() ==> !((#[trigger] acts[j]).post_conditions@.contains_key(k)
                && acts[j].post_conditions@[k] == goal[k]),
    ensures
        forall|q: Seq<usize>| !achieves(init, acts, q, goal),
{
    assert forall|q: Seq<usize>| !achieves(init, acts, q, goal) by {
        if achieves(init, acts, q, goal) {
            lemma_atom_never_right(init, acts, q, k, goal[k]);
        }
    }
}

/// Missing-atom goal: a goal atom absent from the start state and never
/// named by any postcondition can never be satisfied; no action sequence
/// achieves the goal, so `plan` reports the absence of a plan.
pub proof fn lemma_missing_atom_goal(init: AtomMap, acts: Seq<Action>, goal: AtomMap, k: Seq<char>)
    requires
        goal.contains_key(k),
        !init.contains_key(k),
        forall|j: int|
            0 <= j < acts.len() ==> !(#[trigger] acts[j]).post_conditions@.contains_key(k),
    ensures
        forall|q: Seq<usize>| !achieves(init, acts, q, goal),
{
    lemma_unreachable_goal(init, acts, goal, k);
}

} // verus!
