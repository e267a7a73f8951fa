//! The mathematical model of the planner: states as maps from atom names to
//! truth values, and what it means for a sequence of actions to be valid,
//! what it costs, and which state it reaches.

use vstd::prelude::*;

verus! {

use crate::action::Action;
use crate::state::State;

/// A world state as mathematics: a finite partial map from atom names to
/// truth values. An absent atom is unknown, not false.
pub type AtomMap = Map<Seq<char>, bool>;

/// Every atom constrained by `target` is present in `s` with the same value.
pub open spec fn satisfies(s: AtomMap, target: AtomMap) -> bool {
    forall|k: Seq<char>| #[trigger] target.contains_key(k)
        ==> s.contains_key(k) && s[k] == target[k]
}

/// Two states that satisfy each other's constraints are the same map.
pub proof fn lemma_satisfies_antisym(a: AtomMap, b: AtomMap)
    requires
        satisfies(a, b),
        satisfies(b, a),
    ensures
        a == b,
{
    assert(a =~= b);
}

/// The action's preconditions all hold in `s`.
pub open spec fn applicable(s: AtomMap, a: Action) -> bool {
    satisfies(s, a.pre_conditions@)
}

/// The state after the action's postconditions overwrite `s`, atom by atom;
/// atoms the postcondition does not name are kept unchanged.
pub open spec fn apply_post(s: AtomMap, a: Action) -> AtomMap {
    s.union_prefer_right(a.post_conditions@)
}

/// Every entry of `p` is an index into the catalog `acts`.
pub open spec fn in_catalog(acts: Seq<Action>, p: Seq<usize>) -> bool {
    forall|i: int| 0 <= i < p.len() ==> (#[trigger] p[i]) < acts.len()
}

/// The state reached by running the actions of `p` (indices into `acts`),
/// in order, from `s0`.
pub open spec fn outcome(s0: AtomMap, acts: Seq<Action>, p: Seq<usize>) -> AtomMap
    decreases p.len(),
{
    if p.len() == 0 {
        s0
    } else {
        apply_post(outcome(s0, acts, p.drop_last()), acts[p.last() as int])
    }
}

/// `p` only names catalog actions and each step's preconditions hold in the
/// state reached by the steps before it.
pub open spec fn valid_plan(s0: AtomMap, acts: Seq<Action>, p: Seq<usize>) -> bool {
    in_catalog(acts, p) && forall|i: int|
        0 <= i < p.len() ==> applicable(outcome(s0, acts, #[trigger] p.take(i)), acts[p[i] as int])
}

/// The summed cost of the steps of `p`.
pub open spec fn total_cost(acts: Seq<Action>, p: Seq<usize>) -> nat
    decreases p.len(),
{
    if p.len() == 0 {
        0
    } else {
        total_cost(acts, p.drop_last()) + acts[p.last() as int].cost as nat
    }
}

/// `p` really runs from `s0` and ends in a state satisfying `goal`.
pub open spec fn achieves(s0: AtomMap, acts: Seq<Action>, p: Seq<usize>, goal: AtomMap) -> bool {
    valid_plan(s0, acts, p) && satisfies(outcome(s0, acts, p), goal)
}

/// The single target atom `kv` is missing from `s` or has the wrong value.
pub open spec fn atom_mismatch(s: AtomMap, kv: (String, bool)) -> bool {
    !(s.contains_key(kv.0@) && s[kv.0@] == kv.1)
}

/// How many of the listed target atoms are missing from `s` or wrong in it.
pub open spec fn mismatches(s: AtomMap, target: Seq<(String, bool)>) -> nat
    decreases target.len(),
{
    if target.len() == 0 {
        0
    } else {
        mismatches(s, target.drop_last()) + if atom_mismatch(s, target.last()) {
            1nat
        } else {
            0nat
        }
    }
}

/// The search heuristic: the number of goal atoms not yet satisfied by `s`.
pub open spec fn heuristic(s: AtomMap, goal: State) -> nat {
    mismatches(s, goal.kvs())
}

/// Along every edge of the search graph the heuristic falls by no more than
/// the step's cost. Under this condition the returned plan's cost is minimal.
pub open spec fn consistent_heuristic(acts: Seq<Action>, goal: State) -> bool {
    forall|s: AtomMap, i: int|
        0 <= i < acts.len() && #[trigger] applicable(s, acts[i]) ==> heuristic(s, goal)
            <= acts[i].cost + heuristic(apply_post(s, acts[i]), goal)
}

/// How many of the listed atoms the map `post` names at all.
pub open spec fn named_count(post: AtomMap, kvs: Seq<(String, bool)>) -> nat
    decreases kvs.len(),
{
    if kvs.len() == 0 {
        0
    } else {
        named_count(post, kvs.drop_last()) + if post.contains_key(kvs.last().0@) {
            1nat
        } else {
            0nat
        }
    }
}

/// Overwriting a state lowers the mismatch count by no more than the number
/// of listed atoms the overwriting map names.
proof fn lemma_mismatch_step(s: AtomMap, post: AtomMap, kvs: Seq<(String, bool)>)
    ensures
        mismatches(s, kvs) <= mismatches(s.union_prefer_right(post), kvs) + named_count(
            post,
            kvs,
        ),
    decreases kvs.len(),
{
    if kvs.len() > 0 {
        lemma_mismatch_step(s, post, kvs.drop_last());
        let kv = kvs.last();
        if !post.contains_key(kv.0@) {
            assert(atom_mismatch(s.union_prefer_right(post), kv) == atom_mismatch(s, kv));
        }
    }
}

/// A checkable reason for consistency: when every action's cost covers the
/// number of goal atoms its postconditions name, the heuristic is consistent
/// and the planner's result is guaranteed minimal.
pub proof fn lemma_costs_cover_consistency(acts: Seq<Action>, goal: State)
    requires
        forall|j: int|
            0 <= j < acts.len() ==> named_count(
                (#[trigger] acts[j]).post_conditions@,
                goal.kvs(),
            ) <= acts[j].cost,
    ensures
        consistent_heuristic(acts, goal),
{
    assert forall|s: AtomMap, i: int|
        0 <= i < acts.len() && #[trigger] applicable(s, acts[i]) implies heuristic(s, goal)
        <= acts[i].cost + heuristic(apply_post(s, acts[i]), goal) by {
        lemma_mismatch_step(s, acts[i].post_conditions@, goal.kvs());
    }
}

/// A prefix of a valid plan is a valid plan.
pub proof fn lemma_valid_take(s0: AtomMap, acts: Seq<Action>, p: Seq<usize>, i: int)
    requires
        valid_plan(s0, acts, p),
        0 <= i <= p.len(),
    ensures
        valid_plan(s0, acts, p.take(i)),
{
    assert forall|j: int| 0 <= j < p.take(i).len() implies applicable(
        outcome(s0, acts, #[trigger] p.take(i).take(j)),
        acts[p.take(i)[j] as int],
    ) by {
        assert(p.take(i).take(j) =~= p.take(j));
        assert(p.take(i)[j] == p[j]);
        assert(applicable(outcome(s0, acts, p.take(j)), acts[p[j] as int]));
    }
}

/// Cutting a valid plan at `i` leaves a valid suffix that runs from the
/// prefix's outcome to the plan's outcome, and the costs add up.
pub proof fn lemma_split(s0: AtomMap, acts: Seq<Action>, p: Seq<usize>, i: int)
    requires
        valid_plan(s0, acts, p),
        0 <= i <= p.len(),
    ensures
        valid_plan(outcome(s0, acts, p.take(i)), acts, p.skip(i)),
        outcome(outcome(s0, acts, p.take(i)), acts, p.skip(i)) == outcome(s0, acts, p),
        total_cost(acts, p) == total_cost(acts, p.take(i)) + total_cost(acts, p.skip(i)),
    decreases p.len(),
{
    if i == p.len() {
        assert(p.take(i) =~= p);
        assert(p.skip(i) =~= Seq::<usize>::empty());
    } else {
        let q = p.drop_last();
        assert(p.take(p.len() - 1) =~= q);
        lemma_valid_take(s0, acts, p, p.len() - 1);
        lemma_split(s0, acts, q, i);
        let x = outcome(s0, acts, p.take(i));
        assert(q.take(i) =~= p.take(i));
        assert(p.skip(i) =~= q.skip(i).push(p.last()));
        assert(p.skip(i).drop_last() =~= q.skip(i));
        // outcome of the suffix
        assert(outcome(x, acts, p.skip(i)) == apply_post(
            outcome(x, acts, q.skip(i)),
            acts[p.last() as int],
        ));
        // validity of the suffix
        assert forall|j: int| 0 <= j < p.skip(i).len() implies applicable(
            outcome(x, acts, #[trigger] p.skip(i).take(j)),
            acts[p.skip(i)[j] as int],
        ) by {
            if j < p.skip(i).len() - 1 {
                assert(p.skip(i).take(j) =~= q.skip(i).take(j));
                assert(p.skip(i)[j] == q.skip(i)[j]);
                assert(applicable(outcome(x, acts, q.skip(i).take(j)), acts[q.skip(i)[j] as int]));
            } else {
                assert(p.skip(i).take(j) =~= q.skip(i));
                assert(p.skip(i)[j] == p.last());
                assert(outcome(x, acts, q.skip(i)) == outcome(s0, acts, q));
                assert(applicable(outcome(s0, acts, p.take(p.len() - 1)), acts[p[p.len() - 1] as int]));
            }
        }
        // costs
        assert(total_cost(acts, p.skip(i)) == total_cost(acts, q.skip(i))
            + acts[p.last() as int].cost);
    }
}

/// Appending an applicable action to a valid plan keeps it valid, applies
/// the action's postconditions, and adds the action's cost.
pub proof fn lemma_plan_extend(s0: AtomMap, acts: Seq<Action>, p: Seq<usize>, j: usize, cur: AtomMap)
    requires
        valid_plan(s0, acts, p),
        outcome(s0, acts, p) == cur,
        (j as int) < acts.len(),
        applicable(cur, acts[j as int]),
    ensures
        valid_plan(s0, acts, p.push(j)),
        outcome(s0, acts, p.push(j)) == apply_post(cur, acts[j as int]),
        total_cost(acts, p.push(j)) == total_cost(acts, p) + acts[j as int].cost,
{
    let q = p.push(j);
    assert(q.drop_last() =~= p);
    assert(q.last() == j);
    assert forall|k: int| 0 <= k < q.len() implies (#[trigger] q[k]) < acts.len() by {
        if k < p.len() {
            assert(q[k] == p[k]);
        } else {
            assert(q[k] == j);
        }
    }
    assert forall|k: int| 0 <= k < q.len() implies applicable(
        outcome(s0, acts, #[trigger] q.take(k)),
        acts[q[k] as int],
    ) by {
        if k < p.len() {
            assert(q.take(k) =~= p.take(k));
            assert(q[k] == p[k]);
            assert(applicable(outcome(s0, acts, p.take(k)), acts[p[k] as int]));
        } else {
            assert(q.take(k) =~= p);
            assert(q[k] == j);
        }
    }
}

/// Under a consistent heuristic, a valid plan from `x` cannot lower the
/// heuristic by more than its total cost.
pub proof fn lemma_consistent_suffix(x: AtomMap, acts: Seq<Action>, goal: State, q: Seq<usize>)
    requires
        consistent_heuristic(acts, goal),
        valid_plan(x, acts, q),
    ensures
        heuristic(x, goal) <= total_cost(acts, q) + heuristic(outcome(x, acts, q), goal),
    decreases q.len(),
{
    if q.len() > 0 {
        let q0 = q.drop_last();
        assert(q.take(q.len() - 1) =~= q0);
        lemma_valid_take(x, acts, q, q.len() - 1);
        lemma_consistent_suffix(x, acts, goal, q0);
        let mid = outcome(x, acts, q0);
        assert(applicable(outcome(x, acts, q.take(q.len() - 1)), acts[q[q.len() - 1] as int]));
        assert(applicable(mid, acts[q.last() as int]));
        assert(heuristic(mid, goal) <= acts[q.last() as int].cost
            + heuristic(apply_post(mid, acts[q.last() as int]), goal));
    }
}

/// A plan's cost is at most its length times the largest representable cost.
pub proof fn lemma_cost_bound(acts: Seq<Action>, p: Seq<usize>)
    ensures
        total_cost(acts, p) <= p.len() * (usize::MAX as int),
    decreases p.len(),
{
    if p.len() > 0 {
        let q = p.drop_last();
        lemma_cost_bound(acts, q);
        let m = usize::MAX as int;
        assert((p.len() - 1) * m + m == p.len() * m) by (nonlinear_arith);
    }
}

} // verus!
