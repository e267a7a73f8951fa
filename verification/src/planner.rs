//! The best-first search engine: a frontier ordered by accumulated cost plus
//! heuristic, a closed set of expanded states, and plan extraction.

use vstd::prelude::*;

verus! {

use vstd::slice::slice_index_get;
use crate::action::Action;
use crate::model::{
    AtomMap, achieves, applicable, apply_post, consistent_heuristic, heuristic,
    lemma_consistent_suffix, lemma_cost_bound, lemma_plan_extend, lemma_split, lemma_valid_take,
    outcome, satisfies, total_cost, valid_plan,
};
use crate::space::{
    dom_within, lemma_dom_concat_left, lemma_dom_names, lemma_maps_over_finite,
    lemma_post_names_contains, lemma_space_bound, maps_over, names_of, search_names,
};
use crate::state::State;

/// One frontier entry: a reached state, the plan that reached it, the plan's
/// cost `g`, the heuristic value `h` of the state, and the priority `f`.
struct Entry {
    state: State,
    path: Vec<usize>,
    g: u128,
    f: u128,
    h: usize,
}

/// The entry's bookkeeping is truthful: its plan is valid, reaches its state,
/// and its cost and priority fields are what they claim.
spec fn entry_ok(init: AtomMap, acts: Seq<Action>, goal: State, e: Entry) -> bool {
    &&& e.state.wf()
    &&& valid_plan(init, acts, e.path@)
    &&& outcome(init, acts, e.path@) == e.state@
    &&& e.g as nat == total_cost(acts, e.path@)
    &&& e.h as nat == heuristic(e.state@, goal)
    &&& e.f as int == e.g as int + e.h as int
}

/// The state was already expanded.
spec fn closed_has(closed: Seq<State>, s: AtomMap) -> bool {
    exists|i: int| 0 <= i < closed.len() && closed[i]@ == s
}

/// Some frontier entry reaches the state.
spec fn frontier_has(fr: Seq<Entry>, s: AtomMap) -> bool {
    exists|i: int| 0 <= i < fr.len() && fr[i].state@ == s
}

/// Removing one entry keeps every other reached state in the frontier.
proof fn lemma_frontier_remove(fr: Seq<Entry>, m: int, s: AtomMap)
    requires
        0 <= m < fr.len(),
        frontier_has(fr, s),
    ensures
        fr[m].state@ == s || frontier_has(fr.remove(m), s),
{
    let i = choose|i: int| 0 <= i < fr.len() && fr[i].state@ == s;
    if i != m {
        if i < m {
            assert(fr.remove(m)[i] == fr[i]);
        } else {
            assert(fr.remove(m)[i - 1] == fr[i]);
        }
    }
}

/// Some frontier entry reaches the state at recorded cost at most `c`.
spec fn frontier_covers(fr: Seq<Entry>, s: AtomMap, c: int) -> bool {
    exists|i: int| 0 <= i < fr.len() && fr[i].state@ == s && fr[i].g as int <= c
}

/// The state is recorded as reachable at cost at most `c`: either expanded
/// with that distance, or sitting in the frontier with that cost.
spec fn cost_covered(
    closed: Seq<State>,
    dist: Map<AtomMap, int>,
    fr: Seq<Entry>,
    s: AtomMap,
    c: int,
) -> bool {
    (closed_has(closed, s) && dist[s] <= c) || frontier_covers(fr, s, c)
}

/// `d` is a lower bound on the cost of every valid plan reaching `s`.
spec fn dist_lower_bound(init: AtomMap, acts: Seq<Action>, s: AtomMap, d: int) -> bool {
    forall|q: Seq<usize>|
        #![trigger valid_plan(init, acts, q)]
        valid_plan(init, acts, q) && outcome(init, acts, q) == s ==> d <= total_cost(acts, q)
}

/// Removing one entry keeps every other cost record in the frontier.
proof fn lemma_covers_remove(fr: Seq<Entry>, m: int, s: AtomMap, c: int)
    requires
        0 <= m < fr.len(),
        frontier_covers(fr, s, c),
    ensures
        (fr[m].state@ == s && fr[m].g as int <= c) || frontier_covers(fr.remove(m), s, c),
{
    let i = choose|i: int| 0 <= i < fr.len() && fr[i].state@ == s && fr[i].g as int <= c;
    if i != m {
        if i < m {
            assert(fr.remove(m)[i] == fr[i]);
        } else {
            assert(fr.remove(m)[i - 1] == fr[i]);
        }
    }
}

/// The cut argument: any valid plan either ends in an expanded state whose
/// recorded distance undercuts the plan's cost, or crosses the frontier at
/// some prefix whose recorded cost undercuts the prefix's cost.
proof fn lemma_cut(
    init: AtomMap,
    acts: Seq<Action>,
    closed: Seq<State>,
    dist: Map<AtomMap, int>,
    fr: Seq<Entry>,
    q: Seq<usize>,
)
    requires
        valid_plan(init, acts, q),
        cost_covered(closed, dist, fr, init, 0),
        forall|i: int, j: int|
            0 <= i < closed.len() && 0 <= j < acts.len() && applicable(
                (#[trigger] closed[i])@,
                #[trigger] acts[j],
            ) ==> cost_covered(
                closed,
                dist,
                fr,
                apply_post(closed[i]@, acts[j]),
                dist[closed[i]@] + acts[j].cost as int,
            ),
    ensures
        (closed_has(closed, outcome(init, acts, q)) && dist[outcome(init, acts, q)] <= total_cost(
            acts,
            q,
        ) as int) || (exists|ei: int, i: int|
            #![trigger fr[ei], q.take(i)]
            0 <= ei < fr.len() && 0 <= i <= q.len() && fr[ei].state@ == outcome(
                init,
                acts,
                q.take(i),
            ) && fr[ei].g as int <= total_cost(acts, q.take(i)) as int && total_cost(
                acts,
                q.take(i),
            ) <= total_cost(acts, q)),
    decreases q.len(),
{
    if q.len() == 0 {
        if !(closed_has(closed, init) && dist[init] <= 0) {
            let ei = choose|ei: int|
                0 <= ei < fr.len() && fr[ei].state@ == init && fr[ei].g as int <= 0;
            assert(q.take(0) =~= q);
            assert(fr[ei].state@ == outcome(init, acts, q.take(0)));
        }
    } else {
        let q0 = q.drop_last();
        assert(q.take(q.len() - 1) =~= q0);
        lemma_valid_take(init, acts, q, q.len() - 1);
        lemma_cut(init, acts, closed, dist, fr, q0);
        let mid = outcome(init, acts, q0);
        if closed_has(closed, mid) && dist[mid] <= total_cost(acts, q0) as int {
            let i = choose|i: int| 0 <= i < closed.len() && closed[i]@ == mid;
            assert(applicable(
                outcome(init, acts, q.take(q.len() - 1)),
                acts[q[q.len() - 1] as int],
            ));
            assert(applicable(closed[i]@, acts[q.last() as int]));
            assert(cost_covered(
                closed,
                dist,
                fr,
                apply_post(mid, acts[q.last() as int]),
                dist[mid] + acts[q.last() as int].cost as int,
            ));
            if !(closed_has(closed, outcome(init, acts, q)) && dist[outcome(init, acts, q)]
                <= total_cost(acts, q) as int) {
                let ei = choose|ei: int|
                    0 <= ei < fr.len() && fr[ei].state@ == outcome(init, acts, q) && fr[ei].g as int
                        <= dist[mid] + acts[q.last() as int].cost as int;
                assert(q.take(q.len() as int) =~= q);
                assert(fr[ei].state@ == outcome(init, acts, q.take(q.len() as int)));
            }
        } else {
            let (ei, i) = choose|ei: int, i: int|
                #![trigger fr[ei], q0.take(i)]
                0 <= ei < fr.len() && 0 <= i <= q0.len() && fr[ei].state@ == outcome(
                    init,
                    acts,
                    q0.take(i),
                ) && fr[ei].g as int <= total_cost(acts, q0.take(i)) as int && total_cost(
                    acts,
                    q0.take(i),
                ) <= total_cost(acts, q0);
            assert(q0.take(i) =~= q.take(i));
        }
    }
}

/// When every expanded state keeps its successors inside the closed set,
/// every valid plan ends in the closed set.
proof fn lemma_reach_closed(init: AtomMap, acts: Seq<Action>, closed: Seq<State>, q: Seq<usize>)
    requires
        valid_plan(init, acts, q),
        closed_has(closed, init),
        forall|i: int, j: int|
            0 <= i < closed.len() && 0 <= j < acts.len() && applicable(
                (#[trigger] closed[i])@,
                #[trigger] acts[j],
            ) ==> closed_has(closed, apply_post(closed[i]@, acts[j])),
    ensures
        closed_has(closed, outcome(init, acts, q)),
    decreases q.len(),
{
    if q.len() > 0 {
        let q0 = q.drop_last();
        assert(q.take(q.len() - 1) =~= q0);
        lemma_valid_take(init, acts, q, q.len() - 1);
        lemma_reach_closed(init, acts, closed, q0);
        let mid = outcome(init, acts, q0);
        let i = choose|i: int| 0 <= i < closed.len() && closed[i]@ == mid;
        assert(applicable(outcome(init, acts, q.take(q.len() - 1)), acts[q[q.len() - 1] as int]));
        assert(applicable(closed[i]@, acts[q.last() as int]));
    }
}

/// The index of a frontier entry with the lowest priority; ties fall to the
/// lower heuristic, then to the earliest entry, for deterministic results.
fn find_min(frontier: &Vec<Entry>) -> (m: usize)
    requires
        frontier@.len() > 0,
    ensures
        (m as int) < frontier@.len(),
        forall|k: int|
            0 <= k < frontier@.len() ==> frontier@[m as int].f <= (#[trigger] frontier@[k]).f,
{
    let mut best: usize = 0;
    let mut i: usize = 1;
    while i < frontier.len()
        invariant
            (best as int) < frontier@.len(),
            1 <= i as int <= frontier@.len(),
            forall|k: int|
                0 <= k < i as int ==> frontier@[best as int].f <= (#[trigger] frontier@[k]).f,
        decreases frontier@.len() - i as int,
    {
        let better = frontier[i].f < frontier[best].f || (frontier[i].f == frontier[best].f
            && frontier[i].h < frontier[best].h);
        if better {
            best = i;
        }
        i += 1;
    }
    best
}

/// Whether the closed set already holds this very state.
fn state_in(closed: &Vec<State>, s: &State) -> (r: bool)
    requires
        s.wf(),
        forall|i: int| 0 <= i < closed@.len() ==> (#[trigger] closed@[i]).wf(),
    ensures
        r == closed_has(closed@, s@),
{
    let n = closed.len();
    let mut i: usize = 0;
    while i < n
        invariant
            s.wf(),
            n == closed@.len(),
            0 <= i as int <= n as int,
            forall|i2: int| 0 <= i2 < closed@.len() ==> (#[trigger] closed@[i2]).wf(),
            forall|j: int| 0 <= j < i as int ==> (#[trigger] closed@[j])@ != s@,
        decreases n - i,
    {
        if closed[i].matches(s) && s.matches(&closed[i]) {
            proof {
                crate::model::lemma_satisfies_antisym(closed@[i as int]@, s@);
            }
            return true;
        }
        i += 1;
    }
    false
}

/// An identical copy of a plan prefix.
fn copy_path(p: &Vec<usize>) -> (r: Vec<usize>)
    ensures
        r@ == p@,
{
    let n = p.len();
    let mut out: Vec<usize> = Vec::new();
    let mut i: usize = 0;
    while i < n
        invariant
            n == p@.len(),
            0 <= i as int <= n as int,
            out@ == p@.take(i as int),
        decreases n - i,
    {
        out.push(p[i]);
        proof {
            assert(out@ =~= p@.take(i as int + 1));
        }
        i += 1;
    }
    proof {
        assert(out@ =~= p@);
    }
    out
}

/// Formulates a plan from `initial_state` to a state satisfying `goal_state`,
/// using the catalog `allowed_actions`.
///
/// The result is the ordered list of catalog indices of the actions to run.
/// `Some` is returned exactly when some valid action sequence reaches the
/// goal; a goal already satisfied yields `Some` of the empty plan, and an
/// unreachable goal yields `None`. When the heuristic is consistent for the
/// given catalog and goal, the returned plan's total cost is minimal among
/// all action sequences that achieve the goal.
#[verifier::rlimit(50)]
pub fn plan(initial_state: &State, goal_state: &State, allowed_actions: &[Action]) -> (r: Option<
    Vec<usize>,
>)
    requires
        initial_state.wf(),
        goal_state.wf(),
        forall|i: int| 0 <= i < allowed_actions@.len() ==> (#[trigger] allowed_actions@[i]).wf(),
    ensures
        (r is Some) <==> (exists|q: Seq<usize>|
            achieves(initial_state@, allowed_actions@, q, goal_state@)),
        (r matches Some(p) ==> achieves(initial_state@, allowed_actions@, p@, goal_state@)),
        (satisfies(initial_state@, goal_state@) ==> (r matches Some(p) && p@.len() == 0)),
        (consistent_heuristic(allowed_actions@, *goal_state) ==> (r matches Some(p)
            ==> forall|q: Seq<usize>|
                achieves(initial_state@, allowed_actions@, q, goal_state@) ==> total_cost(
                    allowed_actions@,
                    p@,
                ) <= total_cost(allowed_actions@, q))),
{
    let ghost init = initial_state@;
    let ghost acts = allowed_actions@;
    let ghost goalm = goal_state@;

    if initial_state.matches(goal_state) {
        let empty: Vec<usize> = Vec::new();
        proof {
            assert(empty@ =~= Seq::<usize>::empty());
            assert(achieves(init, acts, empty@, goalm));
        }
        return Some(empty);
    }

    let ghost all_keys = search_names(initial_state.kvs(), acts);
    let ghost mut cset: Set<AtomMap> = Set::empty();
    let ghost mut dist: Map<AtomMap, int> = Map::empty();

    let mut frontier: Vec<Entry> = Vec::new();
    let mut closed: Vec<State> = Vec::new();

    let h0 = initial_state.mismatch_count(goal_state);
    let start = Entry {
        state: initial_state.duplicate(),
        path: Vec::new(),
        g: 0u128,
        f: h0 as u128,
        h: h0,
    };
    proof {
        lemma_maps_over_finite(all_keys);
        assert(start.path@ =~= Seq::<usize>::empty());
        assert(entry_ok(init, acts, *goal_state, start));
        lemma_dom_names(initial_state.kvs());
        lemma_dom_concat_left(init, names_of(initial_state.kvs()), crate::space::post_names(acts));
    }
    frontier.push(start);
    proof {
        assert(frontier@[0].state@ == init);
    }

    while frontier.len() > 0
        invariant
            initial_state.wf(),
            goal_state.wf(),
            forall|i: int| 0 <= i < acts.len() ==> (#[trigger] acts[i]).wf(),
            init == initial_state@,
            acts == allowed_actions@,
            goalm == goal_state@,
            all_keys == search_names(initial_state.kvs(), acts),
            !satisfies(init, goalm),
            maps_over(all_keys).finite(),
            cset.finite(),
            cset.len() == closed@.len(),
            closed@.len() <= maps_over(all_keys).len(),
            forall|s: AtomMap| #[trigger] cset.contains(s) ==> closed_has(closed@, s),
            forall|i: int| 0 <= i < closed@.len() ==> cset.contains((#[trigger] closed@[i])@),
            forall|i: int|
                0 <= i < frontier@.len() ==> entry_ok(
                    init,
                    acts,
                    *goal_state,
                    #[trigger] frontier@[i],
                ),
            forall|i: int|
                0 <= i < frontier@.len() ==> (#[trigger] frontier@[i]).path@.len() <= closed@.len(),
            forall|i: int|
                0 <= i < frontier@.len() ==> dom_within((#[trigger] frontier@[i]).state@, all_keys),
            forall|i: int| 0 <= i < closed@.len() ==> (#[trigger] closed@[i]).wf(),
            forall|i: int| 0 <= i < closed@.len() ==> !satisfies((#[trigger] closed@[i])@, goalm),
            forall|i: int| 0 <= i < closed@.len() ==> dom_within((#[trigger] closed@[i])@, all_keys),
            closed_has(closed@, init) || frontier_has(frontier@, init),
            forall|i: int, j: int|
                0 <= i < closed@.len() && 0 <= j < acts.len() && applicable(
                    (#[trigger] closed@[i])@,
                    #[trigger] acts[j],
                ) ==> closed_has(closed@, apply_post(closed@[i]@, acts[j])) || frontier_has(
                    frontier@,
                    apply_post(closed@[i]@, acts[j]),
                ),
            consistent_heuristic(acts, *goal_state) ==> {
                &&& cost_covered(closed@, dist, frontier@, init, 0)
                &&& forall|i: int|
                    0 <= i < closed@.len() ==> dist_lower_bound(
                        init,
                        acts,
                        (#[trigger] closed@[i])@,
                        dist[closed@[i]@],
                    )
                &&& forall|i: int, j: int|
                    0 <= i < closed@.len() && 0 <= j < acts.len() && applicable(
                        (#[trigger] closed@[i])@,
                        #[trigger] acts[j],
                    ) ==> cost_covered(
                        closed@,
                        dist,
                        frontier@,
                        apply_post(closed@[i]@, acts[j]),
                        dist[closed@[i]@] + acts[j].cost as int,
                    )
                &&& forall|i: int|
                    0 <= i < frontier@.len() && closed_has(
                        closed@,
                        (#[trigger] frontier@[i]).state@,
                    ) ==> dist[frontier@[i].state@] <= frontier@[i].g as int
            },
        decreases maps_over(all_keys).len() - closed@.len(), frontier@.len(),
    {
        let m = find_min(&frontier);
        let ghost fr0 = frontier@;
        let u = frontier.remove(m);
        let ghost frpop = frontier@;
        proof {
            assert(u == fr0[m as int]);
            assert forall|i: int| 0 <= i < frpop.len() implies frpop[i] == (if i < m as int {
                fr0[i]
            } else {
                fr0[i + 1]
            }) by {}
        }

        if u.state.matches(goal_state) {
            proof {
                assert(achieves(init, acts, u.path@, goalm));
                if consistent_heuristic(acts, *goal_state) {
                    crate::state::lemma_mismatches_zero(u.state@, goal_state.kvs());
                    assert(u.h as int == 0);
                    assert forall|q: Seq<usize>| achieves(init, acts, q, goalm) implies total_cost(
                        acts,
                        u.path@,
                    ) <= total_cost(acts, q) by {
                        let endpoint = outcome(init, acts, q);
                        lemma_cut(init, acts, closed@, dist, fr0, q);
                        if closed_has(closed@, endpoint) {
                            let w = choose|w: int|
                                0 <= w < closed@.len() && closed@[w]@ == endpoint;
                            assert(!satisfies(closed@[w]@, goalm));
                            assert(false);
                        }
                        let (ei, i) = choose|ei: int, i: int|
                            #![trigger fr0[ei], q.take(i)]
                            0 <= ei < fr0.len() && 0 <= i <= q.len() && fr0[ei].state@ == outcome(
                                init,
                                acts,
                                q.take(i),
                            ) && fr0[ei].g as int <= total_cost(acts, q.take(i)) as int
                                && total_cost(acts, q.take(i)) <= total_cost(acts, q);
                        let e = fr0[ei];
                        assert(u.f <= e.f);
                        lemma_split(init, acts, q, i);
                        lemma_consistent_suffix(e.state@, acts, *goal_state, q.skip(i));
                        crate::state::lemma_mismatches_zero(endpoint, goal_state.kvs());
                        assert(heuristic(endpoint, *goal_state) == 0);
                        assert(heuristic(e.state@, *goal_state) <= total_cost(acts, q.skip(i)));
                        assert(e.h as int <= total_cost(acts, q.skip(i)) as int);
                        assert(u.g as int <= e.g as int + e.h as int);
                        assert(u.g as int <= total_cost(acts, q) as int);
                    }
                }
            }
            return Some(u.path);
        }

        if state_in(&closed, &u.state) {
            proof {
                assert forall|i: int, j: int|
                    0 <= i < closed@.len() && 0 <= j < acts.len() && applicable(
                        (#[trigger] closed@[i])@,
                        #[trigger] acts[j],
                    ) implies closed_has(closed@, apply_post(closed@[i]@, acts[j]))
                    || frontier_has(frontier@, apply_post(closed@[i]@, acts[j])) by {
                    let s = apply_post(closed@[i]@, acts[j]);
                    if !closed_has(closed@, s) {
                        lemma_frontier_remove(fr0, m as int, s);
                    }
                }
                if !closed_has(closed@, init) {
                    lemma_frontier_remove(fr0, m as int, init);
                }
                if consistent_heuristic(acts, *goal_state) {
                    assert(dist[u.state@] <= u.g as int);
                    if !(closed_has(closed@, init) && dist[init] <= 0) {
                        lemma_covers_remove(fr0, m as int, init, 0);
                    }
                    assert forall|i: int, j: int|
                        0 <= i < closed@.len() && 0 <= j < acts.len() && applicable(
                            (#[trigger] closed@[i])@,
                            #[trigger] acts[j],
                        ) implies cost_covered(
                        closed@,
                        dist,
                        frontier@,
                        apply_post(closed@[i]@, acts[j]),
                        dist[closed@[i]@] + acts[j].cost as int,
                    ) by {
                        let s = apply_post(closed@[i]@, acts[j]);
                        let c = dist[closed@[i]@] + acts[j].cost as int;
                        if !(closed_has(closed@, s) && dist[s] <= c) {
                            lemma_covers_remove(fr0, m as int, s, c);
                        }
                    }
                    assert forall|i: int|
                        0 <= i < frontier@.len() && closed_has(
                            closed@,
                            (#[trigger] frontier@[i]).state@,
                        ) implies dist[frontier@[i].state@] <= frontier@[i].g as int by {
                        if i < m as int {
                            assert(frontier@[i] == fr0[i]);
                        } else {
                            assert(frontier@[i] == fr0[i + 1]);
                        }
                    }
                }
            }
            continue;
        }

        // expand u, then move its state into the closed set
        let ghost closed0 = closed@;
        let cl = closed.len();
        let nacts = allowed_actions.len();
        let mut j: usize = 0;
        while j < nacts
            invariant
                goal_state.wf(),
                forall|i: int| 0 <= i < acts.len() ==> (#[trigger] acts[i]).wf(),
                acts == allowed_actions@,
                goalm == goal_state@,
                all_keys == search_names(initial_state.kvs(), acts),
                nacts as int == acts.len(),
                0 <= j as int <= nacts as int,
                cl as int == closed0.len(),
                entry_ok(init, acts, *goal_state, u),
                dom_within(u.state@, all_keys),
                u.path@.len() <= closed0.len(),
                frpop.len() <= frontier@.len(),
                forall|k: int| 0 <= k < frpop.len() ==> frontier@[k] == frpop[k],
                forall|i: int|
                    0 <= i < frontier@.len() ==> entry_ok(
                        init,
                        acts,
                        *goal_state,
                        #[trigger] frontier@[i],
                    ),
                forall|i: int|
                    0 <= i < frontier@.len() ==> (#[trigger] frontier@[i]).path@.len()
                        <= closed0.len() + 1,
                forall|i: int|
                    0 <= i < frontier@.len() ==> dom_within(
                        (#[trigger] frontier@[i]).state@,
                        all_keys,
                    ),
                forall|jj: int|
                    0 <= jj < j as int && applicable(u.state@, #[trigger] acts[jj])
                        ==> frontier_has(frontier@, apply_post(u.state@, acts[jj])),
                forall|jj: int|
                    0 <= jj < j as int && applicable(u.state@, #[trigger] acts[jj])
                        ==> frontier_covers(
                        frontier@,
                        apply_post(u.state@, acts[jj]),
                        u.g as int + acts[jj].cost as int,
                    ),
                forall|k: int|
                    #![trigger frontier@[k]]
                    frpop.len() <= k < frontier@.len() ==> frontier@[k].g as int >= u.g as int,
                consistent_heuristic(acts, *goal_state) ==> forall|i: int|
                    0 <= i < closed0.len() ==> dist_lower_bound(
                        init,
                        acts,
                        (#[trigger] closed0[i])@,
                        dist[closed0[i]@],
                    ),
                consistent_heuristic(acts, *goal_state) ==> forall|k: int|
                    #![trigger frontier@[k]]
                    frpop.len() <= k < frontier@.len() && closed_has(
                        closed0,
                        frontier@[k].state@,
                    ) ==> dist[frontier@[k].state@] <= frontier@[k].g as int,
            decreases nacts - j,
        {
            let a = slice_index_get(allowed_actions, j);
            if u.state.matches(&a.pre_conditions) {
                let child = u.state.apply(a);
                let hch = child.mismatch_count(goal_state);
                let mut cpath = copy_path(&u.path);
                cpath.push(j);
                proof {
                    lemma_plan_extend(init, acts, u.path@, j, u.state@);
                    lemma_cost_bound(acts, u.path@);
                    let mi = usize::MAX as int;
                    assert(u.path@.len() * mi <= mi * mi) by (nonlinear_arith)
                        requires
                            0 <= u.path@.len() <= mi,
                    ;
                    assert(mi <= 0xffff_ffff_ffff_ffff as int);
                    assert(mi * mi + mi + mi <= u128::MAX as int) by (nonlinear_arith)
                        requires
                            0 <= mi <= 0xffff_ffff_ffff_ffff as int,
                    ;
                }
                let gch = u.g + (a.cost as u128);
                let fch = gch + (hch as u128);
                let e = Entry { state: child, path: cpath, g: gch, f: fch, h: hch };
                proof {
                    assert(e.path@ == u.path@.push(j));
                    assert(entry_ok(init, acts, *goal_state, e));
                    assert forall|k: Seq<char>| #[trigger]
                        e.state@.contains_key(k) implies all_keys.contains(k) by {
                        if !u.state@.contains_key(k) {
                            lemma_post_names_contains(acts, j as int, k);
                            let i = choose|i: int|
                                0 <= i < crate::space::post_names(acts).len()
                                    && crate::space::post_names(acts)[i] == k;
                            assert(all_keys[names_of(initial_state.kvs()).len() + i] == k);
                        }
                    }
                }
                let ghost frb = frontier@;
                frontier.push(e);
                proof {
                    assert(frontier@[frontier@.len() - 1] == e);
                    assert forall|jj: int|
                        0 <= jj < j as int + 1 && applicable(
                            u.state@,
                            #[trigger] acts[jj],
                        ) implies frontier_has(frontier@, apply_post(u.state@, acts[jj])) by {
                        if jj < j as int {
                            let w = choose|w: int|
                                0 <= w < frb.len() && frb[w].state@ == apply_post(
                                    u.state@,
                                    acts[jj],
                                );
                            assert(frontier@[w].state@ == apply_post(u.state@, acts[jj]));
                        } else {
                            assert(frontier@[frontier@.len() - 1].state@ == apply_post(
                                u.state@,
                                acts[jj],
                            ));
                        }
                    }
                    assert forall|jj: int|
                        0 <= jj < j as int + 1 && applicable(
                            u.state@,
                            #[trigger] acts[jj],
                        ) implies frontier_covers(
                        frontier@,
                        apply_post(u.state@, acts[jj]),
                        u.g as int + acts[jj].cost as int,
                    ) by {
                        if jj < j as int {
                            let w = choose|w: int|
                                0 <= w < frb.len() && frb[w].state@ == apply_post(
                                    u.state@,
                                    acts[jj],
                                ) && frb[w].g as int <= u.g as int + acts[jj].cost as int;
                            assert(frontier@[w] == frb[w]);
                        } else {
                            assert(frontier@[frontier@.len() - 1] == e);
                        }
                    }
                    assert forall|k: int|
                        #![trigger frontier@[k]]
                        frpop.len() <= k < frontier@.len() implies frontier@[k].g as int
                        >= u.g as int by {
                        if k < frb.len() {
                            assert(frontier@[k] == frb[k]);
                        } else {
                            assert(frontier@[k] == e);
                        }
                    }
                    if consistent_heuristic(acts, *goal_state) {
                        if closed_has(closed0, e.state@) {
                            let w = choose|w: int|
                                0 <= w < closed0.len() && closed0[w]@ == e.state@;
                            assert(dist_lower_bound(init, acts, closed0[w]@, dist[closed0[w]@]));
                            assert(valid_plan(init, acts, u.path@.push(j)));
                            assert(outcome(init, acts, u.path@.push(j)) == e.state@);
                            assert(dist[e.state@] <= total_cost(acts, u.path@.push(j)) as int);
                            assert(dist[e.state@] <= e.g as int);
                        }
                        assert forall|k: int|
                            #![trigger frontier@[k]]
                            frpop.len() <= k < frontier@.len() && closed_has(
                                closed0,
                                frontier@[k].state@,
                            ) implies dist[frontier@[k].state@] <= frontier@[k].g as int by {
                            if k < frb.len() {
                                assert(frontier@[k] == frb[k]);
                            } else {
                                assert(frontier@[k] == e);
                            }
                        }
                    }
                }
            }
            j += 1;
        }
        closed.push(u.state);
        proof {
            let ghost cset0 = cset;
            cset = cset.insert(u.state@);
            assert(!cset0.contains(u.state@));
            assert(closed@ == closed0.push(u.state));
            assert forall|s: AtomMap| #[trigger] cset.contains(s) implies closed_has(
                closed@,
                s,
            ) by {
                if s == u.state@ {
                    assert(closed@[closed0.len() as int]@ == s);
                } else {
                    let w = choose|w: int| 0 <= w < closed0.len() && closed0[w]@ == s;
                    assert(closed@[w]@ == s);
                }
            }
            assert forall|s: AtomMap| #[trigger] cset.contains(s) implies dom_within(
                s,
                all_keys,
            ) by {
                let w = choose|w: int| 0 <= w < closed@.len() && closed@[w]@ == s;
            }
            lemma_space_bound(all_keys, cset);
            assert forall|i: int, jj: int|
                0 <= i < closed@.len() && 0 <= jj < acts.len() && applicable(
                    (#[trigger] closed@[i])@,
                    #[trigger] acts[jj],
                ) implies closed_has(closed@, apply_post(closed@[i]@, acts[jj])) || frontier_has(
                frontier@,
                apply_post(closed@[i]@, acts[jj]),
            ) by {
                let s = apply_post(closed@[i]@, acts[jj]);
                if i < closed0.len() {
                    if closed_has(closed0, s) {
                        let w = choose|w: int| 0 <= w < closed0.len() && closed0[w]@ == s;
                        assert(closed@[w]@ == s);
                    } else if frontier_has(fr0, s) {
                        lemma_frontier_remove(fr0, m as int, s);
                        if fr0[m as int].state@ == s {
                            assert(closed@[closed0.len() as int]@ == s);
                        } else {
                            let w = choose|w: int| 0 <= w < frpop.len() && frpop[w].state@ == s;
                            assert(frontier@[w].state@ == s);
                        }
                    }
                } else {
                    assert(closed@[i] == u.state);
                    assert(frontier_has(frontier@, apply_post(u.state@, acts[jj])));
                }
            }
            if !closed_has(closed0, init) {
                lemma_frontier_remove(fr0, m as int, init);
                if fr0[m as int].state@ == init {
                    assert(closed@[closed0.len() as int]@ == init);
                    assert(closed_has(closed@, init));
                } else {
                    let w = choose|w: int| 0 <= w < frpop.len() && frpop[w].state@ == init;
                    assert(frontier@[w].state@ == init);
                    assert(frontier_has(frontier@, init));
                }
            } else {
                let w = choose|w: int| 0 <= w < closed0.len() && closed0[w]@ == init;
                assert(closed@[w]@ == init);
            }
            let ghost dist0 = dist;
            dist = dist.insert(u.state@, u.g as int);
            if consistent_heuristic(acts, *goal_state) {
                // the popped entry's cost lower-bounds every plan to its state
                assert forall|q: Seq<usize>|
                    #![trigger valid_plan(init, acts, q)]
                    valid_plan(init, acts, q) && outcome(init, acts, q)
                        == u.state@ implies u.g as int <= total_cost(acts, q) by {
                    lemma_cut(init, acts, closed0, dist0, fr0, q);
                    assert(!closed_has(closed0, u.state@));
                    let (ei, i) = choose|ei: int, i: int|
                        #![trigger fr0[ei], q.take(i)]
                        0 <= ei < fr0.len() && 0 <= i <= q.len() && fr0[ei].state@ == outcome(
                            init,
                            acts,
                            q.take(i),
                        ) && fr0[ei].g as int <= total_cost(acts, q.take(i)) as int && total_cost(
                            acts,
                            q.take(i),
                        ) <= total_cost(acts, q);
                    let e = fr0[ei];
                    assert(u.f <= e.f);
                    lemma_split(init, acts, q, i);
                    lemma_consistent_suffix(e.state@, acts, *goal_state, q.skip(i));
                    assert(heuristic(outcome(init, acts, q), *goal_state) == u.h as nat);
                    assert(e.h as int <= total_cost(acts, q.skip(i)) as int + u.h as int);
                    assert(u.g as int + u.h as int <= e.g as int + e.h as int);
                }
                assert(dist_lower_bound(init, acts, u.state@, u.g as int));
                assert forall|i: int| 0 <= i < closed@.len() implies dist_lower_bound(
                    init,
                    acts,
                    (#[trigger] closed@[i])@,
                    dist[closed@[i]@],
                ) by {
                    if i < closed0.len() {
                        assert(closed@[i] == closed0[i]);
                        assert(closed0[i]@ != u.state@);
                        assert(dist[closed@[i]@] == dist0[closed@[i]@]);
                    } else {
                        assert(closed@[i] == u.state);
                    }
                }
                assert forall|i: int, jj: int|
                    0 <= i < closed@.len() && 0 <= jj < acts.len() && applicable(
                        (#[trigger] closed@[i])@,
                        #[trigger] acts[jj],
                    ) implies cost_covered(
                    closed@,
                    dist,
                    frontier@,
                    apply_post(closed@[i]@, acts[jj]),
                    dist[closed@[i]@] + acts[jj].cost as int,
                ) by {
                    let s = apply_post(closed@[i]@, acts[jj]);
                    if i < closed0.len() {
                        assert(closed0[i]@ != u.state@);
                        assert(dist[closed@[i]@] == dist0[closed0[i]@]);
                        let c = dist0[closed0[i]@] + acts[jj].cost as int;
                        if closed_has(closed0, s) && dist0[s] <= c {
                            let w = choose|w: int| 0 <= w < closed0.len() && closed0[w]@ == s;
                            assert(closed@[w]@ == s);
                            assert(s != u.state@);
                            assert(dist[s] == dist0[s]);
                        } else {
                            lemma_covers_remove(fr0, m as int, s, c);
                            if fr0[m as int].state@ == s && fr0[m as int].g as int <= c {
                                assert(closed@[closed0.len() as int]@ == s);
                                assert(dist[s] == u.g as int);
                            } else {
                                let w = choose|w: int|
                                    0 <= w < frpop.len() && frpop[w].state@ == s
                                        && frpop[w].g as int <= c;
                                assert(frontier@[w] == frpop[w]);
                            }
                        }
                    } else {
                        assert(closed@[i] == u.state);
                        assert(dist[u.state@] == u.g as int);
                        assert(frontier_covers(
                            frontier@,
                            apply_post(u.state@, acts[jj]),
                            u.g as int + acts[jj].cost as int,
                        ));
                    }
                }
                if closed_has(closed0, init) && dist0[init] <= 0 {
                    let w = choose|w: int| 0 <= w < closed0.len() && closed0[w]@ == init;
                    assert(closed@[w]@ == init);
                    assert(closed0[w]@ != u.state@);
                    assert(dist[init] == dist0[init]);
                } else {
                    lemma_covers_remove(fr0, m as int, init, 0);
                    if fr0[m as int].state@ == init && fr0[m as int].g as int <= 0 {
                        assert(closed@[closed0.len() as int]@ == init);
                        assert(dist[init] == u.g as int);
                    } else {
                        let w = choose|w: int|
                            0 <= w < frpop.len() && frpop[w].state@ == init && frpop[w].g as int
                                <= 0;
                        assert(frontier@[w] == frpop[w]);
                    }
                }
                assert forall|i: int|
                    0 <= i < frontier@.len() && closed_has(
                        closed@,
                        (#[trigger] frontier@[i]).state@,
                    ) implies dist[frontier@[i].state@] <= frontier@[i].g as int by {
                    let es = frontier@[i].state@;
                    if i < frpop.len() {
                        let oi: int = if i < m as int {
                            i
                        } else {
                            i + 1
                        };
                        assert(frontier@[i] == frpop[i]);
                        assert(frpop[i] == fr0[oi]);
                        assert(frontier@[i] == fr0[oi]);
                        if es == u.state@ {
                            assert(fr0[oi].h as nat == heuristic(es, *goal_state));
                            assert(u.f <= fr0[oi].f);
                            assert(dist[es] == u.g as int);
                        } else {
                            let w = choose|w: int| 0 <= w < closed@.len() && closed@[w]@ == es;
                            assert(w < closed0.len());
                            assert(closed_has(closed0, es));
                            assert(dist0[es] <= fr0[oi].g as int);
                            assert(dist[es] == dist0[es]);
                        }
                    } else {
                        if es == u.state@ {
                            assert(frontier@[i].g as int >= u.g as int);
                            assert(dist[es] == u.g as int);
                        } else {
                            let w = choose|w: int| 0 <= w < closed@.len() && closed@[w]@ == es;
                            assert(w < closed0.len());
                            assert(closed0[w]@ == es);
                            assert(closed_has(closed0, es));
                            assert(dist0[es] <= frontier@[i].g as int);
                            assert(dist[es] == dist0[es]);
                        }
                    }
                }
            }
        }
    }

    proof {
        assert forall|q: Seq<usize>| !achieves(init, acts, q, goalm) by {
            if achieves(init, acts, q, goalm) {
                lemma_reach_closed(init, acts, closed@, q);
                let w = choose|w: int|
                    0 <= w < closed@.len() && closed@[w]@ == outcome(init, acts, q);
                assert(!satisfies(closed@[w]@, goalm));
            }
        }
    }
    None
}

} // verus!
