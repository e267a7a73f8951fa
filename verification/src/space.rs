//! Finiteness of the search space: every state the search can reach only
//! names atoms of the start state or of some postcondition, and the maps
//! over a fixed list of names form a finite set. The search loop terminates
//! because each expansion closes a new state out of that finite set.

use vstd::prelude::*;

verus! {

use vstd::set_lib::lemma_len_subset;
use crate::action::Action;
use crate::model::AtomMap;

/// The names of the listed atoms.
pub open spec fn names_of(kvs: Seq<(String, bool)>) -> Seq<Seq<char>> {
    kvs.map_values(|kv: (String, bool)| kv.0@)
}

/// All atom names that some action's postcondition can write.
pub open spec fn post_names(acts: Seq<Action>) -> Seq<Seq<char>>
    decreases acts.len(),
{
    if acts.len() == 0 {
        Seq::empty()
    } else {
        post_names(acts.drop_last()) + names_of(acts.last().post_conditions.kvs())
    }
}

/// Every atom name the search can ever see: those of the start state and
/// those of the postconditions.
pub open spec fn search_names(init: Seq<(String, bool)>, acts: Seq<Action>) -> Seq<Seq<char>> {
    names_of(init) + post_names(acts)
}

/// The state's atoms all bear listed names.
pub open spec fn dom_within(s: AtomMap, keys: Seq<Seq<char>>) -> bool {
    forall|k: Seq<char>| #[trigger] s.contains_key(k) ==> keys.contains(k)
}

/// Every map whose atoms bear listed names.
pub open spec fn maps_over(keys: Seq<Seq<char>>) -> Set<AtomMap>
    decreases keys.len(),
{
    if keys.len() == 0 {
        Set::empty().insert(Map::empty())
    } else {
        let rest = maps_over(keys.drop_last());
        let k = keys.last();
        rest.union(rest.map(|m: AtomMap| m.insert(k, true))).union(
            rest.map(|m: AtomMap| m.insert(k, false)),
        )
    }
}

/// There are only finitely many maps over a fixed list of names.
pub proof fn lemma_maps_over_finite(keys: Seq<Seq<char>>)
    ensures
        maps_over(keys).finite(),
    decreases keys.len(),
{
    if keys.len() > 0 {
        lemma_maps_over_finite(keys.drop_last());
        let rest = maps_over(keys.drop_last());
        let k = keys.last();
        rest.lemma_map_finite(|m: AtomMap| m.insert(k, true));
        rest.lemma_map_finite(|m: AtomMap| m.insert(k, false));
    }
}

/// A map whose atoms bear listed names is one of the maps over those names.
pub proof fn lemma_maps_over_contains(keys: Seq<Seq<char>>, s: AtomMap)
    requires
        dom_within(s, keys),
    ensures
        maps_over(keys).contains(s),
    decreases keys.len(),
{
    if keys.len() == 0 {
        assert forall|k: Seq<char>| !(#[trigger] s.contains_key(k)) by {
            if s.contains_key(k) {
                assert(keys.contains(k));
            }
        }
        assert(s =~= Map::empty());
    } else {
        let kl = keys.drop_last();
        let k = keys.last();
        let rest = maps_over(kl);
        if s.contains_key(k) {
            let s0 = s.remove(k);
            assert forall|k2: Seq<char>| #[trigger] s0.contains_key(k2) implies kl.contains(k2) by {
                assert(s.contains_key(k2));
                assert(keys.contains(k2));
                let i = choose|i: int| 0 <= i < keys.len() && keys[i] == k2;
                assert(k2 != k);
                assert(i < keys.len() - 1);
                assert(kl[i] == k2);
            }
            lemma_maps_over_contains(kl, s0);
            if s[k] {
                let f = |m: AtomMap| m.insert(k, true);
                assert(s =~= f(s0));
                assert(rest.map(f).contains(s));
            } else {
                let f = |m: AtomMap| m.insert(k, false);
                assert(s =~= f(s0));
                assert(rest.map(f).contains(s));
            }
        } else {
            assert forall|k2: Seq<char>| #[trigger] s.contains_key(k2) implies kl.contains(k2) by {
                assert(keys.contains(k2));
                let i = choose|i: int| 0 <= i < keys.len() && keys[i] == k2;
                assert(k2 != k);
                assert(i < keys.len() - 1);
                assert(kl[i] == k2);
            }
            lemma_maps_over_contains(kl, s);
        }
    }
}

/// A postcondition's atom names are among the search names.
pub proof fn lemma_post_names_contains(acts: Seq<Action>, j: int, k: Seq<char>)
    requires
        0 <= j < acts.len(),
        acts[j].post_conditions@.contains_key(k),
    ensures
        post_names(acts).contains(k),
    decreases acts.len(),
{
    if j == acts.len() - 1 {
        crate::state::lemma_map_of_contains(acts[j].post_conditions.kvs(), k);
        let i = choose|i: int|
            0 <= i < acts[j].post_conditions.kvs().len() && acts[j].post_conditions.kvs()[i].0@
                == k;
        assert(names_of(acts[j].post_conditions.kvs())[i] == k);
        assert(post_names(acts)[post_names(acts.drop_last()).len() + i] == k);
    } else {
        lemma_post_names_contains(acts.drop_last(), j, k);
        let i = choose|i: int|
            0 <= i < post_names(acts.drop_last()).len() && post_names(acts.drop_last())[i] == k;
        assert(post_names(acts)[i] == k);
    }
}

/// A state's atoms all bear the names of its own atom list.
pub proof fn lemma_dom_names(kvs: Seq<(String, bool)>)
    ensures
        dom_within(crate::state::map_of(kvs), names_of(kvs)),
{
    assert forall|k: Seq<char>| #[trigger]
        crate::state::map_of(kvs).contains_key(k) implies names_of(kvs).contains(k) by {
        crate::state::lemma_map_of_contains(kvs, k);
        let i = choose|i: int| 0 <= i < kvs.len() && kvs[i].0@ == k;
        assert(names_of(kvs)[i] == k);
    }
}

/// Lengthening the name list keeps a state's atoms within it.
pub proof fn lemma_dom_concat_left(s: AtomMap, a: Seq<Seq<char>>, b: Seq<Seq<char>>)
    requires
        dom_within(s, a),
    ensures
        dom_within(s, a + b),
{
    assert forall|k: Seq<char>| #[trigger] s.contains_key(k) implies (a + b).contains(k) by {
        let i = choose|i: int| 0 <= i < a.len() && a[i] == k;
        assert((a + b)[i] == k);
    }
}

/// Bounds the closed set: a set of maps over the search names cannot hold
/// more maps than there are.
pub proof fn lemma_space_bound(keys: Seq<Seq<char>>, cs: Set<AtomMap>)
    requires
        cs.finite(),
        forall|s: AtomMap| #[trigger] cs.contains(s) ==> dom_within(s, keys),
    ensures
        cs.len() <= maps_over(keys).len(),
{
    lemma_maps_over_finite(keys);
    assert forall|s: AtomMap| #[trigger] cs.contains(s) implies maps_over(keys).contains(s) by {
        lemma_maps_over_contains(keys, s);
    }
    lemma_len_subset(cs, maps_over(keys));
}

} // verus!
