//! The world state: a finite collection of named boolean atoms, held as a
//! list of name/value pairs with no name repeated, and viewed as a map.

use vstd::prelude::*;

verus! {

use crate::action::Action;
use crate::model::{AtomMap, satisfies, atom_mismatch, mismatches, apply_post};

/// The atom map described by a list of name/value pairs, later entries
/// winning over earlier ones.
pub open spec fn map_of(kvs: Seq<(String, bool)>) -> AtomMap
    decreases kvs.len(),
{
    if kvs.len() == 0 {
        Map::empty()
    } else {
        map_of(kvs.drop_last()).insert(kvs.last().0@, kvs.last().1)
    }
}

/// No atom name occurs twice in the list.
pub open spec fn unique_names(kvs: Seq<(String, bool)>) -> bool {
    forall|i: int, j: int|
        #![trigger kvs[i], kvs[j]]
        0 <= i < j < kvs.len() ==> kvs[i].0@ != kvs[j].0@
}

/// A name is in the map exactly when some listed pair carries it.
pub proof fn lemma_map_of_contains(kvs: Seq<(String, bool)>, k: Seq<char>)
    ensures
        map_of(kvs).contains_key(k) <==> (exists|i: int| 0 <= i < kvs.len() && kvs[i].0@ == k),
    decreases kvs.len(),
{
    if kvs.len() > 0 {
        let dl = kvs.drop_last();
        lemma_map_of_contains(dl, k);
        if map_of(kvs).contains_key(k) {
            if kvs.last().0@ == k {
                assert(kvs[kvs.len() - 1].0@ == k);
            } else {
                let i = choose|i: int| 0 <= i < dl.len() && dl[i].0@ == k;
                assert(kvs[i].0@ == k);
            }
        }
        if exists|i: int| 0 <= i < kvs.len() && kvs[i].0@ == k {
            let i = choose|i: int| 0 <= i < kvs.len() && kvs[i].0@ == k;
            if i < kvs.len() - 1 {
                assert(dl[i].0@ == k);
            }
        }
    }
}

/// With unique names, each listed pair gives its name's value in the map.
pub proof fn lemma_map_of_value(kvs: Seq<(String, bool)>, i: int)
    requires
        unique_names(kvs),
        0 <= i < kvs.len(),
    ensures
        map_of(kvs).contains_key(kvs[i].0@),
        map_of(kvs)[kvs[i].0@] == kvs[i].1,
    decreases kvs.len(),
{
    if i < kvs.len() - 1 {
        let dl = kvs.drop_last();
        assert(unique_names(dl));
        assert(dl[i] == kvs[i]);
        lemma_map_of_value(dl, i);
        assert(kvs[i].0@ != kvs.last().0@);
    }
}

/// Removing a listed pair removes its name from the map, when names are unique.
pub proof fn lemma_map_of_remove(kvs: Seq<(String, bool)>, i: int)
    requires
        unique_names(kvs),
        0 <= i < kvs.len(),
    ensures
        map_of(kvs.remove(i)) == map_of(kvs).remove(kvs[i].0@),
        unique_names(kvs.remove(i)),
        forall|j: int| 0 <= j < kvs.remove(i).len() ==> (#[trigger] kvs.remove(i)[j]).0@ != kvs[i].0@,
    decreases kvs.len(),
{
    let r = kvs.remove(i);
    assert forall|j: int| 0 <= j < r.len() implies (#[trigger] r[j]).0@ != kvs[i].0@ by {
        if j < i {
            assert(r[j] == kvs[j]);
        } else {
            assert(r[j] == kvs[j + 1]);
        }
    }
    assert forall|a: int, b: int|
        #![trigger r[a], r[b]]
        0 <= a < b < r.len() implies r[a].0@ != r[b].0@ by {
        assert(r[a] == if a < i { kvs[a] } else { kvs[a + 1] });
        assert(r[b] == if b < i { kvs[b] } else { kvs[b + 1] });
    }
    if i == kvs.len() - 1 {
        let dl = kvs.drop_last();
        assert(r =~= dl);
        lemma_map_of_contains(dl, kvs[i].0@);
        assert(forall|j: int| 0 <= j < dl.len() ==> (#[trigger] dl[j]).0@ != kvs[i].0@);
        assert(!map_of(dl).contains_key(kvs[i].0@));
        assert(map_of(dl) =~= map_of(dl).insert(kvs.last().0@, kvs.last().1).remove(kvs[i].0@));
    } else {
        let dl = kvs.drop_last();
        assert(unique_names(dl));
        lemma_map_of_remove(dl, i);
        assert(r.drop_last() =~= dl.remove(i));
        assert(r.last() == kvs.last());
        assert(map_of(r) == map_of(dl.remove(i)).insert(kvs.last().0@, kvs.last().1));
        assert(kvs[i].0@ != kvs.last().0@);
        assert(map_of(dl).remove(kvs[i].0@).insert(kvs.last().0@, kvs.last().1) =~= map_of(
            dl,
        ).insert(kvs.last().0@, kvs.last().1).remove(kvs[i].0@));
    }
}

/// Appending a pair inserts its name into the map.
pub proof fn lemma_map_of_push(kvs: Seq<(String, bool)>, name: String, value: bool)
    ensures
        map_of(kvs.push((name, value))) == map_of(kvs).insert(name@, value),
{
    assert(kvs.push((name, value)).drop_last() =~= kvs);
    assert(kvs.push((name, value)).last() == (name, value));
}

/// No mismatch among the listed atoms means every listed atom matches.
pub proof fn lemma_mismatches_none(s: AtomMap, kvs: Seq<(String, bool)>)
    ensures
        (mismatches(s, kvs) == 0) <==> (forall|i: int|
            0 <= i < kvs.len() ==> !atom_mismatch(s, #[trigger] kvs[i])),
    decreases kvs.len(),
{
    if kvs.len() > 0 {
        let dl = kvs.drop_last();
        lemma_mismatches_none(s, dl);
        if mismatches(s, kvs) == 0 {
            assert forall|i: int| 0 <= i < kvs.len() implies !atom_mismatch(s, #[trigger] kvs[i]) by {
                if i < kvs.len() - 1 {
                    assert(dl[i] == kvs[i]);
                } else {
                    assert(kvs[i] == kvs.last());
                }
            }
        }
        if forall|i: int| 0 <= i < kvs.len() ==> !atom_mismatch(s, #[trigger] kvs[i]) {
            assert forall|i: int| 0 <= i < dl.len() implies !atom_mismatch(s, #[trigger] dl[i]) by {
                assert(dl[i] == kvs[i]);
            }
            assert(!atom_mismatch(s, kvs.last()));
            assert(kvs.last() == kvs[kvs.len() - 1]);
        }
    }
}

/// A mismatch count of zero says exactly that the state satisfies the target.
pub proof fn lemma_mismatches_zero(s: AtomMap, kvs: Seq<(String, bool)>)
    requires
        unique_names(kvs),
    ensures
        (mismatches(s, kvs) == 0) <==> satisfies(s, map_of(kvs)),
{
    lemma_mismatches_none(s, kvs);
    if mismatches(s, kvs) == 0 {
        assert forall|k: Seq<char>| #[trigger] map_of(kvs).contains_key(k) implies s.contains_key(k)
            && s[k] == map_of(kvs)[k] by {
            lemma_map_of_contains(kvs, k);
            let i = choose|i: int| 0 <= i < kvs.len() && kvs[i].0@ == k;
            lemma_map_of_value(kvs, i);
            assert(!atom_mismatch(s, kvs[i]));
        }
    }
    if satisfies(s, map_of(kvs)) {
        assert forall|i: int| 0 <= i < kvs.len() implies !atom_mismatch(s, #[trigger] kvs[i]) by {
            lemma_map_of_value(kvs, i);
        }
    }
}

/// Whether two atom names spell the same word.
fn name_eq(a: &String, b: &String) -> (r: bool)
    ensures
        r == (a@ == b@),
{
    <String as PartialEq<String>>::eq(a, b)
}

/// A snapshot of the world. Absence of an atom means unknown, not false.
pub struct State {
    pub atoms: Vec<(String, bool)>,
}

impl View for State {
    type V = AtomMap;

    open spec fn view(&self) -> AtomMap {
        map_of(self.atoms@)
    }
}

impl State {
    /// The raw atom list behind the map; the heuristic counts over it.
    pub open spec fn kvs(self) -> Seq<(String, bool)> {
        self.atoms@
    }

    /// Well-formed: no atom name listed twice.
    pub open spec fn wf(self) -> bool {
        unique_names(self.atoms@)
    }

    /// An empty state: every atom unknown.
    pub fn new() -> (s: State)
        ensures
            s.wf(),
            s@ == Map::<Seq<char>, bool>::empty(),
            s.kvs().len() == 0,
    {
        State { atoms: Vec::new() }
    }

    /// The value of the named atom, or `None` when the atom is unknown.
    pub fn get(&self, name: &String) -> (r: Option<bool>)
        requires
            self.wf(),
        ensures
            match r {
                Some(v) => self@.contains_key(name@) && self@[name@] == v,
                None => !self@.contains_key(name@),
            },
    {
        let n = self.atoms.len();
        let mut i: usize = 0;
        while i < n
            invariant
                self.wf(),
                n == self.atoms@.len(),
                0 <= i as int <= n as int,
                forall|j: int| 0 <= j < i as int ==> (#[trigger] self.atoms@[j]).0@ != name@,
            decreases n - i,
        {
            if name_eq(&self.atoms[i].0, name) {
                proof {
                    lemma_map_of_value(self.atoms@, i as int);
                }
                return Some(self.atoms[i].1);
            }
            i += 1;
        }
        proof {
            lemma_map_of_contains(self.atoms@, name@);
        }
        None
    }

    /// Sets the named atom, overwriting any earlier value.
    pub fn insert(&mut self, name: String, value: bool)
        requires
            old(self).wf(),
        ensures
            final(self).wf(),
            final(self)@ == old(self)@.insert(name@, value),
    {
        let n = self.atoms.len();
        let mut i: usize = 0;
        while i < n
            invariant
                self == old(self),
                self.wf(),
                n == self.atoms@.len(),
                0 <= i as int <= n as int,
                forall|j: int| 0 <= j < i as int ==> (#[trigger] self.atoms@[j]).0@ != name@,
            decreases n - i,
        {
            if name_eq(&self.atoms[i].0, &name) {
                proof {
                    lemma_map_of_remove(self.atoms@, i as int);
                    lemma_map_of_push(self.atoms@.remove(i as int), name, value);
                    assert(old(self)@.remove(self.atoms@[i as int].0@).insert(name@, value) =~= old(
                        self,
                    )@.insert(name@, value));
                }
                let ghost before = self.atoms@;
                self.atoms.remove(i);
                proof {
                    assert(self.atoms@ == before.remove(i as int));
                }
                self.atoms.push((name, value));
                proof {
                    assert forall|a: int, b: int|
                        #![trigger self.atoms@[a], self.atoms@[b]]
                        0 <= a < b < self.atoms@.len() implies self.atoms@[a].0@
                        != self.atoms@[b].0@ by {
                        if b < self.atoms@.len() - 1 {
                            assert(self.atoms@[a] == before.remove(i as int)[a]);
                            assert(self.atoms@[b] == before.remove(i as int)[b]);
                        } else {
                            assert(self.atoms@[b] == (name, value));
                            assert(self.atoms@[a] == before.remove(i as int)[a]);
                            assert(before.remove(i as int)[a].0@ != before[i as int].0@);
                        }
                    }
                }
                return;
            }
            i += 1;
        }
        proof {
            lemma_map_of_contains(self.atoms@, name@);
            lemma_map_of_push(self.atoms@, name, value);
        }
        let ghost before = self.atoms@;
        self.atoms.push((name, value));
        proof {
            assert forall|a: int, b: int|
                #![trigger self.atoms@[a], self.atoms@[b]]
                0 <= a < b < self.atoms@.len() implies self.atoms@[a].0@ != self.atoms@[b].0@ by {
                assert(self.atoms@[a] == before[a]);
                if b < self.atoms@.len() - 1 {
                    assert(self.atoms@[b] == before[b]);
                } else {
                    assert(self.atoms@[b] == (name, value));
                }
            }
        }
    }

    /// An identical copy of this state.
    pub fn duplicate(&self) -> (r: State)
        requires
            self.wf(),
        ensures
            r.wf(),
            r@ == self@,
            r.kvs() == self.kvs(),
    {
        let n = self.atoms.len();
        let mut out: Vec<(String, bool)> = Vec::new();
        let mut i: usize = 0;
        while i < n
            invariant
                self.wf(),
                n == self.atoms@.len(),
                0 <= i as int <= n as int,
                out@ == self.atoms@.take(i as int),
            decreases n - i,
        {
            out.push((self.atoms[i].0.clone(), self.atoms[i].1));
            proof {
                assert(out@ =~= self.atoms@.take(i as int + 1));
            }
            i += 1;
        }
        proof {
            assert(out@ =~= self.atoms@);
        }
        State { atoms: out }
    }

    /// How many atoms of `target` are unknown here or hold the wrong value.
    pub fn mismatch_count(&self, target: &State) -> (r: usize)
        requires
            self.wf(),
            target.wf(),
        ensures
            r as nat == mismatches(self@, target.kvs()),
            (r == 0) <==> satisfies(self@, target@),
    {
        let n = target.atoms.len();
        let mut count: usize = 0;
        let mut i: usize = 0;
        while i < n
            invariant
                self.wf(),
                target.wf(),
                n == target.atoms@.len(),
                0 <= i as int <= n as int,
                count as int <= i as int,
                count as nat == mismatches(self@, target.atoms@.take(i as int)),
            decreases n - i,
        {
            let want = target.atoms[i].1;
            let mism: bool = match self.get(&target.atoms[i].0) {
                Some(v) => v != want,
                None => true,
            };
            proof {
                let tk = target.atoms@;
                assert(tk.take(i as int + 1).drop_last() =~= tk.take(i as int));
                assert(tk.take(i as int + 1).last() == tk[i as int]);
                assert(mism == atom_mismatch(self@, tk[i as int]));
            }
            if mism {
                count += 1;
            }
            i += 1;
        }
        proof {
            assert(target.atoms@.take(n as int) =~= target.atoms@);
            lemma_mismatches_zero(self@, target.atoms@);
        }
        count
    }

    /// Whether this state satisfies every atom constrained by `target`.
    pub fn matches(&self, target: &State) -> (r: bool)
        requires
            self.wf(),
            target.wf(),
        ensures
            r == satisfies(self@, target@),
    {
        self.mismatch_count(target) == 0
    }

    /// The state after the action's postconditions overwrite this one.
    pub fn apply(&self, action: &Action) -> (r: State)
        requires
            self.wf(),
            action.wf(),
        ensures
            r.wf(),
            r@ == apply_post(self@, *action),
    {
        self.apply_overlay(&action.post_conditions)
    }

    /// A copy of this state with every atom of `post` overwritten into it.
    pub fn apply_overlay(&self, post: &State) -> (r: State)
        requires
            self.wf(),
            post.wf(),
        ensures
            r.wf(),
            r@ == self@.union_prefer_right(post@),
    {
        let n = post.atoms.len();
        let mut r = self.duplicate();
        proof {
            assert(r@ =~= self@.union_prefer_right(map_of(post.atoms@.take(0))));
        }
        let mut i: usize = 0;
        while i < n
            invariant
                post.wf(),
                r.wf(),
                n == post.atoms@.len(),
                0 <= i as int <= n as int,
                r@ == self@.union_prefer_right(map_of(post.atoms@.take(i as int))),
            decreases n - i,
        {
            let nm = post.atoms[i].0.clone();
            let vl = post.atoms[i].1;
            proof {
                let pk = post.atoms@;
                assert(pk.take(i as int + 1).drop_last() =~= pk.take(i as int));
                assert(pk.take(i as int + 1).last() == pk[i as int]);
                assert(self@.union_prefer_right(map_of(pk.take(i as int))).insert(nm@, vl)
                    =~= self@.union_prefer_right(map_of(pk.take(i as int + 1))));
            }
            r.insert(nm, vl);
            i += 1;
        }
        proof {
            assert(post.atoms@.take(n as int) =~= post.atoms@);
        }
        r
    }
}

} // verus!
