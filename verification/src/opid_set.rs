//! A set of operation ids, kept per actor as runs of counters.

use crate::fx_map::{fx_hashed, fx_keys, fx_new, FxMap};
use crate::rle_set::RleSet;
use crate::types::OpId;
use vstd::prelude::*;

verus! {

/// The first `n` items of `s`, as a set.
pub open spec fn prefix_set<T>(s: Seq<T>, n: int) -> Set<T> {
    Set::new(|x: T| exists|i: int| 0 <= i < n && i < s.len() && s[i] == x)
}

/// One more item of the list is one more member of the set, and all items
/// are the set of the list.
pub proof fn lemma_prefix_set<T>(s: Seq<T>, n: int)
    requires
        0 <= n <= s.len(),
    ensures
        prefix_set(s, 0) == Set::<T>::empty(),
        n < s.len() ==> prefix_set(s, n + 1) == prefix_set(s, n).insert(s[n]),
        prefix_set(s, s.len() as int) == s.to_set(),
{
    assert(prefix_set(s, 0) =~= Set::<T>::empty());
    if n < s.len() {
        assert forall|x: T| prefix_set(s, n + 1).contains(x) <==> prefix_set(s, n).insert(
            s[n],
        ).contains(x) by {
            if prefix_set(s, n + 1).contains(x) {
                let i = choose|i: int| 0 <= i < n + 1 && i < s.len() && s[i] == x;
                if i < n {
                    assert(prefix_set(s, n).contains(x));
                }
            }
            if prefix_set(s, n).contains(x) {
                let i = choose|i: int| 0 <= i < n && i < s.len() && s[i] == x;
                assert(0 <= i < n + 1 && s[i] == x);
            }
            if x == s[n] {
                assert(0 <= n < n + 1 && s[n] == x);
            }
        }
        assert(prefix_set(s, n + 1) =~= prefix_set(s, n).insert(s[n]));
    }
    assert forall|x: T| prefix_set(s, s.len() as int).contains(x) <==> s.to_set().contains(x) by {
        if prefix_set(s, s.len() as int).contains(x) {
            let i = choose|i: int| 0 <= i < s.len() && i < s.len() && s[i] == x;
            assert(s.contains(x));
        }
        if s.to_set().contains(x) {
            let i = choose|i: int| 0 <= i < s.len() && s[i] == x;
            assert(0 <= i < s.len() && i < s.len() && s[i] == x);
        }
    }
    assert(prefix_set(s, s.len() as int) =~= s.to_set());
}

/// A set of operation ids. The ids of one actor are kept together: an actor
/// hands out its counters one after the other, so they form few runs.
#[derive(Debug)]
pub struct OpIdSet {
    /// From the actor's index to the counters of its operations.
    map: FxMap<usize, RleSet>,
}

impl View for OpIdSet {
    type V = Set<OpId>;

    closed spec fn view(&self) -> Set<OpId> {
        Set::new(|id: OpId| self.map@.contains_key(id.1) && self.map@[id.1]@.contains(id.0))
    }
}

impl OpIdSet {
    /// Every actor's set is well formed and holds a counter.
    pub closed spec fn wf(&self) -> bool {
        &&& fx_hashed(&self.map)
        &&& forall|a: usize| #[trigger]
            self.map@.contains_key(a) ==> self.map@[a].wf() && self.map@[a]@ != Set::<u64>::empty()
    }

    /// An empty set.
    pub fn new() -> (s: Self)
        ensures
            s.wf(),
            s@ == Set::<OpId>::empty(),
    {
        let s = OpIdSet { map: fx_new() };
        assert(s.map@ =~= Map::<usize, RleSet>::empty());
        assert(s@ =~= Set::<OpId>::empty());
        s
    }

    /// Adds `opid`; tells whether it was missing before.
    pub fn insert(&mut self, opid: OpId) -> (b: bool)
        requires
            old(self).wf(),
            !old(self)@.contains(opid) ==> opid.0 < u64::MAX,
        ensures
            final(self).wf(),
            final(self)@ == old(self)@.insert(opid),
            b == !old(self)@.contains(opid),
    {
        let ghost before = self.map@;
        let mut set = match self.map.remove(&opid.actor()) {
            Some(set) => set,
            None => RleSet::default(),
        };
        let b = set.insert(opid.counter());
        self.map.insert(opid.actor(), set);
        proof {
            assert(set@.contains(opid.0));
            assert(self@ =~= old(self)@.insert(opid));
        }
        b
    }

    /// Takes `opid` out of the set; tells whether it was in it.
    pub fn remove(&mut self, opid: &OpId) -> (b: bool)
        requires
            old(self).wf(),
        ensures
            final(self).wf(),
            final(self)@ == old(self)@.remove(*opid),
            b == old(self)@.contains(*opid),
    {
        let ghost before = self.map@;
        let mut present = false;
        if let Some(mut set) = self.map.remove(&opid.actor()) {
            present = set.contains(opid.counter());
            set.remove(&opid.counter());
            let ghost after = set@;
            if !set.is_empty() {
                self.map.insert(opid.actor(), set);
            }
            proof {
                assert forall|id: OpId| self@.contains(id) <==> old(self)@.remove(*opid).contains(
                    id,
                ) by {
                    if id.1 == opid.1 {
                        assert(before.contains_key(id.1));
                        assert(after.contains(id.0) <==> before[id.1]@.contains(id.0) && id.0
                            != opid.0);
                    } else {
                        assert(before.contains_key(id.1) == self.map@.contains_key(id.1));
                    }
                }
            }
        }
        proof {
            assert(self@ =~= old(self)@.remove(*opid));
        }
        present
    }

    /// The ids of the set whose actor is in `actors`.
    spec fn of_actors(&self, actors: Set<usize>) -> Set<OpId> {
        Set::new(|id: OpId| actors.contains(id.1) && self@.contains(id))
    }

    /// The operation ids of the set, each once. The ids of one actor stand
    /// together, by ascending counter; the order of the actors is that of the
    /// hash map.
    pub fn iter(&self) -> (v: Vec<OpId>)
        requires
            self.wf(),
        ensures
            v@.no_duplicates(),
            v@.to_set() == self@,
    {
        let actors = fx_keys(&self.map);
        let mut v: Vec<OpId> = Vec::new();
        let mut a: usize = 0;
        proof {
            lemma_prefix_set(actors@, 0);
            assert(v@.to_set() =~= self.of_actors(prefix_set(actors@, 0)));
        }
        while a < actors.len()
            invariant
                0 <= a <= actors@.len(),
                self.wf(),
                actors@.no_duplicates(),
                actors@.to_set() == self.map@.dom(),
                v@.no_duplicates(),
                v@.to_set() == self.of_actors(prefix_set(actors@, a as int)),
            decreases actors@.len() - a,
        {
            let actor = actors[a];
            proof {
                assert(actors@.to_set().contains(actor));
                assert(self.map@.contains_key(actor));
                lemma_prefix_set(actors@, a as int);
            }
            let set = self.map.get(&actor).unwrap();
            let counters = set.iter();
            let ghost seen = prefix_set(actors@, a as int);
            let ghost done = v@;
            let mut c: usize = 0;
            proof {
                assert(!seen.contains(actor)) by {
                    if seen.contains(actor) {
                        let i = choose|i: int|
                            0 <= i < a && i < actors@.len() && actors@[i] == actor;
                        assert(actors@[i] == actors@[a as int]);
                    }
                }
            }
            while c < counters.len()
                invariant
                    0 <= c <= counters@.len(),
                    !seen.contains(actor),
                    done.to_set() == self.of_actors(seen),
                    forall|i: int, j: int| 0 <= i < j < counters@.len() ==> counters@[i] < counters@[j],
                    v@.len() == done.len() + c,
                    forall|i: int| 0 <= i < done.len() ==> v@[i] == done[i],
                    forall|i: int| 0 <= i < c ==> v@[done.len() + i] == OpId(counters@[i], actor),
                    done.no_duplicates(),
                decreases counters@.len() - c,
            {
                v.push(OpId(counters[c], actor));
                c = c + 1;
            }
            proof {
                assert(v@.no_duplicates()) by {
                    assert forall|i: int, j: int|
                        0 <= i < v@.len() && 0 <= j < v@.len() && i != j implies v@[i] != v@[j] by {
                        let p = i - done.len();
                        let q = j - done.len();
                        if i < done.len() && j >= done.len() {
                            assert(v@[done.len() + q] == OpId(counters@[q], actor));
                            assert(v@[i] == done[i]);
                            assert(done.to_set().contains(done[i]));
                            assert(self.of_actors(seen).contains(done[i]));
                            assert(seen.contains(done[i].1));
                        } else if j < done.len() && i >= done.len() {
                            assert(v@[done.len() + p] == OpId(counters@[p], actor));
                            assert(v@[j] == done[j]);
                            assert(done.to_set().contains(done[j]));
                            assert(self.of_actors(seen).contains(done[j]));
                            assert(seen.contains(done[j].1));
                        } else if i >= done.len() && j >= done.len() {
                            assert(v@[done.len() + p] == OpId(counters@[p], actor));
                            assert(v@[done.len() + q] == OpId(counters@[q], actor));
                            if p < q {
                                assert(counters@[p] < counters@[q]);
                            } else {
                                assert(counters@[q] < counters@[p]);
                            }
                        } else {
                            assert(v@[i] == done[i] && v@[j] == done[j]);
                        }
                    }
                }
                let grown = prefix_set(actors@, a as int + 1);
                assert forall|id: OpId| v@.to_set().contains(id) <==> self.of_actors(
                    grown,
                ).contains(id) by {
                    if v@.to_set().contains(id) {
                        let i = choose|i: int| 0 <= i < v@.len() && v@[i] == id;
                        let p = i - done.len();
                        if i < done.len() {
                            assert(done.to_set().contains(done[i]));
                        } else {
                            assert(v@[done.len() + p] == OpId(counters@[p], actor));
                            assert(counters@.to_set().contains(counters@[p]));
                        }
                    }
                    if self.of_actors(grown).contains(id) {
                        if id.1 == actor {
                            assert(counters@.to_set().contains(id.0));
                            let j = choose|j: int| 0 <= j < counters@.len() && counters@[j] == id.0;
                            assert(v@[done.len() + j] == id);
                        } else {
                            assert(done.to_set().contains(id));
                            let i = choose|i: int| 0 <= i < done.len() && done[i] == id;
                            assert(v@[i] == id);
                        }
                    }
                }
                assert(v@.to_set() =~= self.of_actors(grown));
            }
            a = a + 1;
        }
        proof {
            lemma_prefix_set(actors@, actors@.len() as int);
            assert(self.of_actors(actors@.to_set()) =~= self@);
        }
        v
    }

    /// Adds every operation id of `other`.
    pub fn merge(&mut self, other: &Self)
        requires
            old(self).wf(),
            other.wf(),
        ensures
            final(self).wf(),
            final(self)@ == old(self)@.union(other@),
    {
        let actors = fx_keys(&other.map);
        let ghost before = self@;
        let mut a: usize = 0;
        proof {
            lemma_prefix_set(actors@, 0);
            assert(self@ =~= before.union(other.of_actors(prefix_set(actors@, 0))));
        }
        while a < actors.len()
            invariant
                0 <= a <= actors@.len(),
                self.wf(),
                other.wf(),
                actors@.to_set() == other.map@.dom(),
                self@ == before.union(other.of_actors(prefix_set(actors@, a as int))),
            decreases actors@.len() - a,
        {
            let actor = actors[a];
            proof {
                assert(actors@.to_set().contains(actor));
                assert(other.map@.contains_key(actor));
                lemma_prefix_set(actors@, a as int);
            }
            let theirs = other.map.get(&actor).unwrap();
            let ghost cur = self@;
            let ghost cur_map = self.map@;
            match self.map.remove(&actor) {
                Some(mut ours) => {
                    ours.absorb(theirs);
                    proof {
                        if ours@ == Set::<u64>::empty() {
                            assert(theirs@ =~= Set::<u64>::empty());
                        }
                    }
                    self.map.insert(actor, ours);
                },
                None => {
                    self.map.insert(actor, theirs.clone());
                },
            }
            proof {
                let seen = prefix_set(actors@, a as int);
                let grown = prefix_set(actors@, a as int + 1);
                assert forall|id: OpId| self@.contains(id) <==> before.union(
                    other.of_actors(grown),
                ).contains(id) by {
                    if id.1 == actor {
                        assert(cur.contains(id) <==> cur_map.contains_key(actor)
                            && cur_map[actor]@.contains(id.0));
                        assert(other.of_actors(grown).contains(id) <==> other@.contains(id));
                        assert(other.of_actors(seen).contains(id) ==> other@.contains(id));
                    } else {
                        assert(self@.contains(id) <==> cur.contains(id));
                        assert(other.of_actors(grown).contains(id) <==> other.of_actors(
                            seen,
                        ).contains(id));
                    }
                }
                assert(self@ =~= before.union(other.of_actors(grown)));
            }
            a = a + 1;
        }
        proof {
            lemma_prefix_set(actors@, actors@.len() as int);
            assert(other.of_actors(actors@.to_set()) =~= other@);
        }
    }

    /// Whether `opid` is in the set.
    pub fn contains(&self, opid: &OpId) -> (b: bool)
        requires
            self.wf(),
        ensures
            b == self@.contains(*opid),
    {
        match self.map.get(&opid.actor()) {
            Some(set) => set.contains(opid.counter()),
            None => false,
        }
    }
}

impl Default for OpIdSet {
    fn default() -> (s: Self)
        ensures
            s.wf(),
            s@ == Set::<OpId>::empty(),
    {
        OpIdSet::new()
    }
}

impl Clone for OpIdSet {
    fn clone(&self) -> (s: Self)
        ensures
            s@ == self@,
            s.wf() == self.wf(),
    {
        OpIdSet { map: self.map.clone() }
    }
}

} // verus!
