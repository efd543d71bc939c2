//! The number of visible operations per list element. Most elements have
//! one, so those are kept as a set of ids; the others are kept per actor as
//! runs of counters with their numbers.

use crate::fx_map::{fx_hashed, fx_keys, fx_new, FxMap};
use crate::opid_set::{lemma_prefix_set, prefix_set, OpIdSet};
use crate::rle_map::RleMap;
use crate::types::{ElemId, OpId};
use vstd::prelude::*;

verus! {

/// Whether the per-actor maps give `id` a number.
pub open spec fn in_actor_maps(m: Map<usize, RleMap>, id: OpId) -> bool {
    m.contains_key(id.1) && m[id.1]@.contains_key(id.0)
}

/// A map from list elements to numbers of visible operations.
#[derive(Debug)]
pub struct VisibleElemIdMap {
    /// The elements whose number is 1.
    opset: OpIdSet,
    /// The elements whose number is not 1, by actor and counter.
    map: FxMap<usize, RleMap>,
}

impl View for VisibleElemIdMap {
    type V = Map<ElemId, usize>;

    closed spec fn view(&self) -> Map<ElemId, usize> {
        Map::new(
            |e: ElemId| self.opset@.contains(e.0) || in_actor_maps(self.map@, e.0),
            |e: ElemId|
                if self.opset@.contains(e.0) {
                    1usize
                } else {
                    self.map@[e.0.1]@[e.0.0]
                },
        )
    }
}

impl VisibleElemIdMap {
    /// The two parts are well formed and share no element, the number 1 is
    /// kept in the set only, and no actor's map is empty.
    pub closed spec fn wf(&self) -> bool {
        &&& self.opset.wf()
        &&& fx_hashed(&self.map)
        &&& forall|a: usize| #[trigger]
            self.map@.contains_key(a) ==> self.map@[a].wf() && self.map@[a]@ != Map::<
                u64,
                usize,
            >::empty()
        &&& forall|id: OpId| #[trigger]
            in_actor_maps(self.map@, id) ==> !self.opset@.contains(id) && self.map@[id.1]@[id.0]
                != 1
    }

    /// An empty map.
    pub fn new() -> (s: Self)
        ensures
            s.wf(),
            s@ == Map::<ElemId, usize>::empty(),
    {
        let s = VisibleElemIdMap { opset: OpIdSet::new(), map: fx_new() };
        assert(s.map@ =~= Map::<usize, RleMap>::empty());
        assert(s@ =~= Map::<ElemId, usize>::empty());
        s
    }

    /// The number of `opid`, if it has one.
    pub fn get(&self, opid: &ElemId) -> (r: Option<&usize>)
        requires
            self.wf(),
        ensures
            match r {
                Some(n) => self@.contains_key(*opid) && *n == self@[*opid],
                None => !self@.contains_key(*opid),
            },
    {
        if self.opset.contains(&opid.0) {
            Some(&1)
        } else {
            match self.map.get(&opid.0.actor()) {
                Some(map) => map.get(opid.0.counter()),
                None => None,
            }
        }
    }

    /// Takes `id` out of the per-actor maps.
    fn remove_from_maps(&mut self, id: &OpId)
        requires
            old(self).wf(),
        ensures
            final(self).wf(),
            final(self).opset == old(self).opset,
            forall|other: OpId|
                in_actor_maps(final(self).map@, other) <==> in_actor_maps(old(self).map@, other)
                    && other != *id,
            forall|other: OpId| #[trigger]
                in_actor_maps(final(self).map@, other) ==> final(self).map@[other.1]@[other.0]
                    == old(self).map@[other.1]@[other.0],
    {
        let ghost before = self.map@;
        if let Some(mut map) = self.map.remove(&id.actor()) {
            map.remove(id.counter());
            let ghost after = map@;
            if !map.is_empty() {
                self.map.insert(id.actor(), map);
            }
            proof {
                assert forall|other: OpId|
                    in_actor_maps(self.map@, other) <==> in_actor_maps(before, other) && other
                        != *id by {
                    if other.1 == id.1 {
                        assert(before.contains_key(other.1));
                        assert(after.contains_key(other.0) <==> before[other.1]@.contains_key(
                            other.0,
                        ) && other.0 != id.0);
                    } else {
                        assert(before.contains_key(other.1) == self.map@.contains_key(other.1));
                    }
                }
                assert forall|other: OpId| #[trigger]
                    in_actor_maps(self.map@, other) implies self.map@[other.1]@[other.0]
                    == before[other.1]@[other.0] && !self.opset@.contains(other)
                    && self.map@[other.1]@[other.0] != 1 by {
                    assert(in_actor_maps(before, other));
                }
            }
        } else {
            proof {
                assert(self.map@ =~= before);
            }
        }
    }

    /// Gives `opid` the number `value`, in place of the one it had, if it
    /// had one.
    pub fn insert(&mut self, opid: ElemId, value: usize)
        requires
            old(self).wf(),
            opid.0.0 < u64::MAX,
        ensures
            final(self).wf(),
            final(self)@ == old(self)@.insert(opid, value),
    {
        let ghost before_set = self.opset@;
        let ghost before_map = self.map@;
        if value == 1 {
            self.remove_from_maps(&opid.0);
            self.opset.insert(opid.0);
            proof {
                assert forall|id: OpId| #[trigger] in_actor_maps(self.map@, id) implies !self.opset@.contains(
                    id,
                ) && self.map@[id.1]@[id.0] != 1 by {
                    assert(in_actor_maps(before_map, id));
                }
            }
        } else {
            self.opset.remove(&opid.0);
            let mut map = match self.map.remove(&opid.0.actor()) {
                Some(map) => map,
                None => RleMap::default(),
            };
            let ghost was = map@;
            map.insert(opid.0.counter(), value);
            proof {
                assert(map@.contains_key(opid.0.0));
                if map@ == Map::<u64, usize>::empty() {
                    assert(Map::<u64, usize>::empty().contains_key(opid.0.0));
                }
            }
            self.map.insert(opid.0.actor(), map);
            proof {
                assert forall|id: OpId|
                    in_actor_maps(self.map@, id) <==> in_actor_maps(before_map, id) || id
                        == opid.0 by {
                    if id.1 == opid.0.1 {
                        assert(self.map@[id.1]@.contains_key(id.0) <==> was.contains_key(id.0)
                            || id.0 == opid.0.0);
                    } else {
                        assert(before_map.contains_key(id.1) == self.map@.contains_key(id.1));
                    }
                }
                assert forall|id: OpId| #[trigger] in_actor_maps(self.map@, id) implies !self.opset@.contains(
                    id,
                ) && self.map@[id.1]@[id.0] != 1 by {
                    if id != opid.0 {
                        assert(in_actor_maps(before_map, id));
                    }
                }
            }
        }
        proof {
            let want = old(self)@.insert(opid, value);
            assert forall|e: ElemId| self@.contains_key(e) == want.contains_key(e) && (
            self@.contains_key(e) ==> self@[e] == want[e]) by {
                if e != opid {
                    assert(e.0 != opid.0);
                    assert(in_actor_maps(self.map@, e.0) <==> in_actor_maps(before_map, e.0));
                    if in_actor_maps(self.map@, e.0) {
                        assert(self.map@[e.0.1]@[e.0.0] == before_map[e.0.1]@[e.0.0]);
                    }
                }
            }
            assert(self@ =~= want);
        }
    }

    /// Takes the number of `opid` away.
    pub fn remove(&mut self, opid: &ElemId)
        requires
            old(self).wf(),
        ensures
            final(self).wf(),
            final(self)@ == old(self)@.remove(*opid),
    {
        let ghost before_map = self.map@;
        if !self.opset.remove(&opid.0) {
            self.remove_from_maps(&opid.0);
        }
        proof {
            let want = old(self)@.remove(*opid);
            assert forall|id: OpId| #[trigger] in_actor_maps(self.map@, id) implies !self.opset@.contains(
                id,
            ) && self.map@[id.1]@[id.0] != 1 by {
                assert(in_actor_maps(before_map, id));
            }
            assert forall|e: ElemId| self@.contains_key(e) == want.contains_key(e) && (
            self@.contains_key(e) ==> self@[e] == want[e]) by {
                if e != *opid {
                    assert(e.0 != opid.0);
                    assert(in_actor_maps(self.map@, e.0) <==> in_actor_maps(before_map, e.0));
                    if in_actor_maps(self.map@, e.0) {
                        assert(self.map@[e.0.1]@[e.0.0] == before_map[e.0.1]@[e.0.0]);
                    }
                } else {
                    assert(!in_actor_maps(self.map@, e.0));
                }
            }
            assert(self@ =~= want);
        }
    }

    /// Whether `e` is an element of number 1, or one of another number whose
    /// actor is in `actors`.
    spec fn listed_so_far(&self, actors: Set<usize>, e: ElemId) -> bool {
        self.opset@.contains(e.0) || (actors.contains(e.0.1) && in_actor_maps(self.map@, e.0))
    }

    /// The elements with their numbers, each element once: first those of
    /// number 1, then the others actor by actor, by ascending counter.
    pub fn iter(&self) -> (v: Vec<(ElemId, usize)>)
        requires
            self.wf(),
        ensures
            forall|i: int|
                0 <= i < v@.len() ==> self@.contains_key(#[trigger] v@[i].0) && self@[v@[i].0]
                    == v@[i].1,
            forall|i: int, j: int| 0 <= i < j < v@.len() ==> v@[i].0 != v@[j].0,
            forall|e: ElemId|
                self@.contains_key(e) ==> exists|i: int| 0 <= i < v@.len() && #[trigger] v@[i].0 == e,
    {
        let ones = self.opset.iter();
        let mut v: Vec<(ElemId, usize)> = Vec::new();
        let mut n: usize = 0;
        while n < ones.len()
            invariant
                0 <= n <= ones@.len(),
                v@.len() == n,
                forall|i: int| 0 <= i < n ==> #[trigger] v@[i] == (ElemId(ones@[i]), 1usize),
            decreases ones@.len() - n,
        {
            v.push((ElemId(ones[n]), 1));
            n = n + 1;
        }
        let actors = fx_keys(&self.map);
        let mut a: usize = 0;
        proof {
            lemma_prefix_set(actors@, 0);
            assert forall|i: int| 0 <= i < v@.len() implies self.listed_so_far(
                prefix_set(actors@, 0),
                #[trigger] v@[i].0,
            ) && self@.contains_key(v@[i].0) && self@[v@[i].0] == v@[i].1 by {
                assert(v@[i] == (ElemId(ones@[i]), 1usize));
                assert(ones@.to_set().contains(ones@[i]));
            }
            assert forall|e: ElemId| self.listed_so_far(prefix_set(actors@, 0), e) implies exists|
                i: int,
            | 0 <= i < v@.len() && #[trigger] v@[i].0 == e by {
                assert(ones@.to_set().contains(e.0));
                let i = choose|i: int| 0 <= i < ones@.len() && ones@[i] == e.0;
                assert(v@[i] == (ElemId(ones@[i]), 1usize));
                assert(v@[i].0 == e);
            }
            assert forall|i: int, j: int| 0 <= i < j < v@.len() implies v@[i].0 != v@[j].0 by {
                assert(v@[i] == (ElemId(ones@[i]), 1usize));
                assert(v@[j] == (ElemId(ones@[j]), 1usize));
            }
        }
        while a < actors.len()
            invariant
                0 <= a <= actors@.len(),
                self.wf(),
                actors@.no_duplicates(),
                actors@.to_set() == self.map@.dom(),
                forall|i: int|
                    0 <= i < v@.len() ==> self.listed_so_far(
                        prefix_set(actors@, a as int),
                        #[trigger] v@[i].0,
                    ) && self@.contains_key(v@[i].0) && self@[v@[i].0] == v@[i].1,
                forall|i: int, j: int| 0 <= i < j < v@.len() ==> v@[i].0 != v@[j].0,
                forall|e: ElemId|
                    self.listed_so_far(prefix_set(actors@, a as int), e) ==> exists|i: int|
                        0 <= i < v@.len() && #[trigger] v@[i].0 == e,
            decreases actors@.len() - a,
        {
            let actor = actors[a];
            proof {
                assert(actors@.to_set().contains(actor));
                assert(self.map@.contains_key(actor));
                lemma_prefix_set(actors@, a as int);
            }
            let entries = self.map.get(&actor).unwrap().iter();
            let ghost seen = prefix_set(actors@, a as int);
            let ghost grown = prefix_set(actors@, a as int + 1);
            let ghost done = v@;
            let ghost values = self.map@[actor]@;
            proof {
                assert(!seen.contains(actor)) by {
                    if seen.contains(actor) {
                        let i = choose|i: int|
                            0 <= i < a && i < actors@.len() && actors@[i] == actor;
                        assert(actors@[i] == actors@[a as int]);
                    }
                }
            }
            let mut c: usize = 0;
            while c < entries.len()
                invariant
                    0 <= c <= entries@.len(),
                    v@.len() == done.len() + c,
                    forall|i: int| 0 <= i < done.len() ==> v@[i] == done[i],
                    forall|i: int|
                        0 <= i < c ==> v@[done.len() + i] == (
                            ElemId(OpId(entries@[i].0, actor)),
                            entries@[i].1,
                        ),
                decreases entries@.len() - c,
            {
                v.push((ElemId(OpId(entries[c].0, actor)), entries[c].1));
                c = c + 1;
            }
            proof {
                assert forall|i: int| 0 <= i < v@.len() implies self.listed_so_far(
                    grown,
                    #[trigger] v@[i].0,
                ) && self@.contains_key(v@[i].0) && self@[v@[i].0] == v@[i].1 by {
                    let p = i - done.len();
                    if i < done.len() {
                        assert(v@[i] == done[i]);
                        assert(self.listed_so_far(seen, done[i].0));
                    } else {
                        assert(v@[done.len() + p] == (
                            ElemId(OpId(entries@[p].0, actor)),
                            entries@[p].1,
                        ));
                        assert(values.contains_key(entries@[p].0));
                        assert(in_actor_maps(self.map@, OpId(entries@[p].0, actor)));
                    }
                }
                assert forall|i: int, j: int| 0 <= i < j < v@.len() implies v@[i].0 != v@[j].0 by {
                    let p = i - done.len();
                    let q = j - done.len();
                    if j >= done.len() {
                        assert(v@[done.len() + q] == (
                            ElemId(OpId(entries@[q].0, actor)),
                            entries@[q].1,
                        ));
                        assert(values.contains_key(entries@[q].0));
                        assert(in_actor_maps(self.map@, OpId(entries@[q].0, actor)));
                        if i >= done.len() {
                            assert(v@[done.len() + p] == (
                                ElemId(OpId(entries@[p].0, actor)),
                                entries@[p].1,
                            ));
                            assert(entries@[p].0 < entries@[q].0);
                        } else {
                            assert(v@[i] == done[i]);
                            assert(self.listed_so_far(seen, done[i].0));
                        }
                    } else {
                        assert(v@[i] == done[i] && v@[j] == done[j]);
                    }
                }
                assert forall|e: ElemId| self.listed_so_far(grown, e) implies exists|i: int|
                    0 <= i < v@.len() && #[trigger] v@[i].0 == e by {
                    if self.listed_so_far(seen, e) {
                        let i = choose|i: int| 0 <= i < done.len() && #[trigger] done[i].0 == e;
                        assert(v@[i].0 == e);
                    } else {
                        assert(e.0.1 == actor);
                        assert(values.contains_key(e.0.0));
                        let j = choose|j: int|
                            0 <= j < entries@.len() && #[trigger] entries@[j].0 == e.0.0;
                        assert(v@[done.len() + j].0 == e);
                    }
                }
            }
            a = a + 1;
        }
        proof {
            lemma_prefix_set(actors@, actors@.len() as int);
            assert forall|e: ElemId| self@.contains_key(e) implies exists|i: int|
                0 <= i < v@.len() && #[trigger] v@[i].0 == e by {
                assert(self.listed_so_far(actors@.to_set(), e));
            }
        }
        v
    }

    /// Whether `opid` has a number.
    pub fn contains_key(&self, opid: &ElemId) -> (b: bool)
        requires
            self.wf(),
        ensures
            b == self@.contains_key(*opid),
    {
        self.opset.contains(&opid.0) || match self.map.get(&opid.0.actor()) {
            Some(map) => map.contains_key(opid.0.counter()),
            None => false,
        }
    }
}

impl Default for VisibleElemIdMap {
    fn default() -> (s: Self)
        ensures
            s.wf(),
            s@ == Map::<ElemId, usize>::empty(),
    {
        VisibleElemIdMap::new()
    }
}

} // verus!
