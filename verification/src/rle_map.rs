//! A map from counters to values stored as runs: each entry of the
//! underlying ordered map is the first counter of a run and the values of the
//! consecutive counters from it on.

use crate::rle_set::{
    floor_key, in_run, interval, lemma_iter_ascending, lemma_run_is_maximal,
    lemma_runs_determined, lemma_runs_set_insert,
    lemma_runs_set_split, runs_set, runs_wf,
};
use std::collections::BTreeMap;
use vstd::prelude::*;
use vstd::std_specs::iter::IteratorSpec;

verus! {

/// The lengths of the runs of values.
pub open spec fn run_lens(m: Map<u64, Vec<usize>>) -> Map<u64, u64> {
    Map::new(|k: u64| m.contains_key(k), |k: u64| m[k].len() as u64)
}

/// The first counter of the run that holds `x`.
pub open spec fn run_start(lens: Map<u64, u64>, x: u64) -> u64 {
    choose|k: u64| in_run(lens, k, x)
}

/// The value that the runs give to each counter they hold.
pub open spec fn run_values(m: Map<u64, Vec<usize>>) -> Map<u64, usize> {
    Map::new(
        |x: u64| runs_set(run_lens(m)).contains(x),
        |x: u64| m[run_start(run_lens(m), x)]@[x - run_start(run_lens(m), x)],
    )
}

/// The values of one run, by counter.
pub open spec fn one_run(k: u64, v: Seq<usize>) -> Map<u64, usize> {
    Map::new(|x: u64| k <= x && x - k < v.len(), |x: u64| v[x - k])
}

/// Among well-formed runs a counter lies in one run at most.
pub proof fn lemma_run_start(lens: Map<u64, u64>, k: u64, x: u64)
    requires
        runs_wf(lens),
        in_run(lens, k, x),
    ensures
        run_start(lens, x) == k,
{
    let j = run_start(lens, x);
    assert(in_run(lens, j, x));
    assert(lens.contains_key(j) && lens.contains_key(k));
}

/// Writing the run `(k, v)` gives its counters their values and leaves the
/// counters of the other runs as they are.
pub proof fn lemma_run_values_insert(m: Map<u64, Vec<usize>>, k: u64, v: Vec<usize>)
    requires
        runs_wf(run_lens(m.insert(k, v))),
    ensures
        run_values(m.insert(k, v)) == run_values(m.remove(k)).union_prefer_right(one_run(k, v@)),
        runs_wf(run_lens(m.remove(k))),
{
    let new = m.insert(k, v);
    let rest = m.remove(k);
    let len = v.len() as u64;
    assert(v.len() == v@.len());
    assert(run_lens(new) =~= run_lens(m).insert(k, len));
    assert(run_lens(rest) =~= run_lens(m).remove(k));
    lemma_runs_set_insert(run_lens(m), k, len);
    assert(runs_wf(run_lens(rest))) by {
        assert forall|a: u64| #[trigger] run_lens(rest).contains_key(a) implies run_lens(rest)[a]
            >= 1 && a + run_lens(rest)[a] <= u64::MAX by {
            assert(run_lens(new).contains_key(a));
        }
        assert forall|a: u64, b: u64|
            #![trigger run_lens(rest).contains_key(a), run_lens(rest).contains_key(b)]
            run_lens(rest).contains_key(a) && run_lens(rest).contains_key(b) && a < b implies a
            + run_lens(rest)[a] < b by {
            assert(run_lens(new).contains_key(a) && run_lens(new).contains_key(b));
        }
    }
    let lhs = run_values(new);
    let rhs = run_values(rest).union_prefer_right(one_run(k, v@));
    assert forall|x: u64| lhs.contains_key(x) == rhs.contains_key(x) && (lhs.contains_key(x)
        ==> lhs[x] == rhs[x]) by {
        if interval(k, len).contains(x) {
            assert(in_run(run_lens(new), k, x));
            lemma_run_start(run_lens(new), k, x);
        } else if runs_set(run_lens(rest)).contains(x) {
            let j = choose|j: u64| in_run(run_lens(rest), j, x);
            assert(in_run(run_lens(new), j, x));
            lemma_run_start(run_lens(new), j, x);
            lemma_run_start(run_lens(rest), j, x);
        }
    }
    assert(lhs =~= rhs);
}

/// The values of a run and those of the other runs make up the whole map,
/// and the two parts share no counter.
pub proof fn lemma_run_values_split(m: Map<u64, Vec<usize>>, k: u64)
    requires
        runs_wf(run_lens(m)),
        m.contains_key(k),
    ensures
        run_values(m) == run_values(m.remove(k)).union_prefer_right(one_run(k, m[k]@)),
        run_values(m.remove(k)).dom().disjoint(one_run(k, m[k]@).dom()),
        runs_wf(run_lens(m.remove(k))),
{
    assert(m.remove(k).insert(k, m[k]) =~= m);
    assert(m.remove(k).remove(k) =~= m.remove(k));
    lemma_run_values_insert(m.remove(k), k, m[k]);
    assert(run_lens(m.remove(k)) =~= run_lens(m).remove(k));
    lemma_runs_set_split(run_lens(m), k);
    assert(m[k].len() == m[k]@.len());
    assert(one_run(k, m[k]@).dom() =~= interval(k, run_lens(m)[k]));
}

/// Writing a run keeps the runs well formed where it is not empty, ends
/// below the last counter and keeps clear of the runs around it.
pub proof fn lemma_wf_insert(m: Map<u64, Vec<usize>>, k: u64, v: Vec<usize>)
    requires
        runs_wf(run_lens(m.remove(k))),
        v@.len() >= 1,
        k + v@.len() <= u64::MAX,
        forall|j: u64|
            #![trigger m.contains_key(j)]
            m.contains_key(j) && j < k ==> j + m[j]@.len() < k,
        forall|j: u64| #![trigger m.contains_key(j)] m.contains_key(j) && j > k ==> k + v@.len() < j,
    ensures
        runs_wf(run_lens(m.insert(k, v))),
{
    let new = run_lens(m.insert(k, v));
    let rest = run_lens(m.remove(k));
    assert(v.len() == v@.len());
    assert forall|a: u64| #[trigger] new.contains_key(a) implies new[a] >= 1 && a + new[a]
        <= u64::MAX by {
        if a != k {
            assert(rest.contains_key(a));
        }
    }
    assert forall|a: u64, b: u64|
        #![trigger new.contains_key(a), new.contains_key(b)]
        new.contains_key(a) && new.contains_key(b) && a < b implies a + new[a] < b by {
        if a == k {
            assert(m.contains_key(b));
        } else if b == k {
            assert(m.contains_key(a));
            assert(m[a].len() == m[a]@.len());
        } else {
            assert(rest.contains_key(a) && rest.contains_key(b));
        }
    }
}

/// The counters of `dom` whose predecessor is not in `dom`: the first
/// counters of its maximal stretches.
pub open spec fn run_starts(dom: Set<u64>) -> Set<u64> {
    Set::new(|k: u64| dom.contains(k) && (k == 0 || !dom.contains((k - 1) as u64)))
}

/// A map from counters to values kept as maximal runs of consecutive
/// counters.
#[derive(Debug, PartialEq)]
pub struct RleMap {
    /// From the first counter of each run to the values of the run.
    map: BTreeMap<u64, Vec<usize>>,
}

impl View for RleMap {
    type V = Map<u64, usize>;

    closed spec fn view(&self) -> Map<u64, usize> {
        run_values(self.map@)
    }
}

impl RleMap {
    /// The runs, from first counter to values.
    pub closed spec fn runs(&self) -> Map<u64, Seq<usize>> {
        Map::new(|k: u64| self.map@.contains_key(k), |k: u64| self.map@[k]@)
    }

    /// The runs are maximal: none is empty and no two touch.
    pub closed spec fn wf(&self) -> bool {
        runs_wf(run_lens(self.map@))
    }

    /// An empty map.
    pub fn new() -> (s: Self)
        ensures
            s.wf(),
            s@ == Map::<u64, usize>::empty(),
    {
        let s = RleMap { map: BTreeMap::new() };
        assert(s@ =~= Map::<u64, usize>::empty()) by {
            assert forall|x: u64| !runs_set(run_lens(s.map@)).contains(x) by {
                if runs_set(run_lens(s.map@)).contains(x) {
                    let j = choose|j: u64| in_run(run_lens(s.map@), j, x);
                }
            }
        }
        s
    }

    /// The value of `counter`, if it has one.
    pub fn get(&self, counter: u64) -> (r: Option<&usize>)
        requires
            self.wf(),
        ensures
            match r {
                Some(v) => self@.contains_key(counter) && *v == self@[counter],
                None => !self@.contains_key(counter),
            },
    {
        match floor_key(&self.map, counter) {
            Some(k) => {
                let v = self.map.get(&k).unwrap();
                proof {
                    let lens = run_lens(self.map@);
                    assert(lens.contains_key(k));
                    if counter - k < v@.len() {
                        assert(in_run(lens, k, counter));
                        lemma_run_start(lens, k, counter);
                    } else if runs_set(lens).contains(counter) {
                        let j = choose|j: u64| in_run(lens, j, counter);
                        assert(lens.contains_key(j) && lens.contains_key(k));
                        assert(self.map@.contains_key(j));
                    }
                }
                if counter - k < v.len() as u64 {
                    Some(&v[(counter - k) as usize])
                } else {
                    None
                }
            },
            None => {
                proof {
                    let lens = run_lens(self.map@);
                    if runs_set(lens).contains(counter) {
                        let j = choose|j: u64| in_run(lens, j, counter);
                        assert(self.map@.contains_key(j));
                    }
                }
                None
            },
        }
    }

    /// Gives `counter` the value `value`, in place of the one it had, if it
    /// had one. A neighbouring run grows by the new counter, and two runs
    /// that it joins become one.
    pub fn insert(&mut self, counter: u64, value: usize)
        requires
            old(self).wf(),
            !old(self)@.contains_key(counter) ==> counter < u64::MAX,
        ensures
            final(self).wf(),
            final(self)@ == old(self)@.insert(counter, value),
    {
        proof {
            if self@.contains_key(counter) {
                let k = choose|k: u64| in_run(run_lens(self.map@), k, counter);
                assert(run_lens(self.map@).contains_key(k));
            }
        }
        let ghost before = self.map@;
        let right = self.map.remove(&(counter + 1));
        let ghost mid = self.map@;
        let left = floor_key(&self.map, counter);
        let left_len = match left {
            Some(k) => self.map.get(&k).unwrap().len(),
            None => 0,
        };
        proof {
            assert(one_run(counter, seq![value]) =~= Map::<u64, usize>::empty().insert(
                counter,
                value,
            ));
            if right.is_some() {
                assert(run_lens(before).contains_key((counter + 1) as u64));
                lemma_run_values_split(before, (counter + 1) as u64);
                assert(right.unwrap().len() == right.unwrap()@.len());
            } else {
                assert(mid =~= before);
            }
            if left.is_some() {
                assert(run_lens(mid).contains_key(left.unwrap()));
                assert(mid[left.unwrap()].len() == mid[left.unwrap()]@.len());
                lemma_run_values_split(mid, left.unwrap());
            }
            assert(runs_wf(run_lens(mid)));
            assert forall|j: u64| #![trigger mid.contains_key(j)] mid.contains_key(j) implies (j
                > counter ==> j > counter + 1 && (right.is_some() ==> counter + 1
                + right.unwrap()@.len() < j)) && (j <= counter ==> left.is_some() && j
                <= left.unwrap() && (j < left.unwrap() ==> j + mid[j]@.len() < left.unwrap())) by {
                assert(before.contains_key(j) && run_lens(before).contains_key(j));
                assert(mid[j].len() == mid[j]@.len());
                if j > counter && right.is_some() {
                    assert(run_lens(before).contains_key((counter + 1) as u64));
                }
                if j <= counter && j < left.unwrap() {
                    assert(run_lens(mid).contains_key(j) && run_lens(mid).contains_key(
                        left.unwrap(),
                    ));
                }
            }
            if !mid.contains_key(counter) {
                assert(mid.remove(counter) =~= mid);
            }
            // the counter has no value yet, unless the run below reaches it
            if left.is_none() || counter - left.unwrap() >= left_len {
                assert(!run_values(mid).contains_key(counter)) by {
                    if runs_set(run_lens(mid)).contains(counter) {
                        let j = choose|j: u64| in_run(run_lens(mid), j, counter);
                        assert(mid.contains_key(j));
                        if left.is_some() {
                            assert(run_lens(mid).contains_key(j) && run_lens(mid).contains_key(
                                left.unwrap(),
                            ));
                        }
                    }
                }
            }
        }
        match (left, right) {
            (None, None) => {
                let v = vec![value];
                proof {
                    assert(v@ =~= seq![value]);
                    lemma_wf_insert(mid, counter, v);
                    lemma_run_values_insert(mid, counter, v);
                    assert(mid.remove(counter) =~= mid);
                }
                self.map.insert(counter, v);
            },
            (None, Some(mut v)) => {
                let ghost rv = v;
                v.insert(0, value);
                proof {
                    assert(v.len() == v@.len());
                    assert(before.contains_key((counter + 1) as u64));
                    assert forall|j: u64| mid.contains_key(j) implies before.contains_key(j)
                        && before[j] == mid[j] && j != counter + 1 by {}
                    lemma_wf_insert(mid, counter, v);
                    lemma_run_values_insert(mid, counter, v);
                    assert(mid.remove(counter) =~= mid);
                    assert(one_run(counter, v@) =~= one_run((counter + 1) as u64, rv@).insert(
                        counter,
                        value,
                    ));
                }
                self.map.insert(counter, v);
            },
            (Some(k), None) => {
                if k + (left_len as u64) < counter {
                    // cannot reach the run below, so the counter starts its own
                    let v = vec![value];
                    proof {
                        assert(v@ =~= seq![value]);
                        lemma_wf_insert(mid, counter, v);
                        lemma_run_values_insert(mid, counter, v);
                        assert(mid.remove(counter) =~= mid);
                    }
                    self.map.insert(counter, v);
                } else {
                    let mut v = self.map.remove(&k).unwrap();
                    let ghost lv = v;
                    if k + (left_len as u64) == counter {
                        // the run below grows by the counter
                        v.push(value);
                    } else {
                        // the counter has a value already: the new one takes its place
                        v.set((counter - k) as usize, value);
                    }
                    proof {
                        assert(v.len() == v@.len());
                        assert forall|j: u64|
                            #![trigger mid.contains_key(j)]
                            mid.contains_key(j) && j > k implies k + v@.len() < j by {
                            assert(run_lens(mid).contains_key(j) && run_lens(mid).contains_key(k));
                        }
                        lemma_wf_insert(mid, k, v);
                        lemma_run_values_insert(mid, k, v);
                        assert(one_run(k, v@) =~= one_run(k, lv@).insert(counter, value));
                        assert(mid.remove(k).insert(k, v) =~= mid.insert(k, v));
                    }
                    self.map.insert(k, v);
                }
            },
            (Some(lk), Some(mut rv)) => {
                let ghost rv0 = rv;
                proof {
                    assert(before.contains_key(lk) && before.contains_key((counter + 1) as u64));
                    assert(run_lens(before).contains_key(lk) && run_lens(before).contains_key(
                        (counter + 1) as u64,
                    ));
                }
                if lk + (left_len as u64) == counter {
                    let mut lv = self.map.remove(&lk).unwrap();
                    let ghost lv0 = lv;
                    lv.push(value);
                    lv.append(&mut rv);
                    proof {
                        assert(lv.len() == lv@.len());
                        lemma_wf_insert(mid, lk, lv);
                        lemma_run_values_insert(mid, lk, lv);
                        assert(one_run(lk, lv@) =~= one_run(lk, lv0@).union_prefer_right(
                            one_run((counter + 1) as u64, rv0@),
                        ).insert(counter, value));
                        assert(mid.remove(lk).insert(lk, lv) =~= mid.insert(lk, lv));
                    }
                    self.map.insert(lk, lv);
                } else {
                    rv.insert(0, value);
                    proof {
                        assert(rv.len() == rv@.len());
                        lemma_wf_insert(mid, counter, rv);
                        lemma_run_values_insert(mid, counter, rv);
                        assert(mid.remove(counter) =~= mid);
                        assert(one_run(counter, rv@) =~= one_run(
                            (counter + 1) as u64,
                            rv0@,
                        ).insert(counter, value));
                    }
                    self.map.insert(counter, rv);
                }
            },
        }
    }

    /// The number of runs.
    pub fn num_keys(&self) -> (n: usize)
        requires
            self.wf(),
        ensures
            n == run_starts(self@.dom()).len(),
    {
        proof {
            let lens = run_lens(self.map@);
            assert forall|k: u64| self.map@.dom().contains(k) <==> run_starts(
                self@.dom(),
            ).contains(k) by {
                let before = (k - 1) as u64;
                if self.map@.dom().contains(k) {
                    assert(lens.contains_key(k));
                    lemma_run_is_maximal(lens, k);
                }
                if run_starts(self@.dom()).contains(k) {
                    let j = choose|j: u64| in_run(lens, j, k);
                    if j < k {
                        assert(in_run(lens, j, before));
                    }
                }
            }
            assert(self.map@.dom() =~= run_starts(self@.dom()));
        }
        self.map.len()
    }

    /// Takes the value of `counter` away. A run that held the counter in
    /// its middle becomes two, and a run that held nothing else disappears.
    pub fn remove(&mut self, counter: u64)
        requires
            old(self).wf(),
        ensures
            final(self).wf(),
            final(self)@ == old(self)@.remove(counter),
    {
        let ghost before = self.map@;
        let left = floor_key(&self.map, counter);
        let left_len = match left {
            Some(k) => self.map.get(&k).unwrap().len(),
            None => 0,
        };
        proof {
            let lens = run_lens(before);
            if left.is_none() || counter - left.unwrap() >= left_len {
                assert(!run_values(before).contains_key(counter)) by {
                    if runs_set(lens).contains(counter) {
                        let j = choose|j: u64| in_run(lens, j, counter);
                        assert(before.contains_key(j));
                        if left.is_some() {
                            assert(lens.contains_key(j) && lens.contains_key(left.unwrap()));
                        }
                    }
                }
                assert(run_values(before).remove(counter) =~= run_values(before));
            }
        }
        if left.is_some() && counter - left.unwrap() < left_len as u64 {
            let k = left.unwrap();
            let mut v = self.map.remove(&k).unwrap();
            let ghost v0 = v;
            let ghost rest = self.map@;
            proof {
                assert(run_lens(before).contains_key(k));
                assert(v0.len() == v0@.len());
                lemma_run_values_split(before, k);
                assert forall|j: u64| #![trigger rest.contains_key(j)] rest.contains_key(j) implies (
                j < k ==> j + rest[j]@.len() < k) && (j > k ==> k + v0@.len() < j) by {
                    assert(run_lens(before).contains_key(j) && run_lens(before).contains_key(k));
                    assert(rest[j].len() == rest[j]@.len());
                }
                assert(rest.remove(k) =~= rest);
            }
            if k == counter {
                // start of the run
                v.remove(0);
                if v.len() > 0 {
                    proof {
                        let next = (counter + 1) as u64;
                        assert(!rest.contains_key(next));
                        assert(rest.remove(next) =~= rest);
                        lemma_wf_insert(rest, next, v);
                        lemma_run_values_insert(rest, next, v);
                        assert(one_run(k, v0@) =~= one_run(next, v@).insert(counter, v0@[0]));
                    }
                    self.map.insert(counter + 1, v);
                } else {
                    proof {
                        assert(one_run(k, v0@) =~= Map::<u64, usize>::empty().insert(
                            counter,
                            v0@[0],
                        ));
                    }
                }
            } else if k + (left_len as u64) - 1 == counter {
                // end of the run
                v.pop();
                proof {
                    lemma_wf_insert(rest, k, v);
                    lemma_run_values_insert(rest, k, v);
                    assert(one_run(k, v0@) =~= one_run(k, v@).insert(counter, v0@[counter - k]));
                }
                self.map.insert(k, v);
            } else {
                // middle of the run
                let right = v.split_off((counter - k + 1) as usize);
                v.pop();
                proof {
                    let next = (counter + 1) as u64;
                    let low = rest.insert(k, v);
                    assert(right.len() == right@.len());
                    lemma_wf_insert(rest, k, v);
                    lemma_run_values_insert(rest, k, v);
                    assert(!low.contains_key(next));
                    assert(low.remove(next) =~= low);
                    assert forall|j: u64| #![trigger low.contains_key(j)] low.contains_key(j) implies (
                    j < next ==> j + low[j]@.len() < next) && (j > next ==> next + right@.len()
                        < j) by {
                        if j != k {
                            assert(rest.contains_key(j));
                        }
                    }
                    lemma_wf_insert(low, next, right);
                    lemma_run_values_insert(low, next, right);
                    assert(one_run(k, v0@) =~= one_run(k, v@).union_prefer_right(
                        one_run(next, right@),
                    ).insert(counter, v0@[counter - k]));
                }
                self.map.insert(k, v);
                self.map.insert(counter + 1, right);
            }
        }
        proof {
            assert(self@ =~= run_values(before).remove(counter));
        }
    }

    /// The counters with their values, by ascending counter.
    pub fn iter(&self) -> (v: Vec<(u64, usize)>)
        requires
            self.wf(),
        ensures
            forall|i: int|
                0 <= i < v@.len() ==> self@.contains_key(#[trigger] v@[i].0) && self@[v@[i].0]
                    == v@[i].1,
            forall|i: int, j: int| 0 <= i < j < v@.len() ==> v@[i].0 < v@[j].0,
            forall|x: u64|
                self@.contains_key(x) ==> exists|i: int| 0 <= i < v@.len() && #[trigger] v@[i].0 == x,
    {
        let ghost lens = run_lens(self.map@);
        let mut v: Vec<(u64, usize)> = Vec::new();
        let ghost mut bound: int = 0;
        let entries = self.map.iter();
        proof {
            lemma_iter_ascending(entries.remaining());
        }
        for kv in it: entries
            invariant
                runs_wf(lens),
                lens == run_lens(self.map@),
                it.seq() == self.map.iter().remaining(),
                forall|i: int, j: int|
                    0 <= i < j < it.seq().len() ==> *it.seq()[i].0 < *it.seq()[j].0,
                forall|i: int|
                    0 <= i < it.seq().len() ==> self.map@.contains_key(*(#[trigger] it.seq()[i]).0)
                        && self.map@[*it.seq()[i].0] == *it.seq()[i].1,
                forall|i: int|
                    0 <= i < v@.len() ==> self@.contains_key(#[trigger] v@[i].0) && self@[v@[i].0]
                        == v@[i].1,
                forall|i: int, j: int| 0 <= i < j < v@.len() ==> v@[i].0 < v@[j].0,
                forall|i: int| 0 <= i < v@.len() ==> #[trigger] v@[i].0 < bound,
                forall|i: int| it.index() <= i < it.seq().len() ==> bound <= *(#[trigger] it.seq()[i]).0,
                forall|x: u64, i: int|
                    0 <= i < it.index() && #[trigger] in_run(lens, *it.seq()[i].0, x) ==> exists|
                        n: int,
                    | 0 <= n < v@.len() && #[trigger] v@[n].0 == x,
        {
            let start = *kv.0;
            let values = kv.1;
            let ghost at = it.index();
            let ghost items = it.seq();
            let ghost done = v@;
            proof {
                assert(items[at] == kv);
                assert(self.map@.contains_key(start) && self.map@[start] == *values);
                assert(lens.contains_key(start));
                assert(values.len() == values@.len());
                assert forall|i: int| at < i < items.len() implies start + values@.len() <= *(
                #[trigger] items[i]).0 by {
                    assert(lens.contains_key(*items[i].0));
                }
            }
            let mut t: usize = 0;
            while t < values.len()
                invariant
                    0 <= t <= values@.len(),
                    runs_wf(lens),
                    lens == run_lens(self.map@),
                    lens.contains_key(start),
                    self.map@.contains_key(start),
                    self.map@[start] == *values,
                    start + values@.len() <= u64::MAX,
                    v@.len() == done.len() + t,
                    forall|i: int| 0 <= i < done.len() ==> v@[i] == done[i],
                    forall|i: int| 0 <= i < done.len() ==> #[trigger] done[i].0 < start,
                    forall|i: int, j: int| 0 <= i < j < done.len() ==> done[i].0 < done[j].0,
                    forall|i: int| 0 <= i < t ==> (#[trigger] v@[done.len() + i]).0 == start + i,
                    forall|i: int|
                        0 <= i < v@.len() ==> self@.contains_key(#[trigger] v@[i].0)
                            && self@[v@[i].0] == v@[i].1,
                decreases values@.len() - t,
            {
                let ghost x = (start + t) as u64;
                proof {
                    assert(in_run(lens, start, x));
                    lemma_run_start(lens, start, x);
                }
                v.push((start + t as u64, values[t]));
                t = t + 1;
            }
            proof {
                bound = start + values@.len();
                assert forall|i: int| 0 <= i < v@.len() implies #[trigger] v@[i].0 < bound by {
                    if i >= done.len() {
                        assert(v@[done.len() + (i - done.len())].0 == start + (i - done.len()));
                    } else {
                        assert(v@[i] == done[i]);
                        assert(done[i].0 < start);
                    }
                }
                assert forall|i: int, j: int| 0 <= i < j < v@.len() implies v@[i].0 < v@[j].0 by {
                    if i >= done.len() {
                        assert(v@[done.len() + (i - done.len())].0 == start + (i - done.len()));
                    } else {
                        assert(v@[i] == done[i]);
                        assert(done[i].0 < start);
                    }
                    if j >= done.len() {
                        assert(v@[done.len() + (j - done.len())].0 == start + (j - done.len()));
                    } else {
                        assert(v@[j] == done[j]);
                    }
                }
                assert forall|x: u64, i: int|
                    0 <= i <= at && #[trigger] in_run(
                        lens,
                        *it.seq()[i].0,
                        x,
                    ) implies exists|n: int| 0 <= n < v@.len() && #[trigger] v@[n].0 == x by {
                    if i < at {
                        let n = choose|n: int| 0 <= n < done.len() && #[trigger] done[n].0 == x;
                        assert(v@[n].0 == x);
                    } else {
                        let n = done.len() + (x - start);
                        assert(v@[n].0 == x);
                    }
                }
            }
        }
        proof {
            let items = self.map.iter().remaining();
            assert forall|x: u64| self@.contains_key(x) implies exists|i: int|
                0 <= i < v@.len() && #[trigger] v@[i].0 == x by {
                let k = choose|k: u64| in_run(lens, k, x);
                let i = choose|i: int| 0 <= i < items.len() && items[i] == (&k, &self.map@[k]);
                assert(in_run(lens, *items[i].0, x));
            }
        }
        v
    }

    /// The runs are the maximal stretches of the counters that have a
    /// value: a run starts at each counter whose predecessor has none, goes
    /// on to the next counter without a value, and holds the values of its
    /// counters in their order.
    pub proof fn lemma_runs_of_view(&self, k: u64)
        requires
            self.wf(),
        ensures
            self.runs().contains_key(k) <==> run_starts(self@.dom()).contains(k),
            self.runs().contains_key(k) ==> {
                &&& self.runs()[k].len() >= 1
                &&& k + self.runs()[k].len() <= u64::MAX
                &&& !self@.contains_key((k + self.runs()[k].len()) as u64)
                &&& forall|i: int|
                    0 <= i < self.runs()[k].len() ==> self@.contains_key((k + i) as u64)
                        && self@[(k + i) as u64] == #[trigger] self.runs()[k][i]
            },
    {
        let lens = run_lens(self.map@);
        let before = (k - 1) as u64;
        if self.map@.contains_key(k) {
            let v = self.map@[k];
            assert(lens.contains_key(k));
            assert(v.len() == v@.len());
            lemma_run_is_maximal(lens, k);
            assert forall|i: int| 0 <= i < v@.len() implies self@.contains_key((k + i) as u64)
                && self@[(k + i) as u64] == #[trigger] v@[i] by {
                let x = (k + i) as u64;
                assert(in_run(lens, k, x));
                lemma_run_start(lens, k, x);
            }
        }
        if run_starts(self@.dom()).contains(k) {
            let j = choose|j: u64| in_run(lens, j, k);
            if j < k {
                assert(in_run(lens, j, before));
            }
        }
    }

    /// Two maps that give the same counters the same values hold them in
    /// the same runs.
    pub proof fn lemma_same_map_same_runs(&self, other: &Self)
        requires
            self.wf(),
            other.wf(),
            self@ == other@,
        ensures
            self.runs() == other.runs(),
    {
        let a = run_lens(self.map@);
        let b = run_lens(other.map@);
        assert(runs_set(a) =~= self@.dom());
        assert(runs_set(b) =~= other@.dom());
        lemma_runs_determined(a, b);
        assert forall|k: u64|
            #![trigger self.runs().dom().contains(k)]
            #![trigger other.runs().dom().contains(k)]
            self.runs().dom().contains(k) == other.runs().dom().contains(k) && (
            self.runs().dom().contains(k) ==> self.runs()[k] == other.runs()[k]) by {
            assert(a.contains_key(k) == self.map@.contains_key(k));
            assert(b.contains_key(k) == other.map@.contains_key(k));
            if self.map@.contains_key(k) {
                let u = self.map@[k];
                let w = other.map@[k];
                assert(u.len() == u@.len() && w.len() == w@.len());
                assert(a[k] == b[k]);
                assert forall|i: int| 0 <= i < u@.len() implies u@[i] == w@[i] by {
                    let x = (k + i) as u64;
                    assert(in_run(a, k, x));
                    lemma_run_start(a, k, x);
                    lemma_run_start(b, k, x);
                    assert(self@[x] == u@[i]);
                    assert(other@[x] == w@[i]);
                }
                assert(u@ =~= w@);
            }
        }
        assert(self.runs().dom() =~= other.runs().dom());
        assert(self.runs() =~= other.runs());
    }

    /// Inserting a counter with the value it has changes nothing: where
    /// `once` gives `counter` the value `value` and `twice` is `once` with
    /// the pair inserted again, the two hold the same values in the same runs.
    pub proof fn lemma_insert_idempotent(once: &Self, twice: &Self, counter: u64, value: usize)
        requires
            once.wf(),
            twice.wf(),
            once@.contains_key(counter),
            once@[counter] == value,
            twice@ == once@.insert(counter, value),
        ensures
            twice@ == once@,
            twice.runs() == once.runs(),
    {
        assert(once@.insert(counter, value) =~= once@);
        twice.lemma_same_map_same_runs(once);
    }

    /// The runs with their values, by ascending first counter.
    pub fn to_runs(&self) -> (r: Vec<(u64, Vec<usize>)>)
        ensures
            r@.len() == self.runs().dom().len(),
            forall|i: int|
                0 <= i < r@.len() ==> self.runs().contains_key(#[trigger] r@[i].0)
                    && self.runs()[r@[i].0] == r@[i].1@,
            forall|i: int, j: int| 0 <= i < j < r@.len() ==> r@[i].0 < r@[j].0,
    {
        let mut r: Vec<(u64, Vec<usize>)> = Vec::new();
        let entries = self.map.iter();
        proof {
            lemma_iter_ascending(entries.remaining());
            assert(self.runs().dom() =~= self.map@.dom());
        }
        for kv in it: entries
            invariant
                it.seq() == self.map.iter().remaining(),
                r@.len() == it.index(),
                forall|i: int|
                    0 <= i < r@.len() ==> (#[trigger] r@[i]).0 == *it.seq()[i].0 && r@[i].1@
                        == it.seq()[i].1@,
        {
            let values = kv.1.clone();
            proof {
                assert(values@ =~= kv.1@);
            }
            r.push((*kv.0, values));
        }
        proof {
            let items = self.map.iter().remaining();
            assert forall|i: int| 0 <= i < r@.len() implies self.runs().contains_key(
                #[trigger] r@[i].0,
            ) && self.runs()[r@[i].0] == r@[i].1@ by {
                assert(self.map@.contains_key(*items[i].0));
            }
        }
        r
    }

    /// Whether `counter` has a value.
    pub fn contains_key(&self, counter: u64) -> (b: bool)
        requires
            self.wf(),
        ensures
            b == self@.contains_key(counter),
    {
        self.get(counter).is_some()
    }

    /// Whether no counter has a value.
    pub fn is_empty(&self) -> (b: bool)
        requires
            self.wf(),
        ensures
            b <==> self@ == Map::<u64, usize>::empty(),
    {
        let b = self.map.is_empty();
        proof {
            let lens = run_lens(self.map@);
            if b {
                assert forall|x: u64| !runs_set(lens).contains(x) by {
                    if runs_set(lens).contains(x) {
                        let j = choose|j: u64| in_run(lens, j, x);
                        assert(self.map@.dom().contains(j));
                    }
                }
                assert(self@ =~= Map::<u64, usize>::empty());
            } else {
                let k = choose|k: u64| self.map@.contains_key(k);
                assert(self.map@.dom().contains(k));
                assert(lens.contains_key(k));
                assert(in_run(lens, k, k));
                assert(self@.contains_key(k));
            }
        }
        b
    }
}

impl Default for RleMap {
    fn default() -> (s: Self)
        ensures
            s.wf(),
            s@ == Map::<u64, usize>::empty(),
    {
        RleMap::new()
    }
}

impl Clone for RleMap {
    fn clone(&self) -> (s: Self)
        ensures
            s.runs() == self.runs(),
            s@ == self@,
            s.wf() == self.wf(),
    {
        RleMap { map: self.map.clone() }
    }
}

} // verus!
