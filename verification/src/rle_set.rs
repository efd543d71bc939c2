//! A set of counters stored as runs: each entry of the underlying ordered map
//! is the first counter of a run and the number of counters in it.

use crate::types::OpId;
use std::cmp::Ordering;
use std::collections::BTreeMap;
use vstd::prelude::*;
use vstd::std_specs::iter::IteratorSpec;

verus! {

/// A key that has a successor and a distance to an earlier key, so that
/// consecutive keys can be stored as one run.
pub trait Runnable: Sized {
    /// The counter that `at` and `sub` move along.
    spec fn position(&self) -> nat;

    /// Whether two keys differ in nothing but their position.
    spec fn same_line(&self, other: &Self) -> bool;

    /// The key one step further.
    fn next(&self) -> (r: Self)
        requires
            self.position() < u64::MAX,
        ensures
            r.position() == self.position() + 1,
            r.same_line(self),
    {
        self.at(1)
    }

    /// The key `index` steps further.
    fn at(&self, index: u64) -> (r: Self)
        requires
            self.position() + index <= u64::MAX,
        ensures
            r.position() == self.position() + index,
            r.same_line(self),
    ;

    /// The number of steps from `other` up to this key.
    fn sub(&self, other: &Self) -> (d: u64)
        requires
            other.position() <= self.position(),
        ensures
            d == self.position() - other.position(),
    ;
}

impl Runnable for u64 {
    open spec fn position(&self) -> nat {
        *self as nat
    }

    open spec fn same_line(&self, other: &Self) -> bool {
        true
    }

    fn at(&self, index: u64) -> (r: Self) {
        *self + index
    }

    fn sub(&self, other: &Self) -> (d: u64) {
        *self - *other
    }
}

/// An operation id as a key of runs: the ids of one actor, by counter, form
/// one line, and the lines of the actors follow each other by actor index.
#[derive(Debug, Clone, Copy, PartialEq, Eq, Structural)]
pub struct RunnableOpId(pub OpId);

impl PartialOrd for RunnableOpId {
    fn partial_cmp(&self, other: &Self) -> (r: Option<Ordering>) {
        if self.0.actor() < other.0.actor() {
            Some(Ordering::Less)
        } else if self.0.actor() > other.0.actor() {
            Some(Ordering::Greater)
        } else if self.0.counter() < other.0.counter() {
            Some(Ordering::Less)
        } else if self.0.counter() > other.0.counter() {
            Some(Ordering::Greater)
        } else {
            Some(Ordering::Equal)
        }
    }
}

impl vstd::std_specs::cmp::PartialOrdSpecImpl for RunnableOpId {
    open spec fn obeys_partial_cmp_spec() -> bool {
        true
    }

    open spec fn partial_cmp_spec(&self, other: &Self) -> Option<Ordering> {
        if self.0.1 < other.0.1 {
            Some(Ordering::Less)
        } else if self.0.1 > other.0.1 {
            Some(Ordering::Greater)
        } else if self.0.0 < other.0.0 {
            Some(Ordering::Less)
        } else if self.0.0 > other.0.0 {
            Some(Ordering::Greater)
        } else {
            Some(Ordering::Equal)
        }
    }
}

impl Runnable for RunnableOpId {
    open spec fn position(&self) -> nat {
        self.0.0 as nat
    }

    open spec fn same_line(&self, other: &Self) -> bool {
        self.0.1 == other.0.1
    }

    fn at(&self, index: u64) -> (r: Self) {
        RunnableOpId(OpId(self.0.counter() + index, self.0.actor()))
    }

    fn sub(&self, other: &Self) -> (d: u64) {
        self.0.counter() - other.0.counter()
    }
}

/// The counters `start, start + 1, ..` of a run of `len` counters.
pub open spec fn interval(start: u64, len: u64) -> Set<u64> {
    Set::new(|x: u64| start <= x && x - start < len)
}

/// Whether `x` lies in the run of `runs` that starts at `k`.
pub open spec fn in_run(runs: Map<u64, u64>, k: u64, x: u64) -> bool {
    runs.contains_key(k) && k <= x && x - k < runs[k]
}

/// The counters that the runs hold between them.
pub open spec fn runs_set(runs: Map<u64, u64>) -> Set<u64> {
    Set::new(|x: u64| exists|k: u64| in_run(runs, k, x))
}

/// No run is empty or reaches the last counter, and between two runs at least
/// one counter is missing.
pub open spec fn runs_wf(runs: Map<u64, u64>) -> bool {
    &&& forall|k: u64| #[trigger] runs.contains_key(k) ==> runs[k] >= 1 && k + runs[k] <= u64::MAX
    &&& forall|a: u64, b: u64|
        #![trigger runs.contains_key(a), runs.contains_key(b)]
        runs.contains_key(a) && runs.contains_key(b) && a < b ==> a + runs[a] < b
}

/// Writing the run `(k, len)` adds its counters to those of the other runs.
pub proof fn lemma_runs_set_insert(runs: Map<u64, u64>, k: u64, len: u64)
    ensures
        runs_set(runs.insert(k, len)) == runs_set(runs.remove(k)).union(interval(k, len)),
{
    let a = runs_set(runs.insert(k, len));
    let b = runs_set(runs.remove(k)).union(interval(k, len));
    assert forall|x: u64| a.contains(x) <==> b.contains(x) by {
        if a.contains(x) {
            let j = choose|j: u64| in_run(runs.insert(k, len), j, x);
            if j != k {
                assert(in_run(runs.remove(k), j, x));
            }
        }
        if b.contains(x) {
            if interval(k, len).contains(x) {
                assert(in_run(runs.insert(k, len), k, x));
            } else {
                let j = choose|j: u64| in_run(runs.remove(k), j, x);
                assert(in_run(runs.insert(k, len), j, x));
            }
        }
    }
    assert(a =~= b);
}

/// The counters of a run and those of the other runs make up the whole set,
/// and where the runs are well formed the two parts share nothing.
pub proof fn lemma_runs_set_split(runs: Map<u64, u64>, k: u64)
    requires
        runs.contains_key(k),
    ensures
        runs_set(runs) == runs_set(runs.remove(k)).union(interval(k, runs[k])),
        runs_wf(runs) ==> runs_set(runs.remove(k)).disjoint(interval(k, runs[k])),
{
    assert(runs.remove(k).insert(k, runs[k]) =~= runs);
    assert(runs.remove(k).remove(k) =~= runs.remove(k));
    lemma_runs_set_insert(runs.remove(k), k, runs[k]);
    if runs_wf(runs) {
        assert forall|x: u64|
            !(runs_set(runs.remove(k)).contains(x) && interval(k, runs[k]).contains(x)) by {
            if runs_set(runs.remove(k)).contains(x) && interval(k, runs[k]).contains(x) {
                let j = choose|j: u64| in_run(runs.remove(k), j, x);
                assert(runs.contains_key(j) && runs.contains_key(k));
            }
        }
    }
}

/// Whether `list` holds the runs of `runs`, each once, by ascending first
/// counter.
pub open spec fn runs_listed(runs: Map<u64, u64>, list: Seq<(u64, u64)>) -> bool {
    &&& forall|i: int|
        0 <= i < list.len() ==> runs.contains_key(#[trigger] list[i].0) && runs[list[i].0]
            == list[i].1
    &&& forall|i: int, j: int| 0 <= i < j < list.len() ==> list[i].0 < list[j].0
    &&& forall|k: u64|
        runs.contains_key(k) ==> exists|i: int| 0 <= i < list.len() && #[trigger] list[i].0 == k
}

/// The counters of the first `n` runs of `list`.
pub open spec fn list_set(list: Seq<(u64, u64)>, n: int) -> Set<u64>
    decreases n,
{
    if n <= 0 {
        Set::empty()
    } else {
        list_set(list, n - 1).union(interval(list[n - 1].0, list[n - 1].1))
    }
}

/// The lengths of the first `n` runs of `list`, added up.
pub open spec fn list_total(list: Seq<(u64, u64)>, n: int) -> nat
    decreases n,
{
    if n <= 0 {
        0
    } else {
        list_total(list, n - 1) + list[n - 1].1 as nat
    }
}

/// A run of `len` counters holds `len` counters.
pub proof fn lemma_interval_len(start: u64, len: u64)
    requires
        start + len <= u64::MAX + 1,
    ensures
        interval(start, len).finite(),
        interval(start, len).len() == len,
    decreases len,
{
    if len == 0 {
        assert(interval(start, len) =~= Set::<u64>::empty());
    } else {
        let shorter = (len - 1) as u64;
        lemma_interval_len(start, shorter);
        assert(interval(start, len) =~= interval(start, shorter).insert((start + shorter) as u64));
    }
}

/// A counter is among the first `n` runs of a list exactly if one of them
/// holds it.
pub proof fn lemma_list_set_contains(list: Seq<(u64, u64)>, n: int, x: u64)
    requires
        0 <= n <= list.len(),
    ensures
        list_set(list, n).contains(x) <==> exists|i: int|
            0 <= i < n && #[trigger] interval(list[i].0, list[i].1).contains(x),
    decreases n,
{
    if n > 0 {
        lemma_list_set_contains(list, n - 1, x);
        if list_set(list, n - 1).contains(x) {
            let i = choose|i: int|
                0 <= i < n - 1 && #[trigger] interval(list[i].0, list[i].1).contains(x);
            assert(interval(list[i].0, list[i].1).contains(x));
        }
        if interval(list[n - 1].0, list[n - 1].1).contains(x) {
        }
    }
}

/// The listed runs hold what the map of runs holds.
pub proof fn lemma_list_set_is_runs_set(runs: Map<u64, u64>, list: Seq<(u64, u64)>)
    requires
        runs_listed(runs, list),
    ensures
        list_set(list, list.len() as int) == runs_set(runs),
{
    let n = list.len() as int;
    assert forall|x: u64| list_set(list, n).contains(x) <==> runs_set(runs).contains(x) by {
        lemma_list_set_contains(list, n, x);
        if list_set(list, n).contains(x) {
            let i = choose|i: int|
                0 <= i < n && #[trigger] interval(list[i].0, list[i].1).contains(x);
            assert(in_run(runs, list[i].0, x));
        }
        if runs_set(runs).contains(x) {
            let k = choose|k: u64| in_run(runs, k, x);
            let i = choose|i: int| 0 <= i < list.len() && #[trigger] list[i].0 == k;
            assert(interval(list[i].0, list[i].1).contains(x));
        }
    }
    assert(list_set(list, n) =~= runs_set(runs));
}

/// Well-formed runs, listed, hold as many counters as their lengths add up
/// to, and all of them lie below the next run.
pub proof fn lemma_list_set_len(runs: Map<u64, u64>, list: Seq<(u64, u64)>, n: int)
    requires
        runs_wf(runs),
        runs_listed(runs, list),
        0 <= n <= list.len(),
    ensures
        list_set(list, n).finite(),
        list_set(list, n).len() == list_total(list, n),
        forall|x: u64| n < list.len() && list_set(list, n).contains(x) ==> x < list[n].0,
        forall|x: u64| 0 < n && list_set(list, n).contains(x) ==> x < list[n - 1].0 + list[n - 1].1,
    decreases n,
{
    if n > 0 {
        lemma_list_set_len(runs, list, n - 1);
        let (k, len) = list[n - 1];
        assert(runs.contains_key(list[n - 1].0));
        lemma_interval_len(k, len);
        assert(list_set(list, n - 1).disjoint(interval(k, len)));
        vstd::set_lib::lemma_set_disjoint_lens(list_set(list, n - 1), interval(k, len));
        if n < list.len() {
            assert(runs.contains_key(list[n].0));
        }
        if n - 1 > 0 {
            assert(runs.contains_key(list[n - 2].0));
        }
    }
}

/// The total over more runs is no less.
pub proof fn lemma_list_total_grows(list: Seq<(u64, u64)>, m: int, n: int)
    requires
        m <= n,
    ensures
        list_total(list, m) <= list_total(list, n),
    decreases n - m,
{
    if m < n {
        lemma_list_total_grows(list, m, n - 1);
    }
}

/// Finitely many runs hold finitely many counters.
pub proof fn lemma_runs_set_finite(runs: Map<u64, u64>)
    requires
        runs.dom().finite(),
        runs_wf(runs),
    ensures
        runs_set(runs).finite(),
    decreases runs.dom().len(),
{
    if runs.dom().len() == 0 {
        assert(runs.dom() =~= Set::<u64>::empty());
        assert(runs_set(runs) =~= Set::<u64>::empty());
    } else {
        let k = runs.dom().choose();
        assert(runs.contains_key(k));
        lemma_runs_set_split(runs, k);
        lemma_interval_len(k, runs[k]);
        lemma_runs_set_finite(runs.remove(k));
    }
}

/// Whether the `len` counters from `k` on are a maximal stretch of `s`: all
/// of them are in `s`, and neither the counter before nor the one after is.
pub open spec fn is_maximal_run(s: Set<u64>, k: u64, len: u64) -> bool {
    &&& len >= 1
    &&& k + len <= u64::MAX
    &&& forall|x: u64| k <= x && x - k < len ==> s.contains(x)
    &&& k == 0 || !s.contains((k - 1) as u64)
    &&& !s.contains((k + len) as u64)
}

/// Well-formed runs are the maximal stretches of the set they hold, no more
/// and no less.
pub proof fn lemma_runs_are_maximal(runs: Map<u64, u64>, k: u64, len: u64)
    requires
        runs_wf(runs),
    ensures
        (runs.contains_key(k) && runs[k] == len) <==> is_maximal_run(runs_set(runs), k, len),
{
    let s = runs_set(runs);
    if runs.contains_key(k) {
        lemma_run_is_maximal(runs, k);
    }
    if is_maximal_run(s, k, len) {
        assert(s.contains(k));
        let j = choose|j: u64| in_run(runs, j, k);
        if j < k {
            assert(in_run(runs, j, (k - 1) as u64));
            assert(s.contains((k - 1) as u64));
        }
        assert(j == k);
        lemma_run_is_maximal(runs, k);
        if len < runs[k] {
            assert(in_run(runs, k, (k + len) as u64));
        }
        if len > runs[k] {
            assert(s.contains((k + runs[k]) as u64));
        }
    }
}

/// Each run of well-formed runs is a maximal stretch of the set.
pub proof fn lemma_run_is_maximal(runs: Map<u64, u64>, k: u64)
    requires
        runs_wf(runs),
        runs.contains_key(k),
    ensures
        is_maximal_run(runs_set(runs), k, runs[k]),
{
    let s = runs_set(runs);
    let len = runs[k];
    assert forall|x: u64| k <= x && x - k < len implies s.contains(x) by {
        assert(in_run(runs, k, x));
    }
    let before = (k - 1) as u64;
    let after = (k + len) as u64;
    if k > 0 && s.contains(before) {
        let j = choose|j: u64| in_run(runs, j, before);
        assert(runs.contains_key(j) && runs.contains_key(k));
    }
    if s.contains(after) {
        let j = choose|j: u64| in_run(runs, j, after);
        assert(runs.contains_key(j) && runs.contains_key(k));
    }
}

/// Well-formed runs are determined by the set they hold.
pub proof fn lemma_runs_determined(a: Map<u64, u64>, b: Map<u64, u64>)
    requires
        runs_wf(a),
        runs_wf(b),
        runs_set(a) == runs_set(b),
    ensures
        a == b,
{
    assert forall|k: u64| a.contains_key(k) == b.contains_key(k) && (a.contains_key(k) ==> a[k]
        == b[k]) by {
        if a.contains_key(k) {
            lemma_runs_are_maximal(a, k, a[k]);
            lemma_runs_are_maximal(b, k, a[k]);
        }
        if b.contains_key(k) {
            lemma_runs_are_maximal(b, k, b[k]);
            lemma_runs_are_maximal(a, k, b[k]);
        }
    }
    assert(a =~= b);
}

/// Two strictly ascending lists of the same counters are the same list.
pub proof fn lemma_ascending_determined(a: Seq<u64>, b: Seq<u64>)
    requires
        a.to_set() == b.to_set(),
        forall|i: int, j: int| 0 <= i < j < a.len() ==> a[i] < a[j],
        forall|i: int, j: int| 0 <= i < j < b.len() ==> b[i] < b[j],
    ensures
        a == b,
    decreases a.len(),
{
    if a.len() == 0 {
        if b.len() > 0 {
            assert(b.to_set().contains(b[0]));
            assert(a.to_set().contains(b[0]));
        }
        assert(a =~= b);
    } else {
        assert(a.to_set().contains(a.last()));
        assert(b.to_set().contains(a.last()));
        assert(b.len() > 0);
        assert(b.to_set().contains(b.last()));
        assert(a.to_set().contains(b.last()));
        let ia = choose|i: int| 0 <= i < a.len() && a[i] == b.last();
        let ib = choose|i: int| 0 <= i < b.len() && b[i] == a.last();
        assert(a.last() == b.last());
        let a0 = a.drop_last();
        let b0 = b.drop_last();
        assert forall|x: u64| a0.to_set().contains(x) <==> b0.to_set().contains(x) by {
            if a0.to_set().contains(x) {
                let i = choose|i: int| 0 <= i < a0.len() && a0[i] == x;
                assert(a[i] == x);
                assert(a.to_set().contains(x));
                assert(b.to_set().contains(x));
                let j = choose|j: int| 0 <= j < b.len() && b[j] == x;
                assert(j < b.len() - 1);
                assert(b0[j] == x);
            }
            if b0.to_set().contains(x) {
                let i = choose|i: int| 0 <= i < b0.len() && b0[i] == x;
                assert(b[i] == x);
                assert(b.to_set().contains(x));
                assert(a.to_set().contains(x));
                let j = choose|j: int| 0 <= j < a.len() && a[j] == x;
                assert(j < a.len() - 1);
                assert(a0[j] == x);
            }
        }
        assert(a0.to_set() =~= b0.to_set());
        lemma_ascending_determined(a0, b0);
        assert(a =~= a0.push(a.last()));
        assert(b =~= b0.push(b.last()));
    }
}

/// The set after the counters of `items` have been inserted into `s` one at
/// a time, first to last.
pub open spec fn insert_each(s: Set<u64>, items: Seq<u64>) -> Set<u64>
    decreases items.len(),
{
    if items.len() == 0 {
        s
    } else {
        insert_each(s, items.drop_last()).insert(items.last())
    }
}

/// Inserting the counters of a list one at a time gives the union with the
/// set of the list.
pub proof fn lemma_insert_each_is_union(s: Set<u64>, items: Seq<u64>)
    ensures
        insert_each(s, items) == s.union(items.to_set()),
    decreases items.len(),
{
    if items.len() == 0 {
        assert(items.to_set() =~= Set::<u64>::empty());
        assert(s.union(items.to_set()) =~= s);
    } else {
        lemma_insert_each_is_union(s, items.drop_last());
        let front = items.drop_last();
        assert forall|x: u64| items.to_set().contains(x) <==> front.to_set().insert(
            items.last(),
        ).contains(x) by {
            if items.to_set().contains(x) {
                let i = choose|i: int| 0 <= i < items.len() && items[i] == x;
                if i < items.len() - 1 {
                    assert(front[i] == x);
                }
            }
            if front.to_set().contains(x) {
                let i = choose|i: int| 0 <= i < front.len() && front[i] == x;
                assert(items[i] == x);
            }
            if x == items.last() {
                assert(items[items.len() - 1] == x);
            }
        }
        assert(items.to_set() =~= front.to_set().insert(items.last()));
        assert(s.union(front.to_set()).insert(items.last()) =~= s.union(items.to_set()));
    }
}

/// The entries that an ordered map hands out come by ascending key.
pub proof fn lemma_iter_ascending<V>(items: Seq<(&u64, &V)>)
    requires
        vstd::std_specs::btree::increasing_seq(items.map_values(|kv: (&u64, &V)| *kv.0)),
    ensures
        forall|i: int, j: int| 0 <= i < j < items.len() ==> *items[i].0 < *items[j].0,
{
    let keys = items.map_values(|kv: (&u64, &V)| *kv.0);
    assert(vstd::laws_cmp::obeys_cmp::<u64>());
    assert forall|i: int, j: int| 0 <= i < j < items.len() implies *items[i].0 < *items[j].0 by {
        assert(keys[i] == *items[i].0 && keys[j] == *items[j].0);
        assert(vstd::std_specs::cmp::OrdSpec::cmp_spec(&keys[i], &keys[j]) is Less);
    }
}

/// What folding one more run into a new run does to the counters folded in:
/// the run `(k, c)` shares nothing with them, lies in the new run as they
/// do, and adds its `c` counters to their number.
pub proof fn lemma_folded_in(gone: Set<u64>, run: Set<u64>, k: u64, c: u64, start: u64, len: u64)
    requires
        run == interval(k, c),
        k + c <= u64::MAX,
        start + len <= u64::MAX,
        gone.finite(),
        gone.disjoint(run),
        gone.subset_of(interval(start, len)),
        run.subset_of(interval(start, len)),
    ensures
        gone.union(run).finite(),
        gone.union(run).len() == gone.len() + c,
        gone.union(run).subset_of(interval(start, len)),
        gone.len() + c <= len,
{
    lemma_interval_len(k, c);
    lemma_interval_len(start, len);
    vstd::set_lib::lemma_set_disjoint_lens(gone, run);
    vstd::set_lib::lemma_len_subset(gone.union(run), interval(start, len));
}

/// What one more run of a list adds to the counters that the first runs
/// hold and `before` does not: the counters of the run that `before` does
/// not hold, none of which is among the earlier ones. All of them are
/// counters of the runs that `before` does not hold.
pub proof fn lemma_list_set_step(
    runs: Map<u64, u64>,
    list: Seq<(u64, u64)>,
    i: int,
    before: Set<u64>,
)
    requires
        runs_wf(runs),
        runs_listed(runs, list),
        runs_set(runs).finite(),
        0 <= i < list.len(),
    ensures
        ({
            let run = interval(list[i].0, list[i].1);
            let first = list_set(list, i);
            let more = list_set(list, i + 1);
            &&& run.difference(before.union(first)) == run.difference(before)
            &&& run.difference(before).finite()
            &&& first.difference(before).finite()
            &&& more.difference(before).finite()
            &&& more.difference(before).len() == first.difference(before).len() + run.difference(
                before,
            ).len()
            &&& more.difference(before).len() <= runs_set(runs).difference(before).len()
        }),
{
    let run = interval(list[i].0, list[i].1);
    let first = list_set(list, i);
    let more = list_set(list, i + 1);
    lemma_list_set_len(runs, list, i);
    lemma_list_set_len(runs, list, i + 1);
    lemma_list_set_is_runs_set(runs, list);
    assert(runs.contains_key(list[i].0));
    lemma_interval_len(list[i].0, list[i].1);
    assert(run.difference(before.union(first)) =~= run.difference(before));
    assert(more.difference(before) =~= first.difference(before).union(run.difference(before)));
    assert(first.difference(before).disjoint(run.difference(before)));
    vstd::set_lib::lemma_set_disjoint_lens(first.difference(before), run.difference(before));
    assert(more.difference(before).subset_of(runs_set(runs).difference(before))) by {
        assert forall|x: u64| more.contains(x) implies runs_set(runs).contains(x) by {
            lemma_list_set_contains(list, i + 1, x);
            lemma_list_set_contains(list, list.len() as int, x);
            let j = choose|j: int|
                0 <= j < i + 1 && #[trigger] interval(list[j].0, list[j].1).contains(x);
            assert(interval(list[j].0, list[j].1).contains(x));
        }
    }
    vstd::set_lib::lemma_len_subset(more.difference(before), runs_set(runs).difference(before));
}

/// The greatest key of `map` that is not above `key`, as
/// `BTreeMap::range(..=key)` gives it when read from its back: the range
/// holds the entries whose key is at most `key`, in ascending order.
#[verifier::external_body]
pub(crate) fn floor_key<V>(map: &BTreeMap<u64, V>, key: u64) -> (r: Option<u64>)
    ensures
        match r {
            Some(k) => map@.contains_key(k) && k <= key && forall|j: u64|
                map@.contains_key(j) && j <= key ==> j <= k,
            None => forall|j: u64| map@.contains_key(j) ==> j > key,
        },
{
    map.range(..=key).next_back().map(|(k, _)| *k)
}

/// A set of counters kept as maximal runs of consecutive counters.
#[derive(Debug, PartialEq)]
pub struct RleSet {
    /// From the first counter of each run to the number of counters in it.
    map: BTreeMap<u64, u64>,
}

impl View for RleSet {
    type V = Set<u64>;

    closed spec fn view(&self) -> Set<u64> {
        runs_set(self.map@)
    }
}

impl RleSet {
    /// The runs, from first counter to length.
    pub closed spec fn runs(&self) -> Map<u64, u64> {
        self.map@
    }

    /// The runs are maximal: none is empty and no two touch.
    pub closed spec fn wf(&self) -> bool {
        runs_wf(self.map@)
    }

    /// An empty set.
    pub fn new() -> (s: Self)
        ensures
            s.wf(),
            s@ == Set::<u64>::empty(),
            s.runs() == Map::<u64, u64>::empty(),
    {
        let s = RleSet { map: BTreeMap::new() };
        assert(s@ =~= Set::<u64>::empty());
        s
    }

    /// Adds `value`; tells whether it was missing before. A neighbouring run
    /// grows by it, and two runs that it joins become one.
    pub fn insert(&mut self, value: u64) -> (b: bool)
        requires
            old(self).wf(),
            !old(self)@.contains(value) ==> value < u64::MAX,
        ensures
            final(self).wf(),
            final(self)@ == old(self)@.insert(value),
            b == !old(self)@.contains(value),
    {
        proof {
            self.lemma_view_of_runs();
        }
        let ghost before = self.map@;
        let after_value = value.next();
        let right = self.map.remove(&after_value);
        let ghost mid = self.map@;
        let left = floor_key(&self.map, value);
        proof {
            assert(interval(value, 1) =~= set![value]);
            if right.is_some() {
                lemma_runs_set_split(before, after_value);
                assert(interval(value, (1 + right.unwrap()) as u64) =~= interval(
                    after_value,
                    right.unwrap(),
                ).insert(value));
            } else {
                assert(mid =~= before);
            }
            assert(runs_wf(mid));
            if left.is_some() {
                lemma_runs_set_split(mid, left.unwrap());
            }
        }
        match (left, right) {
            (None, None) => {
                self.map.insert(value, 1);
                proof {
                    lemma_runs_set_insert(mid, value, 1);
                    assert(mid.remove(value) =~= mid);
                    assert(!runs_set(mid).contains(value)) by {
                        if runs_set(mid).contains(value) {
                            let j = choose|j: u64| in_run(mid, j, value);
                        }
                    }
                }
                true
            },
            (None, Some(v)) => {
                self.map.insert(value, v + 1);
                proof {
                    lemma_runs_set_insert(mid, value, (v + 1) as u64);
                    assert(mid.remove(value) =~= mid);
                    assert(!runs_set(mid).contains(value)) by {
                        if runs_set(mid).contains(value) {
                            let j = choose|j: u64| in_run(mid, j, value);
                        }
                    }
                }
                true
            },
            (Some(k), None) => {
                let v = *self.map.get(&k).unwrap();
                let end = k.at(v);
                proof {
                    if end <= value {
                        assert(!runs_set(mid).contains(value)) by {
                            if runs_set(mid).contains(value) {
                                let j = choose|j: u64| in_run(mid, j, value);
                                assert(mid.contains_key(j) && mid.contains_key(k));
                            }
                        }
                    } else {
                        assert(in_run(mid, k, value));
                    }
                }
                if end < value {
                    self.map.insert(value, 1);
                    proof {
                        lemma_runs_set_insert(mid, value, 1);
                        assert(mid.remove(value) =~= mid);
                    }
                    true
                } else if end == value {
                    self.map.insert(k, v + 1);
                    proof {
                        lemma_runs_set_insert(mid, k, (v + 1) as u64);
                        assert(interval(k, (v + 1) as u64) =~= interval(k, v).insert(value));
                    }
                    true
                } else {
                    false
                }
            },
            (Some(lk), Some(rv)) => {
                let lv = *self.map.get(&lk).unwrap();
                proof {
                    assert(before.contains_key(lk) && before.contains_key(after_value));
                    assert(!runs_set(mid).contains(value)) by {
                        if runs_set(mid).contains(value) {
                            let j = choose|j: u64| in_run(mid, j, value);
                            assert(mid.contains_key(j) && mid.contains_key(lk));
                        }
                    }
                }
                if lk.at(lv) == value {
                    self.map.insert(lk, lv + 1 + rv);
                    proof {
                        lemma_runs_set_insert(mid, lk, (lv + 1 + rv) as u64);
                        assert(interval(lk, (lv + 1 + rv) as u64) =~= interval(lk, lv).union(
                            interval(value, (1 + rv) as u64),
                        ));
                    }
                    true
                } else {
                    self.map.insert(value, 1 + rv);
                    proof {
                        lemma_runs_set_insert(mid, value, (1 + rv) as u64);
                        assert(mid.remove(value) =~= mid);
                    }
                    true
                }
            },
        }
    }

    /// The runs in ascending order, each as its first counter and its length.
    pub fn to_runs(&self) -> (r: Vec<(u64, u64)>)
        ensures
            runs_listed(self.runs(), r@),
    {
        let mut r: Vec<(u64, u64)> = Vec::new();
        for kv in it: self.map.iter()
            invariant
                r@.len() == it.index(),
                forall|i: int| 0 <= i < r@.len() ==> r@[i] == (*it.seq()[i].0, *it.seq()[i].1),
        {
            r.push((*kv.0, *kv.1));
        }
        proof {
            let items = self.map.iter().remaining();
            lemma_iter_ascending(items);
            assert forall|k: u64| self.map@.contains_key(k) implies exists|i: int|
                0 <= i < r@.len() && r@[i].0 == k by {
                let i = choose|i: int| 0 <= i < items.len() && items[i] == (&k, &self.map@[k]);
                assert(r@[i].0 == k);
            }
        }
        r
    }

    /// Takes `value` out of the set. A run that held it in its middle becomes
    /// two, and a run that held nothing else disappears.
    pub fn remove(&mut self, value: &u64)
        requires
            old(self).wf(),
        ensures
            final(self).wf(),
            final(self)@ == old(self)@.remove(*value),
    {
        let ghost before = self.map@;
        let left = floor_key(&self.map, *value);
        if let Some(k) = left {
            let v = *self.map.get(&k).unwrap();
            proof {
                lemma_runs_set_split(before, k);
                if *value - k >= v {
                    assert(!runs_set(before).contains(*value)) by {
                        if runs_set(before).contains(*value) {
                            let j = choose|j: u64| in_run(before, j, *value);
                            assert(before.contains_key(j) && before.contains_key(k));
                        }
                    }
                }
            }
            if k == *value {
                // start of the run
                self.map.remove(&k);
                if v > 1 {
                    self.map.insert(value.next(), v - 1);
                    proof {
                        let rest = before.remove(k);
                        lemma_runs_set_insert(rest, (*value + 1) as u64, (v - 1) as u64);
                        assert(!rest.contains_key((*value + 1) as u64)) by {
                            assert(before.contains_key(k));
                        }
                        assert(rest.remove((*value + 1) as u64) =~= rest);
                        assert(interval(k, v) =~= interval(
                            (*value + 1) as u64,
                            (v - 1) as u64,
                        ).insert(*value));
                    }
                } else {
                    proof {
                        assert(interval(k, v) =~= set![*value]);
                    }
                }
            } else if k.at(v - 1) == *value {
                // end of the run
                self.map.insert(k, v - 1);
                proof {
                    lemma_runs_set_insert(before, k, (v - 1) as u64);
                    assert(interval(k, v) =~= interval(k, (v - 1) as u64).insert(*value));
                }
            } else if k.at(v) > *value {
                // middle of the run
                let left_len = value.sub(&k);
                let right_len = k.at(v - 1).sub(value);
                self.map.insert(k, left_len);
                self.map.insert(value.next(), right_len);
                proof {
                    let rest = before.remove(k);
                    let low = before.insert(k, left_len);
                    lemma_runs_set_insert(before, k, left_len);
                    lemma_runs_set_insert(low, (*value + 1) as u64, right_len);
                    assert(!low.contains_key((*value + 1) as u64)) by {
                        assert(before.contains_key(k));
                    }
                    assert(low.remove((*value + 1) as u64) =~= low);
                    assert(interval(k, v) =~= interval(k, left_len).union(
                        interval((*value + 1) as u64, right_len),
                    ).insert(*value));
                    assert(runs_wf(self.map@)) by {
                        assert(before.contains_key(k));
                    }
                }
            }
        } else {
            proof {
                assert(!runs_set(before).contains(*value)) by {
                    if runs_set(before).contains(*value) {
                        let j = choose|j: u64| in_run(before, j, *value);
                    }
                }
            }
        }
        proof {
            assert(self@ =~= runs_set(before).remove(*value));
        }
    }

    /// Whether the set holds nothing.
    pub fn is_empty(&self) -> (b: bool)
        requires
            self.wf(),
        ensures
            b <==> self@ == Set::<u64>::empty(),
    {
        let b = self.map.is_empty();
        proof {
            if b {
                assert(self@ =~= Set::<u64>::empty());
            } else {
                let k = choose|k: u64| self.map@.contains_key(k);
                assert(self.map@.dom().contains(k));
                assert(in_run(self.map@, k, k));
                assert(self@.contains(k));
            }
        }
        b
    }

    /// The set is finite.
    pub proof fn lemma_finite(&self)
        requires
            self.wf(),
        ensures
            self@.finite(),
    {
        lemma_runs_set_finite(self.map@);
    }

    /// The number of counters in the set.
    pub fn len(&self) -> (n: usize)
        requires
            self.wf(),
            self@.len() <= usize::MAX,
        ensures
            self@.finite(),
            n == self@.len(),
    {
        let runs = self.to_runs();
        proof {
            lemma_list_set_is_runs_set(self.map@, runs@);
            lemma_list_set_len(self.map@, runs@, runs@.len() as int);
        }
        let mut n: usize = 0;
        let mut i: usize = 0;
        while i < runs.len()
            invariant
                0 <= i <= runs@.len(),
                runs_wf(self.map@),
                runs_listed(self.map@, runs@),
                n == list_total(runs@, i as int),
                list_total(runs@, runs@.len() as int) <= usize::MAX,
            decreases runs@.len() - i,
        {
            proof {
                lemma_list_total_grows(runs@, i as int + 1, runs@.len() as int);
            }
            n = n + runs[i].1 as usize;
            i = i + 1;
        }
        n
    }

    /// Adds the `length` counters from `value` on, as one run: runs that
    /// start inside it or right behind it, and a run that reaches it from
    /// below, are folded into it. Returns the number of counters that were
    /// not in the set before.
    pub fn insert_run(&mut self, value: u64, length: u64) -> (count: usize)
        requires
            old(self).wf(),
            value + length <= u64::MAX,
        ensures
            final(self).wf(),
            final(self)@ == old(self)@.union(interval(value, length)),
            interval(value, length).difference(old(self)@).finite(),
            count == #[verifier::truncate] (interval(value, length).difference(
                old(self)@,
            ).len() as usize),
    {
        if length == 0 {
            proof {
                assert(interval(value, length) =~= Set::<u64>::empty());
                assert(self@.union(interval(value, length)) =~= self@);
                assert(interval(value, length).difference(self@) =~= Set::<u64>::empty());
            }
            return 0;
        }
        let ghost before = self.map@;
        let end = value.at(length);
        let mut new_end = end;
        // the counters of the runs folded in, and how many they are
        let ghost mut gone: Set<u64> = Set::empty();
        let mut folded: u64 = 0;
        // runs that start in the new run, or right behind it
        loop
            invariant
                runs_wf(before),
                runs_wf(self.map@),
                value < end <= new_end <= u64::MAX,
                end == value + length,
                self.map@.submap_of(before),
                forall|k: u64| before.contains_key(k) && k > end ==> self.map@.contains_key(k),
                forall|k: u64| before.contains_key(k) && k < value ==> self.map@.contains_key(k),
                forall|k: u64| #[trigger] self.map@.contains_key(k) && k > end ==> new_end < k,
                runs_set(self.map@).union(interval(value, (new_end - value) as u64)) == runs_set(
                    before,
                ).union(interval(value, length)),
                gone.finite(),
                gone.len() == folded,
                gone.subset_of(interval(value, (new_end - value) as u64)),
                gone.disjoint(runs_set(self.map@)),
                runs_set(before) == runs_set(self.map@).union(gone),
            ensures
                forall|k: u64| #[trigger] self.map@.contains_key(k) ==> k < value || k > end,
            decreases self.map@.dom().len(),
        {
            let ghost cur = self.map@;
            let found = floor_key(&self.map, end);
            if found.is_none() || found.unwrap() < value {
                break ;
            }
            let k = found.unwrap();
            let c = *self.map.get(&k).unwrap();
            self.map.remove(&k);
            let ghost grown = if k + c > new_end {
                (k + c) as u64
            } else {
                new_end
            };
            proof {
                lemma_runs_set_split(cur, k);
                assert(before.contains_key(k));
                assert(interval(value, (new_end - value) as u64).union(interval(k, c))
                    =~= interval(value, (grown - value) as u64));
                assert forall|j: u64| #[trigger]
                    self.map@.contains_key(j) && j > end implies grown < j by {
                    assert(before.contains_key(j) && before.contains_key(k));
                }
                lemma_folded_in(gone, interval(k, c), k, c, value, (grown - value) as u64);
                assert(runs_set(before) =~= runs_set(self.map@).union(gone.union(interval(k, c))));
                gone = gone.union(interval(k, c));
            }
            folded = folded + c;
            if k.at(c) > new_end {
                new_end = k.at(c);
            }
        }
        let ghost mid = self.map@;
        let mut new_start = value;
        // a run that reaches the new run from below
        let below = floor_key(&self.map, value);
        if below.is_some() && below.unwrap().at(*self.map.get(&below.unwrap()).unwrap()) >= value {
            let k = below.unwrap();
            let c = *self.map.get(&k).unwrap();
            self.map.remove(&k);
            new_start = k;
            let ghost grown = if k + c > new_end {
                (k + c) as u64
            } else {
                new_end
            };
            proof {
                lemma_runs_set_split(mid, k);
                assert(before.contains_key(k));
                assert(interval(value, (new_end - value) as u64).union(interval(k, c))
                    =~= interval(k, (grown - k) as u64));
                assert forall|j: u64| #[trigger]
                    self.map@.contains_key(j) && j > new_start implies grown < j by {
                    assert(mid.contains_key(j));
                    assert(before.contains_key(j) && before.contains_key(k));
                }
                assert forall|j: u64| #[trigger]
                    self.map@.contains_key(j) && j < new_start implies j + self.map@[j]
                    < new_start by {
                    assert(before.contains_key(j) && before.contains_key(k));
                }
                lemma_folded_in(gone, interval(k, c), k, c, k, (grown - k) as u64);
                assert(runs_set(before) =~= runs_set(self.map@).union(gone.union(interval(k, c))));
                gone = gone.union(interval(k, c));
            }
            folded = folded + c;
            if k.at(c) > new_end {
                new_end = k.at(c);
            }
        } else {
            proof {
                assert forall|j: u64| #[trigger]
                    self.map@.contains_key(j) && j < new_start implies j + self.map@[j]
                    < new_start by {
                    assert(below.is_some());
                    assert(before.contains_key(j) && before.contains_key(below.unwrap()));
                }
            }
        }
        let ghost low = self.map@;
        let whole = new_end.sub(&new_start);
        proof {
            assert(gone.subset_of(interval(new_start, whole)));
            assert(interval(value, length).subset_of(interval(new_start, whole)));
            assert(runs_set(before) == runs_set(low).union(gone));
            assert(runs_set(low).union(interval(new_start, whole)) == runs_set(before).union(
                interval(value, length),
            ));
        }
        self.map.insert(new_start, whole);
        proof {
            assert(!low.contains_key(new_start));
            assert(low.remove(new_start) =~= low);
            lemma_runs_set_insert(low, new_start, whole);
            assert(runs_wf(self.map@)) by {
                assert forall|a: u64, b: u64|
                    #![trigger self.map@.contains_key(a), self.map@.contains_key(b)]
                    self.map@.contains_key(a) && self.map@.contains_key(b) && a < b implies a
                    + self.map@[a] < b by {
                    if a == new_start {
                        assert(low.contains_key(b));
                    } else if b == new_start {
                        assert(low.contains_key(a));
                    } else {
                        assert(before.contains_key(a) && before.contains_key(b));
                    }
                }
            }
            // the new run is the runs folded in and the counters that are new
            let run = interval(new_start, whole);
            let fresh = interval(value, length).difference(runs_set(before));
            lemma_runs_set_split(self.map@, new_start);
            assert(self.map@.remove(new_start) =~= low);
            lemma_interval_len(new_start, whole);
            lemma_interval_len(value, length);
            assert(run.disjoint(runs_set(low)));
            assert forall|x: u64| run.contains(x) <==> gone.union(fresh).contains(x) by {
                if run.contains(x) {
                    assert(runs_set(low).union(run).contains(x));
                    assert(runs_set(before).union(interval(value, length)).contains(x));
                    if runs_set(before).contains(x) {
                        assert(runs_set(low).union(gone).contains(x));
                    }
                }
            }
            assert(run =~= gone.union(fresh));
            assert(gone.disjoint(fresh));
            vstd::set_lib::lemma_set_disjoint_lens(gone, fresh);
        }
        #[verifier::truncate]
        ((whole - folded) as usize)
    }

    /// Adds every counter of `other`, run by run.
    pub fn absorb(&mut self, other: &Self)
        requires
            old(self).wf(),
            other.wf(),
        ensures
            final(self).wf(),
            final(self)@ == old(self)@.union(other@),
    {
        if self.is_empty() {
            *self = other.clone();
            proof {
                assert(self@ =~= Set::<u64>::empty().union(other@));
            }
        } else {
            let runs = other.to_runs();
            let ghost before = self@;
            proof {
                lemma_list_set_is_runs_set(other.map@, runs@);
                assert(before.union(list_set(runs@, 0)) =~= before);
            }
            let mut i: usize = 0;
            while i < runs.len()
                invariant
                    0 <= i <= runs@.len(),
                    self.wf(),
                    runs_wf(other.map@),
                    runs_listed(other.map@, runs@),
                    self@ == before.union(list_set(runs@, i as int)),
                decreases runs@.len() - i,
            {
                proof {
                    assert(other.map@.contains_key(runs@[i as int].0));
                    assert(before.union(list_set(runs@, i as int)).union(
                        interval(runs@[i as int].0, runs@[i as int].1),
                    ) =~= before.union(list_set(runs@, i as int + 1)));
                }
                self.insert_run(runs[i].0, runs[i].1);
                i = i + 1;
            }
        }
    }

    /// Merges `other` into this set, run by run. Returns the number of
    /// counters that were not in the set before.
    pub fn merge(&mut self, other: &Self) -> (count: usize)
        requires
            old(self).wf(),
            other.wf(),
            other@.difference(old(self)@).len() <= usize::MAX,
        ensures
            final(self).wf(),
            final(self)@ == old(self)@.union(other@),
            other@.difference(old(self)@).finite(),
            count == other@.difference(old(self)@).len(),
            final(self)@.len() == old(self)@.len() + count,
    {
        proof {
            other.lemma_finite();
            self.lemma_finite();
            assert(self@.union(other@) =~= self@.union(other@.difference(self@)));
            assert(self@.disjoint(other@.difference(self@)));
            vstd::set_lib::lemma_set_disjoint_lens(self@, other@.difference(self@));
        }
        if self.is_empty() {
            proof {
                assert(other@.difference(self@) =~= other@);
            }
            *self = other.clone();
            proof {
                assert(self@ =~= Set::<u64>::empty().union(other@));
            }
            other.len()
        } else {
            let runs = other.to_runs();
            let ghost before = self@;
            proof {
                lemma_list_set_is_runs_set(other.map@, runs@);
                assert(before.union(list_set(runs@, 0)) =~= before);
                assert(list_set(runs@, 0).difference(before) =~= Set::<u64>::empty());
            }
            let mut count: usize = 0;
            let mut i: usize = 0;
            while i < runs.len()
                invariant
                    0 <= i <= runs@.len(),
                    self.wf(),
                    runs_wf(other.map@),
                    runs_listed(other.map@, runs@),
                    other@ == runs_set(other.map@),
                    other@.finite(),
                    other@.difference(before).len() <= usize::MAX,
                    self@ == before.union(list_set(runs@, i as int)),
                    list_set(runs@, i as int).difference(before).finite(),
                    count == list_set(runs@, i as int).difference(before).len(),
                decreases runs@.len() - i,
            {
                proof {
                    assert(other.map@.contains_key(runs@[i as int].0));
                    assert(before.union(list_set(runs@, i as int)).union(
                        interval(runs@[i as int].0, runs@[i as int].1),
                    ) =~= before.union(list_set(runs@, i as int + 1)));
                    lemma_list_set_step(other.map@, runs@, i as int, before);
                }
                count = count + self.insert_run(runs[i].0, runs[i].1);
                i = i + 1;
            }
            count
        }
    }

    /// The counters of the set in ascending order.
    pub fn iter(&self) -> (v: Vec<u64>)
        requires
            self.wf(),
        ensures
            v@.to_set() == self@,
            forall|i: int, j: int| 0 <= i < j < v@.len() ==> v@[i] < v@[j],
    {
        let runs = self.to_runs();
        proof {
            lemma_list_set_is_runs_set(self.map@, runs@);
        }
        let mut v: Vec<u64> = Vec::new();
        let mut r: usize = 0;
        proof {
            assert(v@.to_set() =~= list_set(runs@, 0));
        }
        while r < runs.len()
            invariant
                0 <= r <= runs@.len(),
                runs_wf(self.map@),
                runs_listed(self.map@, runs@),
                v@.to_set() == list_set(runs@, r as int),
                forall|i: int, j: int| 0 <= i < j < v@.len() ==> v@[i] < v@[j],
            decreases runs@.len() - r,
        {
            let start = runs[r].0;
            let length = runs[r].1;
            let mut t: u64 = 0;
            proof {
                lemma_list_set_len(self.map@, runs@, r as int);
                assert(self.map@.contains_key(runs@[r as int].0));
                assert(list_set(runs@, r as int).union(interval(start, 0)) =~= list_set(
                    runs@,
                    r as int,
                ));
            }
            while t < length
                invariant
                    0 <= t <= length,
                    start + length <= u64::MAX,
                    v@.to_set() == list_set(runs@, r as int).union(interval(start, t)),
                    forall|x: u64| list_set(runs@, r as int).contains(x) ==> x < start,
                    forall|i: int, j: int| 0 <= i < j < v@.len() ==> v@[i] < v@[j],
                decreases length - t,
            {
                let ghost prev = v@;
                v.push(start.at(t));
                proof {
                    let x = (start + t) as u64;
                    assert forall|i: int, j: int| 0 <= i < j < v@.len() implies v@[i] < v@[j] by {
                        if j == v@.len() - 1 {
                            assert(prev.to_set().contains(prev[i]));
                        }
                    }
                    assert(v@.to_set() =~= prev.to_set().insert(x)) by {
                        assert forall|y: u64| v@.to_set().contains(y) <==> prev.to_set().insert(
                            x,
                        ).contains(y) by {
                            if prev.to_set().contains(y) {
                                let i = choose|i: int| 0 <= i < prev.len() && prev[i] == y;
                                assert(v@[i] == y);
                            }
                            if y == x {
                                assert(v@[v@.len() - 1] == y);
                            }
                        }
                    }
                    assert(interval(start, (t + 1) as u64) =~= interval(start, t).insert(x));
                }
                t = t + 1;
            }
            r = r + 1;
        }
        v
    }

    /// The set holds the counters of its runs, which are well formed, and
    /// so never the last counter, which has no successor.
    pub proof fn lemma_view_of_runs(&self)
        requires
            self.wf(),
        ensures
            self@ == runs_set(self.runs()),
            runs_wf(self.runs()),
            !self@.contains(u64::MAX),
    {
        if self@.contains(u64::MAX) {
            let k = choose|k: u64| in_run(self.map@, k, u64::MAX);
            assert(self.map@.contains_key(k));
        }
    }

    /// The runs are the maximal stretches of the set: `len` counters from
    /// `k` on are a run exactly if all of them are in the set and neither
    /// the counter before them nor the one after them is.
    pub proof fn lemma_runs_of_view(&self, k: u64, len: u64)
        requires
            self.wf(),
        ensures
            (self.runs().contains_key(k) && self.runs()[k] == len) <==> is_maximal_run(
                self@,
                k,
                len,
            ),
    {
        lemma_runs_are_maximal(self.map@, k, len);
    }

    /// Two sets that hold the same counters hold them in the same runs.
    pub proof fn lemma_same_set_same_runs(&self, other: &Self)
        requires
            self.wf(),
            other.wf(),
            self@ == other@,
        ensures
            self.runs() == other.runs(),
    {
        lemma_runs_determined(self.map@, other.map@);
    }

    /// Inserting a counter a second time changes nothing: where `once` holds
    /// `value` and `twice` is `once` with `value` inserted again, the two
    /// hold the same counters in the same runs, and list them alike.
    pub proof fn lemma_insert_idempotent(
        once: &Self,
        twice: &Self,
        value: u64,
        listed_once: Seq<u64>,
        listed_twice: Seq<u64>,
    )
        requires
            once.wf(),
            twice.wf(),
            once@.contains(value),
            twice@ == once@.insert(value),
            listed_once.to_set() == once@,
            listed_twice.to_set() == twice@,
            forall|i: int, j: int| 0 <= i < j < listed_once.len() ==> listed_once[i] < listed_once[j],
            forall|i: int, j: int|
                0 <= i < j < listed_twice.len() ==> listed_twice[i] < listed_twice[j],
        ensures
            twice@ == once@,
            twice.runs() == once.runs(),
            listed_twice == listed_once,
    {
        assert(once@.insert(value) =~= once@);
        lemma_runs_determined(once.map@, twice.map@);
        lemma_ascending_determined(listed_once, listed_twice);
    }

    /// Merging is a union, whichever way round: where `ab` is `a` with `b`
    /// merged in, `ba` is `b` with `a` merged in, and `each` is `a` with the
    /// counters of `b` inserted one at a time in any order `items`, all three
    /// hold the same counters in the same runs.
    pub proof fn lemma_merge_commutes(
        a: &Self,
        b: &Self,
        ab: &Self,
        ba: &Self,
        each: &Self,
        items: Seq<u64>,
    )
        requires
            ab.wf(),
            ba.wf(),
            each.wf(),
            ab@ == a@.union(b@),
            ba@ == b@.union(a@),
            items.to_set() == b@,
            each@ == insert_each(a@, items),
        ensures
            ab@ == ba@,
            ab@ == each@,
            ab.runs() == ba.runs(),
            ab.runs() == each.runs(),
    {
        assert(a@.union(b@) =~= b@.union(a@));
        lemma_insert_each_is_union(a@, items);
        lemma_runs_determined(ab.map@, ba.map@);
        lemma_runs_determined(ab.map@, each.map@);
    }

    /// Merging does not depend on how the sets are grouped: where `x` is
    /// `a` with `b` and then `c` merged in, and `y` is `a` with the merge of
    /// `b` and `c` merged in, the two hold the same counters in the same
    /// runs, and list them alike.
    pub proof fn lemma_merge_any_grouping(
        a: &Self,
        b: &Self,
        c: &Self,
        x: &Self,
        y: &Self,
        listed_x: Seq<u64>,
        listed_y: Seq<u64>,
    )
        requires
            x.wf(),
            y.wf(),
            x@ == a@.union(b@).union(c@),
            y@ == a@.union(b@.union(c@)),
            listed_x.to_set() == x@,
            listed_y.to_set() == y@,
            forall|i: int, j: int| 0 <= i < j < listed_x.len() ==> listed_x[i] < listed_x[j],
            forall|i: int, j: int| 0 <= i < j < listed_y.len() ==> listed_y[i] < listed_y[j],
        ensures
            x@ == y@,
            x.runs() == y.runs(),
            listed_x == listed_y,
    {
        assert(a@.union(b@).union(c@) =~= a@.union(b@.union(c@)));
        lemma_runs_determined(x.map@, y.map@);
        lemma_ascending_determined(listed_x, listed_y);
    }

    /// Two sets that hold the same counters list them alike.
    pub proof fn lemma_same_set_same_listing(
        &self,
        other: &Self,
        listed: Seq<u64>,
        listed_other: Seq<u64>,
    )
        requires
            self@ == other@,
            listed.to_set() == self@,
            listed_other.to_set() == other@,
            forall|i: int, j: int| 0 <= i < j < listed.len() ==> listed[i] < listed[j],
            forall|i: int, j: int|
                0 <= i < j < listed_other.len() ==> listed_other[i] < listed_other[j],
        ensures
            listed == listed_other,
    {
        lemma_ascending_determined(listed, listed_other);
    }

    /// Whether `value` is in the set.
    pub fn contains(&self, value: u64) -> (b: bool)
        requires
            self.wf(),
        ensures
            b == self@.contains(value),
    {
        match floor_key(&self.map, value) {
            None => false,
            Some(k) => {
                let v = *self.map.get(&k).unwrap();
                proof {
                    if value - k < v {
                        assert(in_run(self.map@, k, value));
                    } else if self@.contains(value) {
                        let j = choose|j: u64| in_run(self.map@, j, value);
                        assert(self.map@.contains_key(j) && self.map@.contains_key(k));
                    }
                }
                k.at(v) > value
            },
        }
    }
}

impl Default for RleSet {
    fn default() -> (s: Self)
        ensures
            s.wf(),
            s@ == Set::<u64>::empty(),
            s.runs() == Map::<u64, u64>::empty(),
    {
        RleSet::new()
    }
}

impl Clone for RleSet {
    fn clone(&self) -> (s: Self)
        ensures
            s.runs() == self.runs(),
            s@ == self@,
            s.wf() == self.wf(),
    {
        RleSet { map: self.map.clone() }
    }
}

} // verus!
