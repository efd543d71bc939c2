//! What a node of the operation tree knows of the operations below it, the
//! window that tells which operations show at a point of history, and the
//! queries that walk the tree.

use crate::fx_map::{fx_hashed, fx_keys, fx_new, FxMap};
use crate::op_tree::{place_before, OpTreeNode};
use crate::opid_set::{lemma_prefix_set, prefix_set, OpIdSet};
use crate::types::{
    clock_covers, is_opid_key, key_opid, lemma_key_opid, lemma_opid_key_injective, opid_key,
    pack_opid, unpack_opid, Clock, Counter, ElemId, Op, OpId, OpModel, OpType, OpTypeModel,
    ScalarModel, ScalarValue,
};
use std::cmp::Ordering;
use std::collections::{HashMap, HashSet};
use vstd::std_specs::iter::IteratorSpec;
use vstd::prelude::*;

pub mod prop;

verus! {

/// What a query answers when it is shown a node or an operation: go on with
/// the next one, look into this node, pass over a number of operations, or
/// stop.
#[derive(Debug, Clone, Copy, PartialEq, Eq, Structural)]
pub enum QueryResult {
    Next,
    Descend,
    Skip(usize),
    Finish,
}

/// The number that `counts` gives to `e`, 0 where it gives none.
pub open spec fn count_of(counts: Map<ElemId, nat>, e: ElemId) -> nat {
    if counts.contains_key(e) {
        counts[e]
    } else {
        0
    }
}

/// `counts` with one more visible operation on `e`.
pub open spec fn bump(counts: Map<ElemId, nat>, e: ElemId) -> Map<ElemId, nat> {
    counts.insert(e, count_of(counts, e) + 1)
}

/// `counts` with one visible operation on `e` less; an element that is left
/// with none loses its entry.
pub open spec fn drop_one(counts: Map<ElemId, nat>, e: ElemId) -> Map<ElemId, nat> {
    if count_of(counts, e) <= 1 {
        counts.remove(e)
    } else {
        counts.insert(e, (counts[e] - 1) as nat)
    }
}

/// The counts after `op` has come in.
pub open spec fn counts_after_insert(counts: Map<ElemId, nat>, op: OpModel) -> Map<ElemId, nat> {
    match op.elemid() {
        Some(e) if op.visible() => bump(counts, e),
        _ => counts,
    }
}

/// The counts after `op` has gone.
pub open spec fn counts_after_remove(counts: Map<ElemId, nat>, op: OpModel) -> Map<ElemId, nat> {
    match op.elemid() {
        Some(e) if op.visible() => drop_one(counts, e),
        _ => counts,
    }
}

/// The counts after `was` has become `now`.
pub open spec fn counts_after_replace(
    counts: Map<ElemId, nat>,
    was: OpModel,
    now: OpModel,
) -> Map<ElemId, nat> {
    match now.elemid() {
        Some(e) if was.visible() && !now.visible() => drop_one(counts, e),
        Some(e) if !was.visible() && now.visible() => bump(counts, e),
        _ => counts,
    }
}

/// The counts of two indexes, added up element by element.
pub open spec fn counts_merged(a: Map<ElemId, nat>, b: Map<ElemId, nat>) -> Map<ElemId, nat> {
    Map::new(
        |e: ElemId| a.contains_key(e) || b.contains_key(e),
        |e: ElemId| count_of(a, e) + count_of(b, e),
    )
}

/// The element that a key of the table of counts stands for.
pub open spec fn key_elem(k: u128) -> ElemId {
    ElemId(OpId((k % 0x1_0000_0000_0000_0000) as u64, (k / 0x1_0000_0000_0000_0000) as usize))
}

/// For one subtree of the operation tree: how many visible operations each
/// list element has, and the ids of all operations in the subtree.
#[derive(Debug)]
pub struct Index {
    /// From the key of each visible element to the number of visible
    /// operations on it.
    visible: FxMap<u128, usize>,
    /// The ids of the operations in this node and below.
    ops: OpIdSet,
}

impl Index {
    /// The number of visible operations of each visible element.
    pub closed spec fn counts(&self) -> Map<ElemId, nat> {
        Map::new(
            |e: ElemId| self.visible@.contains_key(opid_key(e.0)),
            |e: ElemId| self.visible@[opid_key(e.0)] as nat,
        )
    }

    /// The ids of the operations in the subtree.
    pub closed spec fn op_ids(&self) -> Set<OpId> {
        self.ops@
    }

    /// No element is kept with a count of zero.
    pub closed spec fn wf(&self) -> bool {
        &&& fx_hashed(&self.visible)
        &&& self.visible@.dom().finite()
        &&& self.ops.wf()
        &&& forall|k: u128| #[trigger]
            self.visible@.contains_key(k) ==> self.visible@[k] > 0 && opid_key(key_elem(k).0) == k
    }

    /// Every count is above zero, and the counted elements are finitely many.
    pub proof fn lemma_counts_positive(&self)
        requires
            self.wf(),
        ensures
            self.counts().dom().finite(),
            forall|e: ElemId| self.counts().contains_key(e) ==> self.counts()[e] > 0,
    {
        self.lemma_counts();
    }

    /// The counted elements are as many as the keys of the table.
    proof fn lemma_counts(&self)
        requires
            self.wf(),
        ensures
            self.counts().dom().finite(),
            self.counts().dom().len() == self.visible@.dom().len(),
            forall|e: ElemId| self.counts().contains_key(e) ==> self.counts()[e] > 0,
    {
        let keys = self.visible@.dom();
        let f = |k: u128| key_elem(k);
        assert(vstd::relations::injective_on(f, keys)) by {
            assert forall|a: u128, b: u128|
                keys.contains(a) && keys.contains(b) && #[trigger] f(a) == #[trigger] f(
                    b,
                ) implies a == b by {
                assert(self.visible@.contains_key(a) && self.visible@.contains_key(b));
            }
        }
        assert(keys.map(f) =~= self.counts().dom()) by {
            assert forall|e: ElemId| keys.map(f).contains(e) <==> self.counts().dom().contains(
                e,
            ) by {
                if keys.map(f).contains(e) {
                    let k = choose|k: u128| keys.contains(k) && f(k) == e;
                    assert(self.visible@.contains_key(k));
                }
                if self.counts().dom().contains(e) {
                    let k = opid_key(e.0);
                    assert(self.visible@.contains_key(k));
                    lemma_opid_key_injective(key_elem(k).0, e.0);
                    assert(keys.contains(k) && f(k) == e);
                }
            }
        }
        vstd::set_lib::lemma_map_size(keys, self.counts().dom(), f);
        assert forall|e: ElemId| self.counts().contains_key(e) implies self.counts()[e] > 0 by {
            assert(self.visible@.contains_key(opid_key(e.0)));
        }
    }

    /// The index of a subtree without operations.
    pub fn new() -> (s: Self)
        ensures
            s.wf(),
            s.counts() == Map::<ElemId, nat>::empty(),
            s.op_ids() == Set::<OpId>::empty(),
    {
        let s = Index { visible: fx_new(), ops: OpIdSet::new() };
        assert(s.visible@ =~= Map::<u128, usize>::empty());
        assert(s.counts() =~= Map::<ElemId, nat>::empty());
        s
    }

    /// The number of visible elements.
    pub fn visible_len(&self) -> (n: usize)
        requires
            self.wf(),
        ensures
            n == self.counts().dom().len(),
    {
        proof {
            self.lemma_counts();
        }
        self.visible.len()
    }

    /// Whether `e` names a visible element.
    pub fn has_visible(&self, e: &Option<ElemId>) -> (b: bool)
        requires
            self.wf(),
        ensures
            b == (e matches Some(seen) && self.counts().contains_key(*seen)),
    {
        if let Some(seen) = e {
            self.visible.contains_key(&pack_opid(seen.0))
        } else {
            false
        }
    }

    /// One more visible operation on `elem`.
    fn add_visible(&mut self, elem: ElemId)
        requires
            old(self).wf(),
            count_of(old(self).counts(), elem) < usize::MAX,
        ensures
            final(self).wf(),
            final(self).counts() == bump(old(self).counts(), elem),
            final(self).ops == old(self).ops,
    {
        let key = pack_opid(elem.0);
        let n = match self.visible.get(&key) {
            Some(n) => *n,
            None => 0,
        };
        self.visible.insert(key, n + 1);
        proof {
            lemma_opid_key_injective(key_elem(key).0, elem.0);
            assert forall|e: ElemId| #[trigger]
                self.counts().contains_key(e) == bump(old(self).counts(), elem).contains_key(e)
                && (self.counts().contains_key(e) ==> self.counts()[e] == bump(
                    old(self).counts(),
                    elem,
                )[e]) by {
                if opid_key(e.0) == key {
                    lemma_opid_key_injective(e.0, elem.0);
                }
            }
            assert(self.counts() =~= bump(old(self).counts(), elem));
        }
    }

    /// One visible operation on `elem` less.
    fn sub_visible(&mut self, elem: ElemId)
        requires
            old(self).wf(),
            old(self).counts().contains_key(elem),
        ensures
            final(self).wf(),
            final(self).counts() == drop_one(old(self).counts(), elem),
            final(self).ops == old(self).ops,
    {
        let key = pack_opid(elem.0);
        let n = *self.visible.get(&key).unwrap();
        if n == 1 {
            self.visible.remove(&key);
        } else {
            self.visible.insert(key, n - 1);
        }
        proof {
            assert forall|e: ElemId| #[trigger]
                self.counts().contains_key(e) == drop_one(old(self).counts(), elem).contains_key(e)
                && (self.counts().contains_key(e) ==> self.counts()[e] == drop_one(
                    old(self).counts(),
                    elem,
                )[e]) by {
                if opid_key(e.0) == key {
                    lemma_opid_key_injective(e.0, elem.0);
                }
            }
            assert(self.counts() =~= drop_one(old(self).counts(), elem));
        }
    }

    /// Takes note that `was` has become `now` in place.
    pub fn replace(&mut self, was: &Op, now: &Op)
        requires
            old(self).wf(),
            now.key == was.key,
            was.id != now.id ==> now.id.0 < u64::MAX,
            was@.visible() && !now@.visible() && now@.elemid() is Some ==> old(
                self,
            ).counts().contains_key(now@.elemid()->0),
            !was@.visible() && now@.visible() && now@.elemid() is Some ==> count_of(
                old(self).counts(),
                now@.elemid()->0,
            ) < usize::MAX,
        ensures
            final(self).wf(),
            final(self).op_ids() == if was.id != now.id {
                old(self).op_ids().remove(was.id).insert(now.id)
            } else {
                old(self).op_ids()
            },
            final(self).counts() == counts_after_replace(old(self).counts(), was@, now@),
    {
        if was.id != now.id {
            self.ops.remove(&was.id);
            self.ops.insert(now.id);
        }
        match (now.visible(), was.visible(), now.elemid()) {
            (false, true, Some(elem)) => self.sub_visible(elem),
            (true, false, Some(elem)) => self.add_visible(elem),
            _ => {},
        }
    }

    /// Takes `op` into the index.
    pub fn insert(&mut self, op: &Op)
        requires
            old(self).wf(),
            !old(self).op_ids().contains(op.id) ==> op.id.0 < u64::MAX,
            op@.visible() && op@.elemid() is Some ==> count_of(
                old(self).counts(),
                op@.elemid()->0,
            ) < usize::MAX,
        ensures
            final(self).wf(),
            final(self).op_ids() == old(self).op_ids().insert(op.id),
            final(self).counts() == counts_after_insert(old(self).counts(), op@),
    {
        self.ops.insert(op.id);
        if op.visible() {
            if let Some(elem) = op.elemid() {
                self.add_visible(elem);
            }
        }
    }

    /// Takes `op` out of the index.
    pub fn remove(&mut self, op: &Op)
        requires
            old(self).wf(),
            op@.visible() && op@.elemid() is Some ==> old(self).counts().contains_key(
                op@.elemid()->0,
            ),
        ensures
            final(self).wf(),
            final(self).op_ids() == old(self).op_ids().remove(op.id),
            final(self).counts() == counts_after_remove(old(self).counts(), op@),
    {
        self.ops.remove(&op.id);
        if op.visible() {
            if let Some(elem) = op.elemid() {
                self.sub_visible(elem);
            }
        }
    }

    /// Adds what `other` knows: the ids of both, and for each element the
    /// sum of its two counts.
    pub fn merge(&mut self, other: &Index)
        requires
            old(self).wf(),
            other.wf(),
            forall|e: ElemId|
                count_of(old(self).counts(), e) + count_of(other.counts(), e) <= usize::MAX,
        ensures
            final(self).wf(),
            final(self).op_ids() == old(self).op_ids().union(other.op_ids()),
            final(self).counts() == counts_merged(old(self).counts(), other.counts()),
    {
        self.ops.merge(&other.ops);
        let keys = fx_keys(&other.visible);
        let ghost before = self.visible@;
        let mut i: usize = 0;
        proof {
            lemma_prefix_set(keys@, 0);
        }
        while i < keys.len()
            invariant
                0 <= i <= keys@.len(),
                self.wf(),
                other.wf(),
                self.ops@ == old(self).ops@.union(other.ops@),
                keys@.no_duplicates(),
                keys@.to_set() == other.visible@.dom(),
                forall|e: ElemId| count_of(old(self).counts(), e) + count_of(other.counts(), e)
                    <= usize::MAX,
                before == old(self).visible@,
                forall|k: u128|
                    #![trigger self.visible@.contains_key(k)]
                    self.visible@.contains_key(k) <==> before.contains_key(k) || prefix_set(
                        keys@,
                        i as int,
                    ).contains(k),
                forall|k: u128| #[trigger]
                    self.visible@.contains_key(k) ==> self.visible@[k] == (if before.contains_key(
                        k,
                    ) {
                        before[k] as int
                    } else {
                        0
                    }) + (if prefix_set(keys@, i as int).contains(k) {
                        other.visible@[k] as int
                    } else {
                        0
                    }),
            decreases keys@.len() - i,
        {
            let key = keys[i];
            let ghost seen = prefix_set(keys@, i as int);
            proof {
                lemma_prefix_set(keys@, i as int);
                assert(keys@.to_set().contains(key));
                assert(other.visible@.contains_key(key));
                let e = key_elem(key);
                assert(count_of(old(self).counts(), e) + count_of(other.counts(), e)
                    <= usize::MAX);
                assert(other.counts().contains_key(e));
                assert(!seen.contains(key)) by {
                    if seen.contains(key) {
                        let j = choose|j: int| 0 <= j < i && j < keys@.len() && keys@[j] == key;
                        assert(keys@[j] == keys@[i as int]);
                    }
                }
            }
            let add = *other.visible.get(&key).unwrap();
            let n = match self.visible.get(&key) {
                Some(n) => *n,
                None => 0,
            };
            let ghost cur = self.visible@;
            self.visible.insert(key, n + add);
            proof {
                assert(prefix_set(keys@, i as int + 1) == seen.insert(key));
                assert forall|k: u128|
                    #![trigger self.visible@.contains_key(k)]
                    self.visible@.contains_key(k) <==> before.contains_key(k) || seen.insert(
                        key,
                    ).contains(k) by {
                    if k != key {
                        assert(self.visible@.contains_key(k) == cur.contains_key(k));
                    }
                }
                assert forall|k: u128| #[trigger] self.visible@.contains_key(k) implies self.visible@[k]
                    == (if before.contains_key(k) {
                    before[k] as int
                } else {
                    0
                }) + (if seen.insert(key).contains(k) {
                    other.visible@[k] as int
                } else {
                    0
                }) by {
                    if k != key {
                        assert(cur.contains_key(k));
                    }
                }
            }
            i = i + 1;
        }
        proof {
            lemma_prefix_set(keys@, keys@.len() as int);
            let want = counts_merged(old(self).counts(), other.counts());
            assert forall|e: ElemId| #[trigger]
                self.counts().contains_key(e) == want.contains_key(e) && (
                self.counts().contains_key(e) ==> self.counts()[e] == want[e]) by {
                let k = opid_key(e.0);
                let all = prefix_set(keys@, keys@.len() as int);
                assert(all.contains(k) == other.visible@.contains_key(k));
                assert(self.visible@.contains_key(k) <==> before.contains_key(k) || all.contains(
                    k,
                ));
                assert(old(self).counts().contains_key(e) == before.contains_key(k));
                assert(other.counts().contains_key(e) == other.visible@.contains_key(k));
            }
            assert(self.counts() =~= want);
        }
    }
}

impl Default for Index {
    fn default() -> (s: Self)
        ensures
            s.wf(),
            s.counts() == Map::<ElemId, nat>::empty(),
            s.op_ids() == Set::<OpId>::empty(),
    {
        Index::new()
    }
}

/// What the window keeps of a counter: where its operation stands, the
/// value that the increments seen so far have brought it to, the operations
/// that follow it and have not been folded in, and the operation itself with
/// that value.
#[derive(Debug)]
pub struct CounterData {
    pos: usize,
    val: i64,
    /// The keys of the operation ids that follow.
    succ: HashSet<u128>,
    op: Op,
}

/// The operation ids whose keys are `keys`.
pub open spec fn ids_of_keys(keys: Set<u128>) -> Set<OpId> {
    Set::new(|id: OpId| keys.contains(opid_key(id)))
}

/// Whether each of `keys` is the key of an operation id.
pub open spec fn all_opid_keys(keys: Set<u128>) -> bool {
    forall|k: u128| keys.contains(k) ==> is_opid_key(k)
}

/// A `CounterData` as a mathematical value.
pub struct CounterModel {
    pub pos: usize,
    pub val: i64,
    pub succ: Set<OpId>,
    pub op: OpModel,
}

impl View for CounterData {
    type V = CounterModel;

    closed spec fn view(&self) -> CounterModel {
        CounterModel { pos: self.pos, val: self.val, succ: ids_of_keys(self.succ@), op: self.op@ }
    }
}

/// Whether the clock covers one of `ids`.
pub open spec fn any_covered(ids: Set<OpId>, clock: Map<usize, u64>) -> bool {
    exists|id: OpId| ids.contains(id) && clock_covers(clock, id)
}

/// A counter after the increment `op`, which adds `inc`, has been folded
/// into it: the increment follows it no longer, and its operation sets the
/// new value.
pub open spec fn folded(entry: CounterModel, op: OpModel, inc: i64) -> CounterModel {
    let val = (entry.val + inc) as i64;
    CounterModel {
        pos: entry.pos,
        val,
        succ: entry.succ.remove(op.id),
        op: OpModel {
            action: OpTypeModel::Put(
                ScalarModel::Counter(Counter { start: val, current: val, increments: 0 }),
            ),
            ..entry.op
        },
    }
}

/// The counters after the increment `op` has been folded into those that
/// the first `n` of its predecessors name.
pub open spec fn window_folded(
    w: Map<OpId, CounterModel>,
    op: OpModel,
    inc: i64,
    n: int,
) -> Map<OpId, CounterModel>
    decreases n,
{
    if n <= 0 {
        w
    } else {
        let prev = window_folded(w, op, inc, n - 1);
        let id = op.pred[n - 1];
        if prev.contains_key(id) {
            prev.insert(id, folded(prev[id], op, inc))
        } else {
            prev
        }
    }
}

/// Whether folding the increment `op` into the counters that the first `n`
/// of its predecessors name leaves one of them with no follower that the
/// clock covers.
pub open spec fn fold_shows(
    w: Map<OpId, CounterModel>,
    op: OpModel,
    inc: i64,
    clock: Map<usize, u64>,
    n: int,
) -> bool
    decreases n,
{
    if n <= 0 {
        false
    } else {
        let prev = window_folded(w, op, inc, n - 1);
        let id = op.pred[n - 1];
        fold_shows(w, op, inc, clock, n - 1) || (prev.contains_key(id) && !any_covered(
            folded(prev[id], op, inc).succ,
            clock,
        ))
    }
}

/// Whether each value that folding the increment `op` into the counters of
/// its first `n` predecessors computes is an `i64`.
pub open spec fn fold_fits(w: Map<OpId, CounterModel>, op: OpModel, inc: i64, n: int) -> bool
    decreases n,
{
    if n <= 0 {
        true
    } else {
        let prev = window_folded(w, op, inc, n - 1);
        let id = op.pred[n - 1];
        fold_fits(w, op, inc, n - 1) && (prev.contains_key(id) ==> i64::MIN <= prev[id].val + inc
            <= i64::MAX)
    }
}

/// The counters after the window has been shown `op` at position `pos`. An
/// operation that the clock does not cover changes nothing. One that sets a
/// counter value is kept, with its start value and its followers. An
/// increment is folded into the counters that its predecessors name.
pub open spec fn window_after(
    w: Map<OpId, CounterModel>,
    op: OpModel,
    pos: usize,
    clock: Map<usize, u64>,
) -> Map<OpId, CounterModel> {
    if !clock_covers(clock, op.id) {
        w
    } else {
        match op.action {
            OpTypeModel::Put(ScalarModel::Counter(c)) => w.insert(
                op.id,
                CounterModel { pos, val: c.start, succ: op.succ.to_set(), op },
            ),
            OpTypeModel::Inc(inc) => window_folded(w, op, inc, op.pred.len() as int),
            _ => w,
        }
    }
}

/// Whether `op` shows at the point of history that the clock marks: the
/// clock covers it, and none of its followers. An increment shows where it
/// leaves a counter that it was folded into with no follower that the clock
/// covers.
pub open spec fn shows_at(w: Map<OpId, CounterModel>, op: OpModel, clock: Map<usize, u64>) -> bool {
    clock_covers(clock, op.id) && match op.action {
        OpTypeModel::Inc(inc) => fold_shows(w, op, inc, clock, op.pred.len() as int),
        _ => !any_covered(op.succ.to_set(), clock),
    }
}

/// What is to be shown for `op`, going by its first `n` predecessors: the
/// counters that they name, each with its position and its operation.
pub open spec fn seen_counters(w: Map<OpId, CounterModel>, op: OpModel, n: int) -> Seq<
    (usize, OpModel),
>
    decreases n,
{
    if n <= 0 {
        Seq::empty()
    } else {
        let prev = seen_counters(w, op, n - 1);
        let id = op.pred[n - 1];
        if w.contains_key(id) {
            prev.push((w[id].pos, w[id].op))
        } else {
            prev
        }
    }
}

/// What is to be shown for `op` at position `pos`: the counters that its
/// predecessors name, or, where they name none, the operation itself.
pub open spec fn seen(w: Map<OpId, CounterModel>, op: OpModel, pos: usize) -> Seq<(usize, OpModel)> {
    let counters = seen_counters(w, op, op.pred.len() as int);
    if counters.len() == 0 {
        seq![(pos, op)]
    } else {
        counters
    }
}

/// Whether every counter of the window is kept under the id of its own
/// operation, and that operation sets a counter value.
pub open spec fn tracks_counters(w: Map<OpId, CounterModel>) -> bool {
    forall|id: OpId| #[trigger] w.contains_key(id) ==> w[id].op.id == id && w[id].op.is_counter()
}

/// Folding an increment into the counters leaves each under its id, with
/// an operation that sets a counter value.
pub proof fn lemma_window_folded_tracks(w: Map<OpId, CounterModel>, op: OpModel, inc: i64, n: int)
    requires
        tracks_counters(w),
    ensures
        tracks_counters(window_folded(w, op, inc, n)),
    decreases n,
{
    if n > 0 {
        lemma_window_folded_tracks(w, op, inc, n - 1);
    }
}

/// Showing the window an operation leaves each counter under its id, with
/// an operation that sets a counter value.
pub proof fn lemma_window_after_tracks(
    w: Map<OpId, CounterModel>,
    op: OpModel,
    pos: usize,
    clock: Map<usize, u64>,
)
    requires
        tracks_counters(w),
    ensures
        tracks_counters(window_after(w, op, pos, clock)),
{
    if let OpTypeModel::Inc(inc) = op.action {
        lemma_window_folded_tracks(w, op, inc, op.pred.len() as int);
    }
}

/// What is shown for the first `n` predecessors of `op` are operations that
/// set a counter value, each under the id of one of these predecessors.
pub proof fn lemma_seen_counters(w: Map<OpId, CounterModel>, op: OpModel, n: int)
    requires
        tracks_counters(w),
        0 <= n <= op.pred.len(),
    ensures
        forall|j: int|
            0 <= j < seen_counters(w, op, n).len() ==> {
                let shown = #[trigger] seen_counters(w, op, n)[j];
                &&& shown.1.is_counter()
                &&& !shown.1.is_inc()
                &&& w.contains_key(shown.1.id)
                &&& shown == (w[shown.1.id].pos, w[shown.1.id].op)
                &&& exists|p: int| 0 <= p < n && op.pred[p] == shown.1.id
            },
    decreases n,
{
    if n > 0 {
        lemma_seen_counters(w, op, n - 1);
        let before = seen_counters(w, op, n - 1);
        let all = seen_counters(w, op, n);
        assert forall|j: int| 0 <= j < all.len() implies {
            let shown = #[trigger] all[j];
            &&& shown.1.is_counter()
            &&& !shown.1.is_inc()
            &&& w.contains_key(shown.1.id)
            &&& shown == (w[shown.1.id].pos, w[shown.1.id].op)
            &&& exists|p: int| 0 <= p < n && op.pred[p] == shown.1.id
        } by {
            if j < before.len() {
                assert(all[j] == before[j]);
                let p = choose|p: int| 0 <= p < n - 1 && op.pred[p] == before[j].1.id;
                assert(0 <= p < n && op.pred[p] == all[j].1.id);
            } else {
                assert(w.contains_key(op.pred[n - 1]));
                assert(0 <= n - 1 < n && op.pred[n - 1] == all[j].1.id);
            }
        }
    }
}

/// Whether the clock covers one of `ids`.
pub fn covers_any(ids: &Vec<OpId>, clock: &Clock) -> (b: bool)
    ensures
        b == any_covered(ids@.to_set(), clock@),
{
    let mut i: usize = 0;
    while i < ids.len()
        invariant
            0 <= i <= ids@.len(),
            forall|j: int| 0 <= j < i ==> !clock_covers(clock@, ids@[j]),
        decreases ids@.len() - i,
    {
        if clock.covers(&ids[i]) {
            proof {
                assert(ids@.to_set().contains(ids@[i as int]));
            }
            return true;
        }
        i = i + 1;
    }
    proof {
        if any_covered(ids@.to_set(), clock@) {
            let id = choose|id: OpId| ids@.to_set().contains(id) && clock_covers(clock@, id);
            let j = choose|j: int| 0 <= j < ids@.len() && ids@[j] == id;
        }
    }
    false
}

/// The keys of the operation ids of a list, as a set.
pub fn key_set(ids: &Vec<OpId>) -> (keys: HashSet<u128>)
    ensures
        all_opid_keys(keys@),
        ids_of_keys(keys@) == ids@.to_set(),
{
    let mut keys: HashSet<u128> = HashSet::new();
    let mut i: usize = 0;
    while i < ids.len()
        invariant
            0 <= i <= ids@.len(),
            all_opid_keys(keys@),
            forall|k: u128|
                keys@.contains(k) <==> exists|j: int| 0 <= j < i && opid_key(ids@[j]) == k,
        decreases ids@.len() - i,
    {
        let ghost before = keys@;
        keys.insert(pack_opid(ids[i]));
        proof {
            lemma_key_opid(ids@[i as int]);
            assert forall|k: u128|
                keys@.contains(k) <==> exists|j: int| 0 <= j < i + 1 && opid_key(ids@[j]) == k by {
                if before.contains(k) {
                    let j = choose|j: int| 0 <= j < i && opid_key(ids@[j]) == k;
                    assert(0 <= j < i + 1 && opid_key(ids@[j]) == k);
                }
                if exists|j: int| 0 <= j < i + 1 && opid_key(ids@[j]) == k {
                    let j = choose|j: int| 0 <= j < i + 1 && opid_key(ids@[j]) == k;
                    if j < i {
                        assert(0 <= j < i && opid_key(ids@[j]) == k);
                    }
                }
                if k == opid_key(ids@[i as int]) {
                    assert(0 <= i < i + 1 && opid_key(ids@[i as int]) == k);
                }
            }
        }
        i = i + 1;
    }
    proof {
        assert forall|id: OpId| ids_of_keys(keys@).contains(id) <==> ids@.to_set().contains(id) by {
            if keys@.contains(opid_key(id)) {
                let j = choose|j: int| 0 <= j < ids@.len() && opid_key(ids@[j]) == opid_key(id);
                lemma_opid_key_injective(ids@[j], id);
                assert(ids@.contains(id));
            }
            if ids@.to_set().contains(id) {
                let j = choose|j: int| 0 <= j < ids@.len() && ids@[j] == id;
                assert(opid_key(ids@[j]) == opid_key(id));
            }
        }
        assert(ids_of_keys(keys@) =~= ids@.to_set());
    }
    keys
}

/// Whether the clock covers one of the operation ids whose keys are `keys`.
pub fn covers_any_key(keys: &HashSet<u128>, clock: &Clock) -> (b: bool)
    requires
        all_opid_keys(keys@),
    ensures
        b == any_covered(ids_of_keys(keys@), clock@),
{
    let all = keys.iter();
    for k in it: all
        invariant
            all_opid_keys(keys@),
            it.seq() == keys.iter().remaining(),
            forall|j: int|
                0 <= j < it.index() ==> !clock_covers(clock@, key_opid(*(#[trigger] it.seq()[j]))),
    {
        proof {
            assert(keys.iter().remaining().unref().to_set().contains(*k)) by {
                assert(keys.iter().remaining().unref()[it.index()] == *k);
            }
        }
        let id = unpack_opid(*k);
        if clock.covers(&id) {
            proof {
                assert(ids_of_keys(keys@).contains(id));
            }
            return true;
        }
    }
    proof {
        if any_covered(ids_of_keys(keys@), clock@) {
            let id = choose|id: OpId| ids_of_keys(keys@).contains(id) && clock_covers(clock@, id);
            let listed = keys.iter().remaining().unref();
            assert(listed.to_set().contains(opid_key(id)));
            let j = choose|j: int| 0 <= j < listed.len() && listed[j] == opid_key(id);
            lemma_key_opid(id);
            assert(*keys.iter().remaining()[j] == opid_key(id));
        }
    }
    false
}

/// The counters met so far on a walk through the operations of an object, by
/// which the walk tells whether an operation shows at a given point of
/// history.
#[derive(Debug)]
pub struct VisWindow {
    counters: HashMap<u128, CounterData>,
}

impl View for VisWindow {
    type V = Map<OpId, CounterModel>;

    closed spec fn view(&self) -> Map<OpId, CounterModel> {
        Map::new(
            |id: OpId| self.counters@.contains_key(opid_key(id)),
            |id: OpId| self.counters@[opid_key(id)]@,
        )
    }
}

impl VisWindow {
    /// Every counter is kept under the id of its own operation, which sets
    /// a counter value.
    pub open spec fn wf(&self) -> bool {
        tracks_counters(self@) && self.keys_are_ids()
    }

    /// Whether what is kept as the followers of each counter are keys of
    /// operation ids.
    pub closed spec fn keys_are_ids(&self) -> bool {
        forall|k: u128| #[trigger]
            self.counters@.contains_key(k) ==> all_opid_keys(self.counters@[k].succ@)
    }

    /// A window that has met no counter.
    pub fn new() -> (w: Self)
        ensures
            w.wf(),
            w@ == Map::<OpId, CounterModel>::empty(),
    {
        let w = VisWindow { counters: HashMap::new() };
        assert(w@ =~= Map::<OpId, CounterModel>::empty());
        w
    }

    /// Shows the window the operation `op`, which stands at `pos`; tells
    /// whether it shows at the point of history that `clock` marks.
    pub fn visible_at(&mut self, op: &Op, pos: usize, clock: &Clock) -> (visible: bool)
        requires
            old(self).wf(),
            clock_covers(clock@, op.id) && op@.action is Inc ==> fold_fits(
                old(self)@,
                op@,
                op@.action->Inc_0,
                op@.pred.len() as int,
            ),
        ensures
            final(self).wf(),
            final(self)@ == window_after(old(self)@, op@, pos, clock@),
            visible == shows_at(old(self)@, op@, clock@),
    {
        proof {
            lemma_window_after_tracks(self@, op@, pos, clock@);
        }
        if !clock.covers(&op.id) {
            return false;
        }
        match &op.action {
            OpType::Put(ScalarValue::Counter(c)) => {
                let start = c.start;
                let data = CounterData { pos, val: start, succ: key_set(&op.succ), op: op.clone() };
                self.counters.insert(pack_opid(op.id), data);
                proof {
                    let want = window_after(old(self)@, op@, pos, clock@);
                    assert forall|id: OpId| #[trigger]
                        self@.contains_key(id) == want.contains_key(id) && (self@.contains_key(id)
                        ==> self@[id] == want[id]) by {
                        if opid_key(id) == opid_key(op.id) {
                            lemma_opid_key_injective(id, op.id);
                        }
                    }
                    assert(self@ =~= want);
                }
                !covers_any(&op.succ, clock)
            },
            OpType::Inc(inc_val) => {
                let inc = *inc_val;
                let mut visible = false;
                let mut i: usize = 0;
                while i < op.pred.len()
                    invariant
                        0 <= i <= op@.pred.len(),
                        op@.action == OpTypeModel::Inc(inc),
                        fold_fits(old(self)@, op@, inc, op@.pred.len() as int),
                        self.keys_are_ids(),
                        self@ == window_folded(old(self)@, op@, inc, i as int),
                        visible == fold_shows(old(self)@, op@, inc, clock@, i as int),
                    decreases op@.pred.len() - i,
                {
                    let id = op.pred[i];
                    let key = pack_opid(id);
                    let ghost cur = self@;
                    proof {
                        lemma_fold_fits(old(self)@, op@, inc, i as int + 1, op@.pred.len() as int);
                        assert(cur.contains_key(id) == self.counters@.contains_key(key));
                    }
                    // a predecessor comes before the operation, so its counter has been met
                    if let Some(mut entry) = self.counters.remove(&key) {
                        let ghost was = entry@;
                        let ghost was_keys = entry.succ@;
                        entry.succ.remove(&pack_opid(op.id));
                        entry.val = entry.val + inc;
                        entry.op.action = OpType::Put(ScalarValue::counter(entry.val));
                        proof {
                            assert forall|x: OpId|
                                ids_of_keys(entry.succ@).contains(x) <==> ids_of_keys(
                                    was_keys,
                                ).remove(op.id).contains(x) by {
                                if opid_key(x) == opid_key(op.id) {
                                    lemma_opid_key_injective(x, op.id);
                                }
                            }
                            assert(ids_of_keys(entry.succ@) =~= was.succ.remove(op.id));
                            assert(entry@ == folded(was, op@, inc));
                        }
                        if !covers_any_key(&entry.succ, clock) {
                            visible = true;
                        }
                        self.counters.insert(key, entry);
                    }
                    proof {
                        let want = window_folded(old(self)@, op@, inc, i as int + 1);
                        assert forall|x: OpId| #[trigger]
                            self@.contains_key(x) == want.contains_key(x) && (self@.contains_key(x)
                            ==> self@[x] == want[x]) by {
                            if opid_key(x) == key {
                                lemma_opid_key_injective(x, id);
                            }
                        }
                        assert(self@ =~= want);
                    }
                    i = i + 1;
                }
                visible
            },
            _ => {
                !covers_any(&op.succ, clock)
            },
        }
    }

    /// What is to be shown for `op`, which stands at `pos`: the counters
    /// that its predecessors name, each at its own position and with the
    /// value that the increments have brought it to, or, where they name
    /// none, the operation itself.
    pub fn seen_op(&self, op: &Op, pos: usize) -> (result: Vec<(usize, Op)>)
        requires
            self.wf(),
        ensures
            result@.len() == seen(self@, op@, pos).len(),
            forall|i: int|
                0 <= i < result@.len() ==> (#[trigger] result@[i]).0 == seen(self@, op@, pos)[i].0
                    && result@[i].1@ == seen(self@, op@, pos)[i].1,
            seen_counters(self@, op@, op@.pred.len() as int).len() > 0 ==> forall|i: int|
                0 <= i < result@.len() ==> {
                    let shown = (#[trigger] result@[i]).1@;
                    &&& shown.is_counter()
                    &&& !shown.is_inc()
                    &&& self@.contains_key(shown.id)
                    &&& result@[i].0 == self@[shown.id].pos
                    &&& shown == self@[shown.id].op
                    &&& op@.pred.contains(shown.id)
                },
    {
        proof {
            lemma_seen_counters(self@, op@, op@.pred.len() as int);
            let counters = seen_counters(self@, op@, op@.pred.len() as int);
            assert forall|j: int| 0 <= j < counters.len() implies op@.pred.contains(
                (#[trigger] counters[j]).1.id,
            ) by {
                let p = choose|p: int| 0 <= p < op@.pred.len() && op@.pred[p] == counters[j].1.id;
                assert(op@.pred[p] == counters[j].1.id);
            }
        }
        let mut result: Vec<(usize, Op)> = Vec::new();
        let mut i: usize = 0;
        while i < op.pred.len()
            invariant
                0 <= i <= op@.pred.len(),
                result@.len() == seen_counters(self@, op@, i as int).len(),
                forall|j: int|
                    0 <= j < result@.len() ==> (#[trigger] result@[j]).0 == seen_counters(
                        self@,
                        op@,
                        i as int,
                    )[j].0 && result@[j].1@ == seen_counters(self@, op@, i as int)[j].1,
            decreases op@.pred.len() - i,
        {
            let id = op.pred[i];
            if let Some(entry) = self.counters.get(&pack_opid(id)) {
                result.push((entry.pos, entry.op.clone()));
            }
            i = i + 1;
        }
        if result.is_empty() {
            let mut own: Vec<(usize, Op)> = Vec::new();
            own.push((pos, op.clone()));
            own
        } else {
            result
        }
    }
}

impl Default for VisWindow {
    fn default() -> (w: Self)
        ensures
            w.wf(),
            w@ == Map::<OpId, CounterModel>::empty(),
    {
        VisWindow::new()
    }
}

/// What holds of a whole fold holds of its beginning.
pub proof fn lemma_fold_fits(w: Map<OpId, CounterModel>, op: OpModel, inc: i64, m: int, n: int)
    requires
        m <= n,
        fold_fits(w, op, inc, n),
    ensures
        fold_fits(w, op, inc, m),
    decreases n - m,
{
    if m < n {
        lemma_fold_fits(w, op, inc, m, n - 1);
    }
}

/// Two increments of one counter can be folded in either order: the
/// window is the same afterwards, the counter stands at its value with both
/// increments added, neither increment follows it any longer, and the second
/// call answers the same either way.
pub proof fn lemma_increments_commute(
    w: Map<OpId, CounterModel>,
    first: OpModel,
    second: OpModel,
    target: OpId,
    clock: Map<usize, u64>,
    pos_first: usize,
    pos_second: usize,
)
    requires
        first.action is Inc,
        second.action is Inc,
        first.pred == seq![target],
        second.pred == seq![target],
        clock_covers(clock, first.id),
        clock_covers(clock, second.id),
        w.contains_key(target),
        i64::MIN <= w[target].val + first.action->Inc_0 <= i64::MAX,
        i64::MIN <= w[target].val + second.action->Inc_0 <= i64::MAX,
        i64::MIN <= w[target].val + first.action->Inc_0 + second.action->Inc_0 <= i64::MAX,
    ensures
        ({
            let one_way = window_after(
                window_after(w, first, pos_first, clock),
                second,
                pos_second,
                clock,
            );
            let other_way = window_after(
                window_after(w, second, pos_second, clock),
                first,
                pos_first,
                clock,
            );
            let left = w[target].succ.remove(first.id).remove(second.id);
            &&& one_way == other_way
            &&& one_way.dom() == w.dom()
            &&& one_way[target].val == w[target].val + first.action->Inc_0 + second.action->Inc_0
            &&& one_way[target].pos == w[target].pos
            &&& one_way[target].succ == left
            &&& one_way[target].op.is_counter()
            &&& shows_at(window_after(w, first, pos_first, clock), second, clock) == !any_covered(
                left,
                clock,
            )
            &&& shows_at(window_after(w, second, pos_second, clock), first, clock) == !any_covered(
                left,
                clock,
            )
        }),
{
    reveal_with_fuel(window_folded, 2);
    reveal_with_fuel(fold_shows, 2);
    let d1 = first.action->Inc_0;
    let d2 = second.action->Inc_0;
    let w1 = window_after(w, first, pos_first, clock);
    let w2 = window_after(w, second, pos_second, clock);
    assert(w1 == w.insert(target, folded(w[target], first, d1)));
    assert(w2 == w.insert(target, folded(w[target], second, d2)));
    let one_way = window_after(w1, second, pos_second, clock);
    let other_way = window_after(w2, first, pos_first, clock);
    assert(one_way == w1.insert(target, folded(w1[target], second, d2)));
    assert(other_way == w2.insert(target, folded(w2[target], first, d1)));
    let left = w[target].succ.remove(first.id).remove(second.id);
    assert(w[target].succ.remove(second.id).remove(first.id) =~= left);
    assert(one_way[target].succ =~= left);
    assert(other_way[target].succ =~= left);
    assert(one_way[target] == other_way[target]);
    assert(one_way =~= other_way);
    assert(one_way.dom() =~= w.dom());
}

/// One call on an index: an operation comes in, the operation held at a
/// place goes, or the operation held at a place becomes another.
pub enum IndexCall {
    Insert(OpModel),
    Remove(int),
    Replace(int, OpModel),
}

/// The operations that an index holds after the first `n` of `calls`, in
/// the order in which they came in.
pub open spec fn held_after(calls: Seq<IndexCall>, n: int) -> Seq<OpModel>
    decreases n,
{
    if n <= 0 {
        Seq::empty()
    } else {
        let held = held_after(calls, n - 1);
        match calls[n - 1] {
            IndexCall::Insert(op) => held.push(op),
            IndexCall::Remove(i) => held.remove(i),
            IndexCall::Replace(i, now) => held.update(i, now),
        }
    }
}

/// The counts of an index after the first `n` of `calls`, as `insert`,
/// `remove` and `replace` make them one after the other.
pub open spec fn counts_after(calls: Seq<IndexCall>, n: int) -> Map<ElemId, nat>
    decreases n,
{
    if n <= 0 {
        Map::empty()
    } else {
        let counts = counts_after(calls, n - 1);
        let held = held_after(calls, n - 1);
        match calls[n - 1] {
            IndexCall::Insert(op) => counts_after_insert(counts, op),
            IndexCall::Remove(i) => counts_after_remove(counts, held[i]),
            IndexCall::Replace(i, now) => counts_after_replace(counts, held[i], now),
        }
    }
}

/// Whether each of the first `n` of `calls` that takes an operation away or
/// changes one names a place that is held, and each change leaves the
/// operation on its element.
pub open spec fn calls_on_held(calls: Seq<IndexCall>, n: int) -> bool
    decreases n,
{
    if n <= 0 {
        true
    } else {
        let held = held_after(calls, n - 1);
        calls_on_held(calls, n - 1) && match calls[n - 1] {
            IndexCall::Insert(_) => true,
            IndexCall::Remove(i) => 0 <= i < held.len(),
            IndexCall::Replace(i, now) => 0 <= i < held.len() && now.elemid() == held[i].elemid(),
        }
    }
}

/// An element counts among the visible ones of a list of operations exactly
/// if one of the operations is visible and on it.
pub proof fn lemma_visible_count_positive(ops: Seq<OpModel>, e: ElemId)
    ensures
        visible_count(ops, e) > 0 <==> exists|i: int|
            0 <= i < ops.len() && (#[trigger] ops[i]).visible() && ops[i].elemid() == Some(e),
    decreases ops.len(),
{
    if ops.len() > 0 {
        let front = ops.drop_last();
        lemma_visible_count_positive(front, e);
        if visible_count(front, e) > 0 {
            let i = choose|i: int|
                0 <= i < front.len() && (#[trigger] front[i]).visible() && front[i].elemid()
                    == Some(e);
            assert(ops[i].visible() && ops[i].elemid() == Some(e));
        }
        if exists|i: int|
            0 <= i < ops.len() && (#[trigger] ops[i]).visible() && ops[i].elemid() == Some(e) {
            let i = choose|i: int|
                0 <= i < ops.len() && (#[trigger] ops[i]).visible() && ops[i].elemid() == Some(e);
            if i < ops.len() - 1 {
                assert(front[i].visible() && front[i].elemid() == Some(e));
            }
        }
    }
}

/// After any sequence of calls on a new index, each on what is held, the
/// counts are those that counting the held operations anew gives: the
/// counted elements are the elements with a visible operation among those
/// held, so `visible_len` is their number.
pub proof fn lemma_index_conserves(calls: Seq<IndexCall>, n: int)
    requires
        0 <= n <= calls.len(),
        calls_on_held(calls, n),
    ensures
        counts_after(calls, n) == tally(held_after(calls, n)),
        forall|e: ElemId|
            counts_after(calls, n).contains_key(e) <==> exists|i: int|
                0 <= i < held_after(calls, n).len() && (#[trigger] held_after(
                    calls,
                    n,
                )[i]).visible() && held_after(calls, n)[i].elemid() == Some(e),
    decreases n,
{
    if n <= 0 {
        lemma_tally_empty();
    } else {
        lemma_index_conserves(calls, n - 1);
        let held = held_after(calls, n - 1);
        match calls[n - 1] {
            IndexCall::Insert(op) => lemma_tally_insert(held, op),
            IndexCall::Remove(i) => lemma_tally_remove(held, i),
            IndexCall::Replace(i, now) => lemma_tally_replace(held, i, now),
        }
    }
    assert forall|e: ElemId|
        counts_after(calls, n).contains_key(e) <==> exists|i: int|
            0 <= i < held_after(calls, n).len() && (#[trigger] held_after(calls, n)[i]).visible()
                && held_after(calls, n)[i].elemid() == Some(e) by {
        lemma_visible_count_positive(held_after(calls, n), e);
    }
}

/// Whether `f` says of `op` that it comes before what is looked for, and
/// nothing else.
pub open spec fn only_less<F: Fn(&Op) -> Ordering>(f: F, op: Op) -> bool {
    forall|o: Ordering| call_ensures(f, (&op,), o) ==> o == Ordering::Less
}

/// Whether `f` never says of `op` that it comes before what is looked for.
pub open spec fn never_less<F: Fn(&Op) -> Ordering>(f: F, op: Op) -> bool {
    forall|o: Ordering| call_ensures(f, (&op,), o) ==> o != Ordering::Less
}

/// Whether `p` parts the operations of `node` into those of which `f` says
/// that they come before what is looked for, and the others behind them.
pub open spec fn parts_at<F: Fn(&Op) -> Ordering>(node: &OpTreeNode, f: F, p: usize) -> bool {
    &&& p <= node.spec_len()
    &&& forall|i: usize| i < p ==> only_less(f, #[trigger] node.op_at(i))
    &&& forall|i: usize| p <= i < node.spec_len() ==> never_less(f, #[trigger] node.op_at(i))
}

/// The first place in `node` at which `f` does not say `Less`, found by
/// halving: `f` said `Less` of the operation before the place, if there is
/// one, and something else of the operation at the place, if there is one.
/// Where the operations are in order, so that `f` says `Less` of a first
/// part of them and nothing but that, the place is where that part ends.
pub fn binary_search_by<F>(node: &OpTreeNode, f: F) -> (r: usize) where F: Fn(&Op) -> Ordering
    requires
        forall|i: usize| i < node.spec_len() ==> call_requires(f, (&#[trigger] node.op_at(i),)),
    ensures
        r <= node.spec_len(),
        forall|i: usize|
            i + 1 == r ==> call_ensures(f, (&#[trigger] node.op_at(i),), Ordering::Less),
        r < node.spec_len() ==> exists|o: Ordering|
            o != Ordering::Less && call_ensures(f, (&node.op_at(r),), o),
        forall|p: usize| parts_at(node, f, p) ==> r == p,
{
    let mut right = node.len();
    let mut left: usize = 0;
    while left < right
        invariant
            left <= right <= node.spec_len(),
            node.spec_len() == node.ops().len(),
            forall|i: usize| i < node.spec_len() ==> call_requires(f, (&#[trigger] node.op_at(i),)),
            forall|i: usize|
                i + 1 == left ==> call_ensures(f, (&#[trigger] node.op_at(i),), Ordering::Less),
            right < node.spec_len() ==> exists|o: Ordering|
                o != Ordering::Less && call_ensures(f, (&node.op_at(right),), o),
        decreases right - left,
    {
        let seq = left + (right - left) / 2;
        let op = node.get(seq).unwrap();
        proof {
            assert(call_requires(f, (&node.op_at(seq),)));
        }
        let o = f(op);
        if matches!(o, Ordering::Less) {
            left = seq + 1;
        } else {
            right = seq;
        }
    }
    proof {
        assert forall|p: usize| parts_at(node, f, p) implies left == p by {
            if left < p {
                assert(only_less(f, node.op_at(left)));
            }
            if p < left {
                let i = place_before(left);
                assert(i + 1 == left);
                assert(never_less(f, node.op_at(i)));
            }
        }
    }
    left
}

/// How many of `ops` are visible operations on `e`.
pub open spec fn visible_count(ops: Seq<OpModel>, e: ElemId) -> nat
    decreases ops.len(),
{
    if ops.len() == 0 {
        0
    } else {
        visible_count(ops.drop_last(), e) + if ops.last().visible() && ops.last().elemid() == Some(
            e,
        ) {
            1nat
        } else {
            0nat
        }
    }
}

/// The counts of a list of operations, worked out from the list alone: each
/// element with at least one visible operation, with their number.
pub open spec fn tally(ops: Seq<OpModel>) -> Map<ElemId, nat> {
    Map::new(|e: ElemId| visible_count(ops, e) > 0, |e: ElemId| visible_count(ops, e))
}

/// Taking an operation out of a list takes its share out of each count.
pub proof fn lemma_visible_count_remove(ops: Seq<OpModel>, i: int, e: ElemId)
    requires
        0 <= i < ops.len(),
    ensures
        visible_count(ops, e) == visible_count(ops.remove(i), e) + if ops[i].visible()
            && ops[i].elemid() == Some(e) {
            1nat
        } else {
            0nat
        },
    decreases ops.len(),
{
    if i == ops.len() - 1 {
        assert(ops.remove(i) =~= ops.drop_last());
    } else {
        lemma_visible_count_remove(ops.drop_last(), i, e);
        assert(ops.remove(i).drop_last() =~= ops.drop_last().remove(i));
        assert(ops.remove(i).last() == ops.last());
    }
}

/// The counts of one list after the other are the counts of the two, added.
pub proof fn lemma_visible_count_concat(a: Seq<OpModel>, b: Seq<OpModel>, e: ElemId)
    ensures
        visible_count(a + b, e) == visible_count(a, e) + visible_count(b, e),
    decreases b.len(),
{
    if b.len() == 0 {
        assert(a + b =~= a);
    } else {
        lemma_visible_count_concat(a, b.drop_last(), e);
        assert((a + b).drop_last() =~= a + b.drop_last());
        assert((a + b).last() == b.last());
    }
}

/// The index of no operations counts nothing.
pub proof fn lemma_tally_empty()
    ensures
        tally(Seq::<OpModel>::empty()) == Map::<ElemId, nat>::empty(),
{
    assert(tally(Seq::<OpModel>::empty()) =~= Map::<ElemId, nat>::empty());
}

/// Counting a list anew after an operation has come in gives what
/// `Index::insert` makes of the counts of the list.
pub proof fn lemma_tally_insert(ops: Seq<OpModel>, op: OpModel)
    ensures
        tally(ops.push(op)) == counts_after_insert(tally(ops), op),
{
    assert(ops.push(op).drop_last() =~= ops);
    assert(tally(ops.push(op)) =~= counts_after_insert(tally(ops), op));
}

/// Counting a list anew after one of its operations has gone gives what
/// `Index::remove` makes of the counts of the list.
pub proof fn lemma_tally_remove(ops: Seq<OpModel>, i: int)
    requires
        0 <= i < ops.len(),
    ensures
        tally(ops.remove(i)) == counts_after_remove(tally(ops), ops[i]),
        ops[i].visible() && ops[i].elemid() is Some ==> tally(ops).contains_key(
            ops[i].elemid()->0,
        ),
{
    assert forall|e: ElemId| #[trigger]
        tally(ops.remove(i)).contains_key(e) == counts_after_remove(
            tally(ops),
            ops[i],
        ).contains_key(e) && (tally(ops.remove(i)).contains_key(e) ==> tally(ops.remove(i))[e]
        == counts_after_remove(tally(ops), ops[i])[e]) by {
        lemma_visible_count_remove(ops, i, e);
    }
    if ops[i].elemid() is Some {
        lemma_visible_count_remove(ops, i, ops[i].elemid()->0);
    }
    assert(tally(ops.remove(i)) =~= counts_after_remove(tally(ops), ops[i]));
}

/// Counting a list anew after one of its operations has changed in place
/// gives what `Index::replace` makes of the counts of the list, where the
/// change leaves the operation on the same element.
pub proof fn lemma_tally_replace(ops: Seq<OpModel>, i: int, now: OpModel)
    requires
        0 <= i < ops.len(),
        now.elemid() == ops[i].elemid(),
    ensures
        tally(ops.update(i, now)) == counts_after_replace(tally(ops), ops[i], now),
{
    let changed = ops.update(i, now);
    assert(changed.remove(i) =~= ops.remove(i));
    assert forall|e: ElemId| #[trigger]
        tally(changed).contains_key(e) == counts_after_replace(
            tally(ops),
            ops[i],
            now,
        ).contains_key(e) && (tally(changed).contains_key(e) ==> tally(changed)[e]
        == counts_after_replace(tally(ops), ops[i], now)[e]) by {
        lemma_visible_count_remove(ops, i, e);
        lemma_visible_count_remove(changed, i, e);
    }
    if now.elemid() is Some {
        lemma_visible_count_remove(ops, i, now.elemid()->0);
        lemma_visible_count_remove(changed, i, now.elemid()->0);
    }
    assert(tally(changed) =~= counts_after_replace(tally(ops), ops[i], now));
}

/// Counting two lists as one gives what `Index::merge` makes of their
/// counts.
pub proof fn lemma_tally_merge(a: Seq<OpModel>, b: Seq<OpModel>)
    ensures
        tally(a + b) == counts_merged(tally(a), tally(b)),
{
    assert forall|e: ElemId| #[trigger]
        tally(a + b).contains_key(e) == counts_merged(tally(a), tally(b)).contains_key(e) && (
        tally(a + b).contains_key(e) ==> tally(a + b)[e] == counts_merged(tally(a), tally(b))[e]) by {
        lemma_visible_count_concat(a, b, e);
    }
    assert(tally(a + b) =~= counts_merged(tally(a), tally(b)));
}

} // verus!
