//! The query for the operations on one property of a map.

use crate::actor_map::ActorMap;
use crate::op_tree::{place_before, OpTreeNode};
use crate::query::{binary_search_by, QueryResult};
use crate::types::{Key, Op, OpModel};
use std::cmp::Ordering;
use vstd::prelude::*;

verus! {

/// The query for the operations on one property of a map. It is shown the
/// root node first and finds there, by halving, where the operations on the
/// property begin; from there on it is shown operation after operation,
/// keeps those that are visible, and stops at the first operation on another
/// key.
#[derive(Debug)]
pub struct Prop<'a> {
    /// The key that the query looks for.
    pub key: Key,
    /// Whether one operation is asked for, the last visible one.
    pub single: bool,
    /// The last visible operation met, where a single one is asked for.
    pub op: Option<&'a Op>,
    /// The position of `op`.
    pub op_pos: Option<usize>,
    /// The visible operations met, where all are asked for.
    pub ops: Vec<&'a Op>,
    /// The positions of `ops`.
    pub ops_pos: Vec<usize>,
    /// The position that the query has come to.
    pub pos: usize,
    /// Where the operations on the key begin, once the root has been seen.
    pub start: Option<usize>,
    /// Whether the root has been seen.
    pub done_root: bool,
}

impl<'a> Prop<'a> {
    /// Once the root has been seen the start is known.
    pub open spec fn wf(&self) -> bool {
        self.done_root ==> self.start is Some
    }

    /// A query for the property of index `prop`, which has seen nothing yet.
    pub fn new(prop: usize, single: bool) -> (q: Self)
        ensures
            q.wf(),
            q.key == Key::Prop(prop),
            q.single == single,
            q.op is None,
            q.op_pos is None,
            q.ops@.len() == 0,
            q.ops_pos@.len() == 0,
            q.pos == 0,
            q.start is None,
            !q.done_root,
    {
        Prop {
            key: Key::Prop(prop),
            single,
            op: None,
            op_pos: None,
            ops: Vec::new(),
            ops_pos: Vec::new(),
            pos: 0,
            start: None,
            done_root: false,
        }
    }

    /// Shows the query the node `child`. The first node shown is the root:
    /// the query finds the first operation in it whose key does not come
    /// before its own, and asks to pass over the operations before it. A
    /// later node is looked into if it reaches the start and has a visible
    /// element, and passed over otherwise.
    pub fn query_node_with_metadata(&mut self, child: &'a OpTreeNode, m: &ActorMap) -> (r:
        QueryResult)
        requires
            old(self).wf(),
            child.wf(),
            old(self).done_root ==> old(self).pos + child.spec_len() <= usize::MAX,
            !old(self).done_root ==> m.knows_key(old(self).key) && forall|i: usize|
                i < child.spec_len() ==> m.knows_key((#[trigger] child.op_at(i)).key),
        ensures
            final(self).wf(),
            final(self).done_root,
            final(self).key == old(self).key,
            final(self).single == old(self).single,
            final(self).op == old(self).op,
            final(self).op_pos == old(self).op_pos,
            final(self).ops == old(self).ops,
            final(self).ops_pos == old(self).ops_pos,
            old(self).done_root ==> final(self).start == old(self).start && r == node_answer(
                old(self).pos,
                old(self).start->0,
                child.spec_len(),
                child.ops(),
            ) && (r == QueryResult::Next ==> final(self).pos == old(self).pos + child.spec_len())
                && (r != QueryResult::Next ==> final(self).pos == old(self).pos),
            !old(self).done_root ==> final(self).start is Some && r == QueryResult::Skip(
                final(self).start->0,
            ) && final(self).pos == final(self).start->0 && begins_at_place(
                m,
                child,
                old(self).key,
                final(self).start->0,
            ),
    {
        if self.done_root {
            if self.pos + child.len() >= self.start.unwrap() {
                // skip empty nodes
                if child.index().visible_len() == 0 {
                    self.pos += child.len();
                    QueryResult::Next
                } else {
                    QueryResult::Descend
                }
            } else {
                self.pos += child.len();
                QueryResult::Next
            }
        } else {
            self.done_root = true;
            // in the root node find the first op position for the key
            let key = self.key;
            let order = |op: &Op| -> (o: Ordering)
                requires
                    m.knows_key(op.key),
                    m.knows_key(key),
                ensures
                    o == m.key_order(op.key, key),
                {
                    m.key_cmp(&op.key, &key)
                };
            let start = binary_search_by(child, order);
            proof {
                if start > 0 {
                    let i = place_before(start);
                    child.lemma_key_at(i);
                    assert(i + 1 == start);
                    assert(call_ensures(order, (&child.op_at(i),), Ordering::Less));
                }
                if start < child.spec_len() {
                    child.lemma_key_at(start);
                }
                child.lemma_op_at();
            }
            self.start = Some(start);
            self.pos = start;
            QueryResult::Skip(start)
        }
    }

    /// Shows the query the operation `op`. An operation on another key ends
    /// the query. A visible one is kept, with the position that the query
    /// has come to.
    pub fn query_element(&mut self, op: &'a Op) -> (r: QueryResult)
        requires
            old(self).wf(),
            op.key == old(self).key ==> old(self).pos < usize::MAX,
        ensures
            final(self).wf(),
            final(self).key == old(self).key,
            final(self).single == old(self).single,
            final(self).start == old(self).start,
            final(self).done_root == old(self).done_root,
            op.key != old(self).key ==> r == QueryResult::Finish && *final(self) == *old(self),
            op.key == old(self).key ==> r == QueryResult::Next && final(self).pos == old(
                self,
            ).pos + 1,
            op.key == old(self).key && !(op@.visible()) ==> final(self).op == old(self).op
                && final(self).op_pos == old(self).op_pos && final(self).ops == old(self).ops
                && final(self).ops_pos == old(self).ops_pos,
            op.key == old(self).key && op@.visible() && old(self).single ==> final(self).op
                == Some(op) && final(self).op_pos == Some(old(self).pos) && final(self).ops == old(
                self,
            ).ops && final(self).ops_pos == old(self).ops_pos,
            op.key == old(self).key && op@.visible() && !old(self).single ==> final(self).op
                == old(self).op && final(self).op_pos == old(self).op_pos && final(self).ops@
                == old(self).ops@.push(op) && final(self).ops_pos@ == old(self).ops_pos@.push(
                old(self).pos,
            ),
    {
        // don't bother looking at things past our key
        if op.key != self.key {
            return QueryResult::Finish;
        }
        if op.visible() {
            if self.single {
                self.op = Some(op);
                self.op_pos = Some(self.pos);
            } else {
                self.ops.push(op);
                self.ops_pos.push(self.pos);
            }
        }
        self.pos += 1;
        QueryResult::Next
    }
}

/// What a query that has come to `pos` and begins at `start` answers to a
/// node of `len` operations `ops`: it looks into the node if the node
/// reaches the start and has a visible element, and goes on to the next
/// otherwise.
pub open spec fn node_answer(
    pos: usize,
    start: usize,
    len: usize,
    ops: Seq<crate::types::OpModel>,
) -> QueryResult {
    if pos + len >= start && crate::query::tally(ops).dom().len() != 0 {
        QueryResult::Descend
    } else {
        QueryResult::Next
    }
}

/// Whether `start` is a place in `ops` where the operations on `key` may
/// begin: the key of the operation before it comes before `key`, and the
/// key of the operation at it does not.
pub open spec fn begins_at(m: &ActorMap, ops: Seq<OpModel>, key: Key, start: int) -> bool {
    &&& 0 <= start <= ops.len()
    &&& start > 0 ==> m.key_before(ops[start - 1].key, key)
    &&& start < ops.len() ==> !m.key_before(ops[start].key, key)
}

/// `begins_at` at a machine index.
pub open spec fn begins_at_place(m: &ActorMap, node: &OpTreeNode, key: Key, start: usize) -> bool {
    begins_at(m, node.ops(), key, start as int)
}

/// Whether the operations from `start` up to `end` are on `key`, and the
/// one at `end`, if there is one, is not.
pub open spec fn block_of(ops: Seq<OpModel>, key: Key, start: int, end: int) -> bool {
    &&& 0 <= start <= end <= ops.len()
    &&& forall|i: int| start <= i < end ==> (#[trigger] ops[i]).key == key
    &&& end < ops.len() ==> ops[end].key != key
}

/// The places from `from` up to `to` whose operation is on `key` and
/// visible, in ascending order.
pub open spec fn visible_places(ops: Seq<OpModel>, key: Key, from: int, to: int) -> Seq<int>
    decreases to - from,
{
    if to <= from {
        Seq::empty()
    } else {
        let before = visible_places(ops, key, from, to - 1);
        if ops[to - 1].key == key && ops[to - 1].visible() {
            before.push(to - 1)
        } else {
            before
        }
    }
}

/// Whether the query holds the operations at `places`: all of them with
/// their places, or, where a single one is asked for, the last.
pub open spec fn holds_places(q: Prop, ops: Seq<OpModel>, places: Seq<int>) -> bool {
    if q.single {
        &&& q.ops@.len() == 0
        &&& q.ops_pos@.len() == 0
        &&& places.len() == 0 ==> q.op is None && q.op_pos is None
        &&& places.len() > 0 ==> q.op is Some && q.op->0@ == ops[places.last()] && q.op_pos
            == Some(places.last() as usize)
    } else {
        &&& q.op is None
        &&& q.op_pos is None
        &&& q.ops@.len() == places.len()
        &&& q.ops_pos@.len() == places.len()
        &&& forall|n: int|
            0 <= n < places.len() ==> (#[trigger] q.ops@[n])@ == ops[places[n]] && q.ops_pos@[n]
                == places[n]
    }
}

/// Whether the operations stand in the order of their keys, as far as `key`
/// can tell: those whose key comes before it, then those on it, then those
/// whose key comes after it.
pub open spec fn in_key_order(m: &ActorMap, ops: Seq<OpModel>, key: Key) -> bool {
    forall|i: int, j: int|
        0 <= i < j < ops.len() ==> (m.key_before(#[trigger] ops[j].key, key) ==> m.key_before(
            #[trigger] ops[i].key,
            key,
        )) && (m.key_after(ops[i].key, key) ==> m.key_after(ops[j].key, key))
}

/// The visible places of a stretch are those of its first part and those
/// of the rest.
pub proof fn lemma_visible_places_split(ops: Seq<OpModel>, key: Key, a: int, b: int, c: int)
    requires
        a <= b <= c,
    ensures
        visible_places(ops, key, a, c) == visible_places(ops, key, a, b) + visible_places(
            ops,
            key,
            b,
            c,
        ),
    decreases c - b,
{
    if b == c {
        assert(visible_places(ops, key, a, b) + Seq::<int>::empty() =~= visible_places(
            ops,
            key,
            a,
            b,
        ));
    } else {
        lemma_visible_places_split(ops, key, a, b, c - 1);
        let first = visible_places(ops, key, a, b);
        let rest = visible_places(ops, key, b, c - 1);
        if ops[c - 1].key == key && ops[c - 1].visible() {
            assert((first + rest).push(c - 1) =~= first + rest.push(c - 1));
        }
    }
}

/// The visible places of a stretch lie in the stretch.
pub proof fn lemma_visible_places_bounds(ops: Seq<OpModel>, key: Key, a: int, b: int)
    ensures
        forall|n: int|
            0 <= n < visible_places(ops, key, a, b).len() ==> a <= #[trigger] visible_places(
                ops,
                key,
                a,
                b,
            )[n] < b,
    decreases b - a,
{
    if a < b {
        lemma_visible_places_bounds(ops, key, a, b - 1);
        let before = visible_places(ops, key, a, b - 1);
        let all = visible_places(ops, key, a, b);
        assert forall|n: int| 0 <= n < all.len() implies a <= #[trigger] all[n] < b by {
            if n < before.len() {
                assert(all[n] == before[n]);
            }
        }
    }
}

/// A stretch without operations on `key` has no visible place.
pub proof fn lemma_visible_places_none(ops: Seq<OpModel>, key: Key, a: int, b: int)
    requires
        0 <= a,
        b <= ops.len(),
        forall|i: int| a <= i < b ==> (#[trigger] ops[i]).key != key,
    ensures
        visible_places(ops, key, a, b) == Seq::<int>::empty(),
    decreases b - a,
{
    if a < b {
        lemma_visible_places_none(ops, key, a, b - 1);
    }
}

/// Where the operations stand in the order of their keys, the operations
/// on a property are those between the place where the query begins and the
/// place where it stops, so what the query keeps is what a scan of all the
/// operations for the visible ones on the property keeps.
pub proof fn lemma_prop_is_scan(m: &ActorMap, ops: Seq<OpModel>, p: usize, start: int, end: int)
    requires
        m.wf(),
        m.knows_prop(p),
        forall|i: int| 0 <= i < ops.len() ==> m.knows_key((#[trigger] ops[i]).key),
        begins_at(m, ops, Key::Prop(p), start),
        block_of(ops, Key::Prop(p), start, end),
        in_key_order(m, ops, Key::Prop(p)),
    ensures
        visible_places(ops, Key::Prop(p), start, end) == visible_places(
            ops,
            Key::Prop(p),
            0,
            ops.len() as int,
        ),
{
    let key = Key::Prop(p);
    let len = ops.len() as int;
    assert forall|i: int| 0 <= i < start implies (#[trigger] ops[i]).key != key by {
        m.lemma_key_order_of_prop(ops[i].key, p);
        assert(m.key_before(ops[start - 1].key, key));
        if i < start - 1 {
            assert(m.key_before(ops[i].key, key));
        }
    }
    assert forall|i: int| end <= i < len implies (#[trigger] ops[i]).key != key by {
        m.lemma_key_order_of_prop(ops[i].key, p);
        m.lemma_key_order_of_prop(ops[end].key, p);
        if m.key_before(ops[end].key, key) {
            if start < end {
                assert(m.key_before(ops[start].key, key));
            }
        }
        assert(m.key_after(ops[end].key, key));
        if end < i {
            assert(m.key_after(ops[i].key, key));
        }
    }
    lemma_visible_places_none(ops, key, 0, start);
    lemma_visible_places_none(ops, key, end, len);
    lemma_visible_places_split(ops, key, 0, start, end);
    lemma_visible_places_split(ops, key, 0, end, len);
    assert(Seq::<int>::empty() + visible_places(ops, key, start, end) =~= visible_places(
        ops,
        key,
        start,
        end,
    ));
    assert(visible_places(ops, key, 0, end) + Seq::<int>::empty() =~= visible_places(
        ops,
        key,
        0,
        end,
    ));
}

/// Runs the query for the property of index `prop` over `node` as the
/// whole tree: the query is shown the node, passes over the operations
/// before its start, and is shown the operations from there on until it
/// stops.
pub fn search_prop<'a>(node: &'a OpTreeNode, m: &ActorMap, prop: usize, single: bool) -> (q: Prop<
    'a,
>)
    requires
        node.wf(),
        node.spec_len() < usize::MAX,
        m.knows_key(Key::Prop(prop)),
        forall|i: usize| i < node.spec_len() ==> m.knows_key((#[trigger] node.op_at(i)).key),
    ensures
        q.wf(),
        q.key == Key::Prop(prop),
        q.single == single,
        q.start is Some,
        begins_at(m, node.ops(), Key::Prop(prop), q.start->0 as int),
        block_of(node.ops(), Key::Prop(prop), q.start->0 as int, q.pos as int),
        holds_places(
            q,
            node.ops(),
            visible_places(node.ops(), Key::Prop(prop), q.start->0 as int, q.pos as int),
        ),
{
    let mut q = Prop::new(prop, single);
    q.query_node_with_metadata(node, m);
    let start = q.pos;
    let ghost key = Key::Prop(prop);
    let ghost ops = node.ops();
    let mut i = start;
    proof {
        node.lemma_op_at();
    }
    while i < node.len()
        invariant
            start <= i <= ops.len(),
            ops == node.ops(),
            ops.len() < usize::MAX,
            q.wf(),
            q.key == key,
            q.single == single,
            q.start == Some(start),
            q.pos == i,
            forall|j: int| start <= j < i ==> (#[trigger] ops[j]).key == key,
            holds_places(q, ops, visible_places(ops, key, start as int, i as int)),
        ensures
            block_of(ops, key, start as int, q.pos as int),
            q.wf(),
            q.key == key,
            q.single == single,
            q.start == Some(start),
            holds_places(q, ops, visible_places(ops, key, start as int, q.pos as int)),
        decreases ops.len() - i,
    {
        let op = node.get(i).unwrap();
        let ghost before = q;
        let answer = q.query_element(op);
        if answer == QueryResult::Finish {
            break ;
        }
        proof {
            let places = visible_places(ops, key, start as int, i as int);
            let grown = visible_places(ops, key, start as int, i as int + 1);
            assert(op@ == ops[i as int]);
            assert(op.key == key);
            lemma_visible_places_bounds(ops, key, start as int, i as int);
            lemma_visible_places_bounds(ops, key, start as int, i as int + 1);
            if op@.visible() {
                assert(grown == places.push(i as int));
                assert(grown.last() == i);
                if single {
                    assert(q.op == Some(op));
                    assert(q.op_pos == Some(i));
                }
                if !single {
                    assert forall|n: int| 0 <= n < grown.len() implies (#[trigger] q.ops@[n])@
                        == ops[grown[n]] && q.ops_pos@[n] == grown[n] by {
                        if n < places.len() {
                            assert(q.ops@[n] == before.ops@[n]);
                        }
                    }
                }
            } else {
                assert(grown == places);
            }
        }
        i += 1;
    }
    q
}

} // verus!
