//! The table of a document's actors and property names. Inside a document an
//! actor is known by the index at which its identifier came into the table,
//! and so is a property name; operation ids are ordered by counter and then
//! by the identifiers of their actors, never by the indexes.

use crate::indexed_cache::{cmp_bytes, lemma_lex_same, lex_order, IndexedCache};
use crate::protocol;
use crate::protocol::clone_bytes;
use crate::types::{is_head, ElemId, Key, OpId, OpType, OpTypeModel};
use std::cmp::Ordering;
use vstd::prelude::*;

verus! {

/// An object of a document, with the actor of its id as an index.
#[derive(Debug, Clone, Copy, PartialEq, Eq, Hash, Structural)]
pub enum ObjectId {
    Root,
    Id(OpId),
}

/// An operation as it comes in, with actors and property names as indexes.
#[derive(Debug, Clone, PartialEq, Eq)]
pub struct InternalOp {
    pub action: OpType,
    pub obj: ObjectId,
    pub key: Key,
    pub pred: Vec<OpId>,
    pub insert: bool,
}

/// An `InternalOp` as a mathematical value.
pub struct InternalOpModel {
    pub action: OpTypeModel,
    pub obj: ObjectId,
    pub key: Key,
    pub pred: Seq<OpId>,
    pub insert: bool,
}

impl View for InternalOp {
    type V = InternalOpModel;

    open spec fn view(&self) -> InternalOpModel {
        InternalOpModel {
            action: self.action@,
            obj: self.obj,
            key: self.key,
            pred: self.pred@,
            insert: self.insert,
        }
    }
}

/// The sixteen digits of a number written to base 16.
pub open spec fn hex_digits() -> Seq<char> {
    seq!['0', '1', '2', '3', '4', '5', '6', '7', '8', '9', 'a', 'b', 'c', 'd', 'e', 'f']
}

/// A byte string written out, each byte as two digits to base 16, the
/// letters among them small.
pub open spec fn hex_text(bytes: Seq<u8>) -> Seq<char> {
    Seq::new(
        2 * bytes.len(),
        |i: int|
            if i % 2 == 0 {
                hex_digits()[bytes[i / 2] as int / 16]
            } else {
                hex_digits()[bytes[i / 2] as int % 16]
            },
    )
}

/// A number written out to base 10.
pub open spec fn decimal_text(n: nat) -> Seq<char>
    decreases n,
{
    if n < 10 {
        seq![hex_digits()[n as int]]
    } else {
        decimal_text(n / 10).push(hex_digits()[(n % 10) as int])
    }
}

/// An operation id written out: the counter to base 10, an `@`, and the
/// identifier of the actor to base 16.
pub open spec fn opid_text(counter: u64, actor: Seq<u8>) -> Seq<char> {
    decimal_text(counter as nat) + seq!['@'] + hex_text(actor)
}

/// The text that a byte string stands for when read as UTF-8, with the
/// replacement character in place of what is no UTF-8.
pub uninterp spec fn utf8_text(bytes: Seq<u8>) -> Seq<char>;

/// `hex::encode`: each byte as two digits to base 16, with small letters.
#[verifier::external_body]
fn hex_encode(bytes: &Vec<u8>) -> (r: String)
    ensures
        r@ == hex_text(bytes@),
{
    hex::encode(bytes)
}

/// `u64::to_string`: the number to base 10, as `Display` writes it, without
/// sign or padding.
#[verifier::external_body]
fn decimal_string(n: u64) -> (r: String)
    ensures
        r@ == decimal_text(n as nat),
{
    n.to_string()
}

/// `[&str]::concat` on three texts: the first, then the second, then the
/// third.
#[verifier::external_body]
fn concat3(a: &str, b: &str, c: &str) -> (r: String)
    ensures
        r@ == a@ + b@ + c@,
{
    [a, b, c].concat()
}

/// `String::from_utf8_lossy`, made an owned `String`.
#[verifier::external_body]
fn utf8_lossy(bytes: &Vec<u8>) -> (r: String)
    ensures
        r@ == utf8_text(bytes@),
{
    String::from_utf8_lossy(bytes).into_owned()
}

/// The index that `item` gets from a table that holds `table`: the one it
/// has, or the next free one.
pub open spec fn index_in(table: Seq<Seq<u8>>, item: Seq<u8>) -> int {
    if table.contains(item) {
        table.index_of(item)
    } else {
        table.len() as int
    }
}

/// The table after it has been shown `item`.
pub open spec fn table_with(table: Seq<Seq<u8>>, item: Seq<u8>) -> Seq<Seq<u8>> {
    if table.contains(item) {
        table
    } else {
        table.push(item)
    }
}

/// The table after it has been shown the actor of `id`, if `id` is one.
pub open spec fn table_with_opt(table: Seq<Seq<u8>>, id: Option<(u64, Seq<u8>)>) -> Seq<Seq<u8>> {
    match id {
        Some(id) => table_with(table, id.1),
        None => table,
    }
}

/// The operation id `id` with the index that its actor gets from `table`.
pub open spec fn opid_in(table: Seq<Seq<u8>>, id: (u64, Seq<u8>)) -> OpId {
    OpId(id.0, index_in(table, id.1) as usize)
}

/// Whether the id of the list element `e`, if it has one, is the id of an
/// operation: its counter is at least 1. The counter 0 is kept for the head
/// of a list.
pub open spec fn names_no_head(e: Option<(u64, Seq<u8>)>) -> bool {
    e matches Some(id) ==> id.0 >= 1
}

/// The list element `e` with the index that its actor gets from `table`;
/// the head of a list is the element of the operation id (0, 0).
pub open spec fn elem_in(table: Seq<Seq<u8>>, e: Option<(u64, Seq<u8>)>) -> ElemId {
    match e {
        Some(id) => ElemId(opid_in(table, id)),
        None => ElemId(OpId(0, 0)),
    }
}

/// The object `obj` with the index that its actor gets from `table`.
pub open spec fn obj_in(table: Seq<Seq<u8>>, obj: Option<(u64, Seq<u8>)>) -> ObjectId {
    match obj {
        Some(id) => ObjectId::Id(opid_in(table, id)),
        None => ObjectId::Root,
    }
}

/// The table of actors after it has been shown `key`.
pub open spec fn actors_with_key(table: Seq<Seq<u8>>, key: protocol::KeyModel) -> Seq<Seq<u8>> {
    match key {
        protocol::KeyModel::Prop(_) => table,
        protocol::KeyModel::Elem(e) => table_with_opt(table, e),
    }
}

/// The table of property names after it has been shown `key`.
pub open spec fn props_with_key(table: Seq<Seq<u8>>, key: protocol::KeyModel) -> Seq<Seq<u8>> {
    match key {
        protocol::KeyModel::Prop(name) => table_with(table, name),
        protocol::KeyModel::Elem(_) => table,
    }
}

/// The key `key` with the indexes that the two tables give.
pub open spec fn key_in(
    actors: Seq<Seq<u8>>,
    props: Seq<Seq<u8>>,
    key: protocol::KeyModel,
) -> Key {
    match key {
        protocol::KeyModel::Prop(name) => Key::Prop(index_in(props, name) as usize),
        protocol::KeyModel::Elem(e) => Key::Elem(elem_in(actors, e)),
    }
}

/// The table of actors after it has been shown the actors of the first `n`
/// of `ids`, one after the other.
pub open spec fn table_with_ids(table: Seq<Seq<u8>>, ids: Seq<(u64, Seq<u8>)>, n: int) -> Seq<
    Seq<u8>,
>
    decreases n,
{
    if n <= 0 {
        table
    } else {
        table_with(table_with_ids(table, ids, n - 1), ids[n - 1].1)
    }
}

/// The first `n` of `ids`, each with the index that its actor gets when the
/// table is shown them one after the other.
pub open spec fn ids_in(table: Seq<Seq<u8>>, ids: Seq<(u64, Seq<u8>)>, n: int) -> Seq<OpId> {
    Seq::new(n as nat, |i: int| opid_in(table_with_ids(table, ids, i), ids[i]))
}

/// How the operation id with counter `c1` of the actor `a1` stands to the
/// one with counter `c2` of the actor `a2`: by counter, and where the
/// counters are the same, by the identifiers of the actors.
pub open spec fn lamport_order(c1: u64, a1: Seq<u8>, c2: u64, a2: Seq<u8>) -> Ordering {
    if c1 < c2 {
        Ordering::Less
    } else if c1 > c2 {
        Ordering::Greater
    } else {
        lex_order(a1, a2)
    }
}

/// The table of a document's actors and property names.
#[derive(Debug, Clone, PartialEq)]
pub struct ActorMap {
    actors: IndexedCache,
    props: IndexedCache,
}

impl ActorMap {
    /// The identifiers of the actors, by index.
    pub closed spec fn actors(&self) -> Seq<Seq<u8>> {
        self.actors@
    }

    /// The names of the properties, by index.
    pub closed spec fn props(&self) -> Seq<Seq<u8>> {
        self.props@
    }

    /// No actor and no property name stands in the table twice.
    pub closed spec fn wf(&self) -> bool {
        self.actors.wf() && self.props.wf()
    }

    /// Whether the table has an actor of index `i`.
    pub open spec fn knows_actor(&self, i: usize) -> bool {
        i < self.actors().len()
    }

    /// The identifier of the actor of index `i`.
    pub open spec fn actor_at(&self, i: usize) -> Seq<u8> {
        self.actors()[i as int]
    }

    /// Whether the table has a property of index `i`.
    pub open spec fn knows_prop(&self, i: usize) -> bool {
        i < self.props().len()
    }

    /// The name of the property of index `i`.
    pub open spec fn prop_at(&self, i: usize) -> Seq<u8> {
        self.props()[i as int]
    }

    /// The id `id` with its actor written out.
    pub open spec fn opid_out(&self, id: OpId) -> (u64, Seq<u8>) {
        (id.0, self.actor_at(id.1))
    }

    /// How `a` stands to `b` in the order of operation ids.
    pub open spec fn opid_order(&self, a: OpId, b: OpId) -> Ordering {
        lamport_order(a.0, self.actor_at(a.1), b.0, self.actor_at(b.1))
    }

    /// How the list element `a` stands to `b`: the head of the list comes
    /// first, and the others are ordered as their operation ids.
    pub open spec fn elem_order(&self, a: ElemId, b: ElemId) -> Ordering {
        if is_head(a) && is_head(b) {
            Ordering::Equal
        } else if is_head(a) {
            Ordering::Less
        } else if is_head(b) {
            Ordering::Greater
        } else {
            self.opid_order(a.0, b.0)
        }
    }

    /// How the key `a` stands to `b`: properties by name, list elements as
    /// `elem_order` has them, and every property before every list element.
    pub open spec fn key_order(&self, a: Key, b: Key) -> Ordering {
        match (a, b) {
            (Key::Prop(x), Key::Prop(y)) => lex_order(self.prop_at(x), self.prop_at(y)),
            (Key::Prop(_), Key::Elem(_)) => Ordering::Less,
            (Key::Elem(_), Key::Prop(_)) => Ordering::Greater,
            (Key::Elem(x), Key::Elem(y)) => self.elem_order(x, y),
        }
    }

    /// Whether the key `a` comes before `b`.
    pub open spec fn key_before(&self, a: Key, b: Key) -> bool {
        self.key_order(a, b) == Ordering::Less
    }

    /// Whether the key `a` comes after `b`.
    pub open spec fn key_after(&self, a: Key, b: Key) -> bool {
        self.key_order(a, b) == Ordering::Greater
    }

    /// Only a property itself is neither before nor after it.
    pub proof fn lemma_key_order_of_prop(&self, k: Key, p: usize)
        requires
            self.wf(),
            self.knows_key(k),
            self.knows_prop(p),
        ensures
            k == Key::Prop(p) <==> !self.key_before(k, Key::Prop(p)) && !self.key_after(
                k,
                Key::Prop(p),
            ),
    {
        if let Key::Prop(x) = k {
            lemma_lex_same(self.prop_at(x));
        }
    }

    /// Whether the table knows what `key` names.
    pub open spec fn knows_key(&self, key: Key) -> bool {
        match key {
            Key::Prop(x) => self.knows_prop(x),
            Key::Elem(e) => is_head(e) || self.knows_actor(e.0.1),
        }
    }

    /// The order of two operation ids goes by their counters and by the
    /// identifiers of their actors alone: two tables that took the actors in
    /// in different orders, and so know them by different indexes, order the
    /// same two operations the same way.
    pub proof fn lemma_order_independent_of_import(
        &self,
        other: &Self,
        a: OpId,
        b: OpId,
        a_there: OpId,
        b_there: OpId,
    )
        requires
            self.knows_actor(a.1),
            self.knows_actor(b.1),
            other.knows_actor(a_there.1),
            other.knows_actor(b_there.1),
            self.opid_out(a) == other.opid_out(a_there),
            self.opid_out(b) == other.opid_out(b_there),
        ensures
            self.opid_order(a, b) == other.opid_order(a_there, b_there),
    {
    }

    /// A table without actors and property names.
    pub fn new() -> (m: ActorMap)
        ensures
            m.wf(),
            m.actors() == Seq::<Seq<u8>>::empty(),
            m.props() == Seq::<Seq<u8>>::empty(),
    {
        ActorMap { actors: IndexedCache::new(), props: IndexedCache::new() }
    }

    /// The index of `actor`, which is put at the end of the table if it is
    /// not in it yet.
    pub fn get_or_insert(&mut self, actor: &protocol::ActorId) -> (index: usize)
        requires
            old(self).wf(),
        ensures
            final(self).wf(),
            final(self).props() == old(self).props(),
            final(self).actors() == table_with(old(self).actors(), actor@),
            index == index_in(old(self).actors(), actor@),
            final(self).knows_actor(index),
            final(self).actor_at(index) == actor@,
    {
        let index = self.actors.cache(clone_bytes(&actor.0));
        proof {
            if old(self).actors().contains(actor@) {
                let j = old(self).actors().index_of(actor@);
                assert(old(self).actors()[j] == actor@);
            }
        }
        index
    }

    /// The index of `actor`, if it is in the table.
    pub fn get_index(&self, actor: &protocol::ActorId) -> (r: Option<usize>)
        requires
            self.wf(),
        ensures
            match r {
                Some(i) => self.actors().contains(actor@) && i == self.actors().index_of(actor@),
                None => !self.actors().contains(actor@),
            },
    {
        let r = self.actors.lookup(&actor.0);
        proof {
            if let Some(i) = r {
                let j = self.actors().index_of(actor@);
                assert(self.actors()[i as int] == actor@);
                assert(self.actors().contains(actor@));
                assert(self.actors()[j] == actor@);
            }
        }
        r
    }

    /// The identifiers of the actors, by index.
    pub fn to_vec(&self) -> (v: Vec<protocol::ActorId>)
        ensures
            v@.len() == self.actors().len(),
            forall|i: int| 0 <= i < v@.len() ==> (#[trigger] v@[i])@ == self.actors()[i],
    {
        let mut v: Vec<protocol::ActorId> = Vec::new();
        let mut i: usize = 0;
        while i < self.actors.len()
            invariant
                0 <= i <= self.actors().len(),
                v@.len() == i,
                forall|j: int| 0 <= j < i ==> (#[trigger] v@[j])@ == self.actors()[j],
            decreases self.actors().len() - i,
        {
            v.push(protocol::ActorId(clone_bytes(self.actors.get(i))));
            i = i + 1;
        }
        v
    }

    /// The index of `actor`, taken into the table if need be.
    pub fn import_actor(&mut self, actor: &protocol::ActorId) -> (index: usize)
        requires
            old(self).wf(),
        ensures
            final(self).wf(),
            final(self).props() == old(self).props(),
            final(self).actors() == table_with(old(self).actors(), actor@),
            index == index_in(old(self).actors(), actor@),
            final(self).knows_actor(index),
            final(self).actor_at(index) == actor@,
    {
        self.get_or_insert(actor)
    }

    /// The operation id `opid` with its actor as an index.
    pub fn import_opid(&mut self, opid: &protocol::OpId) -> (id: OpId)
        requires
            old(self).wf(),
        ensures
            final(self).wf(),
            final(self).props() == old(self).props(),
            final(self).actors() == table_with(old(self).actors(), opid.1@),
            id == OpId(opid.0, index_in(old(self).actors(), opid.1@) as usize),
            final(self).knows_actor(id.1),
            final(self).opid_out(id) == opid@,
    {
        OpId(opid.0, self.import_actor(&opid.1))
    }

    /// The object `obj` with the actor of its id as an index.
    pub fn import_obj(&mut self, obj: &protocol::ObjectId) -> (r: ObjectId)
        requires
            old(self).wf(),
        ensures
            final(self).wf(),
            final(self).props() == old(self).props(),
            final(self).actors() == table_with_opt(old(self).actors(), obj@),
            r == obj_in(old(self).actors(), obj@),
    {
        match obj {
            protocol::ObjectId::Root => ObjectId::Root,
            protocol::ObjectId::Id(opid) => ObjectId::Id(self.import_opid(opid)),
        }
    }

    /// The list element `eid` with the actor of its id as an index.
    pub fn import_element_id(&mut self, eid: &protocol::ElementId) -> (r: ElemId)
        requires
            old(self).wf(),
            names_no_head(eid@),
        ensures
            final(self).wf(),
            is_head(r) <==> eid@ is None,
            final(self).knows_key(Key::Elem(r)),
            final(self).props() == old(self).props(),
            final(self).actors() == table_with_opt(old(self).actors(), eid@),
            r == elem_in(old(self).actors(), eid@),
    {
        match eid {
            protocol::ElementId::Head => ElemId::head(),
            protocol::ElementId::Id(opid) => ElemId(self.import_opid(opid)),
        }
    }

    /// The key `key` with its property name or its actor as an index.
    pub fn import_key(&mut self, key: &protocol::Key) -> (r: Key)
        requires
            old(self).wf(),
            key@ matches protocol::KeyModel::Elem(e) ==> names_no_head(e),
        ensures
            final(self).wf(),
            final(self).knows_key(r),
            final(self).actors() == actors_with_key(old(self).actors(), key@),
            final(self).props() == props_with_key(old(self).props(), key@),
            r == key_in(old(self).actors(), old(self).props(), key@),
    {
        match key {
            protocol::Key::Prop(name) => {
                let index = self.props.cache(clone_bytes(name));
                proof {
                    if old(self).props().contains(name@) {
                        let j = old(self).props().index_of(name@);
                        assert(old(self).props()[j] == name@);
                    }
                }
                Key::Prop(index)
            },
            protocol::Key::Elem(eid) => Key::Elem(self.import_element_id(eid)),
        }
    }

    /// What the operation does, as it is.
    pub fn import_optype(optype: &protocol::OpType) -> (r: OpType)
        ensures
            r@ == match *optype {
                protocol::OpType::Make(t) => OpTypeModel::Make(t),
                protocol::OpType::Del => OpTypeModel::Del,
                protocol::OpType::Inc(n) => OpTypeModel::Inc(n),
                protocol::OpType::Put(v) => OpTypeModel::Put(v@),
            },
    {
        match optype {
            protocol::OpType::Make(val) => OpType::Make(*val),
            protocol::OpType::Del => OpType::Del,
            protocol::OpType::Inc(val) => OpType::Inc(*val),
            protocol::OpType::Put(val) => OpType::Put(val.clone()),
        }
    }

    /// The operation `op` with actors and property names as indexes. The
    /// table is shown the object first, then the key, then the predecessors
    /// one after the other.
    pub fn import_op(&mut self, op: protocol::Op) -> (r: InternalOp)
        requires
            old(self).wf(),
            op.key@ matches protocol::KeyModel::Elem(e) ==> names_no_head(e),
        ensures
            final(self).wf(),
            final(self).props() == props_with_key(old(self).props(), op.key@),
            final(self).actors() == table_with_ids(
                actors_with_key(table_with_opt(old(self).actors(), op.obj@), op.key@),
                protocol::ids_model(op.pred@),
                op.pred@.len() as int,
            ),
            r.insert == op.insert,
            r.action@ == Self::import_optype_spec(op.action),
            r.obj == obj_in(old(self).actors(), op.obj@),
            r.key == key_in(table_with_opt(old(self).actors(), op.obj@), old(self).props(), op.key@),
            r.pred@ == ids_in(
                actors_with_key(table_with_opt(old(self).actors(), op.obj@), op.key@),
                protocol::ids_model(op.pred@),
                op.pred@.len() as int,
            ),
    {
        let action = Self::import_optype(&op.action);
        let obj = self.import_obj(&op.obj);
        let key = self.import_key(&op.key);
        let ghost start = self.actors();
        let ghost ids = protocol::ids_model(op.pred@);
        let mut pred: Vec<OpId> = Vec::new();
        let mut i: usize = 0;
        while i < op.pred.len()
            invariant
                0 <= i <= op.pred@.len(),
                self.wf(),
                ids == protocol::ids_model(op.pred@),
                self.props() == props_with_key(old(self).props(), op.key@),
                self.actors() == table_with_ids(start, ids, i as int),
                pred@ == ids_in(start, ids, i as int),
            decreases op.pred@.len() - i,
        {
            let id = self.import_opid(&op.pred[i]);
            pred.push(id);
            proof {
                assert(pred@ =~= ids_in(start, ids, i as int + 1));
            }
            i = i + 1;
        }
        InternalOp { action, obj, key, pred, insert: op.insert }
    }

    /// What `import_optype` makes of `optype`.
    pub open spec fn import_optype_spec(optype: protocol::OpType) -> OpTypeModel {
        match optype {
            protocol::OpType::Make(t) => OpTypeModel::Make(t),
            protocol::OpType::Del => OpTypeModel::Del,
            protocol::OpType::Inc(n) => OpTypeModel::Inc(n),
            protocol::OpType::Put(v) => OpTypeModel::Put(v@),
        }
    }

    /// The object `obj` with the actor of its id written out.
    pub fn export_obj(&self, obj: &ObjectId) -> (r: protocol::ObjectId)
        requires
            obj matches ObjectId::Id(id) ==> self.knows_actor(id.1),
        ensures
            r@ == match *obj {
                ObjectId::Root => None,
                ObjectId::Id(id) => Some(self.opid_out(id)),
            },
    {
        match obj {
            ObjectId::Root => protocol::ObjectId::Root,
            ObjectId::Id(opid) => protocol::ObjectId::Id(self.export_opid(opid)),
        }
    }

    /// How the operation id `op1` stands to `op2`: by counter, and where
    /// the counters are the same, by the identifiers of the actors.
    pub fn cmp_opid(&self, op1: &OpId, op2: &OpId) -> (r: Ordering)
        requires
            self.knows_actor(op1.1),
            self.knows_actor(op2.1),
        ensures
            r == self.opid_order(*op1, *op2),
    {
        if op1.0 == op2.0 {
            let actor1 = self.actors.get(op1.1);
            let actor2 = self.actors.get(op2.1);
            cmp_bytes(actor1, actor2)
        } else if op1.0 < op2.0 {
            Ordering::Less
        } else {
            Ordering::Greater
        }
    }

    /// How the list element `eid1` stands to `eid2`.
    pub fn cmp(&self, eid1: &ElemId, eid2: &ElemId) -> (r: Ordering)
        requires
            !is_head(*eid1) && !is_head(*eid2) ==> self.knows_actor(eid1.0.1) && self.knows_actor(
                eid2.0.1,
            ),
        ensures
            r == self.elem_order(*eid1, *eid2),
    {
        if eid1.is_head() && eid2.is_head() {
            Ordering::Equal
        } else if eid1.is_head() {
            Ordering::Less
        } else if eid2.is_head() {
            Ordering::Greater
        } else {
            self.cmp_opid(&eid1.0, &eid2.0)
        }
    }

    /// How the key `left` stands to `right`.
    pub fn key_cmp(&self, left: &Key, right: &Key) -> (r: Ordering)
        requires
            self.knows_key(*left),
            self.knows_key(*right),
        ensures
            r == self.key_order(*left, *right),
    {
        match (left, right) {
            (Key::Prop(a), Key::Prop(b)) => cmp_bytes(self.props.get(*a), self.props.get(*b)),
            (Key::Prop(_), Key::Elem(_)) => Ordering::Less,
            (Key::Elem(_), Key::Prop(_)) => Ordering::Greater,
            (Key::Elem(a), Key::Elem(b)) => self.cmp(a, b),
        }
    }

    /// The operation id written out: its counter to base 10, an `@`, and the
    /// identifier of its actor to base 16.
    pub fn opid_to_string(&self, id: &OpId) -> (r: String)
        requires
            self.knows_actor(id.1),
        ensures
            r@ == opid_text(id.0, self.actor_at(id.1)),
    {
        proof {
            reveal_strlit("@");
            assert("@"@ =~= seq!['@']);
        }
        let counter = decimal_string(id.0);
        let actor = hex_encode(self.actors.get(id.1));
        concat3(counter.as_str(), "@", actor.as_str())
    }

    /// The list element written out: `_head` for the head of a list, and
    /// the operation id of any other.
    pub fn elementid_to_string(&self, eid: &ElemId) -> (r: String)
        requires
            !is_head(*eid) ==> self.knows_actor(eid.0.1),
        ensures
            r@ == if is_head(*eid) {
                "_head"@
            } else {
                opid_text(eid.0.0, self.actor_at(eid.0.1))
            },
    {
        if eid.is_head() {
            "_head".to_owned()
        } else {
            self.opid_to_string(&eid.0)
        }
    }

    /// The key written out: the name of a property, or the list element.
    pub fn key_to_string(&self, key: &Key) -> (r: String)
        requires
            self.knows_key(*key),
        ensures
            r@ == match *key {
                Key::Prop(p) => utf8_text(self.prop_at(p)),
                Key::Elem(e) => if is_head(e) {
                    "_head"@
                } else {
                    opid_text(e.0.0, self.actor_at(e.0.1))
                },
            },
    {
        match key {
            Key::Prop(p) => utf8_lossy(self.props.get(*p)),
            Key::Elem(eid) => self.elementid_to_string(eid),
        }
    }

    /// The identifier of the actor of index `actor`.
    pub fn export_actor(&self, actor: usize) -> (id: protocol::ActorId)
        requires
            self.knows_actor(actor),
        ensures
            id@ == self.actor_at(actor),
    {
        protocol::ActorId(clone_bytes(self.actors.get(actor)))
    }

    /// The operation id `opid` with its actor written out.
    pub fn export_opid(&self, opid: &OpId) -> (id: protocol::OpId)
        requires
            self.knows_actor(opid.1),
        ensures
            id@ == self.opid_out(*opid),
    {
        protocol::OpId(opid.0, self.export_actor(opid.1))
    }
}

} // verus!
