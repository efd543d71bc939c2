//! Operation identifiers, keys, values and operations, and the clock that
//! marks a point in a document's history.

use std::collections::HashMap;
use vstd::prelude::*;

verus! {

/// A Lamport timestamp: a counter and the index of the actor that made the
/// operation.
#[derive(Debug, Clone, Copy, PartialEq, Eq, Hash, Structural)]
pub struct OpId(pub u64, pub usize);

impl OpId {
    pub fn counter(&self) -> (c: u64)
        ensures
            c == self.0,
    {
        self.0
    }

    pub fn actor(&self) -> (a: usize)
        ensures
            a == self.1,
    {
        self.1
    }
}

/// The number that stands for an operation id where a map needs one integer
/// as its key: the actor index in the upper 64 bits, the counter below.
pub open spec fn opid_key(id: OpId) -> u128 {
    (id.1 * 0x1_0000_0000_0000_0000 + id.0) as u128
}

/// Different operation ids have different keys.
pub proof fn lemma_opid_key_injective(a: OpId, b: OpId)
    requires
        opid_key(a) == opid_key(b),
    ensures
        a == b,
{
}

/// The key of an operation id.
pub fn pack_opid(id: OpId) -> (k: u128)
    ensures
        k == opid_key(id),
{
    (id.1 as u128) * 0x1_0000_0000_0000_0000u128 + (id.0 as u128)
}

/// Whether `k` is the key of an operation id.
pub open spec fn is_opid_key(k: u128) -> bool {
    k / 0x1_0000_0000_0000_0000 <= usize::MAX
}

/// The operation id that the key `k` stands for.
pub open spec fn key_opid(k: u128) -> OpId {
    OpId((k % 0x1_0000_0000_0000_0000) as u64, (k / 0x1_0000_0000_0000_0000) as usize)
}

/// The key of an operation id stands for that id.
pub proof fn lemma_key_opid(id: OpId)
    ensures
        is_opid_key(opid_key(id)),
        key_opid(opid_key(id)) == id,
{
}

/// The operation id of a key.
pub fn unpack_opid(k: u128) -> (id: OpId)
    requires
        is_opid_key(k),
    ensures
        id == key_opid(k),
        opid_key(id) == k,
{
    let actor = k / 0x1_0000_0000_0000_0000u128;
    let counter = k % 0x1_0000_0000_0000_0000u128;
    OpId(counter as u64, actor as usize)
}

/// A list element, named by the operation that inserted it.
#[derive(Debug, Clone, Copy, PartialEq, Eq, Hash, Structural)]
pub struct ElemId(pub OpId);

impl ElemId {
    /// The position before the first element of every list.
    pub fn head() -> (e: ElemId)
        ensures
            e == ElemId(OpId(0, 0)),
            is_head(e),
    {
        ElemId(OpId(0, 0))
    }

    /// Whether this is the position before the first element of a list.
    pub fn is_head(&self) -> (b: bool)
        ensures
            b == is_head(*self),
    {
        self.0.0 == 0 && self.0.1 == 0
    }
}

/// Whether `e` is the position before the first element of a list: the
/// element of the operation id (0, 0), which no operation has.
pub open spec fn is_head(e: ElemId) -> bool {
    e == ElemId(OpId(0, 0))
}

/// What an operation is about: a property of a map, by the index of its
/// name, or an element of a list.
#[derive(Debug, Clone, Copy, PartialEq, Eq, Hash, Structural)]
pub enum Key {
    Prop(usize),
    Elem(ElemId),
}

impl Key {
    /// The list element, if the key names one.
    pub fn elemid(&self) -> (e: Option<ElemId>)
        ensures
            e == key_elemid(*self),
    {
        match self {
            Key::Prop(_) => None,
            Key::Elem(id) => Some(*id),
        }
    }
}

pub open spec fn key_elemid(key: Key) -> Option<ElemId> {
    match key {
        Key::Prop(_) => None,
        Key::Elem(id) => Some(id),
    }
}

/// The kinds of object an operation can make.
#[derive(Debug, Clone, Copy, PartialEq, Eq, Hash, Structural)]
pub enum ObjType {
    Dict,
    Table,
    List,
    Text,
}

/// A counter value: where it started, where it stands, and how many
/// increments it has taken in.
#[derive(Debug, Clone, Copy, PartialEq, Eq, Hash, Structural)]
pub struct Counter {
    pub start: i64,
    pub current: i64,
    pub increments: usize,
}

impl Counter {
    /// A counter that starts at `n` and has taken in no increment.
    pub fn new(n: i64) -> (c: Counter)
        ensures
            c == (Counter { start: n, current: n, increments: 0 }),
    {
        Counter { start: n, current: n, increments: 0 }
    }
}

/// A value that an operation sets.
#[derive(Debug, PartialEq, Eq)]
pub enum ScalarValue {
    Bytes(Vec<u8>),
    Str(String),
    Int(i64),
    Uint(u64),
    Counter(Counter),
    Timestamp(i64),
    Boolean(bool),
    Null,
}

/// A `ScalarValue` as a mathematical value.
pub enum ScalarModel {
    Bytes(Seq<u8>),
    Str(Seq<char>),
    Int(i64),
    Uint(u64),
    Counter(Counter),
    Timestamp(i64),
    Boolean(bool),
    Null,
}

impl View for ScalarValue {
    type V = ScalarModel;

    open spec fn view(&self) -> ScalarModel {
        match self {
            ScalarValue::Bytes(b) => ScalarModel::Bytes(b@),
            ScalarValue::Str(s) => ScalarModel::Str(s@),
            ScalarValue::Int(n) => ScalarModel::Int(*n),
            ScalarValue::Uint(n) => ScalarModel::Uint(*n),
            ScalarValue::Counter(c) => ScalarModel::Counter(*c),
            ScalarValue::Timestamp(n) => ScalarModel::Timestamp(*n),
            ScalarValue::Boolean(b) => ScalarModel::Boolean(*b),
            ScalarValue::Null => ScalarModel::Null,
        }
    }
}

impl ScalarValue {
    /// A counter value that starts at `n`.
    pub fn counter(n: i64) -> (v: ScalarValue)
        ensures
            v@ == ScalarModel::Counter(Counter { start: n, current: n, increments: 0 }),
    {
        ScalarValue::Counter(Counter::new(n))
    }
}

impl Clone for ScalarValue {
    fn clone(&self) -> (v: Self)
        ensures
            v@ == self@,
    {
        match self {
            ScalarValue::Bytes(b) => {
                let c = b.clone();
                assert(c@ =~= b@);
                ScalarValue::Bytes(c)
            },
            ScalarValue::Str(s) => ScalarValue::Str(s.clone()),
            ScalarValue::Int(n) => ScalarValue::Int(*n),
            ScalarValue::Uint(n) => ScalarValue::Uint(*n),
            ScalarValue::Counter(c) => ScalarValue::Counter(*c),
            ScalarValue::Timestamp(n) => ScalarValue::Timestamp(*n),
            ScalarValue::Boolean(b) => ScalarValue::Boolean(*b),
            ScalarValue::Null => ScalarValue::Null,
        }
    }
}

/// What an operation does.
#[derive(Debug, PartialEq, Eq)]
pub enum OpType {
    Make(ObjType),
    Del,
    Inc(i64),
    Put(ScalarValue),
}

/// An `OpType` as a mathematical value.
pub enum OpTypeModel {
    Make(ObjType),
    Del,
    Inc(i64),
    Put(ScalarModel),
}

impl View for OpType {
    type V = OpTypeModel;

    open spec fn view(&self) -> OpTypeModel {
        match self {
            OpType::Make(t) => OpTypeModel::Make(*t),
            OpType::Del => OpTypeModel::Del,
            OpType::Inc(n) => OpTypeModel::Inc(*n),
            OpType::Put(v) => OpTypeModel::Put(v@),
        }
    }
}

impl Clone for OpType {
    fn clone(&self) -> (a: Self)
        ensures
            a@ == self@,
    {
        match self {
            OpType::Make(t) => OpType::Make(*t),
            OpType::Del => OpType::Del,
            OpType::Inc(n) => OpType::Inc(*n),
            OpType::Put(v) => OpType::Put(v.clone()),
        }
    }
}

/// One operation of a document.
#[derive(Debug, PartialEq, Eq)]
pub struct Op {
    pub id: OpId,
    pub action: OpType,
    pub key: Key,
    /// The operations that supersede this one.
    pub succ: Vec<OpId>,
    /// The operations that this one supersedes.
    pub pred: Vec<OpId>,
    /// Whether the operation inserts a new list element.
    pub insert: bool,
}

/// An `Op` as a mathematical value.
pub struct OpModel {
    pub id: OpId,
    pub action: OpTypeModel,
    pub key: Key,
    pub succ: Seq<OpId>,
    pub pred: Seq<OpId>,
    pub insert: bool,
}

impl OpModel {
    pub open spec fn is_inc(self) -> bool {
        self.action is Inc
    }

    pub open spec fn is_counter(self) -> bool {
        self.action matches OpTypeModel::Put(ScalarModel::Counter(_))
    }

    /// The number of increments that a counter value has taken in; 0 for
    /// every other operation.
    pub open spec fn incs(self) -> nat {
        match self.action {
            OpTypeModel::Put(ScalarModel::Counter(c)) => c.increments as nat,
            _ => 0,
        }
    }

    /// Whether the operation shows in the present state of the document: an
    /// increment never does, a counter value does while nothing but
    /// increments has followed it, and any other operation does while
    /// nothing has followed it.
    pub open spec fn visible(self) -> bool {
        if self.is_inc() {
            false
        } else if self.is_counter() {
            self.succ.len() <= self.incs()
        } else {
            self.succ.len() == 0
        }
    }

    /// The list element that the operation makes or is about.
    pub open spec fn elemid(self) -> Option<ElemId> {
        if self.insert {
            Some(ElemId(self.id))
        } else {
            key_elemid(self.key)
        }
    }
}

impl View for Op {
    type V = OpModel;

    open spec fn view(&self) -> OpModel {
        OpModel {
            id: self.id,
            action: self.action@,
            key: self.key,
            succ: self.succ@,
            pred: self.pred@,
            insert: self.insert,
        }
    }
}

/// A copy of a list of operation ids.
pub fn clone_ids(ids: &Vec<OpId>) -> (r: Vec<OpId>)
    ensures
        r@ == ids@,
{
    let mut r: Vec<OpId> = Vec::new();
    let mut i: usize = 0;
    while i < ids.len()
        invariant
            0 <= i <= ids@.len(),
            r@ == ids@.subrange(0, i as int),
        decreases ids@.len() - i,
    {
        r.push(ids[i]);
        proof {
            assert(r@ =~= ids@.subrange(0, i as int + 1));
        }
        i = i + 1;
    }
    proof {
        assert(ids@.subrange(0, ids@.len() as int) =~= ids@);
    }
    r
}

impl Clone for Op {
    fn clone(&self) -> (op: Self)
        ensures
            op@ == self@,
    {
        Op {
            id: self.id,
            action: self.action.clone(),
            key: self.key,
            succ: clone_ids(&self.succ),
            pred: clone_ids(&self.pred),
            insert: self.insert,
        }
    }
}

impl Op {
    pub fn is_inc(&self) -> (b: bool)
        ensures
            b == self@.is_inc(),
    {
        match &self.action {
            OpType::Inc(_) => true,
            _ => false,
        }
    }

    pub fn is_counter(&self) -> (b: bool)
        ensures
            b == self@.is_counter(),
    {
        match &self.action {
            OpType::Put(ScalarValue::Counter(_)) => true,
            _ => false,
        }
    }

    pub fn incs(&self) -> (n: usize)
        ensures
            n == self@.incs(),
    {
        match &self.action {
            OpType::Put(ScalarValue::Counter(c)) => c.increments,
            _ => 0,
        }
    }

    /// Whether the operation shows in the present state of the document.
    pub fn visible(&self) -> (b: bool)
        ensures
            b == self@.visible(),
    {
        if self.is_inc() {
            false
        } else if self.is_counter() {
            self.succ.len() <= self.incs()
        } else {
            self.succ.len() == 0
        }
    }

    /// The list element that the operation makes or is about.
    pub fn elemid(&self) -> (e: Option<ElemId>)
        ensures
            e == self@.elemid(),
    {
        if self.insert {
            Some(ElemId(self.id))
        } else {
            self.key.elemid()
        }
    }
}

/// For each actor the counter of its last operation that counts as having
/// happened.
#[derive(Debug, Clone)]
pub struct Clock {
    seen: HashMap<usize, u64>,
}

impl View for Clock {
    type V = Map<usize, u64>;

    closed spec fn view(&self) -> Map<usize, u64> {
        self.seen@
    }
}

/// Whether a clock with the entries `clock` covers `id`: the actor has an
/// entry, and the counter is not above it.
pub open spec fn clock_covers(clock: Map<usize, u64>, id: OpId) -> bool {
    clock.contains_key(id.1) && id.0 <= clock[id.1]
}

impl Clock {
    /// The clock before anything has happened.
    pub fn new() -> (c: Clock)
        ensures
            c@ == Map::<usize, u64>::empty(),
    {
        Clock { seen: HashMap::new() }
    }

    /// Moves the entry of `actor` up to `counter`, if it is below.
    pub fn observe(&mut self, actor: usize, counter: u64)
        ensures
            final(self)@ == old(self)@.insert(
                actor,
                if old(self)@.contains_key(actor) && old(self)@[actor] > counter {
                    old(self)@[actor]
                } else {
                    counter
                },
            ),
    {
        let now = match self.seen.get(&actor) {
            Some(c) => if *c > counter {
                *c
            } else {
                counter
            },
            None => counter,
        };
        self.seen.insert(actor, now);
    }

    /// Whether the operation `id` has happened at this point of history.
    pub fn covers(&self, id: &OpId) -> (b: bool)
        ensures
            b == clock_covers(self@, *id),
    {
        match self.seen.get(&id.1) {
            Some(c) => *c >= id.0,
            None => false,
        }
    }
}

} // verus!
