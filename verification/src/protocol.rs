//! Identifiers, keys and operations as they come from outside a document and
//! leave it again: with the actor's identifier written out, and the name of a
//! property in place of its index.

use crate::types::{ObjType, ScalarValue};
use vstd::prelude::*;

verus! {

/// A copy of a byte string.
pub fn clone_bytes(bytes: &Vec<u8>) -> (r: Vec<u8>)
    ensures
        r@ == bytes@,
{
    let r = bytes.clone();
    assert(r@ =~= bytes@);
    r
}

/// The identifier of an actor.
#[derive(Debug, PartialEq, Eq, Hash, PartialOrd, Ord)]
pub struct ActorId(pub Vec<u8>);

impl View for ActorId {
    type V = Seq<u8>;

    open spec fn view(&self) -> Seq<u8> {
        self.0@
    }
}

impl Clone for ActorId {
    fn clone(&self) -> (r: Self)
        ensures
            r@ == self@,
    {
        ActorId(clone_bytes(&self.0))
    }
}

/// The id of an operation: its counter and its actor.
#[derive(Debug, PartialEq, Eq, Hash)]
pub struct OpId(pub u64, pub ActorId);

impl View for OpId {
    type V = (u64, Seq<u8>);

    open spec fn view(&self) -> (u64, Seq<u8>) {
        (self.0, self.1@)
    }
}

impl Clone for OpId {
    fn clone(&self) -> (r: Self)
        ensures
            r@ == self@,
    {
        OpId(self.0, self.1.clone())
    }
}

/// An object of a document: its root, or what an operation made.
#[derive(Debug, Clone, PartialEq, Eq, Hash)]
pub enum ObjectId {
    Root,
    Id(OpId),
}

impl View for ObjectId {
    type V = Option<(u64, Seq<u8>)>;

    open spec fn view(&self) -> Option<(u64, Seq<u8>)> {
        match self {
            ObjectId::Root => None,
            ObjectId::Id(id) => Some(id@),
        }
    }
}

/// A place in a list: before its first element, or the element that an
/// operation inserted.
#[derive(Debug, Clone, PartialEq, Eq, Hash)]
pub enum ElementId {
    Head,
    Id(OpId),
}

impl View for ElementId {
    type V = Option<(u64, Seq<u8>)>;

    open spec fn view(&self) -> Option<(u64, Seq<u8>)> {
        match self {
            ElementId::Head => None,
            ElementId::Id(id) => Some(id@),
        }
    }
}

/// What an operation is about: a property, by the bytes of its name, or a
/// place in a list.
#[derive(Debug, Clone, PartialEq, Eq, Hash)]
pub enum Key {
    Prop(Vec<u8>),
    Elem(ElementId),
}

/// A `Key` as a mathematical value.
pub enum KeyModel {
    Prop(Seq<u8>),
    Elem(Option<(u64, Seq<u8>)>),
}

impl View for Key {
    type V = KeyModel;

    open spec fn view(&self) -> KeyModel {
        match self {
            Key::Prop(name) => KeyModel::Prop(name@),
            Key::Elem(e) => KeyModel::Elem(e@),
        }
    }
}

/// The operation ids of a list, as mathematical values.
pub open spec fn ids_model(ids: Seq<OpId>) -> Seq<(u64, Seq<u8>)> {
    Seq::new(ids.len(), |i: int| ids[i]@)
}

/// What an operation does.
#[derive(Debug, Clone, PartialEq, Eq)]
pub enum OpType {
    Make(ObjType),
    Del,
    Inc(i64),
    Put(ScalarValue),
}

/// One operation of a change.
#[derive(Debug, Clone, PartialEq, Eq)]
pub struct Op {
    pub action: OpType,
    pub obj: ObjectId,
    pub key: Key,
    pub pred: Vec<OpId>,
    pub insert: bool,
}

} // verus!
