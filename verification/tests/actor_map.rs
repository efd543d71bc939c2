use automerge::actor_map::{ActorMap, InternalOp, ObjectId};
use automerge::indexed_cache::{bytes_eq, cmp_bytes, hash_bytes, IndexedCache};
use automerge::protocol;
use automerge::types::{ElemId, Key, ObjType, OpId, OpType, ScalarValue};
use std::cmp::Ordering;

fn actor(bytes: &[u8]) -> protocol::ActorId {
    protocol::ActorId(bytes.to_vec())
}

#[test]
fn import_is_idempotent_and_in_first_seen_order() {
    let mut m = ActorMap::new();
    let a = actor(&[0xaa, 0x01]);
    let b = actor(&[0x0b]);
    assert_eq!(m.get_index(&a), None);
    assert_eq!(m.import_actor(&a), 0);
    assert_eq!(m.import_actor(&b), 1);
    assert_eq!(m.import_actor(&a), 0);
    assert_eq!(m.get_or_insert(&b), 1);
    assert_eq!(m.get_index(&a), Some(0));
    assert_eq!(m.get_index(&b), Some(1));
    assert_eq!(m.get_index(&actor(&[0xaa])), None);
    assert_eq!(m.export_actor(0), a);
    assert_eq!(m.export_actor(1), b);
    assert_eq!(m.to_vec(), vec![a.clone(), b.clone()]);

    let id = m.import_opid(&protocol::OpId(7, b.clone()));
    assert_eq!(id, OpId(7, 1));
    assert_eq!(m.export_opid(&id), protocol::OpId(7, b.clone()));
    let c = actor(&[0xcc]);
    assert_eq!(m.import_opid(&protocol::OpId(9, c.clone())), OpId(9, 2));
    assert_eq!(m.to_vec(), vec![a, b, c]);
}

#[test]
fn import_of_objects_elements_and_keys() {
    let mut m = ActorMap::new();
    let a = actor(&[1, 2, 3]);
    assert_eq!(m.import_obj(&protocol::ObjectId::Root), ObjectId::Root);
    assert_eq!(
        m.import_obj(&protocol::ObjectId::Id(protocol::OpId(4, a.clone()))),
        ObjectId::Id(OpId(4, 0))
    );
    assert_eq!(m.export_obj(&ObjectId::Root), protocol::ObjectId::Root);
    assert_eq!(
        m.export_obj(&ObjectId::Id(OpId(4, 0))),
        protocol::ObjectId::Id(protocol::OpId(4, a.clone()))
    );
    assert_eq!(m.import_element_id(&protocol::ElementId::Head), ElemId::head());
    assert_eq!(
        m.import_element_id(&protocol::ElementId::Id(protocol::OpId(2, actor(&[9])))),
        ElemId(OpId(2, 1))
    );
    assert_eq!(m.import_key(&protocol::Key::Prop(b"title".to_vec())), Key::Prop(0));
    assert_eq!(m.import_key(&protocol::Key::Prop(b"done".to_vec())), Key::Prop(1));
    assert_eq!(m.import_key(&protocol::Key::Prop(b"title".to_vec())), Key::Prop(0));
    assert_eq!(
        m.import_key(&protocol::Key::Elem(protocol::ElementId::Id(protocol::OpId(3, a)))),
        Key::Elem(ElemId(OpId(3, 0)))
    );
    assert_eq!(m.import_key(&protocol::Key::Elem(protocol::ElementId::Head)), Key::Elem(ElemId::head()));
}

#[test]
fn import_of_an_operation() {
    let mut m = ActorMap::new();
    let a = actor(&[0xa0]);
    let b = actor(&[0xb0]);
    let op = protocol::Op {
        action: protocol::OpType::Put(ScalarValue::Str("x".to_string())),
        obj: protocol::ObjectId::Id(protocol::OpId(1, b.clone())),
        key: protocol::Key::Prop(b"name".to_vec()),
        pred: vec![protocol::OpId(2, a.clone()), protocol::OpId(3, b.clone())],
        insert: false,
    };
    let imported = m.import_op(op);
    assert_eq!(
        imported,
        InternalOp {
            action: OpType::Put(ScalarValue::Str("x".to_string())),
            obj: ObjectId::Id(OpId(1, 0)),
            key: Key::Prop(0),
            pred: vec![OpId(2, 1), OpId(3, 0)],
            insert: false,
        }
    );
    assert_eq!(m.to_vec(), vec![b, a]);
    assert_eq!(ActorMap::import_optype(&protocol::OpType::Del), OpType::Del);
    assert_eq!(ActorMap::import_optype(&protocol::OpType::Inc(-4)), OpType::Inc(-4));
    assert_eq!(
        ActorMap::import_optype(&protocol::OpType::Make(ObjType::Text)),
        OpType::Make(ObjType::Text)
    );
}

#[test]
fn lamport_order_does_not_depend_on_import_order() {
    let low = actor(&[0x01, 0xff]);
    let high = actor(&[0x02]);
    let mut first = ActorMap::new();
    let l1 = first.import_actor(&low);
    let h1 = first.import_actor(&high);
    let mut second = ActorMap::new();
    let h2 = second.import_actor(&high);
    let l2 = second.import_actor(&low);
    assert_ne!(l1, l2);

    // equal counters: the actors' identifiers decide, not their indexes
    assert_eq!(first.cmp_opid(&OpId(3, l1), &OpId(3, h1)), Ordering::Less);
    assert_eq!(second.cmp_opid(&OpId(3, l2), &OpId(3, h2)), Ordering::Less);
    assert_eq!(first.cmp_opid(&OpId(3, h1), &OpId(3, l1)), Ordering::Greater);
    assert_eq!(second.cmp_opid(&OpId(3, h2), &OpId(3, l2)), Ordering::Greater);
    assert_eq!(first.cmp_opid(&OpId(3, h1), &OpId(3, h1)), Ordering::Equal);
    // different counters: the counter decides
    assert_eq!(first.cmp_opid(&OpId(2, h1), &OpId(3, l1)), Ordering::Less);
    assert_eq!(second.cmp_opid(&OpId(4, l2), &OpId(3, h2)), Ordering::Greater);

    // the head of a list comes before every element
    let head = ElemId::head();
    assert!(head.is_head());
    assert!(!ElemId(OpId(1, 0)).is_head());
    assert!(!ElemId(OpId(0, 1)).is_head());
    assert_eq!(first.cmp(&head, &head), Ordering::Equal);
    assert_eq!(first.cmp(&head, &ElemId(OpId(1, l1))), Ordering::Less);
    assert_eq!(first.cmp(&ElemId(OpId(1, l1)), &head), Ordering::Greater);
    assert_eq!(first.cmp(&ElemId(OpId(1, h1)), &ElemId(OpId(1, l1))), Ordering::Greater);
}

/// An element inserted at the head of a list by one actor, and one inserted
/// there by another who had not seen the first: every replica puts the two
/// in the same order, whichever it hears of first.
#[test]
fn concurrent_inserts_at_the_head_converge() {
    let a = actor(&[0x0a]);
    let b = actor(&[0x0b]);
    let by_a = protocol::OpId(2, a.clone());
    let by_b = protocol::OpId(2, b.clone());

    let mut orders: Vec<Vec<protocol::OpId>> = Vec::new();
    for arrival in [[&by_a, &by_b], [&by_b, &by_a]] {
        let mut m = ActorMap::new();
        // the list after the head, each new element before those with a lower id
        let mut list: Vec<OpId> = Vec::new();
        for incoming in arrival {
            let id = m.import_opid(incoming);
            let mut at = 0;
            while at < list.len() && m.cmp_opid(&list[at], &id) == Ordering::Greater {
                at += 1;
            }
            list.insert(at, id);
        }
        orders.push(list.iter().map(|id| m.export_opid(id)).collect());
    }
    assert_eq!(orders[0], vec![by_b.clone(), by_a.clone()]);
    assert_eq!(orders[0], orders[1]);
}

#[test]
fn keys_are_ordered_by_name() {
    let mut m = ActorMap::new();
    let zeta = m.import_key(&protocol::Key::Prop(b"zeta".to_vec()));
    let alpha = m.import_key(&protocol::Key::Prop(b"alpha".to_vec()));
    let alp = m.import_key(&protocol::Key::Prop(b"alp".to_vec()));
    assert_eq!(m.key_cmp(&alpha, &zeta), Ordering::Less);
    assert_eq!(m.key_cmp(&zeta, &alpha), Ordering::Greater);
    assert_eq!(m.key_cmp(&alp, &alpha), Ordering::Less);
    assert_eq!(m.key_cmp(&alpha, &alpha), Ordering::Equal);
    assert_eq!(m.key_cmp(&alpha, &Key::Elem(ElemId::head())), Ordering::Less);
    assert_eq!(m.key_cmp(&Key::Elem(ElemId::head()), &zeta), Ordering::Greater);
}

#[test]
fn ids_and_keys_as_text() {
    let mut m = ActorMap::new();
    let id = m.import_opid(&protocol::OpId(1205, actor(&[0x00, 0x1f, 0xa0, 0xff])));
    assert_eq!(m.opid_to_string(&id), "1205@001fa0ff");
    let zero = m.import_opid(&protocol::OpId(0, actor(&[])));
    assert_eq!(m.opid_to_string(&zero), "0@");
    assert_eq!(m.elementid_to_string(&ElemId::head()), "_head");
    assert_eq!(m.elementid_to_string(&ElemId(id)), "1205@001fa0ff");
    let key = m.import_key(&protocol::Key::Prop("größe".as_bytes().to_vec()));
    assert_eq!(m.key_to_string(&key), "größe");
    assert_eq!(m.key_to_string(&Key::Elem(ElemId(id))), "1205@001fa0ff");
    assert_eq!(m.key_to_string(&Key::Elem(ElemId::head())), "_head");
}

#[test]
fn byte_strings_compare_byte_by_byte() {
    assert_eq!(cmp_bytes(&vec![], &vec![]), Ordering::Equal);
    assert_eq!(cmp_bytes(&vec![], &vec![0]), Ordering::Less);
    assert_eq!(cmp_bytes(&vec![1, 2], &vec![1, 2, 0]), Ordering::Less);
    assert_eq!(cmp_bytes(&vec![1, 3], &vec![1, 2, 9]), Ordering::Greater);
    assert_eq!(cmp_bytes(&vec![200], &vec![100, 255]), Ordering::Greater);
    assert_eq!(cmp_bytes(&vec![7, 7], &vec![7, 7]), Ordering::Equal);
    assert!(bytes_eq(&vec![7, 7], &vec![7, 7]));
    assert!(!bytes_eq(&vec![7, 7], &vec![7]));
    assert!(!bytes_eq(&vec![7, 8], &vec![7, 7]));
}

#[test]
fn indexed_cache_interns() {
    let mut c = IndexedCache::new();
    assert_eq!(c.len(), 0);
    assert_eq!(c.cache(b"pear".to_vec()), 0);
    assert_eq!(c.cache(b"apple".to_vec()), 1);
    assert_eq!(c.cache(b"fig".to_vec()), 2);
    assert_eq!(c.cache(b"apple".to_vec()), 1);
    assert_eq!(c.len(), 3);
    assert_eq!(c.lookup(&b"fig".to_vec()), Some(2));
    assert_eq!(c.lookup(&b"plum".to_vec()), None);
    assert_eq!(c.get(0), &b"pear".to_vec());

    let sorted = c.sorted();
    assert_eq!(sorted.len(), 3);
    assert_eq!(sorted.get(0), &b"apple".to_vec());
    assert_eq!(sorted.get(1), &b"fig".to_vec());
    assert_eq!(sorted.get(2), &b"pear".to_vec());
    assert_eq!(sorted.lookup(&b"pear".to_vec()), Some(2));
    // the table itself stays in first-seen order
    assert_eq!(c.get(0), &b"pear".to_vec());
    assert_eq!(c.encode_index(), vec![2, 0, 1]);

    assert_eq!(c.remove_last(), b"fig".to_vec());
    assert_eq!(c.len(), 2);
    assert_eq!(c.lookup(&b"fig".to_vec()), None);
    assert_eq!(c.cache(b"date".to_vec()), 2);
    assert_eq!(c.encode_index(), vec![2, 0, 1]);
}

#[test]
fn indexed_cache_tells_strings_of_one_hash_apart() {
    assert_eq!(hash_bytes(&vec![]), 0);
    assert_eq!(hash_bytes(&vec![1, 2]), 33);
    assert_eq!(hash_bytes(&vec![255; 9]), 255 * (31u64.pow(9) - 1) / 30);
    // what goes beyond 64 bits is dropped
    let long = vec![200u8; 40];
    let mut expected: u64 = 0;
    for b in &long {
        expected = expected.wrapping_mul(31).wrapping_add(*b as u64);
    }
    assert_eq!(hash_bytes(&long), expected);

    // three strings of the hash 31, two of the hash 0
    let same: Vec<Vec<u8>> = vec![vec![0, 31], vec![1, 0], vec![31], vec![], vec![0]];
    assert_eq!(hash_bytes(&same[0]), 31);
    assert_eq!(hash_bytes(&same[1]), 31);
    assert_eq!(hash_bytes(&same[2]), 31);
    assert_eq!(hash_bytes(&same[4]), 0);
    let mut c = IndexedCache::new();
    for (n, item) in same.iter().enumerate() {
        assert_eq!(c.lookup(item), None);
        assert_eq!(c.cache(item.clone()), n);
    }
    for (n, item) in same.iter().enumerate() {
        assert_eq!(c.lookup(item), Some(n));
        assert_eq!(c.cache(item.clone()), n);
    }
    assert_eq!(c.len(), 5);
    assert_eq!(c.lookup(&vec![0, 0]), None);
    assert_eq!(c.encode_index(), vec![2, 3, 4, 0, 1]);
    let sorted = c.sorted();
    assert_eq!(sorted.lookup(&vec![1, 0]), Some(3));
    assert_eq!(sorted.lookup(&vec![]), Some(0));

    assert_eq!(c.remove_last(), vec![0]);
    assert_eq!(c.remove_last(), Vec::<u8>::new());
    assert_eq!(c.remove_last(), vec![31]);
    assert_eq!(c.lookup(&vec![31]), None);
    assert_eq!(c.lookup(&vec![]), None);
    assert_eq!(c.lookup(&vec![1, 0]), Some(1));
    assert_eq!(c.lookup(&vec![0, 31]), Some(0));
    assert_eq!(c.cache(vec![]), 2);
    assert_eq!(c.cache(vec![31]), 3);
    assert_eq!(c.lookup(&vec![31]), Some(3));
    // tables of the same strings in the same order are the same table
    let mut d = IndexedCache::new();
    for item in [vec![0, 31], vec![1, 0], vec![], vec![31]] {
        d.cache(item);
    }
    assert_eq!(c, d);
}
