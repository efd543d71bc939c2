use automerge::actor_map::ActorMap;
use automerge::op_tree::OpTreeNode;
use automerge::protocol;
use automerge::query::prop::{search_prop, Prop};
use automerge::query::{binary_search_by, QueryResult};
use automerge::types::{Key, Op, OpId, OpType, ScalarValue};
use std::cmp::Ordering;

fn put(id: OpId, key: Key, value: i64, succ: Vec<OpId>) -> Op {
    Op { id, action: OpType::Put(ScalarValue::Int(value)), key, succ, pred: vec![], insert: false }
}

/// A map with the properties a, b and d, in key order: b has two visible
/// values, written concurrently, and an overwritten one.
fn sample() -> (ActorMap, OpTreeNode) {
    let mut m = ActorMap::new();
    let d = m.import_key(&protocol::Key::Prop(b"d".to_vec()));
    let a = m.import_key(&protocol::Key::Prop(b"a".to_vec()));
    let b = m.import_key(&protocol::Key::Prop(b"b".to_vec()));
    let _c = m.import_key(&protocol::Key::Prop(b"c".to_vec()));
    let mut node = OpTreeNode::new();
    let ops = vec![
        put(OpId(1, 0), a, 10, vec![]),
        put(OpId(2, 0), b, 20, vec![OpId(3, 0), OpId(3, 1)]),
        put(OpId(3, 0), b, 21, vec![]),
        put(OpId(3, 1), b, 22, vec![]),
        put(OpId(4, 0), d, 40, vec![OpId(5, 0)]),
    ];
    for op in ops {
        node.insert(node.len(), op);
    }
    (m, node)
}

#[test]
fn halving_finds_the_first_not_less() {
    let (m, node) = sample();
    for (name, expected) in [("a", 0), ("b", 1), ("c", 4), ("d", 4)] {
        let mut table = ActorMap::new();
        for n in ["d", "a", "b", "c"] {
            table.import_key(&protocol::Key::Prop(n.as_bytes().to_vec()));
        }
        let key = table.import_key(&protocol::Key::Prop(name.as_bytes().to_vec()));
        let found = binary_search_by(&node, |op: &Op| m.key_cmp(&op.key, &key));
        assert_eq!(found, expected, "{}", name);
    }
    assert_eq!(binary_search_by(&node, |_: &Op| Ordering::Less), 5);
    assert_eq!(binary_search_by(&node, |_: &Op| Ordering::Greater), 0);
    assert_eq!(binary_search_by(&OpTreeNode::new(), |_: &Op| Ordering::Less), 0);
}

#[test]
fn prop_query_steps() {
    let (m, node) = sample();
    // the property b has index 2
    let mut q = Prop::new(2, false);
    assert_eq!(q.pos, 0);
    assert_eq!(q.query_node_with_metadata(&node, &m), QueryResult::Skip(1));
    assert_eq!(q.pos, 1);
    assert_eq!(q.start, Some(1));
    assert_eq!(q.query_element(node.get(1).unwrap()), QueryResult::Next);
    assert_eq!(q.query_element(node.get(2).unwrap()), QueryResult::Next);
    assert_eq!(q.query_element(node.get(3).unwrap()), QueryResult::Next);
    assert_eq!(q.query_element(node.get(4).unwrap()), QueryResult::Finish);
    assert_eq!(q.pos, 4);
    // both concurrent values are kept, the overwritten one is not
    assert_eq!(q.ops.iter().map(|op| op.id).collect::<Vec<_>>(), vec![OpId(3, 0), OpId(3, 1)]);
    assert_eq!(q.ops_pos, vec![2, 3]);
    assert_eq!(q.op, None);

    // a query for one value keeps the last visible one
    let mut q = Prop::new(2, true);
    assert_eq!(q.query_node_with_metadata(&node, &m), QueryResult::Skip(1));
    for i in 1..4 {
        assert_eq!(q.query_element(node.get(i).unwrap()), QueryResult::Next);
    }
    assert_eq!(q.op.map(|op| op.id), Some(OpId(3, 1)));
    assert_eq!(q.op_pos, Some(3));
    assert!(q.ops.is_empty());

    // after the root, a node is looked into if it reaches the start and has
    // a visible element, and passed over otherwise
    let mut q = Prop::new(2, false);
    q.query_node_with_metadata(&node, &m);
    let empty = OpTreeNode::new();
    assert_eq!(q.query_node_with_metadata(&empty, &m), QueryResult::Next);
    assert_eq!(q.pos, 1);
    // a node of map operations has no visible list element
    assert_eq!(q.query_node_with_metadata(&node, &m), QueryResult::Next);
    assert_eq!(q.pos, 6);
}

/// The visible operations on a property, found by looking at every
/// operation.
fn scan(node: &OpTreeNode, prop: usize) -> Vec<(usize, OpId)> {
    let mut found = Vec::new();
    for pos in 0..node.len() {
        let op = node.get(pos).unwrap();
        if op.key == Key::Prop(prop) && op.visible() {
            found.push((pos, op.id));
        }
    }
    found
}

#[test]
fn prop_search_finds_what_a_scan_finds() {
    let (m, node) = sample();
    for prop in 0..4 {
        let q = search_prop(&node, &m, prop, false);
        let found: Vec<(usize, OpId)> =
            q.ops_pos.iter().copied().zip(q.ops.iter().map(|op| op.id)).collect();
        assert_eq!(found, scan(&node, prop), "property {}", prop);
        let single = search_prop(&node, &m, prop, true);
        assert_eq!(
            single.op_pos.zip(single.op.map(|op| op.id)),
            scan(&node, prop).last().copied(),
            "property {}",
            prop
        );
    }
    // b: the two concurrent writes, in the order of their ids
    assert_eq!(scan(&node, 2), vec![(2, OpId(3, 0)), (3, OpId(3, 1))]);
    // d is overwritten, c has no operation
    assert_eq!(scan(&node, 0), vec![]);
    assert_eq!(scan(&node, 3), vec![]);
}

#[test]
fn prop_search_on_generated_maps() {
    // a small generator of numbers, the same on every run
    let mut state: u64 = 0x2545f4914f6cdd1d;
    let mut next = move |bound: u64| {
        state ^= state << 13;
        state ^= state >> 7;
        state ^= state << 17;
        state % bound
    };
    for _ in 0..50 {
        let mut m = ActorMap::new();
        let names: Vec<Vec<u8>> = (0..6u8).map(|n| vec![b'k', b'a' + (n * 5) % 6]).collect();
        let mut keys = Vec::new();
        for name in &names {
            keys.push(m.import_key(&protocol::Key::Prop(name.clone())));
        }
        // operations in the order of their keys' names
        let mut by_name: Vec<usize> = (0..names.len()).collect();
        by_name.sort_by(|a, b| names[*a].cmp(&names[*b]));
        let mut node = OpTreeNode::new();
        let mut counter = 1;
        for k in by_name {
            for _ in 0..next(4) {
                let succ = if next(3) == 0 { vec![OpId(counter + 100, 0)] } else { vec![] };
                node.insert(node.len(), put(OpId(counter, next(3) as usize), keys[k], 0, succ));
                counter += 1;
            }
        }
        for prop in 0..names.len() {
            let q = search_prop(&node, &m, prop, false);
            let found: Vec<(usize, OpId)> =
                q.ops_pos.iter().copied().zip(q.ops.iter().map(|op| op.id)).collect();
            assert_eq!(found, scan(&node, prop));
        }
    }
}
