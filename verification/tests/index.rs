use automerge::op_tree::OpTreeNode;
use automerge::query::{Index, VisWindow};
use automerge::types::{Clock, ElemId, Key, ObjType, Op, OpId, OpType, ScalarValue};

fn op(id: OpId, key: Key, insert: bool, succ: Vec<OpId>) -> Op {
    Op { id, action: OpType::Put(ScalarValue::Int(1)), key, succ, pred: vec![], insert }
}

/// The number of distinct elements with a visible operation, counted from
/// the list of operations alone.
fn brute_force_visible(ops: &[Op]) -> usize {
    let mut elems: Vec<ElemId> = Vec::new();
    for op in ops {
        if op.visible() {
            if let Some(e) = op.elemid() {
                if !elems.contains(&e) {
                    elems.push(e);
                }
            }
        }
    }
    elems.len()
}

#[test]
fn index_counts_like_a_scan() {
    let e1 = ElemId(OpId(1, 0));
    let e2 = ElemId(OpId(2, 0));
    let mut ops = vec![
        op(OpId(1, 0), Key::Elem(ElemId::head()), true, vec![]),
        op(OpId(2, 0), Key::Elem(e1), true, vec![OpId(5, 1)]),
        op(OpId(3, 0), Key::Elem(e1), false, vec![]),
        op(OpId(3, 1), Key::Elem(e1), false, vec![]),
        op(OpId(4, 1), Key::Prop(0), false, vec![]),
    ];
    let mut index = Index::new();
    assert_eq!(index.visible_len(), 0);
    for (n, o) in ops.iter().enumerate() {
        index.insert(o);
        assert_eq!(index.visible_len(), brute_force_visible(&ops[..=n]));
    }
    // e1 has three visible operations, e2 none
    assert_eq!(index.visible_len(), 1);
    assert!(index.has_visible(&Some(e1)));
    assert!(!index.has_visible(&Some(e2)));
    assert!(!index.has_visible(&None));

    // an operation becomes invisible in place
    let mut hidden = ops[2].clone();
    hidden.succ.push(OpId(9, 1));
    index.replace(&ops[2], &hidden);
    ops[2] = hidden;
    assert_eq!(index.visible_len(), brute_force_visible(&ops));
    assert!(index.has_visible(&Some(e1)));

    // and the element's insertion becomes visible
    let mut shown = ops[1].clone();
    shown.succ.clear();
    index.replace(&ops[1], &shown);
    ops[1] = shown;
    assert_eq!(index.visible_len(), 2);
    assert_eq!(index.visible_len(), brute_force_visible(&ops));

    while let Some(o) = ops.pop() {
        index.remove(&o);
        assert_eq!(index.visible_len(), brute_force_visible(&ops));
    }
    assert_eq!(index.visible_len(), 0);
}

#[test]
fn index_merge_adds_counts() {
    let e1 = ElemId(OpId(1, 0));
    let e2 = ElemId(OpId(1, 1));
    let mut a = Index::default();
    a.insert(&op(OpId(1, 0), Key::Elem(ElemId::head()), true, vec![]));
    a.insert(&op(OpId(2, 0), Key::Elem(e1), false, vec![]));
    let mut b = Index::new();
    b.insert(&op(OpId(3, 0), Key::Elem(e1), false, vec![]));
    b.insert(&op(OpId(1, 1), Key::Elem(ElemId::head()), true, vec![]));
    a.merge(&b);
    assert_eq!(a.visible_len(), 2);
    assert!(a.has_visible(&Some(e2)));
    // e1 now has three visible operations: two removals leave it visible
    a.remove(&op(OpId(2, 0), Key::Elem(e1), false, vec![]));
    a.remove(&op(OpId(3, 0), Key::Elem(e1), false, vec![]));
    assert!(a.has_visible(&Some(e1)));
    a.remove(&op(OpId(1, 0), Key::Elem(ElemId::head()), true, vec![]));
    assert!(!a.has_visible(&Some(e1)));
    assert_eq!(a.visible_len(), 1);
}

#[test]
fn node_keeps_its_index() {
    let e1 = ElemId(OpId(1, 0));
    let mut node = OpTreeNode::default();
    assert_eq!(node.len(), 0);
    node.insert(0, op(OpId(1, 0), Key::Elem(ElemId::head()), true, vec![]));
    node.insert(1, op(OpId(3, 0), Key::Elem(e1), false, vec![]));
    node.insert(1, op(OpId(2, 0), Key::Elem(e1), false, vec![OpId(3, 0)]));
    assert_eq!(node.len(), 3);
    assert_eq!(node.get(1).map(|o| o.id), Some(OpId(2, 0)));
    assert_eq!(node.get(2).map(|o| o.id), Some(OpId(3, 0)));
    assert!(node.get(3).is_none());
    assert_eq!(node.index().visible_len(), 1);
}

fn clock(entries: &[(usize, u64)]) -> Clock {
    let mut c = Clock::new();
    for (actor, counter) in entries {
        c.observe(*actor, *counter);
    }
    c
}

#[test]
fn clock_covers_up_to_its_entry() {
    let mut c = clock(&[(0, 5), (2, 1)]);
    assert!(c.covers(&OpId(5, 0)));
    assert!(c.covers(&OpId(1, 0)));
    assert!(!c.covers(&OpId(6, 0)));
    assert!(!c.covers(&OpId(1, 1)));
    assert!(c.covers(&OpId(1, 2)));
    // an entry never moves down
    c.observe(0, 3);
    assert!(c.covers(&OpId(5, 0)));
    c.observe(0, 8);
    assert!(c.covers(&OpId(8, 0)));
}

#[test]
fn window_hides_what_the_clock_does_not_cover() {
    let mut w = VisWindow::default();
    let plain = Op {
        id: OpId(2, 0),
        action: OpType::Put(ScalarValue::Int(7)),
        key: Key::Prop(0),
        succ: vec![OpId(4, 1)],
        pred: vec![],
        insert: false,
    };
    // not happened yet
    assert!(!w.visible_at(&plain, 0, &clock(&[(0, 1)])));
    // happened, and its follower has not
    assert!(w.visible_at(&plain, 0, &clock(&[(0, 2), (1, 3)])));
    // overwritten by a follower that the clock covers
    assert!(!w.visible_at(&plain, 0, &clock(&[(0, 2), (1, 4)])));
    let made = Op {
        id: OpId(1, 0),
        action: OpType::Make(ObjType::List),
        key: Key::Prop(1),
        succ: vec![],
        pred: vec![],
        insert: false,
    };
    assert!(w.visible_at(&made, 3, &clock(&[(0, 1)])));
    // what is shown for an operation without counters is the operation
    let seen = w.seen_op(&plain, 4);
    assert_eq!(seen, vec![(4, plain)]);
}

#[test]
fn counter_folding() {
    // set counter to 5, then two concurrent increments of 3 and 4
    let set = Op {
        id: OpId(1, 0),
        action: OpType::Put(ScalarValue::counter(5)),
        key: Key::Prop(0),
        succ: vec![OpId(2, 0), OpId(2, 1)],
        pred: vec![],
        insert: false,
    };
    let inc3 = Op {
        id: OpId(2, 0),
        action: OpType::Inc(3),
        key: Key::Prop(0),
        succ: vec![],
        pred: vec![OpId(1, 0)],
        insert: false,
    };
    let inc4 = Op {
        id: OpId(2, 1),
        action: OpType::Inc(4),
        key: Key::Prop(0),
        succ: vec![],
        pred: vec![OpId(1, 0)],
        insert: false,
    };
    let now = clock(&[(0, 2), (1, 2)]);
    let mut w = VisWindow::new();
    let mut shown: Vec<(usize, Op)> = Vec::new();
    for (pos, op) in [&set, &inc3, &inc4].into_iter().enumerate() {
        if w.visible_at(op, pos, &now) {
            for (at, seen) in w.seen_op(op, pos) {
                shown.retain(|(p, _)| *p != at);
                shown.push((at, seen));
            }
        }
    }
    // one value, at the position of the counter, and none for the increments
    assert_eq!(shown.len(), 1);
    assert_eq!(shown[0].0, 0);
    assert_eq!(shown[0].1.id, OpId(1, 0));
    assert_eq!(shown[0].1.action, OpType::Put(ScalarValue::counter(12)));

    // at the point where only the first increment has happened the value is 8
    let earlier = clock(&[(0, 2), (1, 1)]);
    let mut w = VisWindow::new();
    assert!(!w.visible_at(&set, 0, &earlier));
    assert!(w.visible_at(&inc3, 1, &earlier));
    assert_eq!(w.seen_op(&inc3, 1)[0].1.action, OpType::Put(ScalarValue::counter(8)));
    assert!(!w.visible_at(&inc4, 2, &earlier));

    // an increment is never visible in the present state, its counter is
    assert!(!inc3.visible());
    let mut folded = set.clone();
    folded.action = OpType::Put(ScalarValue::Counter(automerge::types::Counter {
        start: 5,
        current: 12,
        increments: 2,
    }));
    assert!(folded.visible());
    assert!(!set.visible());
}

#[test]
fn increments_fold_in_either_order() {
    let counter = Op {
        id: OpId(1, 0),
        action: OpType::Put(ScalarValue::counter(5)),
        key: Key::Prop(0),
        succ: vec![OpId(2, 0), OpId(2, 1), OpId(9, 2)],
        pred: vec![],
        insert: false,
    };
    let inc = |id: OpId, by: i64| Op {
        id,
        action: OpType::Inc(by),
        key: Key::Prop(0),
        succ: vec![],
        pred: vec![OpId(1, 0)],
        insert: false,
    };
    let inc3 = inc(OpId(2, 0), 3);
    let inc4 = inc(OpId(2, 1), 4);
    // the third follower has not happened at this point
    let now = clock(&[(0, 2), (1, 2)]);
    let mut answers = Vec::new();
    for order in [[&inc3, &inc4], [&inc4, &inc3]] {
        let mut w = VisWindow::new();
        w.visible_at(&counter, 7, &now);
        w.visible_at(order[0], 8, &now);
        let last = w.visible_at(order[1], 9, &now);
        let seen = w.seen_op(order[1], 9);
        // what is shown is the counter at its own place, never the increment
        assert_eq!(seen.len(), 1);
        assert_eq!(seen[0].0, 7);
        assert_eq!(seen[0].1.id, OpId(1, 0));
        assert_eq!(seen[0].1.action, OpType::Put(ScalarValue::counter(12)));
        assert!(!seen[0].1.is_inc());
        answers.push(last);
    }
    assert_eq!(answers, vec![true, true]);

    // once the third follower has happened, the counter is hidden either way
    let later = clock(&[(0, 2), (1, 2), (2, 9)]);
    for order in [[&inc3, &inc4], [&inc4, &inc3]] {
        let mut w = VisWindow::new();
        assert!(!w.visible_at(&counter, 7, &later));
        assert!(!w.visible_at(order[0], 8, &later));
        assert!(!w.visible_at(order[1], 9, &later));
    }
}
