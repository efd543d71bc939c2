use automerge::rle_set::{RleSet, Runnable, RunnableOpId};
use automerge::types::OpId;
use std::collections::BTreeSet;

#[test]
fn rle_set_basic_insert() {
    let mut s = RleSet::default();
    s.insert(1);
    s.insert(2);
    s.insert(5);
    s.insert(7);
    s.insert(8);
    let mut map = vec![(1, 2), (5, 1), (7, 2)];
    assert_eq!(s.to_runs(), map);

    s.insert(3);
    map = vec![(1, 3), (5, 1), (7, 2)];
    assert_eq!(s.to_runs(), map);

    s.insert(6);
    map = vec![(1, 3), (5, 4)];
    assert_eq!(s.to_runs(), map);

    s.insert(15);
    map = vec![(1, 3), (5, 4), (15, 1)];
    assert_eq!(s.to_runs(), map);

    s.insert(14);
    map = vec![(1, 3), (5, 4), (14, 2)];
    assert_eq!(s.to_runs(), map);

    let mut s = RleSet::default();
    s.insert(5);
    let mut map = vec![(5, 1)];
    assert_eq!(s.to_runs(), map);

    s.insert(4);
    map = vec![(4, 2)];
    assert_eq!(s.to_runs(), map);
}

#[test]
fn rle_set_duplicate_insert() {
    let mut s = RleSet::default();
    s.insert(1);
    s.insert(2);
    s.insert(5);
    s.insert(7);
    s.insert(8);
    let map = vec![(1, 2), (5, 1), (7, 2)];
    assert_eq!(s.to_runs(), map);

    s.insert(1);
    assert_eq!(s.to_runs(), map);
    s.insert(2);
    assert_eq!(s.to_runs(), map);
    s.insert(5);
    assert_eq!(s.to_runs(), map);
    s.insert(7);
    assert_eq!(s.to_runs(), map);
    s.insert(8);
    assert_eq!(s.to_runs(), map);
}

#[test]
fn rle_set_basic_remove() {
    let mut s = RleSet::default();
    s.insert(1);
    s.insert(2);
    s.insert(5);
    s.insert(7);
    s.insert(8);
    s.insert(3);
    s.insert(6);

    let mut map = vec![(1, 3), (5, 4)];
    assert_eq!(s.to_runs(), map);

    s.remove(&6);
    map = vec![(1, 3), (5, 1), (7, 2)];
    assert_eq!(s.to_runs(), map);

    s.remove(&3);
    map = vec![(1, 2), (5, 1), (7, 2)];
    assert_eq!(s.to_runs(), map);

    s.remove(&1);
    map = vec![(2, 1), (5, 1), (7, 2)];
    assert_eq!(s.to_runs(), map);
}

#[test]
fn rle_set_basic_iter() {
    let mut s = RleSet::default();
    s.insert(1);
    s.insert(2);
    s.insert(5);
    s.insert(7);
    s.insert(8);
    s.insert(3);
    s.insert(6);
    s.insert(15);
    s.insert(14);

    assert_eq!(s.iter(), vec![1, 2, 3, 5, 6, 7, 8, 14, 15]);
}

#[test]
fn rle_set_insert_reports_new() {
    let mut s = RleSet::new();
    assert!(s.insert(4));
    assert!(!s.insert(4));
    assert!(s.insert(5));
    assert!(s.insert(3));
    assert!(!s.insert(5));
    assert!(s.contains(3));
    assert!(s.contains(5));
    assert!(!s.contains(6));
    assert!(!s.contains(2));
    assert_eq!(s.len(), 3);
    assert!(!s.is_empty());
    assert!(RleSet::new().is_empty());
}

#[test]
fn rle_set_remove_sole_and_absent() {
    let mut s = RleSet::new();
    s.insert(9);
    s.remove(&10);
    assert_eq!(s.to_runs(), vec![(9, 1)]);
    s.remove(&8);
    assert_eq!(s.to_runs(), vec![(9, 1)]);
    s.remove(&9);
    assert!(s.is_empty());
    assert_eq!(s.to_runs(), vec![]);
    s.insert(0);
    s.insert(1);
    s.remove(&2);
    assert_eq!(s.to_runs(), vec![(0, 2)]);
    s.remove(&0);
    assert_eq!(s.to_runs(), vec![(1, 1)]);
}

#[test]
fn rle_set_insert_run_folds_runs() {
    let mut s = RleSet::new();
    for v in [1u64, 2, 3, 10, 11, 20, 30, 31] {
        s.insert(v);
    }
    // overlaps the first run, swallows the second, touches the third
    assert_eq!(s.insert_run(2, 18), 14);
    assert_eq!(s.to_runs(), vec![(1, 20), (30, 2)]);
    // inside an existing run
    assert_eq!(s.insert_run(5, 3), 0);
    assert_eq!(s.to_runs(), vec![(1, 20), (30, 2)]);
    // right run reaches further than the new one
    assert_eq!(s.insert_run(28, 3), 2);
    assert_eq!(s.to_runs(), vec![(1, 20), (28, 4)]);
    // nothing to add
    assert_eq!(s.insert_run(50, 0), 0);
    assert_eq!(s.to_runs(), vec![(1, 20), (28, 4)]);
    // bridges the gap
    assert_eq!(s.insert_run(21, 7), 7);
    assert_eq!(s.to_runs(), vec![(1, 31)]);
}

#[test]
fn rle_set_merge_is_union_both_ways() {
    let mut a = RleSet::new();
    for v in [1u64, 2, 3, 7, 8, 20] {
        a.insert(v);
    }
    let mut b = RleSet::new();
    for v in [3u64, 4, 5, 6, 9, 30, 31] {
        b.insert(v);
    }
    let mut ab = a.clone();
    assert_eq!(ab.merge(&b), 6);
    let mut ba = b.clone();
    assert_eq!(ba.merge(&a), 5);
    let mut each = a.clone();
    for v in b.iter() {
        each.insert(v);
    }
    assert_eq!(ab.to_runs(), vec![(1, 9), (20, 1), (30, 2)]);
    assert_eq!(ab, ba);
    assert_eq!(ab, each);
    assert_eq!(ab.iter(), vec![1, 2, 3, 4, 5, 6, 7, 8, 9, 20, 30, 31]);

    let mut empty = RleSet::new();
    assert_eq!(empty.merge(&b), 7);
    assert_eq!(empty, b);
}

#[test]
fn runnable_steps() {
    assert_eq!(5u64.next(), 6);
    assert_eq!(5u64.at(4), 9);
    assert_eq!(Runnable::sub(&9u64, &5), 4);
    let id = RunnableOpId(OpId(3, 2));
    assert_eq!(id.next(), RunnableOpId(OpId(4, 2)));
    assert_eq!(id.at(7), RunnableOpId(OpId(10, 2)));
    assert_eq!(id.at(7).sub(&id), 7);
    assert!(RunnableOpId(OpId(9, 1)) < RunnableOpId(OpId(1, 2)));
    assert!(RunnableOpId(OpId(1, 2)) < RunnableOpId(OpId(2, 2)));
    assert!(RunnableOpId(OpId(2, 2)) >= RunnableOpId(OpId(2, 2)));
}

#[test]
fn rle_set_agrees_with_a_plain_set() {
    let mut state: u64 = 0x9e3779b97f4a7c15;
    let mut next = move |bound: u64| {
        state ^= state << 13;
        state ^= state >> 7;
        state ^= state << 17;
        state % bound
    };
    let mut set = RleSet::new();
    let mut reference: BTreeSet<u64> = BTreeSet::new();
    for step in 0..3000 {
        let value = next(60);
        match next(4) {
            0 => {
                set.remove(&value);
                reference.remove(&value);
            }
            1 => {
                let length = next(6);
                let new = (value..value + length).filter(|v| !reference.contains(v)).count();
                assert_eq!(set.insert_run(value, length), new);
                reference.extend(value..value + length);
            }
            _ => {
                assert_eq!(set.insert(value), reference.insert(value));
            }
        }
        assert_eq!(set.iter(), reference.iter().copied().collect::<Vec<_>>(), "step {}", step);
        assert_eq!(set.len(), reference.len());
        assert_eq!(set.is_empty(), reference.is_empty());
        let probe = next(70);
        assert_eq!(set.contains(probe), reference.contains(&probe));
        // the runs are maximal
        let runs = set.to_runs();
        for pair in runs.windows(2) {
            assert!(pair[0].0 + pair[0].1 < pair[1].0);
        }
        assert!(runs.iter().all(|(_, len)| *len > 0));
    }
}

#[test]
fn rle_set_counts_what_is_new() {
    // the run 2, 3, 4 laid on 1, 2, 3: only 4 is new
    let mut s = RleSet::default();
    s.insert(1);
    s.insert(2);
    s.insert(3);
    assert_eq!(s.insert_run(2, 3), 1);
    assert_eq!(s.to_runs(), vec![(1, 4)]);
    assert_eq!(s.iter(), vec![1, 2, 3, 4]);

    // a run that starts on two held counters
    let mut s = RleSet::default();
    s.insert(6);
    s.insert(7);
    assert_eq!(s.insert_run(6, 3), 1);
    assert_eq!(s.iter(), vec![6, 7, 8]);

    // 3, 4, 5, 6 merged into 1, 5, 6, 7: 3 and 4 are new
    let mut a = RleSet::default();
    for v in [1u64, 5, 6, 7] {
        a.insert(v);
    }
    let mut b = RleSet::default();
    for v in [3u64, 4, 5, 6] {
        b.insert(v);
    }
    let before = a.len();
    let count = a.merge(&b);
    assert_eq!(count, 2);
    assert_eq!(a.iter(), vec![1, 3, 4, 5, 6, 7]);
    assert_eq!(a.len(), before + count);
    assert_eq!(a.len(), 6);
    assert_eq!(b.iter(), vec![3, 4, 5, 6]);
    // a second merge adds nothing
    assert_eq!(a.merge(&b), 0);
    assert_eq!(a.len(), 6);
}

#[test]
fn rle_set_merge_in_any_grouping() {
    let build = |values: &[u64]| {
        let mut s = RleSet::new();
        for v in values {
            s.insert(*v);
        }
        s
    };
    let a = build(&[1, 2, 9]);
    let b = build(&[2, 3, 4, 20]);
    let c = build(&[4, 5, 8, 21]);
    let mut x = a.clone();
    x.merge(&b);
    x.merge(&c);
    let mut bc = b.clone();
    bc.merge(&c);
    let mut y = a.clone();
    y.merge(&bc);
    assert_eq!(x.iter(), y.iter());
    assert_eq!(x.to_runs(), y.to_runs());
    assert_eq!(x.iter(), vec![1, 2, 3, 4, 5, 8, 9, 20, 21]);
}
