use automerge::rle_map::RleMap;
use std::collections::BTreeMap;

#[test]
fn rle_map_basic_insert() {
    let mut s = RleMap::default();
    s.insert(1, 1);
    s.insert(2, 2);
    s.insert(5, 5);
    s.insert(7, 7);
    s.insert(8, 8);
    let mut map = vec![(1, vec![1, 2]), (5, vec![5]), (7, vec![7, 8])];
    assert_eq!(s.to_runs(), map);

    s.insert(3, 3);
    map = vec![(1, vec![1, 2, 3]), (5, vec![5]), (7, vec![7, 8])];
    assert_eq!(s.to_runs(), map);

    s.insert(6, 6);
    map = vec![(1, vec![1, 2, 3]), (5, vec![5, 6, 7, 8])];
    assert_eq!(s.to_runs(), map);

    s.insert(15, 15);
    map = vec![(1, vec![1, 2, 3]), (5, vec![5, 6, 7, 8]), (15, vec![15])];
    assert_eq!(s.to_runs(), map);

    s.insert(14, 14);
    map = vec![(1, vec![1, 2, 3]), (5, vec![5, 6, 7, 8]), (14, vec![14, 15])];
    assert_eq!(s.to_runs(), map);

    let mut s = RleMap::default();
    s.insert(5, 5);
    let mut map = vec![(5, vec![5])];
    assert_eq!(s.to_runs(), map);

    s.insert(4, 4);
    map = vec![(4, vec![4, 5])];
    assert_eq!(s.to_runs(), map);
}

#[test]
fn rle_map_duplicate_insert() {
    let mut s = RleMap::default();
    s.insert(1, 1);
    s.insert(2, 2);
    s.insert(5, 5);
    s.insert(7, 7);
    s.insert(8, 8);
    let map = vec![(1, vec![1, 2]), (5, vec![5]), (7, vec![7, 8])];
    assert_eq!(s.to_runs(), map);

    s.insert(1, 1);
    assert_eq!(s.to_runs(), map);
    s.insert(2, 2);
    assert_eq!(s.to_runs(), map);
    s.insert(5, 5);
    assert_eq!(s.to_runs(), map);
    s.insert(7, 7);
    assert_eq!(s.to_runs(), map);
    s.insert(8, 8);
    assert_eq!(s.to_runs(), map);
}

#[test]
fn rle_map_basic_remove() {
    let mut s = RleMap::default();
    s.insert(1, 1);
    s.insert(2, 2);
    s.insert(5, 5);
    s.insert(7, 7);
    s.insert(8, 8);
    s.insert(3, 3);
    s.insert(6, 6);

    let mut map = vec![(1, vec![1, 2, 3]), (5, vec![5, 6, 7, 8])];
    assert_eq!(s.to_runs(), map);

    s.remove(6);
    map = vec![(1, vec![1, 2, 3]), (5, vec![5]), (7, vec![7, 8])];
    assert_eq!(s.to_runs(), map);

    s.remove(3);
    map = vec![(1, vec![1, 2]), (5, vec![5]), (7, vec![7, 8])];
    assert_eq!(s.to_runs(), map);

    s.remove(1);
    map = vec![(2, vec![2]), (5, vec![5]), (7, vec![7, 8])];
    assert_eq!(s.to_runs(), map);
}

#[test]
fn rle_map_basic_iter() {
    let mut s = RleMap::default();
    s.insert(1, 1);
    s.insert(2, 2);
    s.insert(5, 5);
    s.insert(7, 7);
    s.insert(8, 8);
    s.insert(3, 3);
    s.insert(6, 6);
    s.insert(15, 15);
    s.insert(14, 14);

    assert_eq!(
        s.iter(),
        vec![
            (1, 1),
            (2, 2),
            (3, 3),
            (5, 5),
            (6, 6),
            (7, 7),
            (8, 8),
            (14, 14),
            (15, 15)
        ]
    );
}

#[test]
fn rle_map_get_and_keys() {
    let mut s = RleMap::new();
    assert!(s.is_empty());
    assert_eq!(s.num_keys(), 0);
    s.insert(10, 100);
    s.insert(11, 110);
    s.insert(20, 200);
    assert!(!s.is_empty());
    assert_eq!(s.num_keys(), 2);
    assert_eq!(s.get(10), Some(&100));
    assert_eq!(s.get(11), Some(&110));
    assert_eq!(s.get(12), None);
    assert_eq!(s.get(9), None);
    assert_eq!(s.get(20), Some(&200));
    assert!(s.contains_key(11));
    assert!(!s.contains_key(19));
}

#[test]
fn rle_map_insert_overwrites_slot() {
    let mut s = RleMap::new();
    s.insert(1, 1);
    s.insert(2, 2);
    s.insert(3, 3);
    s.insert(2, 20);
    assert_eq!(s.to_runs(), vec![(1, vec![1, 20, 3])]);
    s.insert(1, 10);
    s.insert(3, 30);
    assert_eq!(s.iter(), vec![(1, 10), (2, 20), (3, 30)]);
    assert_eq!(s.num_keys(), 1);
}

#[test]
fn rle_map_remove_sole_and_absent() {
    let mut s = RleMap::new();
    s.insert(4, 40);
    s.remove(5);
    s.remove(3);
    assert_eq!(s.to_runs(), vec![(4, vec![40])]);
    s.remove(4);
    assert!(s.is_empty());
    assert_eq!(s.to_runs(), vec![]);
    let copy = s.clone();
    assert_eq!(copy, s);
}

#[test]
fn rle_map_agrees_with_a_plain_map() {
    let mut state: u64 = 0xd1b54a32d192ed03;
    let mut next = move |bound: u64| {
        state ^= state << 13;
        state ^= state >> 7;
        state ^= state << 17;
        state % bound
    };
    let mut map = RleMap::new();
    let mut reference: BTreeMap<u64, usize> = BTreeMap::new();
    for step in 0..3000 {
        let counter = next(50);
        if next(3) == 0 {
            map.remove(counter);
            reference.remove(&counter);
        } else {
            let value = next(5) as usize;
            map.insert(counter, value);
            reference.insert(counter, value);
        }
        assert_eq!(
            map.iter(),
            reference.iter().map(|(k, v)| (*k, *v)).collect::<Vec<_>>(),
            "step {}",
            step
        );
        let probe = next(55);
        assert_eq!(map.get(probe), reference.get(&probe));
        assert_eq!(map.contains_key(probe), reference.contains_key(&probe));
        assert_eq!(map.is_empty(), reference.is_empty());
        let starts = reference
            .keys()
            .filter(|k| **k == 0 || !reference.contains_key(&(**k - 1)))
            .count();
        assert_eq!(map.num_keys(), starts);
    }
}
