use automerge::opid_map::VisibleElemIdMap;
use automerge::opid_set::OpIdSet;
use automerge::types::{ElemId, OpId};

fn sorted_ids(set: &OpIdSet) -> Vec<(usize, u64)> {
    let mut v: Vec<(usize, u64)> = set.iter().into_iter().map(|id| (id.1, id.0)).collect();
    v.sort();
    v
}

#[test]
fn opid_set_insert_contains_remove() {
    let mut s = OpIdSet::default();
    assert!(s.insert(OpId(1, 0)));
    assert!(s.insert(OpId(2, 0)));
    assert!(s.insert(OpId(1, 3)));
    assert!(!s.insert(OpId(2, 0)));
    assert!(s.contains(&OpId(1, 0)));
    assert!(s.contains(&OpId(1, 3)));
    assert!(!s.contains(&OpId(2, 3)));
    assert!(!s.contains(&OpId(1, 1)));
    assert_eq!(sorted_ids(&s), vec![(0, 1), (0, 2), (3, 1)]);

    // an id of a known actor that is not in the set
    assert!(!s.remove(&OpId(7, 0)));
    assert!(!s.remove(&OpId(1, 5)));
    assert!(s.remove(&OpId(1, 3)));
    assert!(!s.contains(&OpId(1, 3)));
    assert!(!s.remove(&OpId(1, 3)));
    assert_eq!(sorted_ids(&s), vec![(0, 1), (0, 2)]);
}

#[test]
fn opid_set_merge_is_union() {
    let mut a = OpIdSet::new();
    for id in [OpId(1, 0), OpId(2, 0), OpId(5, 1)] {
        a.insert(id);
    }
    let mut b = OpIdSet::new();
    for id in [OpId(2, 0), OpId(3, 0), OpId(1, 2)] {
        b.insert(id);
    }
    let mut ab = a.clone();
    ab.merge(&b);
    let mut ba = b.clone();
    ba.merge(&a);
    let all = vec![(0, 1), (0, 2), (0, 3), (1, 5), (2, 1)];
    assert_eq!(sorted_ids(&ab), all);
    assert_eq!(sorted_ids(&ba), all);
    // merging leaves the other set as it was
    assert_eq!(sorted_ids(&b), vec![(0, 2), (0, 3), (2, 1)]);
}

fn sorted_entries(map: &VisibleElemIdMap) -> Vec<(usize, u64, usize)> {
    let mut v: Vec<(usize, u64, usize)> =
        map.iter().into_iter().map(|(e, n)| (e.0 .1, e.0 .0, n)).collect();
    v.sort();
    v
}

#[test]
fn visible_elem_map_keeps_last_number() {
    let mut m = VisibleElemIdMap::default();
    let a = ElemId(OpId(1, 0));
    let b = ElemId(OpId(2, 0));
    let c = ElemId(OpId(1, 4));
    m.insert(a, 1);
    m.insert(b, 3);
    m.insert(c, 2);
    assert_eq!(m.get(&a), Some(&1));
    assert_eq!(m.get(&b), Some(&3));
    assert_eq!(m.get(&c), Some(&2));
    assert_eq!(m.get(&ElemId(OpId(3, 0))), None);
    assert!(m.contains_key(&a));
    assert!(!m.contains_key(&ElemId(OpId(2, 4))));
    assert_eq!(sorted_entries(&m), vec![(0, 1, 1), (0, 2, 3), (4, 1, 2)]);

    // from 1 to another number and back
    m.insert(a, 2);
    assert_eq!(m.get(&a), Some(&2));
    assert_eq!(sorted_entries(&m), vec![(0, 1, 2), (0, 2, 3), (4, 1, 2)]);
    m.insert(b, 1);
    assert_eq!(m.get(&b), Some(&1));
    assert_eq!(sorted_entries(&m), vec![(0, 1, 2), (0, 2, 1), (4, 1, 2)]);

    m.remove(&a);
    assert_eq!(m.get(&a), None);
    assert!(!m.contains_key(&a));
    m.remove(&b);
    m.remove(&ElemId(OpId(9, 9)));
    assert_eq!(sorted_entries(&m), vec![(4, 1, 2)]);
    m.remove(&c);
    assert_eq!(sorted_entries(&m), vec![]);
}
