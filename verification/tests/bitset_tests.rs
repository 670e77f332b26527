use invariant_finder_rust::data_types::general_data_types::BitSetWrapper;

#[test]
fn test_len() {
    let mut set = BitSetWrapper::new();
    assert_eq!(set.len(), 0);
    for i in 1..=100 {
        set.add(i);
    }
    assert_eq!(set.len(), 100);
    set.remove(2);
    assert_eq!(set.len(), 99);
}

#[test]
fn test_iter() {
    let mut set = BitSetWrapper::new();
    set.add(1);
    set.add(2);
    set.add(3);
    let collected: Vec<u32> = set.collect();
    assert_eq!(collected, vec![1, 2, 3]);
}

#[test]
fn test_is_strict_subset() {
    let mut set_a = BitSetWrapper::new();
    let mut set_b = BitSetWrapper::new();
    set_a.add(1);
    set_a.add(2);
    set_b.add(1);
    set_b.add(2);
    set_b.add(3);
    assert!(set_a.is_strict_subset(&set_b));
    assert!(!set_b.is_strict_subset(&set_a));
    assert!(!set_a.is_strict_subset(&set_a));
}

#[test]
fn test_is_strict_superset() {
    let mut set_a = BitSetWrapper::new();
    let mut set_b = BitSetWrapper::new();
    set_a.add(1);
    set_a.add(2);
    set_a.add(3);
    set_b.add(1);
    set_b.add(2);
    assert!(set_a.is_strict_superset(&set_b));
    assert!(!set_b.is_strict_superset(&set_a));
    assert!(!set_a.is_strict_superset(&set_a));
}

#[test]
fn test_from_hashset() {
    let hs: std::collections::HashSet<u32> = [7u32, 1, 300].into_iter().collect();
    let b = invariant_finder_rust::data_types::general_data_types::BitSetWrapper::from_hashset(&hs);
    assert_eq!(b.collect(), vec![1, 7, 300]);
}
