use rlox::vecmap::{VecMap, THRESHOLD};

#[test]
fn insert_get_and_replace() {
    let mut m: VecMap<i32> = VecMap::default();
    assert_eq!(m.insert(1, 10), None);
    assert_eq!(m.insert(2, 20), None);
    assert_eq!(m.get(&1), Some(&10));
    assert_eq!(m.get(&2), Some(&20));
    assert_eq!(m.get(&3), None);
    assert_eq!(m.insert(1, 11), Some(10));
    assert_eq!(m.get(&1), Some(&11));
    assert!(m.contains_key(&2));
    assert!(!m.contains_key(&7));
}

#[test]
fn remove_returns_the_old_value() {
    let mut m: VecMap<i32> = VecMap::default();
    m.insert(5, 50);
    m.insert(6, 60);
    assert_eq!(m.remove(&5), Some(50));
    assert_eq!(m.remove(&5), None);
    assert_eq!(m.get(&5), None);
    assert_eq!(m.get(&6), Some(&60));
}

#[test]
fn small_table_spills_past_threshold() {
    let mut m: VecMap<u64> = VecMap::default();
    for k in 0..THRESHOLD as u64 {
        m.insert(k, k * 10);
    }
    assert!(matches!(m, VecMap::Small(_)));
    m.insert(100, 1000);
    assert!(matches!(m, VecMap::Large(_)));
    for k in 0..THRESHOLD as u64 {
        assert_eq!(m.get(&k), Some(&(k * 10)));
    }
    assert_eq!(m.get(&100), Some(&1000));
    assert_eq!(m.insert(3, 33), Some(30));
    assert_eq!(m.remove(&4), Some(40));
    assert_eq!(m.get(&4), None);
    assert!(m.contains_key(&100));
}

#[test]
fn replacing_does_not_spill() {
    let mut m: VecMap<u64> = VecMap::default();
    for _ in 0..20 {
        for k in 0..THRESHOLD as u64 {
            m.insert(k, k);
        }
    }
    assert!(matches!(m, VecMap::Small(_)));
}

#[test]
fn keys_values_and_entries() {
    for n in [3u64, 12] {
        let mut m: VecMap<u64> = VecMap::default();
        for k in 0..n {
            m.insert(k, k + 100);
        }
        let mut keys = m.keys();
        keys.sort();
        assert_eq!(keys, (0..n).collect::<Vec<_>>());
        let mut values = m.values();
        values.sort();
        assert_eq!(values, (100..100 + n).collect::<Vec<_>>());
        let mut entries = m.iter();
        entries.sort();
        assert_eq!(entries, (0..n).map(|k| (k, k + 100)).collect::<Vec<_>>());
    }
}

#[test]
fn small_table_lists_in_insertion_order() {
    let mut m: VecMap<u64> = VecMap::default();
    m.insert(9, 1);
    m.insert(4, 2);
    m.insert(7, 3);
    assert_eq!(m.keys(), vec![9, 4, 7]);
    assert_eq!(m.values(), vec![1, 2, 3]);
}

#[test]
fn extend_prefers_the_other_table() {
    let mut a: VecMap<u64> = VecMap::default();
    a.insert(1, 1);
    a.insert(2, 2);
    let mut b: VecMap<u64> = VecMap::default();
    b.insert(2, 20);
    b.insert(3, 30);
    a.extend(&b);
    assert_eq!(a.get(&1), Some(&1));
    assert_eq!(a.get(&2), Some(&20));
    assert_eq!(a.get(&3), Some(&30));
    assert_eq!(b.get(&1), None);
}

#[test]
fn extend_from_a_large_table() {
    let mut a: VecMap<u64> = VecMap::default();
    let mut b: VecMap<u64> = VecMap::default();
    for k in 0..30 {
        b.insert(k, k * 2);
    }
    a.insert(1000, 1);
    a.extend(&b);
    for k in 0..30 {
        assert_eq!(a.get(&k), Some(&(k * 2)));
    }
    assert_eq!(a.get(&1000), Some(&1));
    assert!(matches!(a, VecMap::Large(_)));
}

#[test]
fn the_ninth_key_makes_the_table_large() {
    let mut m: VecMap<u64> = VecMap::default();
    for k in 1..=8u64 {
        m.insert(k, k);
        assert!(matches!(m, VecMap::Small(_)));
    }
    m.insert(8, 80);
    assert!(matches!(m, VecMap::Small(_)));
    m.insert(9, 9);
    assert!(matches!(m, VecMap::Large(_)));
}
