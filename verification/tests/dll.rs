use lru::dll::Lru;

#[test]
fn dll_test_basic_eviction() {
    let mut lru = Lru::new(2);
    assert_eq!(lru.put(1, "a"), (None, None));
    assert_eq!(lru.put(2, "b"), (None, None));
    assert_eq!(lru.put(3, "c"), (None, Some((1, "a"))));

    assert_eq!(lru.get(&1), None);
    assert_eq!(lru.get(&2), Some("b"));
    assert_eq!(lru.get(&3), Some("c"));
}

#[test]
fn dll_test_usage_eviction() {
    let mut lru = Lru::new(2);
    assert_eq!(lru.put(1, "a"), (None, None));
    assert_eq!(lru.put(2, "b"), (None, None));

    assert_eq!(lru.get(&1), Some("a"));
    assert_eq!(lru.put(3, "c"), (None, Some((2, "b"))));

    assert_eq!(lru.get(&1), Some("a"));
    assert_eq!(lru.get(&2), None);
    assert_eq!(lru.get(&3), Some("c"));
}

#[test]
fn dll_new_cache_is_empty() {
    let lru: Lru<u64, u64> = Lru::new(3);
    assert!(lru.is_empty());
    assert_eq!(lru.lru(), Vec::<u64>::new());
    assert!(lru.data().is_empty());
}

#[test]
fn dll_put_makes_cache_non_empty() {
    let mut lru = Lru::new(3);
    lru.put(7u64, 70u64);
    assert!(!lru.is_empty());
}

#[test]
fn dll_get_after_put_gives_value_back() {
    let mut lru = Lru::new(4);
    lru.put(10u64, String::from("ten"));
    lru.put(20u64, String::from("twenty"));
    assert_eq!(lru.get(&10), Some(String::from("ten")));
    assert_eq!(lru.get(&20), Some(String::from("twenty")));
    assert_eq!(lru.get(&30), None);
}

#[test]
fn dll_update_returns_old_value_and_evicts_nothing() {
    let mut lru = Lru::new(2);
    lru.put(1u64, 100u64);
    lru.put(2u64, 200u64);
    assert_eq!(lru.put(1, 111), (Some(100), None));
    assert_eq!(lru.lru(), vec![2, 1]);
    assert_eq!(lru.get(&1), Some(111));
    assert_eq!(lru.get(&2), Some(200));
}

#[test]
fn dll_zero_limit_stores_nothing() {
    let mut lru = Lru::new(0);
    assert_eq!(lru.put(1u64, 1u64), (None, None));
    assert_eq!(lru.put(1u64, 2u64), (None, None));
    assert!(lru.is_empty());
    assert_eq!(lru.get(&1), None);
}

#[test]
fn dll_limit_one_keeps_last_key() {
    let mut lru = Lru::new(1);
    assert_eq!(lru.put(1u64, 10u64), (None, None));
    assert_eq!(lru.put(2u64, 20u64), (None, Some((1, 10))));
    assert_eq!(lru.put(3u64, 30u64), (None, Some((2, 20))));
    assert_eq!(lru.lru(), vec![3]);
    assert_eq!(lru.get(&3), Some(30));
}

#[test]
fn dll_lru_lists_eviction_order() {
    let mut lru = Lru::new(3);
    lru.put(1u64, 1u64);
    lru.put(2u64, 2u64);
    lru.put(3u64, 3u64);
    assert_eq!(lru.lru(), vec![1, 2, 3]);
    lru.get(&1);
    assert_eq!(lru.lru(), vec![2, 3, 1]);
    lru.get(&3);
    assert_eq!(lru.lru(), vec![2, 1, 3]);
    assert_eq!(lru.put(4, 4), (None, Some((2, 2))));
    assert_eq!(lru.lru(), vec![1, 3, 4]);
}

#[test]
fn dll_data_is_a_snapshot_of_entries() {
    let mut lru = Lru::new(2);
    lru.put(1u64, 10u64);
    lru.put(2u64, 20u64);
    lru.put(3u64, 30u64);
    let data = lru.data();
    assert_eq!(data.len(), 2);
    assert_eq!(data.get(&2), Some(&20));
    assert_eq!(data.get(&3), Some(&30));
    assert_eq!(data.get(&1), None);
}

#[test]
fn dll_get_of_absent_key_changes_nothing() {
    let mut lru = Lru::new(2);
    lru.put(1u64, 10u64);
    lru.put(2u64, 20u64);
    assert_eq!(lru.get(&5), None);
    assert_eq!(lru.lru(), vec![1, 2]);
}

#[test]
fn dll_freed_slots_are_reused_correctly() {
    let mut lru = Lru::new(2);
    for i in 0u64..50 {
        lru.put(i, i * 10);
        assert_eq!(lru.get(&i), Some(i * 10));
        if i >= 2 {
            assert_eq!(lru.get(&(i - 2)), None);
        }
    }
    assert_eq!(lru.lru(), vec![48, 49]);
    assert_eq!(lru.get(&47), None);
}

#[test]
fn dll_never_holds_more_than_limit() {
    let mut lru = Lru::new(3);
    for i in 0u64..20 {
        lru.put(i % 7, i);
        let keys = lru.lru();
        assert!(keys.len() <= 3);
        assert_eq!(lru.data().len(), keys.len());
    }
}

#[test]
fn dll_put_keeps_other_values() {
    let mut lru = Lru::new(3);
    lru.put(1u64, 10u64);
    lru.put(2u64, 20u64);
    lru.put(3u64, 30u64);
    lru.put(2u64, 22u64);
    assert_eq!(lru.get(&1), Some(10));
    assert_eq!(lru.get(&3), Some(30));
    assert_eq!(lru.get(&2), Some(22));
}

#[test]
fn dll_values_are_cloned_out() {
    let mut lru = Lru::new(2);
    lru.put(1u64, vec![1u8, 2, 3]);
    assert_eq!(lru.get(&1), Some(vec![1u8, 2, 3]));
    assert_eq!(lru.data().get(&1), Some(&vec![1u8, 2, 3]));
    assert_eq!(lru.put(1, vec![4]), (Some(vec![1u8, 2, 3]), None));
}
