#[test]
fn map_test_basic_eviction() {
    let mut lru = lru::map::Lru::new(2);
    assert_eq!(lru.put(1, "a"), (None, None));
    assert_eq!(lru.put(2, "b"), (None, None));
    assert_eq!(lru.put(3, "c"), (None, Some((1, "a"))));

    assert_eq!(lru.get(&1), None);
    assert_eq!(lru.get(&2), Some("b"));
    assert_eq!(lru.get(&3), Some("c"));
}

#[test]
fn map_test_usage_eviction() {
    let mut lru = lru::map::Lru::new(2);
    assert_eq!(lru.put(1, "a"), (None, None));
    assert_eq!(lru.put(2, "b"), (None, None));

    assert_eq!(lru.get(&1), Some("a"));
    assert_eq!(lru.put(3, "c"), (None, Some((2, "b"))));

    assert_eq!(lru.get(&1), Some("a"));
    assert_eq!(lru.get(&2), None);
    assert_eq!(lru.get(&3), Some("c"));
}

#[test]
fn map_update_returns_old_value_and_evicts_nothing() {
    let mut lru = lru::map::Lru::new(2);
    lru.put(1u64, 100u64);
    lru.put(2u64, 200u64);
    assert_eq!(lru.put(1, 111), (Some(100), None));
    assert_eq!(lru.put(3, 300), (None, Some((2, 200))));
    assert_eq!(lru.get(&1), Some(111));
}

#[test]
fn map_zero_limit_stores_nothing() {
    let mut lru = lru::map::Lru::new(0);
    assert_eq!(lru.put(1u64, 1u64), (None, None));
    assert_eq!(lru.get(&1), None);
}

#[test]
fn map_eviction_follows_recency() {
    let mut lru = lru::map::Lru::new(3);
    lru.put(1u64, 1u64);
    lru.put(2u64, 2u64);
    lru.put(3u64, 3u64);
    lru.get(&1);
    lru.get(&3);
    assert_eq!(lru.put(4, 4), (None, Some((2, 2))));
    assert_eq!(lru.put(5, 5), (None, Some((1, 1))));
    assert_eq!(lru.put(6, 6), (None, Some((3, 3))));
}

#[test]
fn map_and_dll_agree_on_a_mixed_workload() {
    let mut a = lru::dll::Lru::new(5);
    let mut b = lru::map::Lru::new(5);
    let mut x: u64 = 7;
    for _ in 0..2000 {
        x = x.wrapping_mul(6364136223846793005).wrapping_add(1442695040888963407);
        let key = (x >> 33) % 12;
        if (x >> 20) % 3 == 0 {
            assert_eq!(a.get(&key), b.get(&key));
        } else {
            assert_eq!(a.put(key, x), b.put(key, x));
        }
    }
}

#[test]
fn map_miss_leaves_cache_unchanged() {
    let mut lru = lru::map::Lru::new(2);
    lru.put(1u64, vec![1u8]);
    lru.put(2u64, vec![2u8]);
    assert_eq!(lru.get(&3), None);
    assert_eq!(lru.put(3, vec![3u8]), (None, Some((1, vec![1u8]))));
}
