use lru::basic::Lru;

#[test]
fn basic_full_cache_evicts_then_stores_new_key() {
    let mut lru = Lru::new(2);
    assert_eq!(lru.put(42, "hello".to_string()), (None, vec![]));
    assert_eq!(lru.put(1, "sup?".to_string()), (None, vec![]));
    assert_eq!(
        lru.put(2, "sup?".to_string()),
        (None, vec![(42, "hello".to_string())])
    );
    assert!(lru.get(42).is_none());
    assert_eq!(lru.get(1), Some("sup?".to_string()));
    assert_eq!(lru.get(2), Some("sup?".to_string()));
}

#[test]
fn basic_update_and_promote() {
    let mut lru = Lru::new(2);
    lru.put(1, "a".to_string());
    lru.put(2, "b".to_string());
    assert_eq!(lru.put(1, "c".to_string()), (Some("a".to_string()), vec![]));
    assert_eq!(lru.get(1), Some("c".to_string()));
    assert_eq!(lru.put(3, "d".to_string()), (None, vec![(2, "b".to_string())]));
    assert_eq!(lru.get(2), None);
    assert_eq!(lru.get(1), Some("c".to_string()));
    assert_eq!(lru.put(4, "e".to_string()), (None, vec![(3, "d".to_string())]));
    assert_eq!(lru.get(4), Some("e".to_string()));
}

#[test]
fn basic_empty_and_zero_limit() {
    let mut lru = Lru::new(0);
    assert!(lru.is_empty());
    assert_eq!(lru.put(1, "a".to_string()), (None, vec![]));
    assert!(lru.is_empty());
    assert_eq!(lru.get(1), None);
    let mut other = Lru::new(1);
    other.put(5, "x".to_string());
    assert!(!other.is_empty());
    assert_eq!(other.put(6, "y".to_string()), (None, vec![(5, "x".to_string())]));
    assert!(!other.is_empty());
    assert_eq!(other.get(6), Some("y".to_string()));
    assert_eq!(other.get(5), None);
}
