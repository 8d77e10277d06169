use screen_translator_core::cache::LruCache;
use std::time::{Duration, Instant};

#[test]
fn lru_evicts_least_recently_used() {
    let mut c: LruCache<&str, i32> = LruCache::new(3);
    c.insert("a", 1);
    c.insert("b", 2);
    c.insert("c", 3);
    assert_eq!(c.get(&"a"), Some(&1)); // touch a
    c.insert("d", 4); // evict b (LRU)
    assert!(c.get(&"b").is_none());
    assert_eq!(c.get(&"a"), Some(&1));
    assert_eq!(c.get(&"c"), Some(&3));
    assert_eq!(c.get(&"d"), Some(&4));
    assert_eq!(c.len(), 3);
}

#[test]
fn ttl_expires_entries() {
    let mut c: LruCache<&str, i32> = LruCache::with_ttl(10, Duration::from_millis(1));
    c.insert("a", 1);
    let start = Instant::now();
    while start.elapsed() < Duration::from_millis(5) {}
    assert!(c.get(&"a").is_none());
}

#[test]
fn insert_existing_updates() {
    let mut c: LruCache<&str, i32> = LruCache::new(2);
    c.insert("a", 1);
    c.insert("a", 2);
    assert_eq!(c.len(), 1);
    assert_eq!(c.get(&"a"), Some(&2));
}

#[test]
fn capacity_zero_stores_nothing() {
    let mut c: LruCache<&str, i32> = LruCache::new(0);
    c.insert("a", 1);
    assert_eq!(c.len(), 0);
}

#[test]
fn get_after_insert_returns_value() {
    let mut c: LruCache<u64, &str> = LruCache::new(4);
    c.insert(7, "seven");
    assert_eq!(c.get(&7), Some(&"seven"));
    assert!(c.get(&8).is_none());
}

#[test]
fn full_insert_evicts_the_least_recent_only() {
    let mut c: LruCache<u64, u64> = LruCache::new(2);
    c.insert(1, 10);
    c.insert(2, 20);
    c.insert(3, 30); // 1 is the least recently used
    assert_eq!(c.len(), 2);
    assert!(c.get(&1).is_none());
    assert_eq!(c.get(&2), Some(&20));
    assert_eq!(c.get(&3), Some(&30));
}

#[test]
fn remove_returns_value_and_forgets_key() {
    let mut c: LruCache<String, i32> = LruCache::new(3);
    c.insert("x".to_string(), 5);
    assert_eq!(c.remove(&"x".to_string()), Some(5));
    assert_eq!(c.remove(&"x".to_string()), None);
    assert!(c.get(&"x".to_string()).is_none());
    assert!(c.is_empty());
}

#[test]
fn clear_empties_the_cache() {
    let mut c: LruCache<u64, u64> = LruCache::new(3);
    c.insert(1, 1);
    c.insert(2, 2);
    c.clear();
    assert_eq!(c.len(), 0);
    assert!(c.is_empty());
    assert!(c.get(&1).is_none());
}

#[test]
fn stats_count_hits_and_misses() {
    let mut c: LruCache<u64, u64> = LruCache::new(3);
    c.insert(1, 1);
    let _ = c.get(&1);
    let _ = c.get(&1);
    let _ = c.get(&2);
    assert_eq!(c.stats(), (2, 1));
}

#[test]
fn unexpired_entries_are_kept() {
    let mut c: LruCache<u64, u64> = LruCache::with_ttl(3, Duration::from_secs(3600));
    c.insert(1, 11);
    assert_eq!(c.get(&1), Some(&11));
    assert_eq!(c.stats(), (1, 0));
}
