use customallocator::cache::{CacheEntry, InMemoryCache, SimpleLruCache};

#[test]
fn entry_without_ttl_never_expires() {
    let entry = CacheEntry::new("chandu", None, 5);
    assert!(!entry.is_expired(0));
    assert!(!entry.is_expired(5));
    assert!(!entry.is_expired(u64::MAX));
}

#[test]
fn entry_expires_once_the_clock_has_passed_its_deadline() {
    let entry = CacheEntry::new(1234, Some(2), 10);
    assert!(!entry.is_expired(10));
    assert!(!entry.is_expired(11));
    assert!(!entry.is_expired(12));
    assert!(entry.is_expired(13));
    let instant = CacheEntry::new(0u8, Some(0), 7);
    assert!(!instant.is_expired(7));
    assert!(instant.is_expired(8));
}

#[test]
fn cache_starts_empty() {
    let cache: InMemoryCache<String> = InMemoryCache::new();
    assert_eq!(cache.len(), 0);
    assert!(cache.is_empty());
    assert_eq!(cache.counters(), (0, 0));
    assert!(cache.iter(0).is_empty());
}

#[test]
fn cache_counts_hits_and_misses() {
    let mut cache: InMemoryCache<String> = InMemoryCache::new();
    cache.insert(1, "chandu".to_string());
    cache.insert_with_ttl(2, "1234".to_string(), Some(2), 0);
    assert_eq!(cache.len(), 2);
    assert_eq!(cache.get(&1, 0), Some(&"chandu".to_string()));
    assert_eq!(cache.get(&2, 2), Some(&"1234".to_string()));
    assert_eq!(cache.counters(), (2, 0));
    assert_eq!(cache.get(&2, 3), None);
    assert_eq!(cache.get(&3, 3), None);
    assert_eq!(cache.counters(), (2, 2));
    assert_eq!(cache.len(), 1);
    assert_eq!(cache.get(&1, 1000), Some(&"chandu".to_string()));
    assert_eq!(cache.counters(), (3, 2));
}

#[test]
fn lookup_drops_every_expired_entry() {
    let mut cache: InMemoryCache<u32> = InMemoryCache::new();
    for key in 0..10u64 {
        cache.insert_with_ttl(key, key as u32 * 2, Some(key), 100);
    }
    cache.insert(50, 7);
    assert_eq!(cache.len(), 11);
    assert_eq!(cache.get(&9, 105), Some(&18));
    assert_eq!(cache.len(), 6);
    assert_eq!(cache.get(&4, 105), None);
    assert_eq!(cache.get(&5, 105), Some(&10));
}

#[test]
fn cleanup_keeps_what_is_still_good() {
    let mut cache: InMemoryCache<&str> = InMemoryCache::new();
    cache.insert_with_ttl(1, "a", Some(5), 0);
    cache.insert_with_ttl(2, "b", Some(10), 0);
    cache.insert(3, "c");
    cache.cleanup_expired(5);
    assert_eq!(cache.len(), 3);
    cache.cleanup_expired(6);
    assert_eq!(cache.len(), 2);
    cache.cleanup_expired(11);
    assert_eq!(cache.len(), 1);
    cache.cleanup_expired(u64::MAX);
    assert_eq!(cache.len(), 1);
    assert_eq!(cache.counters(), (0, 0));
    assert_eq!(cache.get(&3, u64::MAX), Some(&"c"));
}

#[test]
fn insert_replaces_an_entry_and_its_deadline() {
    let mut cache: InMemoryCache<u8> = InMemoryCache::new();
    cache.insert_with_ttl(1, 10, Some(1), 0);
    cache.insert(1, 20);
    assert_eq!(cache.len(), 1);
    assert_eq!(cache.get(&1, 100), Some(&20));
    cache.insert_with_ttl(1, 30, Some(1), 100);
    assert_eq!(cache.get(&1, 101), Some(&30));
    assert_eq!(cache.get(&1, 102), None);
}

#[test]
fn remove_and_clear() {
    let mut cache: InMemoryCache<u8> = InMemoryCache::new();
    cache.insert(1, 10);
    cache.insert(2, 20);
    cache.remove(&1);
    cache.remove(&7);
    assert_eq!(cache.len(), 1);
    assert_eq!(cache.get(&1, 0), None);
    assert_eq!(cache.get(&2, 0), Some(&20));
    cache.clear();
    assert!(cache.is_empty());
    assert_eq!(cache.counters(), (1, 1));
}

#[test]
fn iter_lists_the_entries_that_are_still_good() {
    let mut cache: InMemoryCache<String> = InMemoryCache::new();
    cache.insert(1, "one".to_string());
    cache.insert_with_ttl(2, "two".to_string(), Some(2), 0);
    cache.insert_with_ttl(3, "three".to_string(), Some(9), 0);
    let mut all: Vec<(u64, String)> = cache.iter(0).into_iter().map(|(k, v)| (k, v.clone())).collect();
    all.sort();
    assert_eq!(
        all,
        vec![(1, "one".to_string()), (2, "two".to_string()), (3, "three".to_string())]
    );
    let mut later: Vec<(u64, String)> = cache.iter(3).into_iter().map(|(k, v)| (k, v.clone())).collect();
    later.sort();
    assert_eq!(later, vec![(1, "one".to_string()), (3, "three".to_string())]);
    assert_eq!(cache.len(), 3);
    assert_eq!(cache.iter(10).len(), 1);
}

#[test]
fn get_or_compute_computes_once() {
    let mut cache: InMemoryCache<String> = InMemoryCache::new();
    let mut calls = 0;
    let first = cache
        .get_or_compute(
            9,
            || {
                calls += 1;
                "Hello from cache!".to_string()
            },
            0,
        )
        .clone();
    assert_eq!(first, "Hello from cache!");
    let second = cache
        .get_or_compute(
            9,
            || {
                calls += 1;
                "again".to_string()
            },
            50,
        )
        .clone();
    assert_eq!(second, "Hello from cache!");
    assert_eq!(calls, 1);
    assert_eq!(cache.counters(), (2, 0));
    assert_eq!(cache.len(), 1);
}

#[test]
fn get_or_compute_drops_expired_entries_of_other_keys() {
    let mut cache: InMemoryCache<u32> = InMemoryCache::new();
    cache.insert_with_ttl(1, 11, Some(1), 0);
    cache.insert_with_ttl(2, 22, Some(100), 0);
    assert_eq!(*cache.get_or_compute(2, || 0, 50), 22);
    assert_eq!(cache.len(), 1);
    assert_eq!(*cache.get_or_compute(1, || 33, 50), 33);
    assert_eq!(cache.len(), 2);
    assert_eq!(cache.get(&1, u64::MAX), Some(&33));
}

#[test]
fn lru_starts_empty() {
    let mut lru: SimpleLruCache<&str> = SimpleLruCache::new(2);
    assert_eq!(lru.len(), 0);
    assert!(lru.keys().is_empty());
    assert_eq!(lru.get(&1), None);
    assert!(lru.keys().is_empty());
}

#[test]
fn lru_evicts_the_entry_used_least_recently() {
    let mut lru: SimpleLruCache<&str> = SimpleLruCache::new(2);
    lru.insert(1, "one");
    lru.insert(2, "two");
    assert_eq!(lru.keys(), vec![1, 2]);
    assert_eq!(lru.get(&1), Some(&"one"));
    assert_eq!(lru.keys(), vec![2, 1]);
    lru.insert(3, "three");
    assert_eq!(lru.keys(), vec![1, 3]);
    assert_eq!(lru.get(&2), None);
    assert_eq!(lru.get(&1), Some(&"one"));
    assert_eq!(lru.get(&3), Some(&"three"));
    assert_eq!(lru.len(), 2);
}

#[test]
fn lru_insert_of_a_cached_key_replaces_and_refreshes() {
    let mut lru: SimpleLruCache<u32> = SimpleLruCache::new(3);
    lru.insert(1, 10);
    lru.insert(2, 20);
    lru.insert(3, 30);
    lru.insert(1, 11);
    assert_eq!(lru.keys(), vec![2, 3, 1]);
    assert_eq!(lru.len(), 3);
    assert_eq!(lru.get(&1), Some(&11));
    lru.insert(4, 40);
    assert_eq!(lru.keys(), vec![3, 1, 4]);
    assert_eq!(lru.get(&2), None);
}

#[test]
fn lru_of_capacity_zero_never_evicts() {
    let mut lru: SimpleLruCache<u32> = SimpleLruCache::new(0);
    lru.insert(1, 10);
    lru.insert(2, 20);
    assert_eq!(lru.keys(), vec![1, 2]);
    assert_eq!(lru.get(&1), Some(&10));
    assert_eq!(lru.keys(), vec![2, 1]);
}

#[test]
fn lru_get_of_the_newest_key_keeps_the_order() {
    let mut lru: SimpleLruCache<u32> = SimpleLruCache::new(2);
    lru.insert(1, 10);
    lru.insert(2, 20);
    assert_eq!(lru.get(&2), Some(&20));
    assert_eq!(lru.keys(), vec![1, 2]);
    assert_eq!(lru.get(&9), None);
    assert_eq!(lru.keys(), vec![1, 2]);
}

#[test]
fn cache_tells_what_it_holds() {
    let mut cache: InMemoryCache<u8> = InMemoryCache::new();
    cache.insert_with_ttl(1, 10, Some(5), 0);
    assert!(cache.contains_key(&1));
    assert!(!cache.contains_key(&2));
    assert!(cache.has_live(&1, 5));
    assert!(!cache.has_live(&1, 6));
    assert!(cache.contains_key(&1));
    assert!(!cache.has_live(&2, 0));
}

#[test]
fn cache_tells_what_it_can_take() {
    assert!(CacheEntry::<u8>::has_deadline(None, u64::MAX));
    assert!(CacheEntry::<u8>::has_deadline(Some(5), u64::MAX - 5));
    assert!(!CacheEntry::<u8>::has_deadline(Some(6), u64::MAX - 5));
    let mut cache: InMemoryCache<u8> = InMemoryCache::new();
    cache.insert_with_ttl(1, 10, Some(5), 0);
    assert!(cache.may_get(&1, 0));
    assert!(cache.may_get(&2, 0));
    assert!(cache.may_get_or_compute(&1, 5));
    assert!(!cache.may_get_or_compute(&1, 6));
    assert!(cache.may_get_or_compute(&2, 6));
}
