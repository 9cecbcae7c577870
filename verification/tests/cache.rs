use lrucache::cache::{CacheError, LRUCache};
use lrucache::list::ListError;

#[test]
fn cache_concrete_scenario() {
    let mut cache = LRUCache::<i32>::with_capacity(2);

    assert_eq!(cache.insert(1, 1), Ok(()));
    assert_eq!(cache.insert(2, 2), Ok(()));

    // 1 becomes the most recently used.
    assert_eq!(cache.query(1), Ok(&1));

    // The cache is full, so this evicts key 2, the least recently used.
    assert_eq!(cache.insert(3, 3), Ok(()));

    assert_eq!(cache.query(2), Err(CacheError::CacheMiss));
    assert_eq!(cache.query(1), Ok(&1));
    assert_eq!(cache.query(3), Ok(&3));
}

#[test]
fn cache_eviction_order() {
    let capacity: usize = 3;
    let mut cache = LRUCache::<u64>::with_capacity(capacity);

    // Insert capacity + 1 distinct keys with no intervening reads.
    for k in 0..(capacity as u64 + 1) {
        assert_eq!(cache.insert(k, k * 10), Ok(()));
    }

    // Exactly the first key was evicted; all others are still queryable.
    assert_eq!(cache.query(0), Err(CacheError::CacheMiss));
    assert_eq!(cache.query(1), Ok(&10));
    assert_eq!(cache.query(2), Ok(&20));
    assert_eq!(cache.query(3), Ok(&30));
}

#[test]
fn cache_recency_update_on_read() {
    let mut cache = LRUCache::<i32>::with_capacity(3);
    assert_eq!(cache.insert(1, 1), Ok(()));
    assert_eq!(cache.insert(2, 2), Ok(()));
    assert_eq!(cache.insert(3, 3), Ok(()));

    // Reading key 1 marks it most recently used, so inserting up to
    // capacity - 1 = 2 fresh keys must never evict it.
    assert_eq!(cache.query(1), Ok(&1));
    assert_eq!(cache.insert(4, 4), Ok(()));
    assert_eq!(cache.insert(5, 5), Ok(()));

    assert_eq!(cache.query(1), Ok(&1));
    // Keys 2 and 3 were the least recently used and went instead.
    assert_eq!(cache.query(2), Err(CacheError::CacheMiss));
    assert_eq!(cache.query(3), Err(CacheError::CacheMiss));
}

#[test]
fn cache_removal_idempotent() {
    let mut cache = LRUCache::<i32>::with_capacity(2);
    assert_eq!(cache.insert(1, 11), Ok(()));
    assert_eq!(cache.insert(2, 22), Ok(()));

    assert_eq!(cache.remove(1), Ok(11));
    assert_eq!(cache.query(1), Err(CacheError::CacheMiss));
    assert_eq!(cache.remove(1), Err(CacheError::CacheMiss));
    assert_eq!(cache.len(), 1);

    // The freed slot is usable again.
    assert_eq!(cache.insert(3, 33), Ok(()));
    assert_eq!(cache.query(2), Ok(&22));
    assert_eq!(cache.query(3), Ok(&33));
}

#[test]
fn cache_zero_capacity() {
    let mut cache = LRUCache::<i32>::with_capacity(0);

    // Every insert fails with a structural error: eviction pops from an
    // empty list. No partial mutation occurs.
    assert_eq!(
        cache.insert(1, 1),
        Err(CacheError::CacheBroken(ListError::ListEmpty))
    );
    assert_eq!(
        cache.insert(2, 2),
        Err(CacheError::CacheBroken(ListError::ListEmpty))
    );
    assert_eq!(cache.len(), 0);
    assert_eq!(cache.query(1), Err(CacheError::CacheMiss));
    assert_eq!(cache.remove(1), Err(CacheError::CacheMiss));
}

#[test]
fn cache_capacity_bound() {
    let capacity: usize = 2;
    let mut cache = LRUCache::<u64>::with_capacity(capacity);
    assert_eq!(cache.capacity(), capacity);

    for k in 0..5u64 {
        assert_eq!(cache.insert(k, k), Ok(()));
        assert!(cache.len() <= capacity);
    }
    assert_eq!(cache.len(), capacity);
    assert_eq!(cache.query(3), Ok(&3));
    assert_eq!(cache.query(4), Ok(&4));
}

#[test]
fn cache_update_existing_key() {
    let mut cache = LRUCache::<i32>::with_capacity(2);
    assert_eq!(cache.insert(1, 1), Ok(()));
    assert_eq!(cache.insert(2, 2), Ok(()));

    // Rewriting key 1 replaces its value in place and counts as a use,
    // so the next eviction removes key 2 instead.
    assert_eq!(cache.insert(1, 100), Ok(()));
    assert_eq!(cache.len(), 2);
    assert_eq!(cache.insert(3, 3), Ok(()));

    assert_eq!(cache.query(2), Err(CacheError::CacheMiss));
    assert_eq!(cache.query(1), Ok(&100));
    assert_eq!(cache.query(3), Ok(&3));
}

#[test]
fn cache_index_key_consistency() {
    let mut cache = LRUCache::<i32>::with_capacity(3);
    assert_eq!(cache.insert(1, 1), Ok(()));
    assert_eq!(cache.insert(2, 2), Ok(()));
    assert_eq!(cache.insert(3, 3), Ok(()));
    assert_eq!(cache.remove(2), Ok(2));
    assert_eq!(cache.insert(4, 4), Ok(()));
    assert_eq!(cache.query(3), Ok(&3));
    assert_eq!(cache.remove(4), Ok(4));

    // The queryable keys are exactly those whose block is still present.
    let present: [u64; 2] = [1, 3];
    let absent: [u64; 3] = [2, 4, 5];
    for k in present {
        assert!(cache.query(k).is_ok());
    }
    for k in absent {
        assert_eq!(cache.query(k), Err(CacheError::CacheMiss));
    }
    assert_eq!(cache.len(), 2);
}
