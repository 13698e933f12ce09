use suffix_fst::lookup_cache::{LookupCache, LOOKUP_CACHE_SLOTS};

#[test]
fn the_last_id_under_a_hash_is_given() {
    let n = LOOKUP_CACHE_SLOTS as u64;
    let mut cache = LookupCache::new();
    cache.insert(n, 7);
    cache.insert(2 * n, 1);
    cache.insert(2 * n, 2);
    cache.insert(3 * n, 3);
    // 3n took the first slot of the pair, 2n has kept the second.
    assert_eq!(cache.get(n), None);
    assert_eq!(cache.get(2 * n), Some(2));
    assert_eq!(cache.get(3 * n), Some(3));
    assert_eq!(cache.stats(), (2, 1, 0));
    assert_eq!(cache.stats(), (0, 0, 0));
}

#[test]
fn the_hashes_zero_and_one_are_one() {
    let mut cache = LookupCache::default();
    cache.insert(0, 5);
    assert_eq!(cache.get(1), Some(5));
    cache.insert(1, 6);
    assert_eq!(cache.get(0), Some(6));
    // Two hashes of a pair take a slot each.
    cache.insert(LOOKUP_CACHE_SLOTS as u64 + 1, 8);
    assert_eq!(cache.get(0), Some(6));
    assert_eq!(cache.get(LOOKUP_CACHE_SLOTS as u64 + 1), Some(8));
}
