use sum3_solver::cache::{cache_key, ConfigError, ResultCache, MAX_RESERVED};

#[test]
fn zero_capacity_is_refused() {
    assert_eq!(ResultCache::new(0).err(), Some(ConfigError::ZeroCapacity));
}

#[test]
fn every_capacity_of_at_least_one_is_accepted() {
    assert!(ResultCache::new(1).is_ok());
    assert!(ResultCache::new(MAX_RESERVED).is_ok());
    assert!(ResultCache::new(MAX_RESERVED + 1).is_ok());
    assert!(ResultCache::new(2_000_000).is_ok());
    assert!(ResultCache::new(usize::MAX).is_ok());
}

#[test]
fn zero_is_the_only_capacity_refused() {
    assert_eq!(ResultCache::new(0).err(), Some(ConfigError::ZeroCapacity));
    assert!(ResultCache::new(usize::MAX - 1).err().is_none());
}

#[test]
fn large_cache_starts_empty_and_keeps_what_is_put() {
    let mut cache = ResultCache::new(2_000_000).unwrap();
    assert_eq!(cache.get(5_000_000, 100_000), None);
    assert_eq!(cache.get(0, 0), None);
    for k in 0..50i64 {
        cache.put(k * 1_000_000, 0, vec![vec![k + 1]]);
    }
    for k in 0..50i64 {
        assert_eq!(cache.get(k * 1_000_000, 0), Some(vec![vec![k + 1]]));
    }
    assert_eq!(cache.get(50_000_000, 0), None);
}

#[test]
fn largest_cache_starts_empty_and_keeps_what_is_put() {
    let mut cache = ResultCache::new(usize::MAX).unwrap();
    assert_eq!(cache.get(1_000_000, 0), None);
    cache.put(1_000_000, 0, vec![vec![1_000_000]]);
    cache.put(2_000_000, 0, vec![vec![2_000_000]]);
    cache.put(1_000_000, 0, vec![vec![3]]);
    assert_eq!(cache.get(1_000_000, 0), Some(vec![vec![3]]));
    assert_eq!(cache.get(2_000_000, 0), Some(vec![vec![2_000_000]]));
}

#[test]
fn cache_just_above_the_reserved_size_is_bounded_by_its_capacity() {
    let capacity = MAX_RESERVED + 1;
    let mut cache = ResultCache::new(capacity).unwrap();
    for k in 0..=(capacity as i64) {
        cache.put(k * 10_000, 0, vec![]);
    }
    assert_eq!(cache.get(0, 0), None);
    assert_eq!(cache.get(10_000, 0), Some(vec![]));
    assert_eq!(cache.get(capacity as i64 * 10_000, 0), Some(vec![]));
}

#[test]
fn reserved_cache_is_bounded_by_its_capacity() {
    let mut cache = ResultCache::new(3).unwrap();
    for k in 0..4i64 {
        cache.put(k * 10_000, 0, vec![vec![k + 1]]);
    }
    assert_eq!(cache.get(0, 0), None);
    assert_eq!(cache.get(10_000, 0), Some(vec![vec![2]]));
    assert_eq!(cache.get(30_000, 0), Some(vec![vec![4]]));
}

#[test]
fn new_cache_holds_nothing() {
    let mut cache = ResultCache::new(3).unwrap();
    assert_eq!(cache.get(5_000_000, 100_000), None);
}

#[test]
fn what_was_put_is_got() {
    let mut cache = ResultCache::new(3).unwrap();
    let results = vec![vec![1_000_000, 4_000_000], vec![2_000_000, 3_000_000]];
    cache.put(5_000_000, 100_000, results.clone());
    assert_eq!(cache.get(5_000_000, 100_000), Some(results));
}

#[test]
fn targets_that_round_alike_share_an_entry() {
    let mut cache = ResultCache::new(3).unwrap();
    let results = vec![vec![5_000_000]];
    cache.put(5_000_000, 100_000, results.clone());
    assert_eq!(cache.get(5_004_999, 95_001), Some(results.clone()));
    assert_eq!(cache.get(4_995_001, 104_999), Some(results));
    assert_eq!(cache.get(5_005_001, 100_000), None);
    assert_eq!(cache.get(5_000_000, 105_001), None);
}

#[test]
fn key_is_target_and_tolerance_in_hundredths() {
    assert_eq!(cache_key(5_000_000, 100_000), (500, 10));
    assert_eq!(cache_key(-1_234_567, 0), (-123, 0));
    assert_eq!(cache_key(1_234_999, 5_001), (123, 1));
    assert_eq!(cache_key(125_000, 135_000), (12, 14));
    assert_eq!(cache_key(-125_000, -135_000), (-12, -14));
    assert_eq!(cache_key(i64::MAX, i64::MIN), (922337203685478, -922337203685478));
}

#[test]
fn put_under_the_same_key_replaces() {
    let mut cache = ResultCache::new(3).unwrap();
    cache.put(5_000_000, 100_000, vec![vec![5_000_000]]);
    cache.put(5_001_000, 100_000, vec![vec![2_000_000, 3_000_000]]);
    assert_eq!(cache.get(5_000_000, 100_000), Some(vec![vec![2_000_000, 3_000_000]]));
}

#[test]
fn full_cache_drops_the_least_recently_used() {
    let mut cache = ResultCache::new(2).unwrap();
    cache.put(1_000_000, 0, vec![vec![1_000_000]]);
    cache.put(2_000_000, 0, vec![vec![2_000_000]]);
    cache.put(3_000_000, 0, vec![vec![3_000_000]]);
    assert_eq!(cache.get(1_000_000, 0), None);
    assert_eq!(cache.get(2_000_000, 0), Some(vec![vec![2_000_000]]));
    assert_eq!(cache.get(3_000_000, 0), Some(vec![vec![3_000_000]]));
}

#[test]
fn lookup_makes_an_entry_the_most_recently_used() {
    let mut cache = ResultCache::new(2).unwrap();
    cache.put(1_000_000, 0, vec![vec![1_000_000]]);
    cache.put(2_000_000, 0, vec![vec![2_000_000]]);
    assert_eq!(cache.get(1_000_000, 0), Some(vec![vec![1_000_000]]));
    cache.put(3_000_000, 0, vec![vec![3_000_000]]);
    assert_eq!(cache.get(2_000_000, 0), None);
    assert_eq!(cache.get(1_000_000, 0), Some(vec![vec![1_000_000]]));
    assert_eq!(cache.get(3_000_000, 0), Some(vec![vec![3_000_000]]));
}

#[test]
fn replacing_makes_an_entry_the_most_recently_used() {
    let mut cache = ResultCache::new(2).unwrap();
    cache.put(1_000_000, 0, vec![vec![1_000_000]]);
    cache.put(2_000_000, 0, vec![vec![2_000_000]]);
    cache.put(1_000_000, 0, vec![]);
    cache.put(3_000_000, 0, vec![vec![3_000_000]]);
    assert_eq!(cache.get(2_000_000, 0), None);
    assert_eq!(cache.get(1_000_000, 0), Some(vec![]));
}

#[test]
fn cache_of_one_keeps_the_last_put() {
    let mut cache = ResultCache::new(1).unwrap();
    cache.put(1_000_000, 0, vec![vec![1_000_000]]);
    cache.put(2_000_000, 0, vec![vec![2_000_000]]);
    assert_eq!(cache.get(1_000_000, 0), None);
    assert_eq!(cache.get(2_000_000, 0), Some(vec![vec![2_000_000]]));
}
