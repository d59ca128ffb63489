use zfs::arcache::{ArCache, Mfu, Mru};
use zfs::dvaddr::DVAddr;
use zfs::zfs::Error;

fn block(tag: u8) -> Vec<u8> {
    vec![tag, tag.wrapping_add(1), tag.wrapping_add(2)]
}

#[test]
fn new_tiers_are_empty() {
    let mru = Mru::new();
    assert_eq!(mru.size(), 1000);
    assert_eq!(mru.used(), 0);
    let mfu = Mfu::new();
    assert!(!mfu.contains(&DVAddr::new(0, 1)));
    let cache = ArCache::new();
    assert_eq!(cache.recency_used(), 0);
    assert!(!cache.in_recency(&DVAddr::new(0, 1)));
    assert!(!cache.in_frequency(&DVAddr::new(0, 1)));
}

#[test]
fn recency_tier_returns_a_copy_of_the_block() {
    let mut mru = Mru::new();
    let a = DVAddr::new(10, 4);
    assert_eq!(mru.cache_block(&a, block(1)), Ok(block(1)));
    assert!(mru.contains(&a));
    assert_eq!(mru.used(), 4);
}

#[test]
fn oldest_entry_is_evicted_first() {
    let mut mru = Mru::new();
    let a = DVAddr::new(1, 500);
    let b = DVAddr::new(2, 500);
    let c = DVAddr::new(3, 1);
    assert!(mru.cache_block(&a, block(1)).is_ok());
    assert!(mru.cache_block(&b, block(2)).is_ok());
    assert_eq!(mru.used(), 1000);
    assert_eq!(mru.cache_block(&c, block(3)), Ok(block(3)));
    assert!(!mru.contains(&a));
    assert!(mru.contains(&b));
    assert!(mru.contains(&c));
    assert_eq!(mru.used(), 501);
}

#[test]
fn eviction_goes_on_until_the_block_fits() {
    let mut mru = Mru::with_size(10);
    let a = DVAddr::new(1, 3);
    let b = DVAddr::new(2, 3);
    let c = DVAddr::new(3, 3);
    let d = DVAddr::new(4, 6);
    assert!(mru.cache_block(&a, block(1)).is_ok());
    assert!(mru.cache_block(&b, block(2)).is_ok());
    assert!(mru.cache_block(&c, block(3)).is_ok());
    assert_eq!(mru.used(), 9);
    assert!(mru.cache_block(&d, block(4)).is_ok());
    assert!(!mru.contains(&a));
    assert!(!mru.contains(&b));
    assert!(mru.contains(&c));
    assert!(mru.contains(&d));
    assert_eq!(mru.used(), 9);
}

#[test]
fn used_never_exceeds_size() {
    let mut mru = Mru::with_size(100);
    let mut state: u64 = 17;
    for i in 0..500u64 {
        state = state.wrapping_mul(6364136223846793005).wrapping_add(1442695040888963407);
        let asize: u64 = (state >> 40) % 130;
        let r = mru.cache_block(&DVAddr::new(i, asize), vec![i as u8]);
        assert_eq!(r.is_ok(), asize <= 100);
        assert!(mru.used() <= mru.size());
        if r.is_err() {
            assert_eq!(mru.used(), 0);
        }
    }
}

#[test]
fn block_larger_than_the_tier_exhausts_it() {
    let mut mru = Mru::new();
    let a = DVAddr::new(1, 10);
    let big = DVAddr::new(2, 1001);
    assert!(mru.cache_block(&a, block(1)).is_ok());
    assert_eq!(mru.cache_block(&big, block(2)), Err(Error::CacheExhausted));
    assert!(!mru.contains(&a));
    assert!(!mru.contains(&big));
    assert_eq!(mru.used(), 0);
    let full = DVAddr::new(3, 1000);
    assert!(mru.cache_block(&full, block(3)).is_ok());
    assert_eq!(mru.used(), 1000);
}

#[test]
fn empty_frequency_tier_has_nothing_to_evict() {
    let mut mfu = Mfu::new();
    let a = DVAddr::new(1, 1);
    assert_eq!(mfu.cache_block(&a, block(1)), Err(Error::CacheExhausted));
    assert!(!mfu.contains(&a));
}

#[test]
fn frequency_tier_evicts_the_lowest_count() {
    let mut mfu = Mfu::new();
    let a = DVAddr::new(1, 1);
    let b = DVAddr::new(2, 1);
    let c = DVAddr::new(3, 1);
    let d = DVAddr::new(4, 1);
    mfu.promote(&a, block(1));
    mfu.promote(&b, block(2));
    assert_eq!(mfu.frequency(&a), Some(0));
    assert_eq!(mfu.cache_block(&c, block(3)), Ok(block(3)));
    assert_eq!(mfu.frequency(&c), Some(2));
    assert!(mfu.contains(&a) != mfu.contains(&b));
    assert_eq!(mfu.cache_block(&d, block(4)), Ok(block(4)));
    assert!(!mfu.contains(&a));
    assert!(!mfu.contains(&b));
    assert_eq!(mfu.frequency(&c), Some(2));
    assert_eq!(mfu.frequency(&d), Some(2));
}

#[test]
fn miss_changes_nothing() {
    let mut cache = ArCache::new();
    let a = DVAddr::new(1, 1);
    assert_eq!(cache.read(&a), None);
    assert!(!cache.in_recency(&a));
    assert!(!cache.in_frequency(&a));
    assert_eq!(cache.recency_used(), 0);
}

#[test]
fn second_read_is_served_by_the_cache_and_promotes() {
    let mut cache = ArCache::new();
    let a = DVAddr::new(8, 2);
    assert_eq!(cache.read(&a), None);
    assert_eq!(cache.fill(&a, block(5)), Ok(block(5)));
    assert!(cache.in_recency(&a));
    assert!(!cache.in_frequency(&a));
    assert_eq!(cache.read(&a), Some(block(5)));
    assert!(!cache.in_recency(&a));
    assert!(cache.in_frequency(&a));
    assert_eq!(cache.frequency(&a), Some(0));
    assert_eq!(cache.read(&a), Some(block(5)));
    assert_eq!(cache.frequency(&a), Some(1));
    assert!(!cache.in_recency(&a));
}

#[test]
fn use_count_starts_again_above_the_ceiling() {
    let mut cache = ArCache::new();
    let a = DVAddr::new(8, 2);
    assert!(cache.fill(&a, block(5)).is_ok());
    assert_eq!(cache.read(&a), Some(block(5)));
    for expected in 1..=1001u64 {
        assert_eq!(cache.read(&a), Some(block(5)));
        assert_eq!(cache.frequency(&a), Some(expected));
    }
    assert_eq!(cache.read(&a), Some(block(5)));
    assert_eq!(cache.frequency(&a), Some(0));
}

#[test]
fn no_address_is_in_both_tiers() {
    let mut cache = ArCache::new();
    let mut state: u64 = 3;
    for _ in 0..2000u32 {
        state = state.wrapping_mul(6364136223846793005).wrapping_add(1442695040888963407);
        let n: u64 = (state >> 40) % 40;
        let dva = DVAddr::new(n, 1 + n * 7);
        match cache.read(&dva) {
            Some(bytes) => assert_eq!(bytes, vec![n as u8]),
            None => {
                assert_eq!(cache.fill(&dva, vec![n as u8]), Ok(vec![n as u8]));
            }
        }
        assert!(cache.recency_used() <= 1000);
        for m in 0..40u64 {
            let other = DVAddr::new(m, 1 + m * 7);
            assert!(!(cache.in_recency(&other) && cache.in_frequency(&other)));
        }
    }
}

#[test]
fn promoted_block_outlives_its_eviction_from_the_recency_tier() {
    let mut cache = ArCache::new();
    let a = DVAddr::new(1, 500);
    let b = DVAddr::new(2, 500);
    let c = DVAddr::new(3, 1);
    assert!(cache.fill(&a, block(1)).is_ok());
    assert_eq!(cache.read(&a), Some(block(1)));
    assert_eq!(cache.recency_used(), 500);
    assert!(cache.fill(&b, block(2)).is_ok());
    assert!(cache.fill(&c, block(3)).is_ok());
    assert_eq!(cache.recency_used(), 501);
    assert!(cache.in_frequency(&a));
    assert!(cache.in_recency(&b));
    assert!(cache.in_recency(&c));
    assert_eq!(cache.read(&a), Some(block(1)));
}

#[test]
fn block_larger_than_the_cache_is_refused() {
    let mut cache = ArCache::new();
    let big = DVAddr::new(1, 5000);
    assert_eq!(cache.read(&big), None);
    assert_eq!(cache.fill(&big, block(1)), Err(Error::CacheExhausted));
    assert_eq!(cache.read(&big), None);
}

#[test]
fn tiers_take_the_size_they_are_given() {
    let mut cache = ArCache::with_sizes(4, 9);
    let a = DVAddr::new(1, 3);
    let b = DVAddr::new(2, 2);
    assert!(cache.fill(&a, block(1)).is_ok());
    assert!(cache.fill(&b, block(2)).is_ok());
    assert!(!cache.in_recency(&a));
    assert!(cache.in_recency(&b));
    assert_eq!(cache.recency_used(), 2);
    assert_eq!(cache.fill(&DVAddr::new(3, 5), block(3)), Err(Error::CacheExhausted));
    assert_eq!(cache.recency_used(), 0);
    let mfu = Mfu::with_size(9);
    assert!(!mfu.contains(&a));
}

#[test]
fn exhausted_recency_tier_caches_nothing() {
    let mut mru = Mru::with_size(10);
    let mut kept: Vec<DVAddr> = Vec::new();
    for i in 0..5u64 {
        let dva = DVAddr::new(i, 2);
        assert!(mru.cache_block(&dva, block(i as u8)).is_ok());
        kept.push(dva);
    }
    assert_eq!(mru.cache_block(&DVAddr::new(9, 11), block(9)), Err(Error::CacheExhausted));
    for dva in kept.iter() {
        assert!(!mru.contains(dva));
    }
    assert_eq!(mru.used(), 0);
}
