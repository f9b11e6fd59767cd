use velocidb::lockfree::{CachedPage, LockFreeCounter, LockFreeIoQueue, LockFreeMetrics, LockFreePageCache, LockFreeRingBuffer};
use velocidb::storage::Page;

#[test]
fn test_lockfree_cache() {
    let mut cache = LockFreePageCache::new(10);

    for i in 0..5 {
        let mut page = Page::new();
        page.data_mut()[0] = i as u8;
        cache.insert(i, page).unwrap();
    }

    for i in 0..5 {
        let cached = cache.get(i).unwrap();
        assert_eq!(cached.page.data()[0], i as u8);
    }

    let stats = cache.stats();
    assert_eq!(stats.size, 5);
    assert_eq!(stats.capacity, 10);
}

#[test]
fn test_lockfree_cache_eviction() {
    let mut cache = LockFreePageCache::new(3);

    for i in 0..5 {
        let mut page = Page::new();
        page.data_mut()[0] = i as u8;
        cache.insert(i, page).unwrap();
    }

    let stats = cache.stats();
    assert!(stats.size <= 3);
}

#[test]
fn test_lockfree_queue() {
    let mut queue = LockFreeIoQueue::new();

    for i in 0..10 {
        queue.push(i);
    }

    assert_eq!(queue.len(), 10);

    for i in 0..10 {
        assert_eq!(queue.pop(), Some(i));
    }

    assert!(queue.is_empty());
}

#[test]
fn test_lockfree_counter() {
    let mut counter = LockFreeCounter::new(0);

    assert_eq!(counter.increment(), 0);
    assert_eq!(counter.increment(), 1);
    assert_eq!(counter.get(), 2);

    assert!(counter.compare_and_swap(2, 10).is_ok());
    assert_eq!(counter.get(), 10);
}

#[test]
fn test_lockfree_ring_buffer() {
    let mut buffer = LockFreeRingBuffer::new(5);

    for i in 0..5 {
        assert!(buffer.try_push(i).is_ok());
    }

    assert!(buffer.is_full());

    assert!(buffer.try_push(999).is_err());

    for i in 0..5 {
        assert_eq!(buffer.try_pop(), Some(i));
    }

    assert!(buffer.is_empty());
}

#[test]
fn test_lockfree_metrics() {
    let mut metrics = LockFreeMetrics::new();

    metrics.record_read();
    metrics.record_read();
    metrics.record_write();
    metrics.record_cache_hit();
    metrics.record_cache_miss();

    let stats = metrics.get_stats();
    assert_eq!(stats.reads, 2);
    assert_eq!(stats.writes, 1);
    assert_eq!(stats.cache_hits, 1);
    assert_eq!(stats.cache_misses, 1);
    let rate = stats.cache_hits as f64 / (stats.cache_hits + stats.cache_misses) as f64;
    assert_eq!(rate, 0.5);

    metrics.reset();
    let stats = metrics.get_stats();
    assert_eq!(stats.reads, 0);
}

#[test]
fn lockfree_counter_compare_and_swap_failure_reports_current() {
    let mut counter = LockFreeCounter::new(5);
    assert_eq!(counter.compare_and_swap(4, 9), Err(5));
    assert_eq!(counter.get(), 5);
    counter.set(u64::MAX);
    assert_eq!(counter.increment(), u64::MAX);
    assert_eq!(counter.get(), 0);
}

#[test]
fn lockfree_cache_evicts_least_recently_used() {
    let mut cache = LockFreePageCache::new(2);
    cache.insert(1, Page::new()).unwrap();
    cache.insert(2, Page::new()).unwrap();
    assert!(cache.get(1).is_some());
    cache.insert(3, Page::new()).unwrap();
    let stats = cache.stats();
    assert!(stats.size <= 2);
    assert!(cache.get(3).is_some());
    assert!(cache.remove(3).is_some());
    assert!(cache.remove(3).is_none());
    cache.clear();
    assert_eq!(cache.stats().size, 0);
}

#[test]
fn lockfree_cache_eviction_with_given_times() {
    let mut cache = LockFreePageCache::new(3);
    for i in 0..5u64 {
        let mut page = Page::new();
        page.data_mut()[0] = i as u8;
        cache.insert_at(i, page, 100 + i).unwrap();
    }
    let stats = cache.stats();
    assert_eq!(stats.size, 3);
    assert_eq!(stats.capacity, 3);
    assert!(cache.remove(0).is_none());
    assert!(cache.remove(1).is_none());
    let newest = cache.get_at(4, 500).unwrap();
    assert_eq!(newest.page.data()[0], 4);
    assert_eq!(newest.last_access, 500);
    assert_eq!(newest.access_count, 2);
}

#[test]
fn lockfree_cached_page_access_at_records_time() {
    let mut page = Page::new();
    page.data_mut()[0] = 7;
    let mut c = CachedPage::new_at(9, page, 40);
    assert_eq!(c.get_access_count(), 1);
    assert_eq!(c.get_last_access(), 40);
    c.access_at(55);
    assert_eq!(c.get_access_count(), 2);
    assert_eq!(c.get_last_access(), 55);
    assert_eq!(c.page_id, 9);
    assert_eq!(c.page.data()[0], 7);
}
