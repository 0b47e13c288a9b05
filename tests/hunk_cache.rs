use imageparse::hunk_cache::{cache_get, new_hunk_cache, CacheLookup, HunkWorker};

#[test]
fn lookup_and_store() {
    let mut cache = new_hunk_cache(4);
    let mut w = HunkWorker::new(10);
    assert_eq!(w.lookup(&mut cache, 3), CacheLookup::Missing);
    assert_eq!(w.lookup(&mut cache, 10), CacheLookup::OutOfRange);
    HunkWorker::store(&mut cache, 3, vec![1, 2, 3]);
    assert_eq!(w.lookup(&mut cache, 3), CacheLookup::Cached);
    assert_eq!(cache_get(&mut cache, 3), Some(vec![1, 2, 3]));
    assert_eq!(cache_get(&mut cache, 4), None);
    w.note_request(3);
    assert_eq!(w.last_requested_hunk, 3);
}

#[test]
fn prefetched_hunk_needs_no_read() {
    let mut cache = new_hunk_cache(100);
    let mut w = HunkWorker::new(100);
    for h in HunkWorker::prefetch_from(20) {
        assert_eq!(w.lookup(&mut cache, h), CacheLookup::Missing);
        HunkWorker::store(&mut cache, h, vec![h as u8]);
    }
    w.note_request(20);
    assert_eq!(w.lookup(&mut cache, 20), CacheLookup::Cached);
}

#[test]
fn pinned_hunk_survives_readahead() {
    let mut cache = new_hunk_cache(3);
    let mut w = HunkWorker::new(1000);
    w.note_request(5);
    HunkWorker::store(&mut cache, 5, vec![5]);
    for h in 6..20u32 {
        assert_eq!(w.lookup(&mut cache, h), CacheLookup::Missing);
        HunkWorker::store(&mut cache, h, vec![h as u8]);
    }
    assert_eq!(cache_get(&mut cache, 5), Some(vec![5]));
    assert_eq!(cache_get(&mut cache, 6), None);
}

#[test]
fn readahead_windows() {
    let mut cache = new_hunk_cache(100);
    let w = HunkWorker::new(10);
    assert_eq!(w.readahead_after(&cache, 3), vec![4, 5, 6, 7, 8, 9, 10]);
    assert_eq!(w.readahead_after(&cache, 8), Vec::<u32>::new());
    HunkWorker::store(&mut cache, 4, vec![]);
    HunkWorker::store(&mut cache, 5, vec![]);
    assert_eq!(w.readahead_after(&cache, 3), Vec::<u32>::new());
    assert_eq!(HunkWorker::prefetch_from(2), vec![2, 3, 4, 5, 6, 7, 8, 9]);
    assert_eq!(HunkWorker::prefetch_from(u32::MAX - 1), vec![u32::MAX - 1, u32::MAX]);
}
