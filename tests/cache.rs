use prototype::cache::{CacheEntry, CacheStatus, FileStats, HashCache};
use prototype::hash::ObjectKey;

fn key(n: u8) -> ObjectKey {
    ObjectKey { bytes: vec![n; 20] }
}

#[test]
fn check_statuses() {
    let mut cache = HashCache::new();
    let stats = FileStats::new(12345, 120, 55);
    assert_eq!(cache.check(b"x", &stats), CacheStatus::NotCached { size: 12345 });
    cache.insert_entry(b"x".to_vec(), stats, key(1));
    assert_eq!(cache.check(b"x", &stats), CacheStatus::Cached { hash: key(1) });
    let touched = FileStats::new(12345, 121, 55);
    assert_eq!(cache.check(b"x", &touched), CacheStatus::Modified { size: 12345 });
    let grown = FileStats::new(12346, 120, 55);
    assert_eq!(cache.check(b"x", &grown), CacheStatus::Modified { size: 12346 });
}

#[test]
fn insert_replaces_and_get_finds() {
    let mut cache = HashCache::new();
    let stats = FileStats::new(3, 1, 2);
    cache.insert_entry(b"a".to_vec(), stats, key(1));
    cache.insert_entry(b"b".to_vec(), stats, key(2));
    cache.insert_entry(b"a".to_vec(), stats, key(3));
    assert_eq!(cache.slots.len(), 2);
    assert_eq!(cache.get(b"a"), Some(&CacheEntry { filestats: stats, hash: key(3) }));
    assert_eq!(cache.get(b"b").map(|e| e.hash.clone()), Some(key(2)));
    assert_eq!(cache.get(b"c"), None);
}
