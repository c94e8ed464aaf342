use zap_stream_core::cache::{key_for_url, AssetCache, AssetHandle, EntryState};

fn handle(texture: u64, width: u32, height: u32) -> AssetHandle {
    AssetHandle { texture, width, height }
}

fn fill_ready(cache: &mut AssetCache, url: &str, texture: u64) -> String {
    let key = key_for_url(url);
    assert!(matches!(cache.load(&key), EntryState::Pending));
    let popped = cache.pop_fetch().expect("queued");
    assert_eq!(popped, key);
    let evicted = cache.complete(&key, Some(handle(texture, 64, 64)));
    assert!(evicted.is_none());
    key
}

#[test]
fn cache_key_is_the_digest_of_the_url() {
    // The key of the empty string is the well-known digest of no bytes.
    assert_eq!(
        key_for_url(""),
        "e3b0c44298fc1c149afbf4c8996fb92427ae41e4649b934ca495991b7852b855"
    );
}

#[test]
fn equal_urls_map_to_equal_keys() {
    let a = key_for_url("https://x/img.png");
    let b = key_for_url("https://x/img.png");
    let c = key_for_url("https://x/other.png");
    assert_eq!(a, b);
    assert_ne!(a, c);
    assert_eq!(a.len(), 64);
}

#[test]
fn cold_load_is_pending_then_ready_with_source_dimensions() {
    let mut cache = AssetCache::new(16);
    let key = key_for_url("https://x/img.png");
    assert!(matches!(cache.load(&key), EntryState::Pending));
    let next = cache.pop_fetch().expect("one fetch queued");
    assert_eq!(next, key);
    // The background task decoded a 640x480 image.
    cache.complete(&key, Some(handle(7, 640, 480)));
    match cache.load(&key) {
        EntryState::Ready(h) => {
            assert_eq!(h.width, 640);
            assert_eq!(h.height, 480);
            assert_eq!(h.texture, 7);
        },
        other => panic!("expected a ready entry, got {:?}", other),
    }
}

#[test]
fn concurrent_loads_schedule_one_fetch() {
    let mut cache = AssetCache::new(16);
    let key = key_for_url("https://x/img.png");
    for _ in 0..5 {
        assert!(matches!(cache.load(&key), EntryState::Pending));
    }
    assert_eq!(cache.fetch_queue.len(), 1);
    assert!(cache.pop_fetch().is_some());
    assert!(cache.pop_fetch().is_none());
}

#[test]
fn ready_reads_are_idempotent_and_schedule_nothing() {
    let mut cache = AssetCache::new(16);
    let key = fill_ready(&mut cache, "https://x/a.png", 1);
    for _ in 0..3 {
        match cache.load(&key) {
            EntryState::Ready(h) => assert_eq!(h.texture, 1),
            other => panic!("expected ready, got {:?}", other),
        }
    }
    assert_eq!(cache.fetch_queue.len(), 0);
}

#[test]
fn failed_fetch_reads_failed_until_reloaded() {
    let mut cache = AssetCache::new(16);
    let key = key_for_url("https://x/broken.png");
    cache.load(&key);
    cache.pop_fetch();
    let evicted = cache.complete(&key, None);
    assert!(evicted.is_none());
    assert!(matches!(cache.load(&key), EntryState::Failed));
    // No retry is scheduled by reading a failed entry.
    assert!(cache.pop_fetch().is_none());
}

#[test]
fn completion_is_one_shot() {
    let mut cache = AssetCache::new(16);
    let key = fill_ready(&mut cache, "https://x/a.png", 3);
    // A stray second completion does not overwrite the resolved entry.
    cache.complete(&key, None);
    assert!(matches!(cache.load(&key), EntryState::Ready(_)));
}

#[test]
fn eviction_removes_the_least_recently_accessed_ready_entry() {
    let mut cache = AssetCache::new(3);
    let k1 = fill_ready(&mut cache, "https://x/1.png", 1);
    let k2 = fill_ready(&mut cache, "https://x/2.png", 2);
    let k3 = fill_ready(&mut cache, "https://x/3.png", 3);
    // Touch the oldest entry so it is no longer the eviction candidate.
    cache.load(&k1);
    // A fourth ready key exceeds the capacity: exactly one entry leaves,
    // and it is the least recently accessed ready one.
    let k4 = key_for_url("https://x/4.png");
    cache.load(&k4);
    cache.pop_fetch();
    let evicted = cache.complete(&k4, Some(handle(4, 8, 8))).expect("one eviction");
    assert_eq!(evicted, k2);
    assert!(matches!(cache.load(&k1), EntryState::Ready(_)));
    assert!(matches!(cache.load(&k3), EntryState::Ready(_)));
    assert!(matches!(cache.load(&k4), EntryState::Ready(_)));
    // The evicted key is unknown again and reloads from scratch.
    assert!(matches!(cache.load(&k2), EntryState::Pending));
}

#[test]
fn explicit_keys_work_like_url_keys() {
    let mut cache = AssetCache::new(4);
    let key = String::from("logo.svg");
    assert!(matches!(cache.load(&key), EntryState::Pending));
    cache.pop_fetch();
    cache.complete(&key, Some(handle(9, 24, 24)));
    assert!(matches!(cache.load(&key), EntryState::Ready(_)));
}
