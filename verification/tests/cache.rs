use genealogy_core::cache::{SnapshotCache, SNAPSHOT_TTL_SECS};
use genealogy_core::ident::PersonId;

#[test]
fn a_miss_is_no_error() {
    let cache: SnapshotCache<String> = SnapshotCache::new();
    assert!(cache.get(PersonId(1), 0).is_none());
    assert_eq!(cache.len(), 0);
}

#[test]
fn a_snapshot_is_served_for_its_time_to_live() {
    let mut cache: SnapshotCache<String> = SnapshotCache::new();
    cache.put(PersonId(1), "Ada".to_string(), 10, 100);
    let found = cache.get(PersonId(1), 100).unwrap();
    assert_eq!(found.payload, "Ada");
    assert_eq!(found.stored_at, 100);
    assert_eq!(found.ttl, 10);
    assert!(cache.get(PersonId(1), 109).is_some());
    assert!(cache.get(PersonId(1), 110).is_none());
    assert!(cache.get(PersonId(1), 5000).is_none());
    assert!(cache.get(PersonId(2), 100).is_none());
    // The expired snapshot is still stored.
    assert_eq!(cache.len(), 1);
}

#[test]
fn the_usual_time_to_live_is_one_hour() {
    assert_eq!(SNAPSHOT_TTL_SECS, 3600);
    let mut cache: SnapshotCache<u32> = SnapshotCache::new();
    cache.put(PersonId(1), 7, SNAPSHOT_TTL_SECS, 1_000);
    assert!(cache.get(PersonId(1), 4_599).is_some());
    assert!(cache.get(PersonId(1), 4_600).is_none());
}

#[test]
fn a_time_to_live_of_zero_is_never_served() {
    let mut cache: SnapshotCache<u32> = SnapshotCache::new();
    cache.put(PersonId(1), 7, 0, 50);
    assert!(cache.get(PersonId(1), 50).is_none());
}

#[test]
fn a_clock_that_went_back_still_serves() {
    let mut cache: SnapshotCache<u32> = SnapshotCache::new();
    cache.put(PersonId(1), 7, 10, 100);
    assert!(cache.get(PersonId(1), 99).is_some());
}

#[test]
fn the_end_of_time_does_not_overflow() {
    let mut cache: SnapshotCache<u32> = SnapshotCache::new();
    cache.put(PersonId(1), 7, u64::MAX, u64::MAX - 1);
    assert!(cache.get(PersonId(1), u64::MAX).is_some());
    cache.put(PersonId(2), 8, 1, u64::MAX - 1);
    assert!(cache.get(PersonId(2), u64::MAX).is_none());
}

#[test]
fn put_overwrites_unconditionally() {
    let mut cache: SnapshotCache<u32> = SnapshotCache::new();
    cache.put(PersonId(1), 7, 10, 100);
    cache.put(PersonId(1), 8, 5, 104);
    let found = cache.get(PersonId(1), 105).unwrap();
    assert_eq!(found.payload, 8);
    // The newer snapshot ends earlier than the older one would have.
    assert!(cache.get(PersonId(1), 109).is_none());
    assert_eq!(cache.len(), 1);
}

#[test]
fn invalidate_removes_at_once_and_is_safe_when_absent() {
    let mut cache: SnapshotCache<u32> = SnapshotCache::new();
    cache.put(PersonId(1), 7, 10, 100);
    cache.put(PersonId(2), 9, 10, 100);
    assert!(cache.invalidate(PersonId(1)));
    assert!(cache.get(PersonId(1), 100).is_none());
    assert!(!cache.invalidate(PersonId(1)));
    assert!(!cache.invalidate(PersonId(3)));
    assert_eq!(cache.get(PersonId(2), 100).unwrap().payload, 9);
    assert_eq!(cache.len(), 1);
}
