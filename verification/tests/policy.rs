use genealogy_core::cache::SnapshotCache;
use genealogy_core::error::AncestryError;
use genealogy_core::graph::AncestryGraphIndex;
use genealogy_core::ident::PersonId;
use genealogy_core::policy::{
    apply_committed_write, read_through_cache, ReadAction, ReadEvent, ReadOutcome, ReadState,
    WriteAction, WriteEvent, WriteOutcome, WriteState,
};

fn run_write(events: &[WriteEvent]) -> WriteState {
    let mut state = WriteState::begin();
    for event in events {
        state = state.on_event(*event);
    }
    state
}

fn run_read(events: &[ReadEvent]) -> ReadState {
    let mut state = ReadState::begin();
    for event in events {
        state = state.on_event(*event);
    }
    state
}

#[test]
fn a_write_commits_then_updates_the_graph_then_drops_the_snapshot() {
    let state = WriteState::begin();
    assert_eq!(state.action(), WriteAction::CommitRecord);
    let state = state.on_event(WriteEvent::Committed);
    assert_eq!(state.action(), WriteAction::UpdateGraph);
    let state = state.on_event(WriteEvent::GraphUpdated);
    assert_eq!(state.action(), WriteAction::InvalidateCache);
    assert!(!state.is_finished());
    let state = state.on_event(WriteEvent::CacheInvalidated);
    assert!(state.is_finished());
    assert_eq!(
        state.action(),
        WriteAction::Finish(WriteOutcome::Committed { graph_stale: false, cache_stale: false })
    );
}

#[test]
fn a_rejected_commit_touches_no_derived_store() {
    let state = run_write(&[WriteEvent::CommitFailed]);
    assert_eq!(state, WriteState::Finished(WriteOutcome::Rejected));
    let state = run_write(&[
        WriteEvent::CommitFailed,
        WriteEvent::Committed,
        WriteEvent::GraphUpdated,
        WriteEvent::CacheInvalidated,
    ]);
    assert_eq!(state.action(), WriteAction::Finish(WriteOutcome::Rejected));
}

#[test]
fn a_failed_graph_update_leaves_the_record_committed_and_the_cache_step_due() {
    let state = run_write(&[WriteEvent::Committed, WriteEvent::GraphFailed]);
    assert_eq!(state.action(), WriteAction::InvalidateCache);
    let state = state.on_event(WriteEvent::CacheInvalidated);
    assert_eq!(
        state,
        WriteState::Finished(WriteOutcome::Committed { graph_stale: true, cache_stale: false })
    );
}

#[test]
fn a_failed_cache_step_is_reported_and_is_no_rejection() {
    let state =
        run_write(&[WriteEvent::Committed, WriteEvent::GraphUpdated, WriteEvent::CacheFailed]);
    assert_eq!(
        state,
        WriteState::Finished(WriteOutcome::Committed { graph_stale: false, cache_stale: true })
    );
    let state =
        run_write(&[WriteEvent::Committed, WriteEvent::GraphFailed, WriteEvent::CacheFailed]);
    assert_eq!(
        state,
        WriteState::Finished(WriteOutcome::Committed { graph_stale: true, cache_stale: true })
    );
}

#[test]
fn reports_out_of_turn_change_nothing() {
    assert_eq!(run_write(&[WriteEvent::GraphUpdated]), WriteState::AwaitingCommit);
    assert_eq!(run_write(&[WriteEvent::CacheInvalidated]), WriteState::AwaitingCommit);
    assert_eq!(
        run_write(&[WriteEvent::Committed, WriteEvent::CacheInvalidated]),
        WriteState::AwaitingGraph
    );
    assert_eq!(
        run_write(&[WriteEvent::Committed, WriteEvent::CommitFailed]),
        WriteState::AwaitingGraph
    );
    assert_eq!(
        run_write(&[WriteEvent::Committed, WriteEvent::GraphUpdated, WriteEvent::GraphFailed]),
        WriteState::AwaitingCache { graph_updated: true }
    );
}

#[test]
fn a_new_edge_is_not_seen_before_the_graph_step_and_is_seen_after_it() {
    let child = PersonId(1);
    let old_parent = PersonId(2);
    let new_parent = PersonId(3);
    let mut index = AncestryGraphIndex::new();
    index.upsert_edge(child, old_parent).unwrap();
    let mut cache: SnapshotCache<String> = SnapshotCache::new();

    // The record store has committed; the graph step has not run yet.
    let state = WriteState::begin().on_event(WriteEvent::Committed);
    assert_eq!(state.action(), WriteAction::UpdateGraph);
    assert_eq!(index.parents_of(child), Ok(vec![old_parent]));

    // The graph step is retried until the index can be reached: a bounded
    // number of tries, of which the third succeeds here.
    index.set_available(false);
    let mut outcome = WriteOutcome::Rejected;
    let mut tries = 0;
    while tries < 5 {
        tries += 1;
        if tries == 3 {
            index.set_available(true);
        }
        outcome = apply_committed_write(&mut index, &mut cache, child, &vec![(child, new_parent)]);
        if outcome == (WriteOutcome::Committed { graph_stale: false, cache_stale: false }) {
            break;
        }
        assert_eq!(outcome, WriteOutcome::Committed { graph_stale: true, cache_stale: false });
        if tries < 3 {
            index.set_available(true);
            assert_eq!(index.parents_of(child), Ok(vec![old_parent]));
            index.set_available(false);
        }
    }
    assert_eq!(tries, 3);
    assert_eq!(outcome, WriteOutcome::Committed { graph_stale: false, cache_stale: false });
    assert_eq!(index.parents_of(child), Ok(vec![old_parent, new_parent]));
}

#[test]
fn after_a_write_the_cache_misses_until_a_newer_snapshot_is_stored() {
    let person = PersonId(1);
    let mut index = AncestryGraphIndex::new();
    let mut cache: SnapshotCache<String> = SnapshotCache::new();
    cache.put(person, "before".to_string(), 3600, 100);
    cache.put(PersonId(2), "other".to_string(), 3600, 100);
    assert_eq!(cache.get(person, 101).unwrap().payload, "before");

    let outcome = apply_committed_write(&mut index, &mut cache, person, &vec![]);
    assert_eq!(outcome, WriteOutcome::Committed { graph_stale: false, cache_stale: false });
    assert!(cache.get(person, 101).is_none());
    assert!(cache.get(person, 100).is_none());
    assert_eq!(cache.get(PersonId(2), 101).unwrap().payload, "other");
    assert_eq!(read_through_cache(&cache, person, 101).action(), ReadAction::LoadRecord);

    cache.put(person, "after".to_string(), 3600, 102);
    assert_eq!(cache.get(person, 103).unwrap().payload, "after");
    assert_eq!(
        read_through_cache(&cache, person, 103).action(),
        ReadAction::Finish(ReadOutcome::ServedFromCache)
    );
}

#[test]
fn the_snapshot_is_dropped_even_when_the_index_cannot_be_reached() {
    let person = PersonId(1);
    let mut index = AncestryGraphIndex::new();
    index.set_available(false);
    let mut cache: SnapshotCache<u8> = SnapshotCache::new();
    cache.put(person, 1, 3600, 0);
    let outcome =
        apply_committed_write(&mut index, &mut cache, person, &vec![(person, PersonId(2))]);
    assert_eq!(outcome, WriteOutcome::Committed { graph_stale: true, cache_stale: false });
    assert!(cache.get(person, 1).is_none());
    index.set_available(true);
    assert_eq!(index.parents_of(person), Ok(vec![]));
}

#[test]
fn a_read_is_served_from_the_cache_on_a_hit() {
    let state = ReadState::begin();
    assert_eq!(state.action(), ReadAction::LookupCache);
    let state = state.on_event(ReadEvent::CacheHit);
    assert!(state.is_finished());
    assert_eq!(state.action(), ReadAction::Finish(ReadOutcome::ServedFromCache));
}

#[test]
fn a_miss_falls_back_to_the_record_store_and_fills_the_cache() {
    let state = run_read(&[ReadEvent::CacheMiss]);
    assert_eq!(state.action(), ReadAction::LoadRecord);
    let state = state.on_event(ReadEvent::RecordFound);
    assert_eq!(state.action(), ReadAction::StoreSnapshot);
    let state = state.on_event(ReadEvent::SnapshotStored);
    assert_eq!(state, ReadState::Finished(ReadOutcome::ServedFromStore { cached: true }));
}

#[test]
fn a_failing_cache_counts_as_a_miss() {
    assert_eq!(run_read(&[ReadEvent::CacheFailed]), run_read(&[ReadEvent::CacheMiss]));
    let state = run_read(&[
        ReadEvent::CacheFailed,
        ReadEvent::RecordFound,
        ReadEvent::SnapshotStoreFailed,
    ]);
    assert_eq!(state, ReadState::Finished(ReadOutcome::ServedFromStore { cached: false }));
}

#[test]
fn an_absent_person_is_not_found() {
    let state = run_read(&[ReadEvent::CacheMiss, ReadEvent::RecordMissing]);
    assert_eq!(state, ReadState::Finished(ReadOutcome::NotFound));
    let state = run_read(&[ReadEvent::CacheMiss, ReadEvent::RecordFailed]);
    assert_eq!(state, ReadState::Finished(ReadOutcome::StoreFailed));
    assert_eq!(state.on_event(ReadEvent::CacheHit), state);
}

#[test]
fn an_expired_snapshot_leads_to_the_record_store() {
    let mut cache: SnapshotCache<u8> = SnapshotCache::new();
    cache.put(PersonId(1), 1, 10, 100);
    assert_eq!(
        read_through_cache(&cache, PersonId(1), 105).action(),
        ReadAction::Finish(ReadOutcome::ServedFromCache)
    );
    assert_eq!(read_through_cache(&cache, PersonId(1), 110).action(), ReadAction::LoadRecord);
}

#[test]
fn only_an_absent_person_is_reported_as_not_found() {
    assert_eq!(ReadOutcome::NotFound.absence(), Some(AncestryError::NotFound));
    assert_eq!(ReadOutcome::StoreFailed.absence(), None);
    assert_eq!(ReadOutcome::ServedFromCache.absence(), None);
    assert_eq!(ReadOutcome::ServedFromStore { cached: false }.absence(), None);
    assert!(ReadOutcome::ServedFromCache.is_served());
    assert!(ReadOutcome::ServedFromStore { cached: true }.is_served());
    assert!(!ReadOutcome::NotFound.is_served());
    assert!(!ReadOutcome::StoreFailed.is_served());
    assert!(AncestryError::GraphUnavailable.is_recoverable());
    assert!(!AncestryError::NotFound.is_recoverable());
    assert!(!AncestryError::CyclicAncestry.is_recoverable());
    assert!(!AncestryError::OutOfRange.is_recoverable());
}
