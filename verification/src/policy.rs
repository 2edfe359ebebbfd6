//! The consistency policy between the record store, the ancestry graph index
//! and the snapshot cache.
//!
//! A write goes through three stages in a fixed order: the record store
//! commits the change, then the graph index takes the new edges, then the
//! snapshot of the person is dropped from the cache. Only the first stage can
//! reject the write. The two later stages are done on a best effort: when one
//! fails the committed record stands, the other stage is still attempted, and
//! the outcome says which derived store may be stale.
//!
//! A read asks the cache first. A miss, and a cache that cannot be asked,
//! both lead to the record store, and what is found there is offered to the
//! cache again.
//!
//! The stages are decisions only. Whoever drives them does the work on the
//! stores and reports back what happened.

use vstd::prelude::*;
use crate::cache::{lookup, SnapshotCache};
use crate::error::AncestryError;
use crate::graph::{with_edges, AncestryGraphIndex};
use crate::ident::PersonId;

verus! {

/// How a write ended.
#[derive(Clone, Copy, Debug, PartialEq, Eq, Structural)]
pub enum WriteOutcome {
    /// The record store did not commit. No derived store was touched.
    Rejected,
    /// The record store committed. A derived store whose update failed may
    /// be stale for a while.
    Committed { graph_stale: bool, cache_stale: bool },
}

/// Where a write stands.
#[derive(Clone, Copy, Debug, PartialEq, Eq, Structural)]
pub enum WriteState {
    /// The record store has not answered yet.
    AwaitingCommit,
    /// The record is committed; the graph index has not answered yet.
    AwaitingGraph,
    /// The graph index has answered; the cache has not.
    AwaitingCache { graph_updated: bool },
    /// The write is over.
    Finished(WriteOutcome),
}

/// What a store reported to the driver of a write.
#[derive(Clone, Copy, Debug, PartialEq, Eq, Structural)]
pub enum WriteEvent {
    Committed,
    CommitFailed,
    GraphUpdated,
    GraphFailed,
    CacheInvalidated,
    CacheFailed,
}

/// What the driver of a write has to do next.
#[derive(Clone, Copy, Debug, PartialEq, Eq, Structural)]
pub enum WriteAction {
    /// Commit the change in the record store.
    CommitRecord,
    /// Bring the new edges to the graph index.
    UpdateGraph,
    /// Drop the person's snapshot from the cache.
    InvalidateCache,
    /// Report the outcome; nothing is left to do.
    Finish(WriteOutcome),
}

/// What is to be done in a state of a write.
pub open spec fn write_action(state: WriteState) -> WriteAction {
    match state {
        WriteState::AwaitingCommit => WriteAction::CommitRecord,
        WriteState::AwaitingGraph => WriteAction::UpdateGraph,
        WriteState::AwaitingCache { graph_updated } => WriteAction::InvalidateCache,
        WriteState::Finished(outcome) => WriteAction::Finish(outcome),
    }
}

/// The state of a write after a store reported `event`. A report that the
/// state does not wait for changes nothing.
pub open spec fn write_next(state: WriteState, event: WriteEvent) -> WriteState {
    match (state, event) {
        (WriteState::AwaitingCommit, WriteEvent::Committed) => WriteState::AwaitingGraph,
        (WriteState::AwaitingCommit, WriteEvent::CommitFailed) => WriteState::Finished(
            WriteOutcome::Rejected,
        ),
        (WriteState::AwaitingGraph, WriteEvent::GraphUpdated) => WriteState::AwaitingCache {
            graph_updated: true,
        },
        (WriteState::AwaitingGraph, WriteEvent::GraphFailed) => WriteState::AwaitingCache {
            graph_updated: false,
        },
        (WriteState::AwaitingCache { graph_updated }, WriteEvent::CacheInvalidated) => {
            WriteState::Finished(
                WriteOutcome::Committed { graph_stale: !graph_updated, cache_stale: false },
            )
        },
        (WriteState::AwaitingCache { graph_updated }, WriteEvent::CacheFailed) => {
            WriteState::Finished(
                WriteOutcome::Committed { graph_stale: !graph_updated, cache_stale: true },
            )
        },
        _ => state,
    }
}

/// The state of a write after the stores reported `events` in turn.
pub open spec fn write_run(events: Seq<WriteEvent>) -> WriteState
    decreases events.len(),
{
    if events.len() == 0 {
        WriteState::AwaitingCommit
    } else {
        write_next(write_run(events.drop_last()), events.last())
    }
}

/// The record is committed in this state.
pub open spec fn is_committed(state: WriteState) -> bool {
    match state {
        WriteState::AwaitingCommit => false,
        WriteState::Finished(WriteOutcome::Rejected) => false,
        _ => true,
    }
}

impl WriteState {
    /// The state in which every write begins.
    pub fn begin() -> (state: Self)
        ensures
            state == WriteState::AwaitingCommit,
            state == write_run(Seq::<WriteEvent>::empty()),
    {
        WriteState::AwaitingCommit
    }

    /// What the driver has to do next.
    pub fn action(&self) -> (action: WriteAction)
        ensures
            action == write_action(*self),
    {
        match self {
            WriteState::AwaitingCommit => WriteAction::CommitRecord,
            WriteState::AwaitingGraph => WriteAction::UpdateGraph,
            WriteState::AwaitingCache { graph_updated } => WriteAction::InvalidateCache,
            WriteState::Finished(outcome) => WriteAction::Finish(*outcome),
        }
    }

    /// The state after a store reported `event`.
    pub fn on_event(self, event: WriteEvent) -> (next: Self)
        ensures
            next == write_next(self, event),
    {
        match self {
            WriteState::AwaitingCommit => match event {
                WriteEvent::Committed => WriteState::AwaitingGraph,
                WriteEvent::CommitFailed => WriteState::Finished(WriteOutcome::Rejected),
                _ => self,
            },
            WriteState::AwaitingGraph => match event {
                WriteEvent::GraphUpdated => WriteState::AwaitingCache { graph_updated: true },
                WriteEvent::GraphFailed => WriteState::AwaitingCache { graph_updated: false },
                _ => self,
            },
            WriteState::AwaitingCache { graph_updated } => match event {
                WriteEvent::CacheInvalidated => WriteState::Finished(
                    WriteOutcome::Committed { graph_stale: !graph_updated, cache_stale: false },
                ),
                WriteEvent::CacheFailed => WriteState::Finished(
                    WriteOutcome::Committed { graph_stale: !graph_updated, cache_stale: true },
                ),
                _ => self,
            },
            WriteState::Finished(_) => self,
        }
    }

    /// Whether the write is over.
    pub fn is_finished(&self) -> (over: bool)
        ensures
            over == (*self is Finished),
    {
        match self {
            WriteState::Finished(_) => true,
            _ => false,
        }
    }
}

/// A committed record is never rolled back: whatever is reported after the
/// commit, the write stays committed.
pub proof fn lemma_commit_stands(state: WriteState, event: WriteEvent)
    requires
        is_committed(state),
    ensures
        is_committed(write_next(state, event)),
{
}

/// A finished write stays as it is.
pub proof fn lemma_finished_is_final(outcome: WriteOutcome, event: WriteEvent)
    ensures
        write_next(WriteState::Finished(outcome), event) == WriteState::Finished(outcome),
{
}

/// The derived stores are touched only after the record store has
/// committed: whenever the graph index or the cache is to be updated, or the
/// write ended as committed, a commit was reported before.
pub proof fn lemma_commit_comes_first(events: Seq<WriteEvent>)
    ensures
        is_committed(write_run(events)) ==> events.contains(WriteEvent::Committed),
        is_committed(write_run(events)) <==> write_action(write_run(events))
            == WriteAction::UpdateGraph || write_action(write_run(events))
            == WriteAction::InvalidateCache || (write_run(events) is Finished && write_run(
            events,
        )->Finished_0 is Committed),
    decreases events.len(),
{
    if events.len() > 0 {
        let before = events.drop_last();
        lemma_commit_comes_first(before);
        if is_committed(write_run(events)) {
            if is_committed(write_run(before)) {
                let i = choose|i: int| 0 <= i < before.len() && before[i] == WriteEvent::Committed;
                assert(events[i] == WriteEvent::Committed);
            } else {
                assert(events[events.len() - 1] == WriteEvent::Committed);
            }
        }
    }
}

/// After a rejected commit nothing is asked of the derived stores.
pub proof fn lemma_rejected_touches_nothing(events: Seq<WriteEvent>)
    requires
        events.len() >= 1,
        events[0] == WriteEvent::CommitFailed,
    ensures
        write_run(events) == WriteState::Finished(WriteOutcome::Rejected),
    decreases events.len(),
{
    if events.len() == 1 {
        assert(events.drop_last() =~= Seq::<WriteEvent>::empty());
    } else {
        lemma_rejected_touches_nothing(events.drop_last());
    }
}

/// Does on the library's own graph index and cache what follows a commit:
/// asserts `edges` in the index, then drops the snapshot of `person`.
///
/// The index takes the edges unless it is unavailable, in which case it
/// stays as it was and the outcome says that it may be stale. The snapshot
/// is dropped in either case, so that no lookup of the person finds a
/// snapshot from before the write.
pub fn apply_committed_write<V>(
    index: &mut AncestryGraphIndex,
    cache: &mut SnapshotCache<V>,
    person: PersonId,
    edges: &Vec<(PersonId, PersonId)>,
) -> (outcome: WriteOutcome)
    ensures
        final(index).available() == old(index).available(),
        old(index).available() ==> final(index)@ == with_edges(old(index)@, edges@),
        !old(index).available() ==> final(index)@ == old(index)@,
        final(cache)@ == old(cache)@.remove(person),
        forall|now: u64| lookup(final(cache)@, person, now) is None,
        outcome == (WriteOutcome::Committed {
            graph_stale: !old(index).available(),
            cache_stale: false,
        }),
        outcome == write_run(
            seq![
                WriteEvent::Committed,
                if old(index).available() {
                    WriteEvent::GraphUpdated
                } else {
                    WriteEvent::GraphFailed
                },
                WriteEvent::CacheInvalidated,
            ],
        )->Finished_0,
{
    let state = WriteState::begin().on_event(WriteEvent::Committed);
    let graph_event = match index.apply_edges(edges) {
        Ok(_) => WriteEvent::GraphUpdated,
        Err(_) => WriteEvent::GraphFailed,
    };
    let state = state.on_event(graph_event);
    cache.invalidate(person);
    let state = state.on_event(WriteEvent::CacheInvalidated);
    proof {
        let events = seq![WriteEvent::Committed, graph_event, WriteEvent::CacheInvalidated];
        reveal_with_fuel(write_run, 4);
        assert(events.drop_last() =~= seq![WriteEvent::Committed, graph_event]);
        assert(events.drop_last().drop_last() =~= seq![WriteEvent::Committed]);
        assert(events.drop_last().drop_last().drop_last() =~= Seq::<WriteEvent>::empty());
        assert(write_run(events) == state);
    }
    match state {
        WriteState::Finished(outcome) => outcome,
        _ => WriteOutcome::Rejected,
    }
}

/// How a read ended.
#[derive(Clone, Copy, Debug, PartialEq, Eq, Structural)]
pub enum ReadOutcome {
    /// The cache held a snapshot that may be served.
    ServedFromCache,
    /// The record store held the record. `cached` tells whether the cache
    /// took the new snapshot.
    ServedFromStore { cached: bool },
    /// The record store holds no such person.
    NotFound,
    /// The record store could not be asked.
    StoreFailed,
}

/// Where a read stands.
#[derive(Clone, Copy, Debug, PartialEq, Eq, Structural)]
pub enum ReadState {
    /// The cache has not answered yet.
    AwaitingCache,
    /// The cache had nothing to serve; the record store has not answered yet.
    AwaitingRecord,
    /// The record was found; the cache has not answered the offer yet.
    AwaitingStore,
    /// The read is over.
    Finished(ReadOutcome),
}

/// What a store reported to the driver of a read.
#[derive(Clone, Copy, Debug, PartialEq, Eq, Structural)]
pub enum ReadEvent {
    CacheHit,
    CacheMiss,
    CacheFailed,
    RecordFound,
    RecordMissing,
    RecordFailed,
    SnapshotStored,
    SnapshotStoreFailed,
}

/// What the driver of a read has to do next.
#[derive(Clone, Copy, Debug, PartialEq, Eq, Structural)]
pub enum ReadAction {
    /// Ask the cache for the person's snapshot.
    LookupCache,
    /// Load the person's record from the record store.
    LoadRecord,
    /// Offer the loaded record to the cache.
    StoreSnapshot,
    /// Report the outcome; nothing is left to do.
    Finish(ReadOutcome),
}

/// What is to be done in a state of a read.
pub open spec fn read_action(state: ReadState) -> ReadAction {
    match state {
        ReadState::AwaitingCache => ReadAction::LookupCache,
        ReadState::AwaitingRecord => ReadAction::LoadRecord,
        ReadState::AwaitingStore => ReadAction::StoreSnapshot,
        ReadState::Finished(outcome) => ReadAction::Finish(outcome),
    }
}

/// The state of a read after a store reported `event`. A report that the
/// state does not wait for changes nothing.
pub open spec fn read_next(state: ReadState, event: ReadEvent) -> ReadState {
    match (state, event) {
        (ReadState::AwaitingCache, ReadEvent::CacheHit) => ReadState::Finished(
            ReadOutcome::ServedFromCache,
        ),
        (ReadState::AwaitingCache, ReadEvent::CacheMiss) => ReadState::AwaitingRecord,
        (ReadState::AwaitingCache, ReadEvent::CacheFailed) => ReadState::AwaitingRecord,
        (ReadState::AwaitingRecord, ReadEvent::RecordFound) => ReadState::AwaitingStore,
        (ReadState::AwaitingRecord, ReadEvent::RecordMissing) => ReadState::Finished(
            ReadOutcome::NotFound,
        ),
        (ReadState::AwaitingRecord, ReadEvent::RecordFailed) => ReadState::Finished(
            ReadOutcome::StoreFailed,
        ),
        (ReadState::AwaitingStore, ReadEvent::SnapshotStored) => ReadState::Finished(
            ReadOutcome::ServedFromStore { cached: true },
        ),
        (ReadState::AwaitingStore, ReadEvent::SnapshotStoreFailed) => ReadState::Finished(
            ReadOutcome::ServedFromStore { cached: false },
        ),
        _ => state,
    }
}

impl ReadState {
    /// The state in which every read begins.
    pub fn begin() -> (state: Self)
        ensures
            state == ReadState::AwaitingCache,
    {
        ReadState::AwaitingCache
    }

    /// What the driver has to do next.
    pub fn action(&self) -> (action: ReadAction)
        ensures
            action == read_action(*self),
    {
        match self {
            ReadState::AwaitingCache => ReadAction::LookupCache,
            ReadState::AwaitingRecord => ReadAction::LoadRecord,
            ReadState::AwaitingStore => ReadAction::StoreSnapshot,
            ReadState::Finished(outcome) => ReadAction::Finish(*outcome),
        }
    }

    /// The state after a store reported `event`.
    pub fn on_event(self, event: ReadEvent) -> (next: Self)
        ensures
            next == read_next(self, event),
    {
        match self {
            ReadState::AwaitingCache => match event {
                ReadEvent::CacheHit => ReadState::Finished(ReadOutcome::ServedFromCache),
                ReadEvent::CacheMiss => ReadState::AwaitingRecord,
                ReadEvent::CacheFailed => ReadState::AwaitingRecord,
                _ => self,
            },
            ReadState::AwaitingRecord => match event {
                ReadEvent::RecordFound => ReadState::AwaitingStore,
                ReadEvent::RecordMissing => ReadState::Finished(ReadOutcome::NotFound),
                ReadEvent::RecordFailed => ReadState::Finished(ReadOutcome::StoreFailed),
                _ => self,
            },
            ReadState::AwaitingStore => match event {
                ReadEvent::SnapshotStored => ReadState::Finished(
                    ReadOutcome::ServedFromStore { cached: true },
                ),
                ReadEvent::SnapshotStoreFailed => ReadState::Finished(
                    ReadOutcome::ServedFromStore { cached: false },
                ),
                _ => self,
            },
            ReadState::Finished(_) => self,
        }
    }

    /// Whether the read is over.
    pub fn is_finished(&self) -> (over: bool)
        ensures
            over == (*self is Finished),
    {
        match self {
            ReadState::Finished(_) => true,
            _ => false,
        }
    }
}

impl ReadOutcome {
    /// Whether a record is served.
    pub fn is_served(&self) -> (served: bool)
        ensures
            served == (*self is ServedFromCache || *self is ServedFromStore),
    {
        match self {
            ReadOutcome::ServedFromCache => true,
            ReadOutcome::ServedFromStore { cached } => true,
            _ => false,
        }
    }

    /// The error to report for a read that served no record because the
    /// record store holds no such person. A record store that could not be
    /// asked reports its own failure.
    pub fn absence(&self) -> (error: Option<AncestryError>)
        ensures
            error == (if *self is NotFound {
                Some(AncestryError::NotFound)
            } else {
                None
            }),
    {
        match self {
            ReadOutcome::NotFound => Some(AncestryError::NotFound),
            _ => None,
        }
    }
}

/// A cache that cannot be asked counts as a miss, and a cache that does not
/// take the offered snapshot does not keep the record from being served.
pub proof fn lemma_cache_failure_is_no_error(state: ReadState)
    ensures
        read_next(state, ReadEvent::CacheFailed) == read_next(state, ReadEvent::CacheMiss),
        read_next(ReadState::AwaitingStore, ReadEvent::SnapshotStoreFailed) is Finished,
        read_next(ReadState::AwaitingStore, ReadEvent::SnapshotStoreFailed)->Finished_0
            is ServedFromStore,
{
}

/// Reads the snapshot of `person` from the library's own cache and tells how
/// the read goes on: served from the cache where a snapshot may be served at
/// the time `now`, and on to the record store otherwise.
pub fn read_through_cache<V>(cache: &SnapshotCache<V>, person: PersonId, now: u64) -> (state:
    ReadState)
    ensures
        state == read_next(
            ReadState::AwaitingCache,
            if lookup(cache@, person, now) is Some {
                ReadEvent::CacheHit
            } else {
                ReadEvent::CacheMiss
            },
        ),
{
    let event = match cache.get(person, now) {
        Some(_) => ReadEvent::CacheHit,
        None => ReadEvent::CacheMiss,
    };
    ReadState::begin().on_event(event)
}

} // verus!
