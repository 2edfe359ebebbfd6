//! The snapshot cache: time-bounded copies of person records.
//!
//! The cache is an optimisation and never a source of truth. A snapshot is
//! served for as long as its time to live lasts, counted from the moment it
//! was stored, and is dropped at once when its person is written to. The
//! cache has no clock of its own: every call that depends on time is told
//! the time.

use std::collections::HashMap;
use vstd::prelude::*;
use crate::ident::{lemma_persons_counted, PersonId};

verus! {

broadcast use vstd::std_specs::hash::group_hash_axioms;

/// How long a snapshot of a person is served, in seconds.
pub const SNAPSHOT_TTL_SECS: u64 = 3600;

/// A copy of a person's record with the time it was stored and the time it
/// may be served.
pub struct CachedSnapshot<V> {
    /// The copied record.
    pub payload: V,
    /// When the copy was stored, in seconds.
    pub stored_at: u64,
    /// For how many seconds from then the copy may be served.
    pub ttl: u64,
}

impl<V> CachedSnapshot<V> {
    /// Whether the copy may be served at the time `now`: less than its time
    /// to live has passed since it was stored.
    pub open spec fn fresh_at(&self, now: u64) -> bool {
        now < self.stored_at || now - self.stored_at < self.ttl
    }

    /// Whether the copy may be served at the time `now`.
    pub fn is_fresh(&self, now: u64) -> (fresh: bool)
        ensures
            fresh == self.fresh_at(now),
    {
        now < self.stored_at || now - self.stored_at < self.ttl
    }
}

/// What a lookup of `person` at the time `now` finds in the entries `m`.
pub open spec fn lookup<V>(m: Map<PersonId, CachedSnapshot<V>>, person: PersonId, now: u64) -> Option<
    CachedSnapshot<V>,
> {
    if m.contains_key(person) && m[person].fresh_at(now) {
        Some(m[person])
    } else {
        None
    }
}

/// A cache of person snapshots, keyed by person.
pub struct SnapshotCache<V> {
    entries: HashMap<u128, CachedSnapshot<V>>,
}

impl<V> View for SnapshotCache<V> {
    type V = Map<PersonId, CachedSnapshot<V>>;

    closed spec fn view(&self) -> Map<PersonId, CachedSnapshot<V>> {
        Map::new(|p: PersonId| self.entries@.contains_key(p.0), |p: PersonId| self.entries@[p.0])
    }
}

impl<V> SnapshotCache<V> {
    /// An empty cache.
    pub fn new() -> (cache: Self)
        ensures
            cache@ == Map::<PersonId, CachedSnapshot<V>>::empty(),
    {
        let cache = SnapshotCache { entries: HashMap::new() };
        assert(cache@ =~= Map::<PersonId, CachedSnapshot<V>>::empty());
        cache
    }

    /// The snapshot of `person` that may be served at the time `now`, if
    /// there is one. A miss is no error.
    pub fn get(&self, person: PersonId, now: u64) -> (found: Option<&CachedSnapshot<V>>)
        ensures
            match found {
                Some(snapshot) => lookup(self@, person, now) == Some(*snapshot),
                None => lookup(self@, person, now) is None,
            },
    {
        match self.entries.get(&person.0) {
            Some(snapshot) => {
                if snapshot.is_fresh(now) {
                    Some(snapshot)
                } else {
                    None
                }
            },
            None => None,
        }
    }

    /// Stores `payload` as the snapshot of `person`, to be served for `ttl`
    /// seconds from `now`. Whatever was stored for the person is replaced.
    pub fn put(&mut self, person: PersonId, payload: V, ttl: u64, now: u64)
        ensures
            final(self)@ == old(self)@.insert(
                person,
                (CachedSnapshot { payload, stored_at: now, ttl }),
            ),
    {
        self.entries.insert(person.0, CachedSnapshot { payload, stored_at: now, ttl });
        assert(self@ =~= old(self)@.insert(
            person,
            (CachedSnapshot { payload, stored_at: now, ttl }),
        ));
    }

    /// Drops the snapshot of `person`. Nothing happens where none is
    /// stored. Tells whether one was stored.
    pub fn invalidate(&mut self, person: PersonId) -> (dropped: bool)
        ensures
            final(self)@ == old(self)@.remove(person),
            dropped == old(self)@.contains_key(person),
    {
        let dropped = self.entries.remove(&person.0).is_some();
        assert(self@ =~= old(self)@.remove(person));
        dropped
    }

    /// How many snapshots are stored, served or not.
    pub fn len(&self) -> (n: usize)
        ensures
            n == self@.dom().len(),
    {
        proof {
            lemma_persons_counted(self.entries@.dom(), self@.dom());
        }
        self.entries.len()
    }
}

/// After a person's snapshot is dropped, every lookup of that person misses,
/// at whatever time, and every other person is found as before.
pub proof fn lemma_invalidate_then_miss<V>(
    m: Map<PersonId, CachedSnapshot<V>>,
    person: PersonId,
    other: PersonId,
    now: u64,
)
    ensures
        lookup(m.remove(person), person, now) is None,
        other != person ==> lookup(m.remove(person), other, now) == lookup(m, other, now),
{
}

/// After a snapshot is stored, a lookup of its person finds that snapshot or
/// nothing, never an older one: it finds the snapshot exactly while less
/// than the time to live has passed.
pub proof fn lemma_put_then_newest<V>(
    m: Map<PersonId, CachedSnapshot<V>>,
    person: PersonId,
    payload: V,
    ttl: u64,
    stored_at: u64,
    now: u64,
)
    ensures
        ({
            let snapshot = CachedSnapshot { payload, stored_at, ttl };
            let found = lookup(m.insert(person, snapshot), person, now);
            &&& found is Some ==> found == Some(snapshot)
            &&& found is Some <==> (now < stored_at || now - stored_at < ttl)
        }),
{
}

} // verus!
