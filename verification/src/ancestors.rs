//! Ancestor sets: everyone within a number of generations, everyone at all,
//! and the ancestors that two persons share.
//!
//! The sets are gathered one generation at a time, so the traversal ends on a
//! pedigree that holds a cycle too.

use vstd::prelude::*;
use crate::error::AncestryError;
use crate::graph::AncestryGraphIndex;
use crate::ident::PersonId;
use crate::paths::contains_person;
use crate::pedigree::{
    climbs_exactly, climbs_to, is_ancestor, is_ancestor_within, is_edge, is_path,
    lemma_ancestor_within_entries, lemma_ascent_push, lemma_ascent_take, well_shaped, Pedigree,
};

verus! {

/// `person` is a recorded parent of one of `children`.
pub open spec fn is_parent_of_some(g: Pedigree, children: Seq<PersonId>, person: PersonId) -> bool {
    exists|j: int| 0 <= j < children.len() && is_edge(g, #[trigger] children[j], person)
}

/// Adds `person` to `seen`, and to `fresh`, unless `seen` holds it.
fn note_person(seen: &mut Vec<PersonId>, fresh: &mut Vec<PersonId>, person: PersonId)
    requires
        old(seen)@.no_duplicates(),
    ensures
        final(seen)@.no_duplicates(),
        old(seen)@.contains(person) ==> final(seen)@ == old(seen)@ && final(fresh)@ == old(fresh)@,
        !old(seen)@.contains(person) ==> final(seen)@ == old(seen)@.push(person) && final(fresh)@
            == old(fresh)@.push(person),
        forall|x: PersonId|
            #![trigger final(seen)@.contains(x)]
            #![trigger old(seen)@.contains(x)]
            final(seen)@.contains(x) <==> old(seen)@.contains(x) || x == person,
{
    if !contains_person(seen, person) {
        seen.push(person);
        fresh.push(person);
        proof {
            let before = old(seen)@;
            assert forall|x: PersonId|
                #![trigger seen@.contains(x)]
                #![trigger before.contains(x)]
                seen@.contains(x) <==> before.contains(x) || x == person by {
                if before.contains(x) {
                    let j = choose|j: int| 0 <= j < before.len() && before[j] == x;
                    assert(seen@[j] == x);
                }
                if x == person {
                    assert(seen@[before.len() as int] == x);
                }
            }
        }
    }
}

impl AncestryGraphIndex {
    /// Adds the parents of everyone in `frontier` to `seen` and returns those
    /// that were not there before.
    fn next_generation(&self, frontier: &Vec<PersonId>, seen: &mut Vec<PersonId>) -> (fresh: Vec<
        PersonId,
    >)
        requires
            self.available(),
            old(seen)@.no_duplicates(),
        ensures
            final(seen)@ == old(seen)@ + fresh@,
            final(seen)@.no_duplicates(),
            forall|x: PersonId|
                #![trigger final(seen)@.contains(x)]
                #![trigger is_parent_of_some(self@, frontier@, x)]
                final(seen)@.contains(x) <==> old(seen)@.contains(x) || is_parent_of_some(
                    self@,
                    frontier@,
                    x,
                ),
    {
        let ghost g = self@;
        let ghost start = seen@;
        let mut fresh: Vec<PersonId> = Vec::new();
        let mut k: usize = 0;
        proof {
            self.lemma_well_shaped();
            assert(seen@ =~= start + fresh@);
        }
        while k < frontier.len()
            invariant
                self.available(),
                g == self@,
                well_shaped(g),
                k <= frontier.len(),
                seen@ == start + fresh@,
                seen@.no_duplicates(),
                forall|x: PersonId|
                    #![trigger seen@.contains(x)]
                    #![trigger is_parent_of_some(g, frontier@.take(k as int), x)]
                    seen@.contains(x) <==> start.contains(x) || is_parent_of_some(
                        g,
                        frontier@.take(k as int),
                        x,
                    ),
            decreases frontier.len() - k,
        {
            let child = frontier[k];
            let parents = self.recorded_parents(child);
            assert(parents@.len() <= 2) by {
                if g.contains_key(child) {
                }
            }
            let ghost before = seen@;
            if parents.len() >= 1 {
                note_person(seen, &mut fresh, parents[0]);
            }
            let ghost mid = seen@;
            let ghost fresh_mid = fresh@;
            if parents.len() >= 2 {
                note_person(seen, &mut fresh, parents[1]);
            }
            proof {
                let done = frontier@.take(k as int);
                let done_next = frontier@.take(k as int + 1);
                assert(done_next =~= done.push(child));
                assert(mid =~= start + fresh_mid);
                assert(seen@ =~= start + fresh@);
                assert forall|x: PersonId|
                    #![trigger seen@.contains(x)]
                    #![trigger before.contains(x)]
                    #![trigger parents@.contains(x)]
                    seen@.contains(x) <==> before.contains(x) || parents@.contains(x) by {
                    assert(mid.contains(x) || !mid.contains(x));
                    if parents@.contains(x) {
                        let i = choose|i: int| 0 <= i < parents@.len() && parents@[i] == x;
                    }
                    if parents.len() >= 1 && x == parents@[0] {
                        assert(parents@.contains(x));
                    }
                    if parents.len() >= 2 && x == parents@[1] {
                        assert(parents@.contains(x));
                    }
                }
                assert forall|x: PersonId|
                    #![trigger seen@.contains(x)]
                    #![trigger is_parent_of_some(g, done_next, x)]
                    seen@.contains(x) <==> start.contains(x) || is_parent_of_some(
                        g,
                        done_next,
                        x,
                    ) by {
                    if is_parent_of_some(g, done, x) {
                        let j = choose|j: int| 0 <= j < done.len() && is_edge(g, #[trigger] done[j], x);
                        assert(is_edge(g, done_next[j], x));
                    }
                    if is_parent_of_some(g, done_next, x) {
                        let j = choose|j: int|
                            0 <= j < done_next.len() && is_edge(g, #[trigger] done_next[j], x);
                        if j < k {
                            assert(is_edge(g, done[j], x));
                            assert(is_parent_of_some(g, done, x));
                            assert(before.contains(x));
                        } else {
                            assert(done_next[j] == child);
                            assert(parents@.contains(x));
                        }
                        assert(seen@.contains(x));
                    }
                    if start.contains(x) {
                        assert(before.contains(x));
                    }
                    if seen@.contains(x) {
                        if before.contains(x) {
                            assert(start.contains(x) || is_parent_of_some(g, done, x));
                        } else {
                            assert(parents@.contains(x));
                            assert(done_next[k as int] == child);
                            assert(is_edge(g, done_next[k as int], x));
                            assert(is_parent_of_some(g, done_next, x));
                        }
                    }
                }
            }
            k = k + 1;
        }
        proof {
            assert(frontier@.take(k as int) =~= frontier@);
        }
        fresh
    }

    /// Everyone within `rounds` generations above `person`.
    fn sweep(&self, person: PersonId, rounds: usize) -> (seen: Vec<PersonId>)
        requires
            self.available(),
        ensures
            seen@.no_duplicates(),
            forall|x: PersonId|
                #![trigger seen@.contains(x)]
                #![trigger is_ancestor_within(self@, person, x, rounds as nat)]
                seen@.contains(x) <==> is_ancestor_within(self@, person, x, rounds as nat),
    {
        let ghost g = self@;
        let mut seen: Vec<PersonId> = Vec::new();
        let mut frontier: Vec<PersonId> = Vec::new();
        frontier.push(person);
        let mut round: usize = 0;
        proof {
            assert forall|x: PersonId| frontier@.contains(x) implies climbs_exactly(
                g,
                person,
                x,
                0,
            ) by {
                assert(climbs_to(g, seq![person], person, x));
            }
            assert forall|x: PersonId| climbs_exactly(g, person, x, 0) implies frontier@.contains(
                x,
            ) by {
                assert(frontier@[0] == person);
            }
        }
        while round < rounds
            invariant
                self.available(),
                g == self@,
                round <= rounds,
                seen@.no_duplicates(),
                forall|x: PersonId|
                    #![trigger seen@.contains(x)]
                    #![trigger is_ancestor_within(g, person, x, round as nat)]
                    seen@.contains(x) <==> is_ancestor_within(g, person, x, round as nat),
                forall|x: PersonId| #[trigger]
                    frontier@.contains(x) ==> climbs_exactly(g, person, x, round as nat),
                forall|x: PersonId| #[trigger]
                    climbs_exactly(g, person, x, round as nat) ==> frontier@.contains(x) || (round
                        >= 1 && is_ancestor_within(g, person, x, (round - 1) as nat)),
            decreases rounds - round,
        {
            let ghost before = seen@;
            let ghost old_frontier = frontier@;
            let ghost r = round as nat;
            let fresh = self.next_generation(&frontier, &mut seen);
            proof {
                // Whoever was added stands one edge above the frontier.
                assert forall|x: PersonId| is_parent_of_some(g, old_frontier, x) implies
                    climbs_exactly(g, person, x, r + 1) && is_ancestor_within(
                    g,
                    person,
                    x,
                    r + 1,
                ) by {
                    let j = choose|j: int|
                        0 <= j < old_frontier.len() && is_edge(g, #[trigger] old_frontier[j], x);
                    let c = old_frontier[j];
                    assert(old_frontier.contains(c));
                    let path = choose|path: Seq<PersonId>| #[trigger]
                        climbs_to(g, path, person, c) && path.len() == r + 1;
                    lemma_ascent_push(g, path, x);
                    let longer = path.push(x);
                    assert(climbs_to(g, longer, person, x) && longer.len() == r + 2);
                    assert(is_path(g, longer, person, x) && longer.len() - 1 <= r + 1);
                }
                assert forall|x: PersonId| is_ancestor_within(g, person, x, r + 1) implies seen@.contains(
                    x,
                ) by {
                    let path = choose|path: Seq<PersonId>| #[trigger]
                        is_path(g, path, person, x) && path.len() - 1 <= r + 1;
                    if path.len() - 1 <= r {
                        assert(is_ancestor_within(g, person, x, r));
                        assert(before.contains(x));
                    } else {
                        let below = path.drop_last();
                        let c = below.last();
                        lemma_ascent_take(g, path, path.len() - 1);
                        assert(climbs_to(g, below, person, c) && below.len() == r + 1);
                        assert(is_edge(g, path[path.len() - 2], path[path.len() - 2 + 1]));
                        assert(is_edge(g, c, x));
                        if old_frontier.contains(c) {
                            let j = choose|j: int| 0 <= j < old_frontier.len() && old_frontier[j] == c;
                            assert(is_edge(g, old_frontier[j], x));
                            assert(is_parent_of_some(g, old_frontier, x));
                        } else {
                            assert(climbs_exactly(g, person, c, r));
                            assert(r >= 1 && is_ancestor_within(g, person, c, (r - 1) as nat));
                            let shorter = choose|shorter: Seq<PersonId>| #[trigger]
                                is_path(g, shorter, person, c) && shorter.len() - 1 <= (r - 1) as nat;
                            lemma_ascent_push(g, shorter, x);
                            let longer = shorter.push(x);
                            assert(is_path(g, longer, person, x) && longer.len() - 1 <= r);
                            assert(is_ancestor_within(g, person, x, r));
                            assert(before.contains(x));
                        }
                    }
                }
                assert forall|x: PersonId| seen@.contains(x) implies is_ancestor_within(
                    g,
                    person,
                    x,
                    r + 1,
                ) by {
                    if before.contains(x) {
                        let path = choose|path: Seq<PersonId>| #[trigger]
                            is_path(g, path, person, x) && path.len() - 1 <= r;
                        assert(is_path(g, path, person, x) && path.len() - 1 <= r + 1);
                    }
                }
                assert forall|x: PersonId| fresh@.contains(x) implies climbs_exactly(
                    g,
                    person,
                    x,
                    r + 1,
                ) by {
                    let i = choose|i: int| 0 <= i < fresh@.len() && fresh@[i] == x;
                    assert(seen@[before.len() + i] == x);
                    assert(!before.contains(x)) by {
                        if before.contains(x) {
                            let b = choose|b: int| 0 <= b < before.len() && before[b] == x;
                            assert(seen@[b] == x);
                        }
                    }
                    assert(seen@.contains(x));
                    assert(is_parent_of_some(g, old_frontier, x));
                }
                assert forall|x: PersonId| climbs_exactly(g, person, x, r + 1) implies
                    fresh@.contains(x) || is_ancestor_within(g, person, x, r) by {
                    let path = choose|path: Seq<PersonId>| #[trigger]
                        climbs_to(g, path, person, x) && path.len() == r + 2;
                    assert(is_path(g, path, person, x) && path.len() - 1 <= r + 1);
                    assert(is_ancestor_within(g, person, x, r + 1));
                    assert(seen@.contains(x));
                    let i = choose|i: int| 0 <= i < seen@.len() && seen@[i] == x;
                    if i < before.len() {
                        assert(before[i] == x);
                        assert(before.contains(x));
                    } else {
                        assert(fresh@[i - before.len()] == x);
                    }
                }
            }
            frontier = fresh;
            round = round + 1;
        }
        seen
    }

    /// Everyone who can be reached from `person` by climbing between one and
    /// `max_generations` edges, each once.
    pub fn ancestors_within_distance(&self, person: PersonId, max_generations: u32) -> (res: Result<
        Vec<PersonId>,
        AncestryError,
    >)
        ensures
            !self.available() ==> res is Err && res->Err_0 == AncestryError::GraphUnavailable,
            self.available() ==> res is Ok && res->Ok_0@.no_duplicates() && forall|x: PersonId|
                #![trigger res->Ok_0@.contains(x)]
                #![trigger is_ancestor_within(self@, person, x, max_generations as nat)]
                res->Ok_0@.contains(x) <==> is_ancestor_within(
                    self@,
                    person,
                    x,
                    max_generations as nat,
                ),
    {
        if !self.is_available() {
            return Err(AncestryError::GraphUnavailable);
        }
        let entries = self.children();
        let rounds: usize = if (max_generations as usize) < entries {
            max_generations as usize
        } else {
            entries
        };
        let seen = self.sweep(person, rounds);
        proof {
            let g = self@;
            self.lemma_finite();
            assert forall|x: PersonId|
                #![trigger seen@.contains(x)]
                #![trigger is_ancestor_within(g, person, x, max_generations as nat)]
                seen@.contains(x) <==> is_ancestor_within(
                    g,
                    person,
                    x,
                    max_generations as nat,
                ) by {
                if seen@.contains(x) {
                    let path = choose|path: Seq<PersonId>| #[trigger]
                        is_path(g, path, person, x) && path.len() - 1 <= rounds as nat;
                    assert(is_path(g, path, person, x) && path.len() - 1 <= max_generations as nat);
                }
                if is_ancestor_within(g, person, x, max_generations as nat) {
                    let path = choose|path: Seq<PersonId>| #[trigger]
                        is_path(g, path, person, x) && path.len() - 1 <= max_generations as nat;
                    if rounds < max_generations {
                        assert(is_ancestor(g, person, x));
                        lemma_ancestor_within_entries(g, person, x);
                    } else {
                        assert(is_path(g, path, person, x) && path.len() - 1 <= rounds as nat);
                    }
                }
            }
        }
        Ok(seen)
    }

    /// Every ancestor of `person`, each once.
    pub fn ancestors_of(&self, person: PersonId) -> (res: Result<Vec<PersonId>, AncestryError>)
        ensures
            !self.available() ==> res is Err && res->Err_0 == AncestryError::GraphUnavailable,
            self.available() ==> res is Ok && res->Ok_0@.no_duplicates() && forall|x: PersonId|
                #![trigger res->Ok_0@.contains(x)]
                #![trigger is_ancestor(self@, person, x)]
                res->Ok_0@.contains(x) <==> is_ancestor(self@, person, x),
    {
        if !self.is_available() {
            return Err(AncestryError::GraphUnavailable);
        }
        let entries = self.children();
        let seen = self.sweep(person, entries);
        proof {
            let g = self@;
            self.lemma_finite();
            assert forall|x: PersonId|
                #![trigger seen@.contains(x)]
                #![trigger is_ancestor(g, person, x)]
                seen@.contains(x) <==> is_ancestor(g, person, x) by {
                if seen@.contains(x) {
                    let path = choose|path: Seq<PersonId>| #[trigger]
                        is_path(g, path, person, x) && path.len() - 1 <= entries as nat;
                    assert(is_path(g, path, person, x));
                }
                if is_ancestor(g, person, x) {
                    lemma_ancestor_within_entries(g, person, x);
                }
            }
        }
        Ok(seen)
    }

    /// Everyone who is an ancestor of both `a` and `b`, each once.
    pub fn common_ancestors(&self, a: PersonId, b: PersonId) -> (res: Result<
        Vec<PersonId>,
        AncestryError,
    >)
        ensures
            !self.available() ==> res is Err && res->Err_0 == AncestryError::GraphUnavailable,
            self.available() ==> res is Ok && res->Ok_0@.no_duplicates() && forall|x: PersonId|
                #![trigger res->Ok_0@.contains(x)]
                #![trigger is_ancestor(self@, a, x)]
                #![trigger is_ancestor(self@, b, x)]
                res->Ok_0@.contains(x) <==> is_ancestor(self@, a, x) && is_ancestor(self@, b, x),
    {
        let above_a = match self.ancestors_of(a) {
            Ok(v) => v,
            Err(e) => {
                return Err(e);
            },
        };
        let above_b = match self.ancestors_of(b) {
            Ok(v) => v,
            Err(e) => {
                return Err(e);
            },
        };
        let mut shared: Vec<PersonId> = Vec::new();
        let mut i: usize = 0;
        while i < above_a.len()
            invariant
                i <= above_a.len(),
                above_a@.no_duplicates(),
                shared@.no_duplicates(),
                forall|x: PersonId|
                    #![trigger shared@.contains(x)]
                    #![trigger above_a@.take(i as int).contains(x)]
                    shared@.contains(x) <==> above_a@.take(i as int).contains(x)
                        && above_b@.contains(x),
            decreases above_a.len() - i,
        {
            let candidate = above_a[i];
            let ghost before = shared@;
            let ghost done = above_a@.take(i as int);
            let ghost done_next = above_a@.take(i as int + 1);
            let keep = contains_person(&above_b, candidate);
            if keep {
                shared.push(candidate);
            }
            proof {
                assert(done_next =~= done.push(candidate));
                assert(!done.contains(candidate)) by {
                    if done.contains(candidate) {
                        let j = choose|j: int| 0 <= j < done.len() && done[j] == candidate;
                        assert(above_a@[j] == above_a@[i as int]);
                    }
                }
                assert forall|x: PersonId|
                    #![trigger shared@.contains(x)]
                    #![trigger done_next.contains(x)]
                    shared@.contains(x) <==> done_next.contains(x) && above_b@.contains(x) by {
                    if done.contains(x) {
                        let j = choose|j: int| 0 <= j < done.len() && done[j] == x;
                        assert(done_next[j] == x);
                    }
                    if done_next.contains(x) {
                        let j = choose|j: int| 0 <= j < done_next.len() && done_next[j] == x;
                        if j < i {
                            assert(done[j] == x);
                        }
                    }
                    if before.contains(x) {
                        let j = choose|j: int| 0 <= j < before.len() && before[j] == x;
                        assert(shared@[j] == x);
                    }
                    if keep {
                        assert(shared@[before.len() as int] == candidate);
                        assert(done_next[i as int] == candidate);
                    }
                    if shared@.contains(x) {
                        let j = choose|j: int| 0 <= j < shared@.len() && shared@[j] == x;
                        if j < before.len() {
                            assert(before[j] == x);
                        }
                    }
                }
            }
            i = i + 1;
        }
        proof {
            assert(above_a@.take(i as int) =~= above_a@);
        }
        Ok(shared)
    }
}

} // verus!
