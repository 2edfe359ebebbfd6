//! The ancestry graph index: a queryable record of "is-child-of" edges.
//!
//! The index mirrors the parent links of the authoritative record store. It
//! holds at most two parents per child, in the order in which they were
//! asserted: the first is by convention the father, the second the mother.
//! While the index is marked unreachable every operation fails with
//! [`AncestryError::GraphUnavailable`] and changes nothing.

use std::collections::HashMap;
use vstd::prelude::*;
use crate::error::AncestryError;
use crate::ident::{lemma_persons_counted, PersonId};
use crate::pedigree::{parents_in, well_shaped, Pedigree};

verus! {

broadcast use vstd::std_specs::hash::group_hash_axioms;

/// The recorded parents of one child.
#[derive(Clone, Copy)]
struct ParentLinks {
    first: PersonId,
    second: Option<PersonId>,
}

impl ParentLinks {
    /// The parents as a list. A second link that repeats the first is not a
    /// second parent.
    spec fn listed(self) -> Seq<PersonId> {
        match self.second {
            Some(other) => if other == self.first {
                seq![self.first]
            } else {
                seq![self.first, other]
            },
            None => seq![self.first],
        }
    }
}

/// What [`AncestryGraphIndex::upsert_edge`] did.
#[derive(Clone, Copy, Debug, PartialEq, Eq, Structural)]
pub enum EdgeOutcome {
    /// The edge was new and is now recorded.
    Inserted,
    /// The edge was already recorded.
    AlreadyPresent,
    /// The child already has two other parents; nothing was recorded.
    ParentsFull,
}

/// An index of "is-child-of" edges between persons.
pub struct AncestryGraphIndex {
    links: HashMap<u128, ParentLinks>,
    reachable: bool,
}

impl View for AncestryGraphIndex {
    type V = Pedigree;

    closed spec fn view(&self) -> Pedigree {
        Map::new(
            |p: PersonId| self.links@.contains_key(p.0),
            |p: PersonId| self.links@[p.0].listed(),
        )
    }
}

impl AncestryGraphIndex {
    /// Whether the index can be consulted.
    pub closed spec fn available(&self) -> bool {
        self.reachable
    }

    /// The number of persons with at least one recorded parent.
    pub open spec fn child_count(&self) -> nat {
        self@.dom().len()
    }

    /// The model of any index has finitely many entries.
    pub proof fn lemma_finite(&self)
        ensures
            self@.dom().finite(),
            self.child_count() <= usize::MAX,
    {
        lemma_persons_counted(self.links@.dom(), self@.dom());
        assert(self.links.len() == self.links@.dom().len());
    }

    /// The model of any index is well shaped.
    pub proof fn lemma_well_shaped(&self)
        ensures
            well_shaped(self@),
    {
        assert forall|p: PersonId| #[trigger] self@.contains_key(p) implies 1 <= self@[p].len() <= 2
            && self@[p].no_duplicates() by {
            let l = self.links@[p.0];
            assert(self@[p] == l.listed());
        }
    }

    /// An empty index that can be consulted.
    pub fn new() -> (index: Self)
        ensures
            index@ == Map::<PersonId, Seq<PersonId>>::empty(),
            index.available(),
    {
        let index = AncestryGraphIndex { links: HashMap::new(), reachable: true };
        assert(index@ =~= Map::<PersonId, Seq<PersonId>>::empty());
        index
    }

    /// The number of persons with at least one recorded parent.
    pub fn children(&self) -> (n: usize)
        ensures
            n == self.child_count(),
    {
        proof {
            lemma_persons_counted(self.links@.dom(), self@.dom());
        }
        self.links.len()
    }

    /// Whether the index can be consulted.
    pub fn is_available(&self) -> (r: bool)
        ensures
            r == self.available(),
    {
        self.reachable
    }

    /// Records whether the backing store can be reached. The edges stay as
    /// they are.
    pub fn set_available(&mut self, reachable: bool)
        ensures
            final(self)@ == old(self)@,
            final(self).available() == reachable,
    {
        self.reachable = reachable;
    }

    /// The recorded parents of `person`, father slot first, whether or not
    /// the index is marked available.
    pub(crate) fn recorded_parents(&self, person: PersonId) -> (parents: Vec<PersonId>)
        ensures
            parents@ == parents_in(self@, person),
    {
        let mut out: Vec<PersonId> = Vec::new();
        match self.links.get(&person.0) {
            Some(l) => {
                out.push(l.first);
                match l.second {
                    Some(other) => {
                        if other != l.first {
                            out.push(other);
                        }
                    },
                    None => {},
                }
                assert(out@ =~= l.listed());
            },
            None => {
                assert(out@ =~= Seq::<PersonId>::empty());
            },
        }
        out
    }

    /// The recorded parents of `person`, father slot first.
    pub fn parents_of(&self, person: PersonId) -> (res: Result<Vec<PersonId>, AncestryError>)
        ensures
            !self.available() ==> res == Err::<Vec<PersonId>, AncestryError>(
                AncestryError::GraphUnavailable,
            ),
            self.available() ==> res is Ok && res->Ok_0@ == parents_in(self@, person),
    {
        if !self.reachable {
            return Err(AncestryError::GraphUnavailable);
        }
        Ok(self.recorded_parents(person))
    }

    /// Asserts the edge from `child` to `parent`. Asserting an edge that is
    /// already recorded changes nothing and is no error. A child keeps at most
    /// two parents: a third is not recorded.
    pub fn upsert_edge(&mut self, child: PersonId, parent: PersonId) -> (res: Result<
        EdgeOutcome,
        AncestryError,
    >)
        ensures
            final(self).available() == old(self).available(),
            !old(self).available() ==> res == Err::<EdgeOutcome, AncestryError>(
                AncestryError::GraphUnavailable,
            ) && final(self)@ == old(self)@,
            old(self).available() ==> res is Ok && res->Ok_0 == upsert_outcome(
                old(self)@,
                child,
                parent,
            ) && final(self)@ == with_edge(old(self)@, child, parent),
    {
        if !self.reachable {
            return Err(AncestryError::GraphUnavailable);
        }
        let current: Option<ParentLinks> = match self.links.get(&child.0) {
            Some(l) => Some(*l),
            None => None,
        };
        match current {
            None => {
                self.links.insert(child.0, ParentLinks { first: parent, second: None });
                assert(self@ =~~= with_edge(old(self)@, child, parent));
                Ok(EdgeOutcome::Inserted)
            },
            Some(l) => {
                assert(old(self)@[child] == l.listed());
                if l.first == parent {
                    assert(l.listed()[0] == parent);
                    Ok(EdgeOutcome::AlreadyPresent)
                } else {
                    let single: bool = match l.second {
                        Some(other) => other == l.first,
                        None => true,
                    };
                    if single {
                        self.links.insert(child.0, ParentLinks { first: l.first, second: Some(parent) });
                        assert(self@ =~~= with_edge(old(self)@, child, parent));
                        Ok(EdgeOutcome::Inserted)
                    } else if l.second == Some(parent) {
                        assert(l.listed()[1] == parent);
                        Ok(EdgeOutcome::AlreadyPresent)
                    } else {
                        assert(l.listed().len() == 2);
                        Ok(EdgeOutcome::ParentsFull)
                    }
                }
            },
        }
    }

    /// Replaces all recorded parents of `child` by the given ones, the
    /// father slot first. With neither given the child has no recorded
    /// parent afterwards.
    pub fn replace_parents(
        &mut self,
        child: PersonId,
        father: Option<PersonId>,
        mother: Option<PersonId>,
    ) -> (res: Result<(), AncestryError>)
        ensures
            final(self).available() == old(self).available(),
            !old(self).available() ==> res == Err::<(), AncestryError>(
                AncestryError::GraphUnavailable,
            ) && final(self)@ == old(self)@,
            old(self).available() ==> res is Ok && final(self)@ == with_parents(
                old(self)@,
                child,
                parent_list(father, mother),
            ),
    {
        if !self.reachable {
            return Err(AncestryError::GraphUnavailable);
        }
        match father {
            Some(f) => {
                self.links.insert(child.0, ParentLinks { first: f, second: mother });
            },
            None => {
                match mother {
                    Some(m) => {
                        self.links.insert(child.0, ParentLinks { first: m, second: None });
                    },
                    None => {
                        self.links.remove(&child.0);
                    },
                }
            },
        }
        assert(self@ =~~= with_parents(old(self)@, child, parent_list(father, mother)));
        Ok(())
    }

    /// Asserts each of `edges` in turn, the child first in each pair.
    pub fn apply_edges(&mut self, edges: &Vec<(PersonId, PersonId)>) -> (res: Result<
        (),
        AncestryError,
    >)
        ensures
            final(self).available() == old(self).available(),
            !old(self).available() ==> res == Err::<(), AncestryError>(
                AncestryError::GraphUnavailable,
            ) && final(self)@ == old(self)@,
            old(self).available() ==> res is Ok && final(self)@ == with_edges(old(self)@, edges@),
    {
        if !self.reachable {
            return Err(AncestryError::GraphUnavailable);
        }
        let mut i: usize = 0;
        assert(edges@.take(0) =~= Seq::<(PersonId, PersonId)>::empty());
        while i < edges.len()
            invariant
                i <= edges.len(),
                self.available(),
                old(self).available(),
                self@ == with_edges(old(self)@, edges@.take(i as int)),
            decreases edges.len() - i,
        {
            let (child, parent) = edges[i];
            let _ = self.upsert_edge(child, parent);
            proof {
                assert(edges@.take(i as int + 1).drop_last() =~= edges@.take(i as int));
            }
            i = i + 1;
        }
        assert(edges@.take(i as int) =~= edges@);
        Ok(())
    }
}

/// The parents to record for a child whose family names this father and
/// this mother: the father first, and one person only once.
pub open spec fn parent_list(father: Option<PersonId>, mother: Option<PersonId>) -> Seq<PersonId> {
    match (father, mother) {
        (Some(f), Some(m)) => if f == m {
            seq![f]
        } else {
            seq![f, m]
        },
        (Some(f), None) => seq![f],
        (None, Some(m)) => seq![m],
        (None, None) => Seq::empty(),
    }
}

/// The pedigree with the parents of `child` replaced by `parents`.
pub open spec fn with_parents(g: Pedigree, child: PersonId, parents: Seq<PersonId>) -> Pedigree {
    if parents.len() == 0 {
        g.remove(child)
    } else {
        g.insert(child, parents)
    }
}

/// The pedigree after asserting each of `edges` in turn.
pub open spec fn with_edges(g: Pedigree, edges: Seq<(PersonId, PersonId)>) -> Pedigree
    decreases edges.len(),
{
    if edges.len() == 0 {
        g
    } else {
        with_edge(with_edges(g, edges.drop_last()), edges.last().0, edges.last().1)
    }
}

/// Asserting an edge makes the parent one of the child's recorded parents,
/// unless the child has two others.
pub proof fn lemma_upsert_records(g: Pedigree, child: PersonId, parent: PersonId)
    ensures
        upsert_outcome(g, child, parent) != EdgeOutcome::ParentsFull ==> parents_in(
            with_edge(g, child, parent),
            child,
        ).contains(parent),
        forall|other: PersonId|
            other != child ==> parents_in(with_edge(g, child, parent), other) == parents_in(
                g,
                other,
            ),
{
    if upsert_outcome(g, child, parent) == EdgeOutcome::Inserted {
        let list = parents_in(g, child).push(parent);
        assert(list[list.len() - 1] == parent);
    }
}

/// Once a write that asserts one edge has reached the index, the parent is
/// among the child's recorded parents, unless the child had two others.
pub proof fn lemma_asserted_edge_is_seen(g: Pedigree, child: PersonId, parent: PersonId)
    ensures
        with_edges(g, seq![(child, parent)]) == with_edge(g, child, parent),
        parents_in(g, child).len() < 2 ==> parents_in(
            with_edges(g, seq![(child, parent)]),
            child,
        ).contains(parent),
{
    let edges = seq![(child, parent)];
    assert(edges.drop_last() =~= Seq::<(PersonId, PersonId)>::empty());
    assert(with_edges(g, edges.drop_last()) == g);
    lemma_upsert_records(g, child, parent);
}

/// Asserting an edge a second time changes nothing.
pub proof fn lemma_upsert_idempotent(g: Pedigree, child: PersonId, parent: PersonId)
    ensures
        with_edge(with_edge(g, child, parent), child, parent) == with_edge(g, child, parent),
{
    lemma_upsert_records(g, child, parent);
}

/// Asserting an edge keeps a well shaped pedigree well shaped.
pub proof fn lemma_upsert_keeps_shape(g: Pedigree, child: PersonId, parent: PersonId)
    requires
        well_shaped(g),
    ensures
        well_shaped(with_edge(g, child, parent)),
{
    let after = with_edge(g, child, parent);
    assert forall|p: PersonId| #[trigger] after.contains_key(p) implies 1 <= after[p].len() <= 2
        && after[p].no_duplicates() by {
        if p == child && upsert_outcome(g, child, parent) == EdgeOutcome::Inserted {
            if g.contains_key(child) {
                assert(g[child].len() == 1);
            }
        } else {
            assert(g.contains_key(p));
        }
    }
}

/// What asserting the edge from `child` to `parent` does to a pedigree.
pub open spec fn upsert_outcome(g: Pedigree, child: PersonId, parent: PersonId) -> EdgeOutcome {
    if parents_in(g, child).contains(parent) {
        EdgeOutcome::AlreadyPresent
    } else if parents_in(g, child).len() >= 2 {
        EdgeOutcome::ParentsFull
    } else {
        EdgeOutcome::Inserted
    }
}

/// The pedigree after asserting the edge from `child` to `parent`: the edge is
/// appended to the child's parents unless it is there or two others are.
pub open spec fn with_edge(g: Pedigree, child: PersonId, parent: PersonId) -> Pedigree {
    if upsert_outcome(g, child, parent) == EdgeOutcome::Inserted {
        g.insert(child, parents_in(g, child).push(parent))
    } else {
        g
    }
}

} // verus!
