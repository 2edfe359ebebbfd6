//! Families in the ancestry graph: the edges that a family stands for, and
//! the lists of children that a family keeps.

use vstd::prelude::*;
use crate::error::AncestryError;
use crate::graph::{parent_list, with_edges, with_parents, AncestryGraphIndex};
use crate::ident::PersonId;
use crate::paths::contains_person;
use crate::pedigree::{parents_in, Pedigree};

verus! {

/// The edges of one child of a family: to the father where one is named,
/// then to the mother where one is named. The child stands first in each
/// pair.
pub open spec fn child_edges(
    child: PersonId,
    father: Option<PersonId>,
    mother: Option<PersonId>,
) -> Seq<(PersonId, PersonId)> {
    (match father {
        Some(f) => seq![(child, f)],
        None => Seq::empty(),
    }) + (match mother {
        Some(m) => seq![(child, m)],
        None => Seq::empty(),
    })
}

/// The edges of a family: those of each child in turn.
pub open spec fn family_edge_list(
    children: Seq<PersonId>,
    father: Option<PersonId>,
    mother: Option<PersonId>,
) -> Seq<(PersonId, PersonId)>
    decreases children.len(),
{
    if children.len() == 0 {
        Seq::empty()
    } else {
        family_edge_list(children.drop_last(), father, mother) + child_edges(
            children.last(),
            father,
            mother,
        )
    }
}

/// The edges that a family with these children and parents stands for.
pub fn family_edges(children: &Vec<PersonId>, father: Option<PersonId>, mother: Option<PersonId>) -> (edges:
    Vec<(PersonId, PersonId)>)
    ensures
        edges@ == family_edge_list(children@, father, mother),
{
    let mut edges: Vec<(PersonId, PersonId)> = Vec::new();
    let mut i: usize = 0;
    assert(children@.take(0) =~= Seq::<PersonId>::empty());
    while i < children.len()
        invariant
            i <= children.len(),
            edges@ == family_edge_list(children@.take(i as int), father, mother),
        decreases children.len() - i,
    {
        let child = children[i];
        let ghost before = edges@;
        match father {
            Some(f) => {
                edges.push((child, f));
            },
            None => {},
        }
        match mother {
            Some(m) => {
                edges.push((child, m));
            },
            None => {},
        }
        proof {
            assert(children@.take(i as int + 1).drop_last() =~= children@.take(i as int));
            assert(edges@ =~= before + child_edges(child, father, mother));
        }
        i = i + 1;
    }
    assert(children@.take(i as int) =~= children@);
    edges
}

/// The pedigree after each of `children` was given `parents` as the whole
/// list of recorded parents.
pub open spec fn with_family(g: Pedigree, children: Seq<PersonId>, parents: Seq<PersonId>) -> Pedigree
    decreases children.len(),
{
    if children.len() == 0 {
        g
    } else {
        with_parents(with_family(g, children.drop_last(), parents), children.last(), parents)
    }
}

/// After each of `children` was given `parents`, each of them has exactly
/// these parents and everybody else the parents as before.
pub proof fn lemma_with_family(
    g: Pedigree,
    children: Seq<PersonId>,
    parents: Seq<PersonId>,
    person: PersonId,
)
    ensures
        parents_in(with_family(g, children, parents), person) == (if children.contains(person) {
            parents
        } else {
            parents_in(g, person)
        }),
    decreases children.len(),
{
    if children.len() > 0 {
        let rest = children.drop_last();
        lemma_with_family(g, rest, parents, person);
        if rest.contains(person) {
            let i = choose|i: int| 0 <= i < rest.len() && rest[i] == person;
            assert(children[i] == person);
        }
        if children.contains(person) && person != children.last() {
            let i = choose|i: int| 0 <= i < children.len() && children[i] == person;
            assert(rest[i] == person);
        }
        if person == children.last() {
            assert(children[children.len() - 1] == person);
        }
        assert(parents.len() == 0 ==> parents =~= Seq::<PersonId>::empty());
    }
}

impl AncestryGraphIndex {
    /// Asserts the edges of a family: from each child to the father and to
    /// the mother, as far as they are named.
    pub fn link_family_edges(
        &mut self,
        children: &Vec<PersonId>,
        father: Option<PersonId>,
        mother: Option<PersonId>,
    ) -> (res: Result<(), AncestryError>)
        ensures
            final(self).available() == old(self).available(),
            !old(self).available() ==> res == Err::<(), AncestryError>(
                AncestryError::GraphUnavailable,
            ) && final(self)@ == old(self)@,
            old(self).available() ==> res is Ok && final(self)@ == with_edges(
                old(self)@,
                family_edge_list(children@, father, mother),
            ),
    {
        let edges = family_edges(children, father, mother);
        self.apply_edges(&edges)
    }

    /// Replaces the parent edges of a family wholesale: every child that the
    /// family had and has no more loses its recorded parents, and every
    /// child that the family has gets exactly the given parents.
    pub fn relink_family(
        &mut self,
        former_children: &Vec<PersonId>,
        children: &Vec<PersonId>,
        father: Option<PersonId>,
        mother: Option<PersonId>,
    ) -> (res: Result<(), AncestryError>)
        ensures
            final(self).available() == old(self).available(),
            !old(self).available() ==> res == Err::<(), AncestryError>(
                AncestryError::GraphUnavailable,
            ) && final(self)@ == old(self)@,
            old(self).available() ==> res is Ok && final(self)@ == with_family(
                with_family(old(self)@, former_children@, Seq::empty()),
                children@,
                parent_list(father, mother),
            ),
    {
        if !self.is_available() {
            return Err(AncestryError::GraphUnavailable);
        }
        let mut i: usize = 0;
        assert(former_children@.take(0) =~= Seq::<PersonId>::empty());
        while i < former_children.len()
            invariant
                i <= former_children.len(),
                self.available(),
                self@ == with_family(old(self)@, former_children@.take(i as int), Seq::empty()),
            decreases former_children.len() - i,
        {
            let _ = self.replace_parents(former_children[i], None, None);
            proof {
                assert(former_children@.take(i as int + 1).drop_last() =~= former_children@.take(
                    i as int,
                ));
                assert(parent_list(None, None) =~= Seq::<PersonId>::empty());
            }
            i = i + 1;
        }
        assert(former_children@.take(i as int) =~= former_children@);
        let ghost cleared = self@;
        let mut k: usize = 0;
        assert(children@.take(0) =~= Seq::<PersonId>::empty());
        while k < children.len()
            invariant
                k <= children.len(),
                self.available(),
                self@ == with_family(cleared, children@.take(k as int), parent_list(father, mother)),
            decreases children.len() - k,
        {
            let _ = self.replace_parents(children[k], father, mother);
            proof {
                assert(children@.take(k as int + 1).drop_last() =~= children@.take(k as int));
            }
            k = k + 1;
        }
        assert(children@.take(k as int) =~= children@);
        Ok(())
    }
}

/// The children of a family with `child` added at the end, unless the
/// family has the child already.
pub fn append_child(children: &Vec<PersonId>, child: PersonId) -> (grown: Vec<PersonId>)
    ensures
        grown@ == (if children@.contains(child) {
            children@
        } else {
            children@.push(child)
        }),
{
    let mut grown: Vec<PersonId> = Vec::new();
    let mut i: usize = 0;
    while i < children.len()
        invariant
            i <= children.len(),
            grown@ == children@.take(i as int),
        decreases children.len() - i,
    {
        grown.push(children[i]);
        assert(children@.take(i as int + 1) =~= children@.take(i as int).push(children[i as int]));
        i = i + 1;
    }
    assert(children@.take(i as int) =~= children@);
    if !contains_person(children, child) {
        grown.push(child);
    }
    grown
}

/// `first` with each of `second` added at the end that is not there yet.
pub open spec fn merged_children(first: Seq<PersonId>, second: Seq<PersonId>) -> Seq<PersonId>
    decreases second.len(),
{
    if second.len() == 0 {
        first
    } else {
        let so_far = merged_children(first, second.drop_last());
        if so_far.contains(second.last()) {
            so_far
        } else {
            so_far.push(second.last())
        }
    }
}

/// Everyone in `first` or in `second`: `first` as it is, then those of
/// `second` that were not met before, in their order.
pub fn merge_children(first: &Vec<PersonId>, second: &Vec<PersonId>) -> (all: Vec<PersonId>)
    ensures
        all@ == merged_children(first@, second@),
{
    let mut all: Vec<PersonId> = Vec::new();
    let mut i: usize = 0;
    while i < first.len()
        invariant
            i <= first.len(),
            all@ == first@.take(i as int),
        decreases first.len() - i,
    {
        all.push(first[i]);
        assert(first@.take(i as int + 1) =~= first@.take(i as int).push(first[i as int]));
        i = i + 1;
    }
    assert(first@.take(i as int) =~= first@);
    let mut k: usize = 0;
    assert(second@.take(0) =~= Seq::<PersonId>::empty());
    while k < second.len()
        invariant
            k <= second.len(),
            all@ == merged_children(first@, second@.take(k as int)),
        decreases second.len() - k,
    {
        let child = second[k];
        proof {
            assert(second@.take(k as int + 1).drop_last() =~= second@.take(k as int));
        }
        if !contains_person(&all, child) {
            all.push(child);
        }
        k = k + 1;
    }
    assert(second@.take(k as int) =~= second@);
    all
}

/// The children of a family without `child`, in the order they had.
pub fn remove_child(children: &Vec<PersonId>, child: PersonId) -> (left: Vec<PersonId>)
    ensures
        left@ == children@.filter(|c: PersonId| c != child),
{
    let mut left: Vec<PersonId> = Vec::new();
    let mut i: usize = 0;
    let ghost keep = |c: PersonId| c != child;
    assert(children@.take(0) =~= Seq::<PersonId>::empty());
    proof {
        reveal(Seq::filter);
    }
    while i < children.len()
        invariant
            i <= children.len(),
            keep == |c: PersonId| c != child,
            left@ == children@.take(i as int).filter(keep),
        decreases children.len() - i,
    {
        let current = children[i];
        if current != child {
            left.push(current);
        }
        proof {
            reveal(Seq::filter);
            assert(children@.take(i as int + 1).drop_last() =~= children@.take(i as int));
        }
        i = i + 1;
    }
    assert(children@.take(i as int) =~= children@);
    left
}

/// How the date of a family event is kept: as an exact date where one is
/// given, as unknown otherwise.
pub fn event_date_kind(has_date: bool) -> (kind: &'static str)
    ensures
        kind@ == (if has_date {
            "exact"@
        } else {
            "unknown"@
        }),
{
    if has_date {
        "exact"
    } else {
        "unknown"
    }
}

} // verus!
