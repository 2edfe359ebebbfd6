//! Enumeration of the ways to climb from a person to an ancestor.
//!
//! The enumeration walks every ascent that starts at the given person and
//! never meets a person twice. Meeting a person a second time on one ascent
//! shows a cycle, which ends the enumeration with
//! [`AncestryError::CyclicAncestry`].

use vstd::prelude::*;
use crate::error::AncestryError;
use crate::graph::AncestryGraphIndex;
use crate::ident::PersonId;
use crate::pedigree::{
    has_cycle_from, is_ascent, is_edge, is_path, lemma_distinct_children_bounded, parents_in,
    well_shaped, Pedigree,
};

verus! {

/// One way to climb from a descendant to an ancestor: the persons met, the
/// descendant first and the ancestor last.
pub struct AncestorPath {
    persons: Vec<PersonId>,
}

impl View for AncestorPath {
    type V = Seq<PersonId>;

    closed spec fn view(&self) -> Seq<PersonId> {
        self.persons@
    }
}

impl AncestorPath {
    /// The number of edges climbed, that is the generational distance.
    pub open spec fn edges(&self) -> nat {
        if self@.len() == 0 {
            0
        } else {
            (self@.len() - 1) as nat
        }
    }

    /// The number of edges climbed, that is the generational distance.
    pub fn generations(&self) -> (n: usize)
        ensures
            n == self.edges(),
    {
        if self.persons.len() == 0 {
            0
        } else {
            self.persons.len() - 1
        }
    }

    /// The persons met, the descendant first and the ancestor last.
    pub fn persons(&self) -> (v: &Vec<PersonId>)
        ensures
            v@ == self@,
    {
        &self.persons
    }
}

/// `path` is one of `paths`.
pub open spec fn lists_path(paths: Seq<AncestorPath>, path: Seq<PersonId>) -> bool {
    exists|i: int| 0 <= i < paths.len() && (#[trigger] paths[i])@ == path
}

/// No path stands twice in `paths`.
pub open spec fn distinct_paths(paths: Seq<AncestorPath>) -> bool {
    forall|i: int, j: int|
        0 <= i < j < paths.len() ==> (#[trigger] paths[i])@ != (#[trigger] paths[j])@
}

/// The paths of `paths`, each as the list of the persons it meets.
pub open spec fn path_views(paths: Seq<AncestorPath>) -> Seq<Seq<PersonId>> {
    paths.map_values(|p: AncestorPath| p@)
}

/// A list of distinct paths names each of its paths once.
pub proof fn lemma_path_views(paths: Seq<AncestorPath>)
    requires
        distinct_paths(paths),
    ensures
        path_views(paths).no_duplicates(),
        forall|path: Seq<PersonId>|
            #![trigger path_views(paths).contains(path)]
            #![trigger lists_path(paths, path)]
            path_views(paths).contains(path) <==> lists_path(paths, path),
{
    let views = path_views(paths);
    assert forall|i: int, j: int| 0 <= i < views.len() && 0 <= j < views.len() && i != j implies views[i]
        != views[j] by {
        if i < j {
            assert(paths[i]@ != paths[j]@);
        } else {
            assert(paths[j]@ != paths[i]@);
        }
    }
    assert forall|path: Seq<PersonId>|
        #![trigger path_views(paths).contains(path)]
        #![trigger lists_path(paths, path)]
        views.contains(path) <==> lists_path(paths, path) by {
        if views.contains(path) {
            let i = choose|i: int| 0 <= i < views.len() && views[i] == path;
            assert(paths[i]@ == path);
        }
        if lists_path(paths, path) {
            let i = choose|i: int| 0 <= i < paths.len() && (#[trigger] paths[i])@ == path;
            assert(views[i] == path);
        }
    }
}

/// `path` is an ascent that begins with all of `trail` and goes on.
pub open spec fn extends(g: Pedigree, trail: Seq<PersonId>, path: Seq<PersonId>) -> bool {
    &&& is_ascent(g, path)
    &&& path.len() > trail.len()
    &&& path.take(trail.len() as int) == trail
}

/// Whether `person` stands in `list`.
pub fn contains_person(list: &Vec<PersonId>, person: PersonId) -> (found: bool)
    ensures
        found == list@.contains(person),
{
    let mut i: usize = 0;
    while i < list.len()
        invariant
            i <= list.len(),
            forall|j: int| 0 <= j < i ==> list[j] != person,
        decreases list.len() - i,
    {
        if list[i] == person {
            return true;
        }
        i = i + 1;
    }
    false
}

/// A copy of `list`.
pub fn copy_persons(list: &Vec<PersonId>) -> (copy: Vec<PersonId>)
    ensures
        copy@ == list@,
{
    let mut copy: Vec<PersonId> = Vec::new();
    let mut i: usize = 0;
    while i < list.len()
        invariant
            i <= list.len(),
            copy@ == list@.take(i as int),
        decreases list.len() - i,
    {
        copy.push(list[i]);
        assert(list@.take(i as int + 1) =~= list@.take(i as int).push(list[i as int]));
        i = i + 1;
    }
    assert(list@.take(list.len() as int) =~= list@);
    copy
}

proof fn lemma_lists_path_concat(a: Seq<AncestorPath>, b: Seq<AncestorPath>, path: Seq<PersonId>)
    ensures
        lists_path(a + b, path) <==> lists_path(a, path) || lists_path(b, path),
{
    let ab = a + b;
    if lists_path(ab, path) {
        let i = choose|i: int| 0 <= i < ab.len() && (#[trigger] ab[i])@ == path;
        if i < a.len() {
            assert(a[i]@ == path);
        } else {
            assert(b[i - a.len()]@ == path);
        }
    }
    if lists_path(a, path) {
        let i = choose|i: int| 0 <= i < a.len() && (#[trigger] a[i])@ == path;
        assert(ab[i]@ == path);
    }
    if lists_path(b, path) {
        let i = choose|i: int| 0 <= i < b.len() && (#[trigger] b[i])@ == path;
        assert(ab[i + a.len()]@ == path);
    }
}

proof fn lemma_distinct_paths_concat(a: Seq<AncestorPath>, b: Seq<AncestorPath>)
    requires
        distinct_paths(a),
        distinct_paths(b),
        forall|path: Seq<PersonId>| !(lists_path(a, path) && lists_path(b, path)),
    ensures
        distinct_paths(a + b),
{
    let ab = a + b;
    assert forall|i: int, j: int| 0 <= i < j < ab.len() implies (#[trigger] ab[i])@
        != (#[trigger] ab[j])@ by {
        if j < a.len() {
            assert(a[i]@ != a[j]@);
        } else if i >= a.len() {
            assert(b[i - a.len()]@ != b[j - a.len()]@);
        } else {
            assert(lists_path(a, a[i]@));
            assert(b[j - a.len()]@ == ab[j]@);
            assert(lists_path(b, b[j - a.len()]@));
        }
    }
}

/// `paths` holds exactly the ascents that begin with all of `trail`, go on
/// through one of `heads` and end at `to`.
spec fn lists_through(
    paths: Seq<AncestorPath>,
    g: Pedigree,
    trail: Seq<PersonId>,
    to: PersonId,
    heads: Seq<PersonId>,
) -> bool {
    &&& forall|path: Seq<PersonId>| #[trigger]
        lists_path(paths, path) ==> extends(g, trail, path) && path.last() == to && heads.contains(
            path[trail.len() as int],
        )
    &&& forall|path: Seq<PersonId>|
        (#[trigger] extends(g, trail, path)) && path.last() == to && heads.contains(
            path[trail.len() as int],
        ) ==> lists_path(paths, path)
}

/// No ascent that begins with all of `trail` and goes on through one of
/// `heads` meets a person twice.
spec fn simple_through(g: Pedigree, trail: Seq<PersonId>, heads: Seq<PersonId>) -> bool {
    forall|path: Seq<PersonId>|
        (#[trigger] extends(g, trail, path)) && heads.contains(path[trail.len() as int])
            ==> path.no_duplicates()
}

/// Every ascent that goes on from `trail` goes on through a parent of the
/// person who ends `trail`.
proof fn lemma_extends_through_parent(g: Pedigree, trail: Seq<PersonId>, path: Seq<PersonId>)
    requires
        trail.len() >= 1,
        extends(g, trail, path),
    ensures
        parents_in(g, trail.last()).contains(path[trail.len() as int]),
{
    let n = trail.len() as int;
    assert(is_edge(g, path[n - 1], path[n - 1 + 1]));
    assert(path.take(n)[n - 1] == path[n - 1]);
}

/// An ascent that goes on from `trail` through `parent` is `trail` with
/// `parent` behind it, or goes on from that.
proof fn lemma_extends_step(
    g: Pedigree,
    trail: Seq<PersonId>,
    parent: PersonId,
    path: Seq<PersonId>,
)
    requires
        extends(g, trail, path),
        path[trail.len() as int] == parent,
    ensures
        path == trail.push(parent) || extends(g, trail.push(parent), path),
{
    let n = trail.len() as int;
    if path.len() == n + 1 {
        assert(path =~= trail.push(parent));
    } else {
        assert(path.take(n + 1) =~= path.take(n).push(parent));
    }
}

/// An ascent that goes on from `trail` with `parent` behind it goes on from
/// `trail` through `parent`.
proof fn lemma_extends_shorter(
    g: Pedigree,
    trail: Seq<PersonId>,
    parent: PersonId,
    path: Seq<PersonId>,
)
    requires
        extends(g, trail.push(parent), path),
    ensures
        extends(g, trail, path),
        path[trail.len() as int] == parent,
{
    let n = trail.len() as int;
    assert(path.take(n) =~= path.take(n + 1).take(n));
    assert(trail.push(parent).take(n) =~= trail);
    assert(path.take(n + 1)[n] == parent);
}

impl AncestryGraphIndex {
    /// Every way to go on climbing from the end of `trail` to `to`, each
    /// reported with `trail` in front.
    fn climb(&self, to: PersonId, trail: &Vec<PersonId>) -> (res: Result<
        Vec<AncestorPath>,
        AncestryError,
    >)
        requires
            self.available(),
            is_ascent(self@, trail@),
            trail@.no_duplicates(),
        ensures
            match res {
                Ok(paths) => {
                    &&& distinct_paths(paths@)
                    &&& lists_through(paths@, self@, trail@, to, parents_in(self@, trail@.last()))
                    &&& simple_through(self@, trail@, parents_in(self@, trail@.last()))
                },
                Err(e) => {
                    &&& e == AncestryError::CyclicAncestry
                    &&& exists|path: Seq<PersonId>| #[trigger]
                        extends(self@, trail@, path) && !path.no_duplicates()
                },
            },
        decreases self.child_count() + 1 - trail.len(),
    {
        let ghost g = self@;
        let ghost n = trail@.len() as int;
        proof {
            self.lemma_well_shaped();
            self.lemma_finite();
        }
        let end = trail[trail.len() - 1];
        let parents = self.recorded_parents(end);
        assert(parents@.len() <= 2 && parents@.no_duplicates()) by {
            if g.contains_key(end) {
            }
        }
        let mut out: Vec<AncestorPath> = Vec::new();
        let mut i: usize = 0;
        assert(parents@.take(0) =~= Seq::<PersonId>::empty());
        while i < parents.len()
            invariant
                self.available(),
                g == self@,
                well_shaped(g),
                g.dom().finite(),
                n == trail@.len(),
                n >= 1,
                is_ascent(g, trail@),
                trail@.no_duplicates(),
                end == trail@[n - 1],
                parents@ == parents_in(g, end),
                parents@.no_duplicates(),
                i <= parents.len(),
                distinct_paths(out@),
                lists_through(out@, g, trail@, to, parents@.take(i as int)),
                simple_through(g, trail@, parents@.take(i as int)),
            decreases parents.len() - i,
        {
            let parent = parents[i];
            let ghost longer_spec = trail@.push(parent);
            let ghost before = out@;
            let ghost taken = parents@.take(i as int);
            let ghost taken_next = parents@.take(i as int + 1);
            proof {
                assert(g.contains_key(end));
                assert(is_edge(g, end, parent));
                assert forall|k: int| 0 <= k < longer_spec.len() - 1 implies is_edge(
                    g,
                    #[trigger] longer_spec[k],
                    longer_spec[k + 1],
                ) by {
                    if k < n - 1 {
                        assert(is_edge(g, trail@[k], trail@[k + 1]));
                    }
                }
                assert(longer_spec.take(n) =~= trail@);
                assert(extends(g, trail@, longer_spec));
                assert(taken_next =~= taken.push(parent));
            }
            if contains_person(trail, parent) {
                proof {
                    let k = choose|k: int| 0 <= k < n && trail@[k] == parent;
                    assert(longer_spec[k] == longer_spec[n]);
                    assert(!longer_spec.no_duplicates());
                }
                return Err(AncestryError::CyclicAncestry);
            }
            let mut longer = copy_persons(trail);
            longer.push(parent);
            assert(longer@ == longer_spec);
            proof {
                // Everyone on the trail has a recorded parent, so the trail
                // is no longer than the pedigree has entries.
                assert forall|k: int| 0 <= k < n implies g.contains_key(#[trigger] trail@[k]) by {
                    if k < n - 1 {
                        assert(is_edge(g, trail@[k], trail@[k + 1]));
                    }
                }
                lemma_distinct_children_bounded(g, trail@);
            }
            let mut here: Vec<AncestorPath> = Vec::new();
            if parent == to {
                here.push(AncestorPath { persons: copy_persons(&longer) });
            }
            let ghost here_spec = here@;
            let mut deeper = match self.climb(to, &longer) {
                Ok(paths) => paths,
                Err(e) => {
                    proof {
                        let path = choose|path: Seq<PersonId>| #[trigger]
                            extends(g, longer@, path) && !path.no_duplicates();
                        lemma_extends_shorter(g, trail@, parent, path);
                    }
                    return Err(e);
                },
            };
            let ghost deeper_spec = deeper@;
            here.append(&mut deeper);
            let ghost added = here@;
            out.append(&mut here);
            proof {
                assert(added == here_spec + deeper_spec);
                assert(out@ == before + added);
                let deeper_heads = parents_in(g, longer_spec.last());
                // What this parent added: the ascents that go on through it.
                assert forall|path: Seq<PersonId>| #[trigger]
                    lists_path(added, path) implies extends(g, trail@, path) && path.last() == to
                    && path[n] == parent by {
                    lemma_lists_path_concat(here_spec, deeper_spec, path);
                    if lists_path(here_spec, path) {
                        assert(here_spec[0]@ == longer_spec);
                    } else {
                        assert(lists_path(deeper_spec, path));
                        assert(extends(g, longer_spec, path));
                        lemma_extends_shorter(g, trail@, parent, path);
                    }
                }
                assert forall|path: Seq<PersonId>|
                    (#[trigger] extends(g, trail@, path)) && path.last() == to && path[n]
                        == parent implies lists_path(added, path) by {
                    lemma_lists_path_concat(here_spec, deeper_spec, path);
                    lemma_extends_step(g, trail@, parent, path);
                    if path == longer_spec {
                        assert(here_spec[0]@ == path);
                    } else {
                        lemma_extends_through_parent(g, longer_spec, path);
                        assert(lists_path(deeper_spec, path));
                    }
                }
                assert(distinct_paths(added)) by {
                    assert forall|path: Seq<PersonId>|
                        !(lists_path(here_spec, path) && lists_path(deeper_spec, path)) by {
                        if lists_path(here_spec, path) && lists_path(deeper_spec, path) {
                            assert(here_spec[0]@ == longer_spec);
                            assert(extends(g, longer_spec, path));
                        }
                    }
                    lemma_distinct_paths_concat(here_spec, deeper_spec);
                }
                assert forall|path: Seq<PersonId>|
                    !(lists_path(before, path) && lists_path(added, path)) by {
                    if lists_path(before, path) && lists_path(added, path) {
                        assert(taken.contains(path[n]));
                        let j = choose|j: int| 0 <= j < taken.len() && taken[j] == path[n];
                        assert(parents@[j] == parents@[i as int]);
                    }
                }
                lemma_distinct_paths_concat(before, added);
                assert forall|path: Seq<PersonId>| #[trigger]
                    lists_path(out@, path) implies extends(g, trail@, path) && path.last() == to
                    && taken_next.contains(path[n]) by {
                    lemma_lists_path_concat(before, added, path);
                    if lists_path(before, path) {
                        assert(taken.contains(path[n]));
                        let j = choose|j: int| 0 <= j < taken.len() && taken[j] == path[n];
                        assert(taken_next[j] == path[n]);
                    } else {
                        assert(lists_path(added, path));
                        assert(taken_next[i as int] == parent);
                    }
                }
                assert forall|path: Seq<PersonId>|
                    (#[trigger] extends(g, trail@, path)) && path.last() == to
                        && taken_next.contains(path[n]) implies lists_path(out@, path) by {
                    lemma_lists_path_concat(before, added, path);
                    let j = choose|j: int| 0 <= j < taken_next.len() && taken_next[j] == path[n];
                    if j < i {
                        assert(taken[j] == path[n]);
                        assert(lists_path(before, path));
                    } else {
                        assert(lists_path(added, path));
                    }
                }
                assert forall|path: Seq<PersonId>|
                    (#[trigger] extends(g, trail@, path)) && taken_next.contains(
                        path[n],
                    ) implies path.no_duplicates() by {
                    let j = choose|j: int| 0 <= j < taken_next.len() && taken_next[j] == path[n];
                    if j < i {
                        assert(taken[j] == path[n]);
                    } else {
                        lemma_extends_step(g, trail@, parent, path);
                        if path != longer_spec {
                            lemma_extends_through_parent(g, longer_spec, path);
                        }
                    }
                }
            }
            i = i + 1;
        }
        proof {
            assert(parents@.take(i as int) =~= parents@);
        }
        Ok(out)
    }

    /// Every way to climb from `from` to `to` over at least one edge, each
    /// once.
    ///
    /// The number of ways can grow exponentially with the number of
    /// generations. The enumeration fails with `CyclicAncestry` exactly when
    /// `from` can reach a cycle.
    pub fn paths_between(&self, from: PersonId, to: PersonId) -> (res: Result<
        Vec<AncestorPath>,
        AncestryError,
    >)
        ensures
            !self.available() ==> res is Err && res->Err_0 == AncestryError::GraphUnavailable,
            self.available() && has_cycle_from(self@, from) ==> res is Err && res->Err_0
                == AncestryError::CyclicAncestry,
            self.available() && !has_cycle_from(self@, from) ==> res is Ok && distinct_paths(
                res->Ok_0@,
            ) && forall|path: Seq<PersonId>|
                lists_path(res->Ok_0@, path) <==> #[trigger] is_path(self@, path, from, to),
    {
        if !self.is_available() {
            return Err(AncestryError::GraphUnavailable);
        }
        let mut trail: Vec<PersonId> = Vec::new();
        trail.push(from);
        let res = self.climb(to, &trail);
        proof {
            let g = self@;
            assert forall|path: Seq<PersonId>| is_ascent(g, path) && path.len() >= 2 && path[0]
                == from implies #[trigger] extends(g, trail@, path) by {
                assert(path.take(1) =~= trail@);
            }
            match res {
                Ok(_) => {
                    let paths = res->Ok_0;
                    assert(!has_cycle_from(g, from)) by {
                        if has_cycle_from(g, from) {
                            let path = choose|path: Seq<PersonId>| #[trigger]
                                is_ascent(g, path) && path[0] == from && !path.no_duplicates();
                            assert(extends(g, trail@, path));
                            lemma_extends_through_parent(g, trail@, path);
                        }
                    }
                    assert forall|path: Seq<PersonId>|
                        lists_path(paths@, path) <==> #[trigger] is_path(g, path, from, to) by {
                        if lists_path(paths@, path) {
                            assert(extends(g, trail@, path));
                            assert(path.take(1)[0] == path[0]);
                        }
                        if is_path(g, path, from, to) {
                            assert(extends(g, trail@, path));
                            lemma_extends_through_parent(g, trail@, path);
                        }
                    }
                },
                Err(_) => {
                    let path = choose|path: Seq<PersonId>| #[trigger]
                        extends(g, trail@, path) && !path.no_duplicates();
                    assert(path.take(1)[0] == path[0]);
                    assert(has_cycle_from(g, from));
                },
            }
        }
        res
    }
}

} // verus!
