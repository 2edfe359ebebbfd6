//! The mathematical model of an ancestry graph.
//!
//! A pedigree maps a person to the ordered list of that person's recorded
//! parents. A person without an entry has no recorded parent. Everything else
//! in this library is stated over this model.

use vstd::prelude::*;
use crate::ident::PersonId;

verus! {

/// Child to recorded parents, in the order in which they were recorded.
pub type Pedigree = Map<PersonId, Seq<PersonId>>;

/// The recorded parents of `person`: none, one or two, never twice the same.
pub open spec fn parents_in(g: Pedigree, person: PersonId) -> Seq<PersonId> {
    if g.contains_key(person) {
        g[person]
    } else {
        Seq::empty()
    }
}

/// Every entry lists one or two distinct parents.
pub open spec fn well_shaped(g: Pedigree) -> bool {
    forall|p: PersonId| #[trigger]
        g.contains_key(p) ==> 1 <= g[p].len() <= 2 && g[p].no_duplicates()
}

/// `parent` is a recorded parent of `child`.
pub open spec fn is_edge(g: Pedigree, child: PersonId, parent: PersonId) -> bool {
    parents_in(g, child).contains(parent)
}

/// `path` climbs the pedigree: each person in it is followed by one of their
/// recorded parents. A single person is an ascent of no edge.
pub open spec fn is_ascent(g: Pedigree, path: Seq<PersonId>) -> bool {
    &&& path.len() >= 1
    &&& forall|i: int| 0 <= i < path.len() - 1 ==> is_edge(g, #[trigger] path[i], path[i + 1])
}

/// `path` climbs from `from` to `to` over at least one edge.
pub open spec fn is_path(g: Pedigree, path: Seq<PersonId>, from: PersonId, to: PersonId) -> bool {
    &&& is_ascent(g, path)
    &&& path.len() >= 2
    &&& path[0] == from
    &&& path.last() == to
}

/// `ancestor` can be reached from `person` by climbing at least one edge.
pub open spec fn is_ancestor(g: Pedigree, person: PersonId, ancestor: PersonId) -> bool {
    exists|path: Seq<PersonId>| is_path(g, path, person, ancestor)
}

/// `ancestor` can be reached from `person` by climbing between one and
/// `generations` edges.
pub open spec fn is_ancestor_within(
    g: Pedigree,
    person: PersonId,
    ancestor: PersonId,
    generations: nat,
) -> bool {
    exists|path: Seq<PersonId>| #[trigger]
        is_path(g, path, person, ancestor) && path.len() - 1 <= generations
}

/// Some ascent that starts at `person` meets the same person twice: the
/// pedigree holds a cycle that `person` can reach.
pub open spec fn has_cycle_from(g: Pedigree, person: PersonId) -> bool {
    exists|path: Seq<PersonId>| #[trigger]
        is_ascent(g, path) && path[0] == person && !path.no_duplicates()
}

/// Everyone who can be reached from `person` by climbing at least one edge.
pub open spec fn ancestor_set(g: Pedigree, person: PersonId) -> Set<PersonId> {
    Set::new(|a: PersonId| is_ancestor(g, person, a))
}

/// Everyone who is an ancestor of both `a` and `b`.
pub open spec fn common_ancestor_set(g: Pedigree, a: PersonId, b: PersonId) -> Set<PersonId> {
    Set::new(|x: PersonId| is_ancestor(g, a, x) && is_ancestor(g, b, x))
}

/// Every way to climb from `from` to `to`.
pub open spec fn path_set(g: Pedigree, from: PersonId, to: PersonId) -> Set<Seq<PersonId>> {
    Set::new(|path: Seq<PersonId>| is_path(g, path, from, to))
}

/// `path` climbs from `person` and ends at `at`, over any number of edges.
pub open spec fn climbs_to(g: Pedigree, path: Seq<PersonId>, person: PersonId, at: PersonId) -> bool {
    &&& is_ascent(g, path)
    &&& path[0] == person
    &&& path.last() == at
}

/// Distinct persons who all have a recorded parent are no more than the
/// pedigree has entries.
pub proof fn lemma_distinct_children_bounded(g: Pedigree, s: Seq<PersonId>)
    requires
        g.dom().finite(),
        s.no_duplicates(),
        forall|i: int| 0 <= i < s.len() ==> g.contains_key(#[trigger] s[i]),
    ensures
        s.len() <= g.dom().len(),
{
    s.unique_seq_to_set();
    assert(s.to_set().subset_of(g.dom())) by {
        assert forall|p: PersonId| s.to_set().contains(p) implies g.dom().contains(p) by {
            let i = choose|i: int| 0 <= i < s.len() && s[i] == p;
            assert(g.contains_key(s[i]));
        }
    }
    vstd::set_lib::lemma_len_subset(s.to_set(), g.dom());
}

/// A shorter ascent lies inside every ascent: what is left after the first
/// `n` persons still climbs.
pub proof fn lemma_ascent_skip(g: Pedigree, path: Seq<PersonId>, n: int)
    requires
        is_ascent(g, path),
        0 <= n < path.len(),
    ensures
        is_ascent(g, path.skip(n)),
{
    let rest = path.skip(n);
    assert forall|i: int| 0 <= i < rest.len() - 1 implies is_edge(g, #[trigger] rest[i], rest[i + 1]) by {
        assert(is_edge(g, path[i + n], path[i + n + 1]));
    }
}

/// The first `n` persons of an ascent climb too.
pub proof fn lemma_ascent_take(g: Pedigree, path: Seq<PersonId>, n: int)
    requires
        is_ascent(g, path),
        1 <= n <= path.len(),
    ensures
        is_ascent(g, path.take(n)),
{
    let head = path.take(n);
    assert forall|i: int| 0 <= i < head.len() - 1 implies is_edge(g, #[trigger] head[i], head[i + 1]) by {
        assert(is_edge(g, path[i], path[i + 1]));
    }
}

/// Two ascents join where the first ends at the person with whom the second
/// starts.
pub proof fn lemma_ascent_join(g: Pedigree, a: Seq<PersonId>, b: Seq<PersonId>)
    requires
        is_ascent(g, a),
        is_ascent(g, b),
        a.last() == b[0],
    ensures
        is_ascent(g, a + b.skip(1)),
        (a + b.skip(1)).len() == a.len() + b.len() - 1,
        (a + b.skip(1))[0] == a[0],
        (a + b.skip(1)).last() == b.last(),
{
    let joined = a + b.skip(1);
    assert forall|i: int| 0 <= i < joined.len() - 1 implies is_edge(
        g,
        #[trigger] joined[i],
        joined[i + 1],
    ) by {
        if i < a.len() - 1 {
            assert(is_edge(g, a[i], a[i + 1]));
        } else {
            let j = i - (a.len() - 1);
            assert(is_edge(g, b[j], b[j + 1]));
            if j == 0 {
                assert(joined[i] == a.last());
            } else {
                assert(joined[i] == b[j]);
            }
            assert(joined[i + 1] == b[j + 1]);
        }
    }
}

/// `at` ends an ascent of exactly `edges` edges that starts at `person`.
pub open spec fn climbs_exactly(g: Pedigree, person: PersonId, at: PersonId, edges: nat) -> bool {
    exists|path: Seq<PersonId>| #[trigger]
        climbs_to(g, path, person, at) && path.len() == edges + 1
}

/// An ascent goes on by one edge to a parent of the person who ends it.
pub proof fn lemma_ascent_push(g: Pedigree, path: Seq<PersonId>, parent: PersonId)
    requires
        is_ascent(g, path),
        is_edge(g, path.last(), parent),
    ensures
        is_ascent(g, path.push(parent)),
{
    let longer = path.push(parent);
    assert forall|i: int| 0 <= i < longer.len() - 1 implies is_edge(
        g,
        #[trigger] longer[i],
        longer[i + 1],
    ) by {
        if i < path.len() - 1 {
            assert(is_edge(g, path[i], path[i + 1]));
        }
    }
}

/// Between two persons joined by an ascent of at least one edge there is one
/// that meets no person twice before its end.
pub proof fn lemma_shorten(g: Pedigree, path: Seq<PersonId>) -> (short: Seq<PersonId>)
    requires
        is_ascent(g, path),
        path.len() >= 2,
    ensures
        is_ascent(g, short),
        2 <= short.len() <= path.len(),
        short[0] == path[0],
        short.last() == path.last(),
        short.drop_last().no_duplicates(),
    decreases path.len(),
{
    let body = path.drop_last();
    if body.no_duplicates() {
        path
    } else {
        let (i, j) = choose|i: int, j: int|
            0 <= i < body.len() && 0 <= j < body.len() && i != j && body[i] == body[j];
        let (lo, hi) = if i < j {
            (i, j)
        } else {
            (j, i)
        };
        let head = path.take(lo + 1);
        let tail = path.skip(hi);
        lemma_ascent_take(g, path, lo + 1);
        lemma_ascent_skip(g, path, hi);
        assert(head.last() == body[lo]);
        assert(tail[0] == body[hi]);
        lemma_ascent_join(g, head, tail);
        lemma_shorten(g, head + tail.skip(1))
    }
}

/// An ancestor is never further away than the pedigree has entries.
pub proof fn lemma_ancestor_within_entries(g: Pedigree, person: PersonId, ancestor: PersonId)
    requires
        g.dom().finite(),
        is_ancestor(g, person, ancestor),
    ensures
        is_ancestor_within(g, person, ancestor, g.dom().len()),
{
    let path = choose|path: Seq<PersonId>| is_path(g, path, person, ancestor);
    let short = lemma_shorten(g, path);
    let body = short.drop_last();
    assert forall|i: int| 0 <= i < body.len() implies g.contains_key(#[trigger] body[i]) by {
        assert(is_edge(g, short[i], short[i + 1]));
    }
    lemma_distinct_children_bounded(g, body);
    assert(is_path(g, short, person, ancestor) && short.len() - 1 <= g.dom().len());
}

/// A recorded parent is an ancestor.
pub proof fn lemma_parent_is_ancestor(g: Pedigree, child: PersonId, parent: PersonId)
    requires
        is_edge(g, child, parent),
    ensures
        is_ancestor(g, child, parent),
{
    let path = seq![child, parent];
    assert(is_path(g, path, child, parent));
}

/// An ancestor of an ancestor is an ancestor.
pub proof fn lemma_ancestor_transitive(g: Pedigree, a: PersonId, b: PersonId, c: PersonId)
    requires
        is_ancestor(g, a, b),
        is_ancestor(g, b, c),
    ensures
        is_ancestor(g, a, c),
{
    let first = choose|path: Seq<PersonId>| is_path(g, path, a, b);
    let second = choose|path: Seq<PersonId>| is_path(g, path, b, c);
    lemma_ascent_join(g, first, second);
    assert(is_path(g, first + second.skip(1), a, c));
}

/// Whoever is their own ancestor can reach a cycle.
pub proof fn lemma_own_ancestor_is_cycle(g: Pedigree, person: PersonId)
    requires
        is_ancestor(g, person, person),
    ensures
        has_cycle_from(g, person),
{
    let path = choose|path: Seq<PersonId>| is_path(g, path, person, person);
    assert(path[0] == path[path.len() - 1]);
    assert(!path.no_duplicates());
}

/// A cycle that an ancestor can reach can be reached from the descendant.
pub proof fn lemma_cycle_inherited(g: Pedigree, person: PersonId, ancestor: PersonId)
    requires
        is_ancestor(g, person, ancestor),
        has_cycle_from(g, ancestor),
    ensures
        has_cycle_from(g, person),
{
    let up = choose|path: Seq<PersonId>| is_path(g, path, person, ancestor);
    let round = choose|path: Seq<PersonId>| #[trigger]
        is_ascent(g, path) && path[0] == ancestor && !path.no_duplicates();
    lemma_ascent_join(g, up, round);
    let joined = up + round.skip(1);
    let (i, j) = choose|i: int, j: int|
        0 <= i < round.len() && 0 <= j < round.len() && i != j && round[i] == round[j];
    assert(joined[up.len() - 1 + i] == round[i]) by {
        if i == 0 {
            assert(joined[up.len() - 1] == up.last());
        }
    }
    assert(joined[up.len() - 1 + j] == round[j]) by {
        if j == 0 {
            assert(joined[up.len() - 1] == up.last());
        }
    }
    assert(!joined.no_duplicates());
}

/// A cycle that a person can reach can be reached from one of that person's
/// recorded parents.
pub proof fn lemma_cycle_from_parent(g: Pedigree, person: PersonId) -> (parent: PersonId)
    requires
        has_cycle_from(g, person),
    ensures
        is_edge(g, person, parent),
        has_cycle_from(g, parent),
{
    let path = choose|path: Seq<PersonId>| #[trigger]
        is_ascent(g, path) && path[0] == person && !path.no_duplicates();
    let (i, j) = choose|i: int, j: int|
        0 <= i < path.len() && 0 <= j < path.len() && i != j && path[i] == path[j];
    assert(path.len() >= 2);
    let parent = path[1];
    assert(is_edge(g, path[0int], path[0int + 1]));
    let rest = path.skip(1);
    lemma_ascent_skip(g, path, 1);
    let (lo, hi) = if i < j {
        (i, j)
    } else {
        (j, i)
    };
    if lo >= 1 {
        assert(rest[lo - 1] == rest[hi - 1]);
        assert(!rest.no_duplicates());
    } else {
        // The person comes back: go on from there to the parent once more.
        let back = rest.take(hi);
        lemma_ascent_take(g, rest, hi);
        assert(back.last() == person);
        lemma_ascent_push(g, back, parent);
        let round = back.push(parent);
        assert(round[0] == round[round.len() - 1]);
        assert(!round.no_duplicates());
        assert(is_ascent(g, round) && round[0] == parent);
    }
    parent
}

/// Everyone who is recorded as a parent of somebody.
pub open spec fn recorded_parents(g: Pedigree) -> Set<PersonId> {
    Set::new(|p: PersonId| exists|c: PersonId| g.contains_key(c) && #[trigger] g[c].contains(p))
}

/// A well shaped pedigree of finitely many entries records finitely many
/// parents.
pub proof fn lemma_recorded_parents_finite(g: Pedigree)
    requires
        g.dom().finite(),
        well_shaped(g),
    ensures
        recorded_parents(g).finite(),
{
    let first = |c: PersonId| g[c][0];
    let twice = g.dom().filter(|c: PersonId| g[c].len() >= 2);
    let second = |c: PersonId| g[c][1];
    g.dom().lemma_map_finite(first);
    g.dom().lemma_len_filter(|c: PersonId| g[c].len() >= 2);
    twice.lemma_map_finite(second);
    let all = g.dom().map(first).union(twice.map(second));
    assert(all.finite());
    assert(recorded_parents(g).subset_of(all)) by {
        assert forall|p: PersonId| recorded_parents(g).contains(p) implies all.contains(p) by {
            let c = choose|c: PersonId| g.contains_key(c) && #[trigger] g[c].contains(p);
            let i = choose|i: int| 0 <= i < g[c].len() && g[c][i] == p;
            if i == 0 {
                assert(g.dom().contains(c) && first(c) == p);
                assert(g.dom().map(first).contains(p));
            } else {
                assert(twice.contains(c) && second(c) == p);
                assert(twice.map(second).contains(p));
            }
        }
    }
    vstd::set_lib::lemma_set_subset_finite(all, recorded_parents(g));
}

/// A person has finitely many ancestors.
pub proof fn lemma_ancestors_finite(g: Pedigree, person: PersonId)
    requires
        g.dom().finite(),
        well_shaped(g),
    ensures
        ancestor_set(g, person).finite(),
{
    lemma_recorded_parents_finite(g);
    assert(ancestor_set(g, person).subset_of(recorded_parents(g))) by {
        assert forall|a: PersonId| ancestor_set(g, person).contains(a) implies recorded_parents(
            g,
        ).contains(a) by {
            let path = choose|path: Seq<PersonId>| is_path(g, path, person, a);
            let c = path[path.len() - 2];
            assert(is_edge(g, path[path.len() - 2], path[path.len() - 2 + 1]));
            assert(g.contains_key(c) && g[c].contains(a));
        }
    }
    vstd::set_lib::lemma_set_subset_finite(recorded_parents(g), ancestor_set(g, person));
}

/// An ancestor who can reach no cycle has fewer ancestors than the
/// descendant.
pub proof fn lemma_fewer_ancestors_above(g: Pedigree, person: PersonId, ancestor: PersonId)
    requires
        ancestor_set(g, person).finite(),
        is_ancestor(g, person, ancestor),
        !has_cycle_from(g, ancestor),
    ensures
        ancestor_set(g, ancestor).finite(),
        ancestor_set(g, ancestor).len() < ancestor_set(g, person).len(),
{
    let below = ancestor_set(g, person);
    let above = ancestor_set(g, ancestor);
    assert(above.subset_of(below.remove(ancestor))) by {
        assert forall|x: PersonId| above.contains(x) implies below.remove(ancestor).contains(x) by {
            lemma_ancestor_transitive(g, person, ancestor, x);
            if x == ancestor {
                lemma_own_ancestor_is_cycle(g, ancestor);
            }
        }
    }
    vstd::set_lib::lemma_set_subset_finite(below.remove(ancestor), above);
    vstd::set_lib::lemma_len_subset(above, below.remove(ancestor));
    assert(below.contains(ancestor));
}

} // verus!
