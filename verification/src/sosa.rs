//! Sosa-Stradonitz numbering of the ancestors of a chosen person.
//!
//! The chosen person holds 1. If a person holds `n`, the father holds `2n` and
//! the mother `2n + 1`. A numbering exists only where nobody would be given a
//! second number: a person who can be reached from the root in two ways,
//! which every cycle implies, makes the numbering fail.

use std::collections::HashMap;
use vstd::prelude::*;
use crate::error::AncestryError;
use crate::graph::AncestryGraphIndex;
use crate::ident::{lemma_persons_counted, PersonId};
use crate::pedigree::{
    has_cycle_from, is_ancestor, is_ascent, is_edge, is_path, lemma_ascent_take, parents_in,
    well_shaped, Pedigree,
};

verus! {

broadcast use vstd::std_specs::hash::group_hash_axioms;

/// The person who stands at position `k` of the ancestor table of `root`:
/// `root` at 1, the father of the person at `k / 2` at an even `k`, the mother
/// at an odd one. `None` where the table has no such person.
pub open spec fn sosa_person(g: Pedigree, root: PersonId, k: nat) -> Option<PersonId>
    decreases k,
{
    if k == 0 {
        None
    } else if k == 1 {
        Some(root)
    } else {
        match sosa_person(g, root, k / 2) {
            None => None,
            Some(child) => {
                let ps = parents_in(g, child);
                if (k % 2) < ps.len() {
                    Some(ps[(k % 2) as int])
                } else {
                    None
                }
            },
        }
    }
}

/// Two positions that fit in 64 bits hold the same person.
pub open spec fn sosa_clash(g: Pedigree, root: PersonId) -> bool {
    exists|j: nat, k: nat|
        1 <= j < k <= u64::MAX && (#[trigger] sosa_person(g, root, j)) is Some && sosa_person(
            g,
            root,
            j,
        ) == #[trigger] sosa_person(g, root, k)
}

/// Some position beyond 64 bits holds a person.
pub open spec fn sosa_overflow(g: Pedigree, root: PersonId) -> bool {
    exists|k: nat| k > u64::MAX && (#[trigger] sosa_person(g, root, k)) is Some
}

/// `t` gives each person of the ancestor table of `root` the position at
/// which that person stands, and holds nobody else: whoever is numbered
/// stands at that number, and whoever stands at a position is numbered with
/// it.
pub open spec fn is_sosa_table(g: Pedigree, root: PersonId, t: Map<PersonId, u64>) -> bool {
    &&& forall|p: PersonId| #[trigger]
        t.contains_key(p) ==> sosa_person(g, root, t[p] as nat) == Some(p)
    &&& forall|k: nat|
        (#[trigger] sosa_person(g, root, k)) is Some ==> t.contains_key(
            sosa_person(g, root, k)->Some_0,
        ) && t[sosa_person(g, root, k)->Some_0] == k
}

/// `order` holds what `table` holds, in the order of the numbers.
spec fn lists_table(table: Map<u128, u64>, order: Seq<(PersonId, u64)>) -> bool {
    &&& forall|i: int, j: int| 0 <= i < j < order.len() ==> order[i].1 < order[j].1
    &&& forall|i: int|
        0 <= i < order.len() ==> table.contains_key((#[trigger] order[i]).0.0) && table[order[i].0.0]
            == order[i].1
    &&& forall|key: u128| #[trigger]
        table.contains_key(key) ==> exists|i: int|
            0 <= i < order.len() && (#[trigger] order[i]).0.0 == key
}

/// The numbers that one numbering run gave out.
pub struct SosaNumbering {
    table: HashMap<u128, u64>,
    order: Vec<(PersonId, u64)>,
}

impl View for SosaNumbering {
    type V = Map<PersonId, u64>;

    closed spec fn view(&self) -> Map<PersonId, u64> {
        Map::new(|p: PersonId| self.table@.contains_key(p.0), |p: PersonId| self.table@[p.0])
    }
}

impl SosaNumbering {
    /// The list holds what the table holds, in the order of the numbers.
    #[verifier::type_invariant]
    spec fn listed_in_order(&self) -> bool {
        lists_table(self.table@, self.order@)
    }

    /// Everyone who holds a number, each with the number, in the order of
    /// the numbers.
    pub fn entries(&self) -> (list: &Vec<(PersonId, u64)>)
        ensures
            forall|i: int, j: int| 0 <= i < j < list.len() ==> list[i].1 < list[j].1,
            forall|i: int|
                0 <= i < list.len() ==> self@.contains_key((#[trigger] list[i]).0) && self@[list[i].0]
                    == list[i].1,
            forall|p: PersonId| #[trigger]
                self@.contains_key(p) ==> exists|i: int|
                    0 <= i < list.len() && (#[trigger] list[i]).0 == p,
    {
        proof {
            use_type_invariant(self);
            let order = self.order@;
            assert forall|p: PersonId| #[trigger] self@.contains_key(p) implies exists|i: int|
                0 <= i < order.len() && (#[trigger] order[i]).0 == p by {
                assert(self.table@.contains_key(p.0));
                let i = choose|i: int| 0 <= i < order.len() && (#[trigger] order[i]).0.0 == p.0;
                assert(order[i].0 == p);
            }
        }
        &self.order
    }

    /// The number that `person` holds, if any.
    pub fn get(&self, person: PersonId) -> (r: Option<u64>)
        ensures
            r == (if self@.contains_key(person) {
                Some(self@[person])
            } else {
                None
            }),
    {
        match self.table.get(&person.0) {
            Some(n) => Some(*n),
            None => None,
        }
    }

    /// Whether `person` holds a number.
    pub fn contains(&self, person: PersonId) -> (r: bool)
        ensures
            r == self@.contains_key(person),
    {
        self.table.contains_key(&person.0)
    }

    /// How many persons hold a number.
    pub fn len(&self) -> (n: usize)
        ensures
            n == self@.dom().len(),
    {
        proof {
            lemma_persons_counted(self.table@.dom(), self@.dom());
        }
        self.table.len()
    }
}

/// Positions beyond a barren stretch are barren: if no position above `done`
/// and up to `2 * done + 1` holds a person, no position above `done` does.
proof fn lemma_barren_above(g: Pedigree, root: PersonId, done: nat, k: nat)
    requires
        done >= 1,
        forall|j: nat| done < j <= 2 * done + 1 ==> (#[trigger] sosa_person(g, root, j)) is None,
        k > done,
    ensures
        sosa_person(g, root, k) is None,
    decreases k,
{
    if k > 2 * done + 1 {
        lemma_barren_above(g, root, done, k / 2);
    }
}

/// In a numbering, the father of a numbered person holds twice that person's
/// number and the mother twice the number plus one; both are numbered
/// whenever they are recorded.
pub proof fn lemma_sosa_parent_numbers(
    g: Pedigree,
    root: PersonId,
    t: Map<PersonId, u64>,
    person: PersonId,
)
    requires
        is_sosa_table(g, root, t),
        t.contains_key(person),
    ensures
        parents_in(g, person).len() >= 1 ==> t.contains_key(parents_in(g, person)[0]) && t[parents_in(
            g,
            person,
        )[0]] == 2 * t[person],
        parents_in(g, person).len() >= 2 ==> t.contains_key(parents_in(g, person)[1]) && t[parents_in(
            g,
            person,
        )[1]] == 2 * t[person] + 1,
{
    let k = t[person] as nat;
    let ps = parents_in(g, person);
    assert(sosa_person(g, root, k) == Some(person));
    assert(k >= 1);
    if ps.len() >= 1 {
        assert((2 * k) / 2 == k && (2 * k) % 2 == 0);
        assert(sosa_person(g, root, 2 * k) == Some(ps[0]));
        assert(t.contains_key(ps[0]) && t[ps[0]] == 2 * k);
    }
    if ps.len() >= 2 {
        assert((2 * k + 1) / 2 == k && (2 * k + 1) % 2 == 1);
        assert(sosa_person(g, root, 2 * k + 1) == Some(ps[1]));
        assert(t.contains_key(ps[1]) && t[ps[1]] == 2 * k + 1);
    }
}

/// In a numbering, the root holds 1 and no two persons hold the same number.
pub proof fn lemma_sosa_numbers_distinct(
    g: Pedigree,
    root: PersonId,
    t: Map<PersonId, u64>,
    a: PersonId,
    b: PersonId,
)
    requires
        is_sosa_table(g, root, t),
        t.contains_key(a),
        t.contains_key(b),
        a != b,
    ensures
        t.contains_key(root) && t[root] == 1,
        t[a] != t[b],
        t[a] >= 1,
{
    assert(sosa_person(g, root, 1) == Some(root));
    assert(t.contains_key(root) && t[root] == 1);
    assert(sosa_person(g, root, t[a] as nat) == Some(a));
    assert(sosa_person(g, root, t[b] as nat) == Some(b));
}

/// Whoever ends an ascent from the root stands at some position of the
/// ancestor table.
proof fn lemma_ascent_has_position(g: Pedigree, root: PersonId, path: Seq<PersonId>) -> (k: nat)
    requires
        well_shaped(g),
        is_ascent(g, path),
        path[0] == root,
    ensures
        k >= 1,
        sosa_person(g, root, k) == Some(path.last()),
    decreases path.len(),
{
    if path.len() == 1 {
        1
    } else {
        let shorter = path.drop_last();
        assert(is_ascent(g, shorter)) by {
            assert forall|i: int| 0 <= i < shorter.len() - 1 implies is_edge(
                g,
                #[trigger] shorter[i],
                shorter[i + 1],
            ) by {
                assert(is_edge(g, path[i], path[i + 1]));
            }
        }
        let below = lemma_ascent_has_position(g, root, shorter);
        let child = shorter.last();
        assert(child == path[path.len() - 2]);
        assert(is_edge(g, path[path.len() - 2], path[path.len() - 2 + 1]));
        let ps = parents_in(g, child);
        assert(g.contains_key(child));
        let slot = choose|s: int| 0 <= s < ps.len() && ps[s] == path.last();
        let k = (2 * below + slot) as nat;
        assert(k / 2 == below && k % 2 == slot);
        k
    }
}

/// Whoever stands at a position of the ancestor table ends an ascent from the
/// root.
proof fn lemma_position_has_ascent(g: Pedigree, root: PersonId, k: nat) -> (path: Seq<PersonId>)
    requires
        sosa_person(g, root, k) is Some,
    ensures
        is_ascent(g, path),
        path[0] == root,
        path.last() == sosa_person(g, root, k)->Some_0,
    decreases k,
{
    if k == 1 {
        seq![root]
    } else {
        let below = lemma_position_has_ascent(g, root, k / 2);
        let child = below.last();
        let parent = sosa_person(g, root, k)->Some_0;
        let path = below.push(parent);
        assert(parents_in(g, child)[(k % 2) as int] == parent);
        assert forall|i: int| 0 <= i < path.len() - 1 implies is_edge(
            g,
            #[trigger] path[i],
            path[i + 1],
        ) by {
            if i < below.len() - 1 {
                assert(is_edge(g, below[i], below[i + 1]));
            }
        }
        path
    }
}

/// A numbering holds the root, every ancestor of the root, and nobody else.
pub proof fn lemma_sosa_covers_ancestors(
    g: Pedigree,
    root: PersonId,
    t: Map<PersonId, u64>,
    person: PersonId,
)
    requires
        well_shaped(g),
        is_sosa_table(g, root, t),
    ensures
        t.contains_key(person) <==> (person == root || is_ancestor(g, root, person)),
{
    if t.contains_key(person) {
        let k = t[person] as nat;
        assert(sosa_person(g, root, k) == Some(person));
        let path = lemma_position_has_ascent(g, root, k);
        if path.len() >= 2 {
            assert(is_path(g, path, root, person));
        }
    }
    if person == root {
        assert(sosa_person(g, root, 1) == Some(root));
        assert(t.contains_key(root));
    }
    if is_ancestor(g, root, person) {
        let path = choose|path: Seq<PersonId>| is_path(g, path, root, person);
        let k = lemma_ascent_has_position(g, root, path);
        assert(t.contains_key(person) && t[person] == k);
    }
}

/// The position at which the person who ends an ascent from the root stands
/// when the table is read along that ascent.
pub open spec fn ascent_position(g: Pedigree, path: Seq<PersonId>) -> nat
    decreases path.len(),
{
    if path.len() <= 1 {
        1
    } else {
        let below = ascent_position(g, path.drop_last());
        let child = path[path.len() - 2];
        if parents_in(g, child)[0] == path.last() {
            2 * below
        } else {
            2 * below + 1
        }
    }
}

/// The person who ends an ascent from the root stands at the position of
/// that ascent.
proof fn lemma_ascent_position(g: Pedigree, path: Seq<PersonId>)
    requires
        well_shaped(g),
        is_ascent(g, path),
    ensures
        ascent_position(g, path) >= 1,
        sosa_person(g, path[0], ascent_position(g, path)) == Some(path.last()),
    decreases path.len(),
{
    if path.len() > 1 {
        let shorter = path.drop_last();
        lemma_ascent_take(g, path, path.len() - 1);
        assert(shorter =~= path.take(path.len() - 1));
        lemma_ascent_position(g, shorter);
        let child = path[path.len() - 2];
        assert(shorter.last() == child);
        assert(is_edge(g, path[path.len() - 2], path[path.len() - 2 + 1]));
        let ps = parents_in(g, child);
        assert(g.contains_key(child));
        let slot = choose|s: int| 0 <= s < ps.len() && ps[s] == path.last();
        let below = ascent_position(g, shorter);
        let k = ascent_position(g, path);
        if ps[0] == path.last() {
            assert(k / 2 == below && k % 2 == 0);
        } else {
            assert(slot == 1);
            assert(k / 2 == below && k % 2 == 1);
        }
    }
}

/// A longer stretch of an ascent ends at a later position.
proof fn lemma_position_grows(g: Pedigree, path: Seq<PersonId>, shorter: int, longer: int)
    requires
        1 <= shorter < longer <= path.len(),
    ensures
        1 <= ascent_position(g, path.take(shorter)) < ascent_position(g, path.take(longer)),
    decreases longer,
{
    let long = path.take(longer);
    assert(long.drop_last() =~= path.take(longer - 1));
    lemma_position_at_least_one(g, path.take(longer - 1));
    if shorter < longer - 1 {
        lemma_position_grows(g, path, shorter, longer - 1);
    } else {
        lemma_position_at_least_one(g, path.take(shorter));
    }
}

/// Every ascent ends at a position of at least one.
proof fn lemma_position_at_least_one(g: Pedigree, path: Seq<PersonId>)
    ensures
        ascent_position(g, path) >= 1,
    decreases path.len(),
{
    if path.len() > 1 {
        lemma_position_at_least_one(g, path.drop_last());
    }
}

/// No numbering exists where the root can reach a cycle: the person met
/// twice would hold two numbers, or the cycle lies beyond the 64th
/// generation.
pub proof fn lemma_sosa_cycle_fails(g: Pedigree, root: PersonId)
    requires
        well_shaped(g),
        has_cycle_from(g, root),
    ensures
        sosa_clash(g, root) || sosa_overflow(g, root),
{
    let path = choose|path: Seq<PersonId>| #[trigger]
        is_ascent(g, path) && path[0] == root && !path.no_duplicates();
    let (i, j) = choose|i: int, j: int|
        0 <= i < path.len() && 0 <= j < path.len() && i != j && path[i] == path[j];
    let (lo, hi) = if i < j {
        (i, j)
    } else {
        (j, i)
    };
    let first = path.take(lo + 1);
    let second = path.take(hi + 1);
    lemma_ascent_take(g, path, lo + 1);
    lemma_ascent_take(g, path, hi + 1);
    lemma_ascent_position(g, first);
    lemma_ascent_position(g, second);
    lemma_position_grows(g, path, lo + 1, hi + 1);
    let a = ascent_position(g, first);
    let b = ascent_position(g, second);
    assert(sosa_person(g, root, a) == Some(path[lo]));
    assert(sosa_person(g, root, b) == Some(path[hi]));
    if b <= u64::MAX {
        assert(sosa_clash(g, root));
    } else {
        assert(sosa_overflow(g, root));
    }
}

/// Numbers the ancestors of `root` breadth first.
///
/// Fails with `CyclicAncestry` exactly when two positions that fit in 64 bits
/// would hold the same person, and otherwise with `OutOfRange` exactly when
/// the ancestry reaches beyond the 64th generation. On success the numbering
/// holds the root, every ancestor that can be reached from it, and nobody
/// else.
pub fn compute_sosa(root: PersonId, graph: &AncestryGraphIndex) -> (res: Result<
    SosaNumbering,
    AncestryError,
>)
    ensures
        !graph.available() ==> res is Err && res->Err_0 == AncestryError::GraphUnavailable,
        graph.available() && sosa_clash(graph@, root) ==> res is Err && res->Err_0
            == AncestryError::CyclicAncestry,
        graph.available() && !sosa_clash(graph@, root) && sosa_overflow(graph@, root) ==> res is Err
            && res->Err_0 == AncestryError::OutOfRange,
        graph.available() && !sosa_clash(graph@, root) && !sosa_overflow(graph@, root) ==> res is Ok
            && is_sosa_table(graph@, root, res->Ok_0@),
{
    if !graph.is_available() {
        return Err(AncestryError::GraphUnavailable);
    }
    let ghost g = graph@;
    proof {
        graph.lemma_well_shaped();
    }
    let mut table: HashMap<u128, u64> = HashMap::new();
    table.insert(root.0, 1);
    let mut order: Vec<(PersonId, u64)> = Vec::new();
    order.push((root, 1u64));
    let mut next: usize = 0;
    let mut done: u64 = 0;
    proof {
        assert(order[0].1 == 1 && order[0].0.0 == root.0);
    }
    while next < order.len()
        invariant
            graph.available(),
            g == graph@,
            well_shaped(g),
            next <= order.len(),
            order.len() >= 1,
            next == 0 ==> done == 0 && order.len() == 1,
            next > 0 ==> done == order[next - 1].1,
            next < order.len() ==> order[next as int].1 > done,
            forall|i: int, j: int| 0 <= i < j < order.len() ==> order[i].1 < order[j].1,
            forall|i: int|
                0 <= i < order.len() ==> 1 <= (#[trigger] order[i]).1 && order[i].1 as nat <= 2
                    * done + 1 && sosa_person(g, root, order[i].1 as nat) == Some(order[i].0),
            forall|k: nat|
                1 <= k <= 2 * done + 1 && (#[trigger] sosa_person(g, root, k)) is Some ==> exists|
                    i: int,
                | 0 <= i < order.len() && #[trigger] order[i].1 == k,
            forall|i: int|
                0 <= i < order.len() ==> table@.contains_key((#[trigger] order[i]).0.0)
                    && table@[order[i].0.0] == order[i].1,
            forall|key: u128| #[trigger]
                table@.contains_key(key) ==> exists|i: int|
                    0 <= i < order.len() && (#[trigger] order[i]).0.0 == key,
        decreases u64::MAX - done,
    {
        let (person, number) = order[next];
        let ghost old_done = done as nat;
        let ghost old_order = order@;
        // No position strictly between the last expanded one and this one
        // holds a person, so none of their children does.
        assert forall|j: nat| old_done < j < number implies (#[trigger] sosa_person(g, root, j))
            is None by {
            if sosa_person(g, root, j) is Some {
                let i = choose|i: int| 0 <= i < order.len() && #[trigger] order[i].1 == j;
                assert(i < next);
            }
        }
        assert forall|c: nat| 2 * old_done + 1 < c < 2 * number implies (#[trigger] sosa_person(
            g,
            root,
            c,
        )) is None by {
            assert(old_done < c / 2 < number);
            assert(sosa_person(g, root, c / 2) is None);
        }
        let parents = graph.recorded_parents(person);
        assert(parents@ == parents_in(g, person));
        assert(parents@.len() <= 2 && parents@.no_duplicates()) by {
            if g.contains_key(person) {
            }
        }
        assert(sosa_person(g, root, number as nat) == Some(person));
        if parents.len() >= 1 {
            if number > u64::MAX / 2 {
                proof {
                    let big = 2 * (number as nat);
                    assert(big / 2 == number as nat && big % 2 == 0);
                    assert(sosa_person(g, root, big) == Some(parents@[0]));
                    assert(sosa_overflow(g, root));
                    assert forall|j: nat, k: nat|
                        1 <= j < k <= u64::MAX && (#[trigger] sosa_person(g, root, j)) is Some
                            && sosa_person(g, root, j) == #[trigger] sosa_person(
                            g,
                            root,
                            k,
                        ) implies false by {
                        let a = choose|i: int| 0 <= i < order.len() && #[trigger] order[i].1 == j;
                        let b = choose|i: int| 0 <= i < order.len() && #[trigger] order[i].1 == k;
                        assert(order[a].0 == order[b].0);
                        assert(table@[order[a].0.0] == order[a].1);
                        assert(table@[order[b].0.0] == order[b].1);
                    }
                }
                return Err(AncestryError::OutOfRange);
            }
            let father = parents[0];
            let father_number: u64 = 2 * number;
            assert(sosa_person(g, root, father_number as nat) == Some(father)) by {
                assert((father_number as nat) / 2 == number as nat && (father_number as nat) % 2
                    == 0);
            }
            if table.contains_key(&father.0) {
                proof {
                    let i = choose|i: int| 0 <= i < order.len() && (#[trigger] order[i]).0.0 == father.0;
                    assert(order[i].0 == father);
                    assert(sosa_person(g, root, order[i].1 as nat) == Some(father));
                    assert(sosa_clash(g, root));
                }
                return Err(AncestryError::CyclicAncestry);
            }
            table.insert(father.0, father_number);
            order.push((father, father_number));
            if parents.len() >= 2 {
                let mother = parents[1];
                let mother_number: u64 = 2 * number + 1;
                assert(sosa_person(g, root, mother_number as nat) == Some(mother)) by {
                    assert((mother_number as nat) / 2 == number as nat && (mother_number as nat) % 2
                        == 1);
                }
                if table.contains_key(&mother.0) {
                    proof {
                        assert(mother != father);
                        let i = choose|i: int|
                            0 <= i < old_order.len() && (#[trigger] old_order[i]).0.0 == mother.0;
                        assert(old_order[i].0 == mother);
                        assert(sosa_person(g, root, old_order[i].1 as nat) == Some(mother));
                        assert(sosa_clash(g, root));
                    }
                    return Err(AncestryError::CyclicAncestry);
                }
                table.insert(mother.0, mother_number);
                order.push((mother, mother_number));
            }
        }
        proof {
            assert forall|k: nat|
                1 <= k <= 2 * (number as nat) + 1 && (#[trigger] sosa_person(g, root, k))
                    is Some implies exists|i: int|
                0 <= i < order.len() && #[trigger] order[i].1 == k by {
                if k <= 2 * old_done + 1 {
                    let i = choose|i: int| 0 <= i < old_order.len() && #[trigger] old_order[i].1 == k;
                    assert(order[i] == old_order[i]);
                } else if k == 2 * (number as nat) {
                    assert(k / 2 == number as nat && k % 2 == 0);
                    assert(order[old_order.len() as int].1 == k);
                } else if k == 2 * (number as nat) + 1 {
                    assert(k / 2 == number as nat && k % 2 == 1);
                    assert(order[old_order.len() as int + 1].1 == k);
                }
            }
            assert forall|key: u128| #[trigger] table@.contains_key(key) implies exists|i: int|
                0 <= i < order.len() && (#[trigger] order[i]).0.0 == key by {
                if parents.len() >= 1 && key == parents@[0].0 {
                    assert(order[old_order.len() as int].0.0 == key);
                } else if parents.len() >= 2 && key == parents@[1].0 {
                    assert(order[old_order.len() as int + 1].0.0 == key);
                } else {
                    let i = choose|i: int|
                        0 <= i < old_order.len() && (#[trigger] old_order[i]).0.0 == key;
                    assert(order[i] == old_order[i]);
                }
            }
        }
        done = number;
        next = next + 1;
    }
    proof {
        assert forall|j: nat| done < j <= 2 * done + 1 implies (#[trigger] sosa_person(g, root, j))
            is None by {
            if sosa_person(g, root, j) is Some {
                let i = choose|i: int| 0 <= i < order.len() && #[trigger] order[i].1 == j;
            }
        }
        assert forall|k: nat| k > done implies (#[trigger] sosa_person(g, root, k)) is None by {
            lemma_barren_above(g, root, done as nat, k);
        }
    }
    assert(lists_table(table@, order@));
    let numbering = SosaNumbering { table, order };
    proof {
        let t = numbering@;
        assert forall|p: PersonId| #[trigger] t.contains_key(p) implies sosa_person(
            g,
            root,
            t[p] as nat,
        ) == Some(p) by {
            let i = choose|i: int| 0 <= i < order.len() && (#[trigger] order[i]).0.0 == p.0;
            assert(order[i].0 == p);
        }
        assert forall|k: nat| (#[trigger] sosa_person(g, root, k)) is Some implies t.contains_key(
            sosa_person(g, root, k)->Some_0,
        ) && t[sosa_person(g, root, k)->Some_0] == k by {
            assert(k <= done);
            let i = choose|i: int| 0 <= i < order.len() && #[trigger] order[i].1 == k;
        }
        assert(!sosa_overflow(g, root));
        assert forall|j: nat, k: nat|
            1 <= j < k <= u64::MAX && (#[trigger] sosa_person(g, root, j)) is Some && sosa_person(
                g,
                root,
                j,
            ) == #[trigger] sosa_person(g, root, k) implies false by {
            let p = sosa_person(g, root, j)->Some_0;
            assert(t[p] == j);
            assert(t[p] == k);
        }
    }
    Ok(numbering)
}

} // verus!
