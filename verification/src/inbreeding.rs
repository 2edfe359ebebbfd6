//! What a consanguinity coefficient is.
//!
//! The coefficient of a person with two recorded parents sums, over every
//! ancestor that the parents share and over every pair of a way from the
//! father and a way from the mother up to that ancestor, one half to the
//! power of the edges of both ways plus one, times one plus the ancestor's
//! own coefficient. A person with fewer than two recorded parents has the
//! coefficient zero.
//!
//! The definition refers to the coefficients of ancestors. It is stated here
//! as a property of a table of coefficients: each entry of the table obeys
//! the formula, read with the table's own entries for the ancestors. On a
//! pedigree without cycles such tables agree wherever they overlap.

use vstd::prelude::*;
use crate::coefficient::{halved, pair_term, ONE_UNITS};
use crate::ident::PersonId;
use crate::pedigree::{
    ancestor_set, common_ancestor_set, has_cycle_from, is_edge,
    lemma_ancestor_transitive, lemma_cycle_inherited, lemma_fewer_ancestors_above,
    lemma_parent_is_ancestor, parents_in, path_set, Pedigree,
};
use crate::sums::{
    is_listing, lemma_finite_set_has_listing, lemma_total_any_order, lemma_total_bounds_each,
    lemma_total_over_set, lemma_total_push, lemma_total_same_terms, listing, plus, seq_total,
};

verus! {

/// The number of edges of a path given by the persons it meets.
pub open spec fn path_edges(path: Seq<PersonId>) -> nat {
    if path.len() == 0 {
        0
    } else {
        (path.len() - 1) as nat
    }
}

/// What one way from the father adds together with every way from the
/// mother.
pub open spec fn row_total(
    mother_paths: Seq<Seq<PersonId>>,
    father_edges: nat,
    inner: nat,
) -> Option<nat> {
    seq_total(
        mother_paths,
        |mp: Seq<PersonId>| pair_term(father_edges + path_edges(mp), inner),
    )
}

/// What every pair of a way from the father and a way from the mother adds.
pub open spec fn pair_total(
    father_paths: Seq<Seq<PersonId>>,
    mother_paths: Seq<Seq<PersonId>>,
    inner: nat,
) -> Option<nat> {
    seq_total(father_paths, |fp: Seq<PersonId>| row_total(mother_paths, path_edges(fp), inner))
}

/// What one shared ancestor adds, given the units of that ancestor's own
/// coefficient.
pub open spec fn ancestor_share(
    g: Pedigree,
    father: PersonId,
    mother: PersonId,
    ancestor: PersonId,
    inner: nat,
) -> Option<nat> {
    pair_total(
        listing(path_set(g, father, ancestor)),
        listing(path_set(g, mother, ancestor)),
        inner,
    )
}

/// What one shared ancestor adds, with that ancestor's coefficient read from
/// `table`.
pub open spec fn share_from_table(
    g: Pedigree,
    father: PersonId,
    mother: PersonId,
    table: Map<PersonId, u128>,
    ancestor: PersonId,
) -> Option<nat> {
    if table.contains_key(ancestor) {
        ancestor_share(g, father, mother, ancestor, table[ancestor] as nat)
    } else {
        None
    }
}

/// What all shared ancestors of `father` and `mother` add.
pub open spec fn shared_total(
    g: Pedigree,
    father: PersonId,
    mother: PersonId,
    table: Map<PersonId, u128>,
) -> Option<nat> {
    seq_total(
        listing(common_ancestor_set(g, father, mother)),
        |a: PersonId| share_from_table(g, father, mother, table, a),
    )
}

/// The formula for the coefficient of `person`, in units of 2^-96, with the
/// coefficients of ancestors read from `table`. `None` where a term is not a
/// whole number of units or an ancestor is missing from the table.
pub open spec fn one_level(g: Pedigree, person: PersonId, table: Map<PersonId, u128>) -> Option<
    nat,
> {
    let ps = parents_in(g, person);
    if ps.len() < 2 {
        Some(0)
    } else {
        shared_total(g, ps[0], ps[1], table)
    }
}

/// Every entry of `table` obeys the formula, read with the table itself.
pub open spec fn is_coefficient_table(g: Pedigree, table: Map<PersonId, u128>) -> bool {
    forall|p: PersonId| #[trigger]
        table.contains_key(p) ==> one_level(g, p, table) == Some(table[p] as nat)
}

/// Some table of coefficients holds `person`: the coefficient exists and
/// fits the machine representation.
pub open spec fn has_coefficient(g: Pedigree, person: PersonId) -> bool {
    exists|table: Map<PersonId, u128>| #[trigger]
        is_coefficient_table(g, table) && table.contains_key(person)
}

/// The coefficient of `person` in units of 2^-96, where it exists.
pub open spec fn coefficient_of(g: Pedigree, person: PersonId) -> u128 {
    let table = choose|table: Map<PersonId, u128>| #[trigger]
        is_coefficient_table(g, table) && table.contains_key(person);
    table[person]
}

/// `larger` holds every entry of `smaller`.
pub open spec fn extends_table(smaller: Map<PersonId, u128>, larger: Map<PersonId, u128>) -> bool {
    forall|p: PersonId| #[trigger]
        smaller.contains_key(p) ==> larger.contains_key(p) && larger[p] == smaller[p]
}

/// The pairs of ways add the same in whatever order the ways are listed.
pub proof fn lemma_pair_total_any_order(
    father_a: Seq<Seq<PersonId>>,
    mother_a: Seq<Seq<PersonId>>,
    father_b: Seq<Seq<PersonId>>,
    mother_b: Seq<Seq<PersonId>>,
    inner: nat,
)
    requires
        father_a.no_duplicates(),
        father_b.no_duplicates(),
        mother_a.no_duplicates(),
        mother_b.no_duplicates(),
        forall|x: Seq<PersonId>|
            #![trigger father_a.contains(x)]
            #![trigger father_b.contains(x)]
            father_a.contains(x) <==> father_b.contains(x),
        forall|x: Seq<PersonId>|
            #![trigger mother_a.contains(x)]
            #![trigger mother_b.contains(x)]
            mother_a.contains(x) <==> mother_b.contains(x),
    ensures
        pair_total(father_a, mother_a, inner) == pair_total(father_b, mother_b, inner),
{
    let row_a = |fp: Seq<PersonId>| row_total(mother_a, path_edges(fp), inner);
    let row_b = |fp: Seq<PersonId>| row_total(mother_b, path_edges(fp), inner);
    assert forall|i: int| 0 <= i < father_a.len() implies row_a(#[trigger] father_a[i]) == row_b(
        father_a[i],
    ) by {
        let edges = path_edges(father_a[i]);
        lemma_total_any_order(
            mother_a,
            mother_b,
            |mp: Seq<PersonId>| pair_term(edges + path_edges(mp), inner),
        );
    }
    lemma_total_same_terms(father_a, row_a, row_b);
    lemma_total_any_order(father_a, father_b, row_b);
}

/// The formula gives the same for a table and for any table that holds all
/// its entries, where it gives anything for the first.
pub proof fn lemma_one_level_extends(
    g: Pedigree,
    person: PersonId,
    smaller: Map<PersonId, u128>,
    larger: Map<PersonId, u128>,
)
    requires
        one_level(g, person, smaller) is Some,
        extends_table(smaller, larger),
    ensures
        one_level(g, person, larger) == one_level(g, person, smaller),
{
    let ps = parents_in(g, person);
    if ps.len() >= 2 {
        let shared = listing(common_ancestor_set(g, ps[0], ps[1]));
        let from_smaller = |a: PersonId| share_from_table(g, ps[0], ps[1], smaller, a);
        let from_larger = |a: PersonId| share_from_table(g, ps[0], ps[1], larger, a);
        assert forall|i: int| 0 <= i < shared.len() implies from_smaller(#[trigger] shared[i])
            == from_larger(shared[i]) by {
            lemma_total_bounds_each(shared, from_smaller, i);
            assert(smaller.contains_key(shared[i]));
        }
        lemma_total_same_terms(shared, from_smaller, from_larger);
    }
}

/// A table of coefficients stays one when it gains an entry that obeys the
/// formula.
pub proof fn lemma_table_gains_entry(
    g: Pedigree,
    table: Map<PersonId, u128>,
    person: PersonId,
    units: u128,
)
    requires
        is_coefficient_table(g, table),
        one_level(g, person, table) == Some(units as nat),
    ensures
        is_coefficient_table(g, table.insert(person, units)),
{
    let grown = table.insert(person, units);
    if table.contains_key(person) {
        assert(table[person] == units);
        assert(grown =~= table);
    } else {
        assert(extends_table(table, grown));
        assert forall|p: PersonId| #[trigger] grown.contains_key(p) implies one_level(g, p, grown)
            == Some(grown[p] as nat) by {
            if p == person {
                lemma_one_level_extends(g, person, table, grown);
            } else {
                assert(table.contains_key(p));
                lemma_one_level_extends(g, p, table, grown);
            }
        }
    }
}

/// The formula for `person` looks at no coefficient of a person who could
/// lead back to `person`: either it looks at none at all, or `person` has
/// finitely many ancestors and can reach no cycle.
pub open spec fn settled(g: Pedigree, person: PersonId) -> bool {
    let ps = parents_in(g, person);
    (ps.len() >= 2 && exists|x: PersonId| common_ancestor_set(g, ps[0], ps[1]).contains(x))
        ==> ancestor_set(g, person).finite() && !has_cycle_from(g, person)
}

/// The parents of a person share no ancestor: the formula gives zero.
pub proof fn lemma_no_shared_ancestor(
    g: Pedigree,
    father: PersonId,
    mother: PersonId,
    table: Map<PersonId, u128>,
)
    requires
        forall|x: PersonId| !common_ancestor_set(g, father, mother).contains(x),
    ensures
        shared_total(g, father, mother, table) == Some(0nat),
{
    let set = common_ancestor_set(g, father, mother);
    let none = Seq::<PersonId>::empty();
    assert(is_listing(none, set));
    lemma_total_over_set(none, set, |a: PersonId| share_from_table(g, father, mother, table, a));
}

/// Two tables of coefficients give a settled person the same coefficient.
pub proof fn lemma_tables_agree(
    g: Pedigree,
    a: Map<PersonId, u128>,
    b: Map<PersonId, u128>,
    person: PersonId,
)
    requires
        is_coefficient_table(g, a),
        is_coefficient_table(g, b),
        a.contains_key(person),
        b.contains_key(person),
        settled(g, person),
    ensures
        a[person] == b[person],
    decreases ancestor_set(g, person).len(),
{
    let ps = parents_in(g, person);
    assert(one_level(g, person, a) == Some(a[person] as nat));
    assert(one_level(g, person, b) == Some(b[person] as nat));
    if ps.len() >= 2 {
        let father = ps[0];
        let mother = ps[1];
        let set = common_ancestor_set(g, father, mother);
        if exists|x: PersonId| set.contains(x) {
            assert(is_edge(g, person, father));
            lemma_parent_is_ancestor(g, person, father);
            assert(set.subset_of(ancestor_set(g, person))) by {
                assert forall|x: PersonId| set.contains(x) implies ancestor_set(g, person).contains(
                    x,
                ) by {
                    lemma_ancestor_transitive(g, person, father, x);
                }
            }
            vstd::set_lib::lemma_set_subset_finite(ancestor_set(g, person), set);
            lemma_finite_set_has_listing(set);
            let shared = listing(set);
            let from_a = |x: PersonId| share_from_table(g, father, mother, a, x);
            let from_b = |x: PersonId| share_from_table(g, father, mother, b, x);
            assert forall|i: int| 0 <= i < shared.len() implies from_a(#[trigger] shared[i])
                == from_b(shared[i]) by {
                let x = shared[i];
                lemma_total_bounds_each(shared, from_a, i);
                lemma_total_bounds_each(shared, from_b, i);
                assert(shared.contains(x));
                assert(set.contains(x));
                lemma_ancestor_transitive(g, person, father, x);
                if has_cycle_from(g, x) {
                    lemma_cycle_inherited(g, person, x);
                }
                lemma_fewer_ancestors_above(g, person, x);
                lemma_tables_agree(g, a, b, x);
            }
            lemma_total_same_terms(shared, from_a, from_b);
        } else {
            lemma_no_shared_ancestor(g, father, mother, a);
            lemma_no_shared_ancestor(g, father, mother, b);
        }
    }
}

/// An entry of a table of coefficients for a settled person is that person's
/// coefficient.
pub proof fn lemma_coefficient_is(g: Pedigree, table: Map<PersonId, u128>, person: PersonId)
    requires
        is_coefficient_table(g, table),
        table.contains_key(person),
        settled(g, person),
    ensures
        has_coefficient(g, person),
        coefficient_of(g, person) == table[person],
{
    let chosen = choose|t: Map<PersonId, u128>| #[trigger]
        is_coefficient_table(g, t) && t.contains_key(person);
    lemma_tables_agree(g, chosen, table, person);
}

/// A person with fewer than two recorded parents has the coefficient zero.
pub proof fn lemma_fewer_than_two_parents(g: Pedigree, person: PersonId)
    requires
        parents_in(g, person).len() < 2,
    ensures
        has_coefficient(g, person),
        coefficient_of(g, person) == 0,
{
    let table = Map::<PersonId, u128>::empty().insert(person, 0u128);
    assert(is_coefficient_table(g, table));
    lemma_coefficient_is(g, table, person);
}

/// A person whose two parents share no ancestor has the coefficient zero.
pub proof fn lemma_unrelated_parents(g: Pedigree, person: PersonId)
    requires
        parents_in(g, person).len() >= 2,
        forall|x: PersonId|
            !common_ancestor_set(g, parents_in(g, person)[0], parents_in(g, person)[1]).contains(
                x,
            ),
    ensures
        has_coefficient(g, person),
        coefficient_of(g, person) == 0,
{
    let ps = parents_in(g, person);
    let table = Map::<PersonId, u128>::empty().insert(person, 0u128);
    lemma_no_shared_ancestor(g, ps[0], ps[1], table);
    assert(is_coefficient_table(g, table));
    lemma_coefficient_is(g, table, person);
}

/// The sum over a list of one member is the term of that member.
proof fn lemma_total_of_one<A>(x: A, term: spec_fn(A) -> Option<nat>)
    ensures
        seq_total(seq![x], term) == term(x),
{
    lemma_total_push(Seq::<A>::empty(), term, x);
    assert(Seq::<A>::empty().push(x) =~= seq![x]);
}

/// Where the parents of a person share exactly one ancestor, reached from
/// each parent in exactly one way, the coefficient is one half to the power
/// of the edges of both ways plus one, times one plus the coefficient of
/// that ancestor.
pub proof fn lemma_one_shared_ancestor(
    g: Pedigree,
    table: Map<PersonId, u128>,
    person: PersonId,
    ancestor: PersonId,
    father_way: Seq<PersonId>,
    mother_way: Seq<PersonId>,
)
    requires
        is_coefficient_table(g, table),
        table.contains_key(person),
        parents_in(g, person).len() >= 2,
        forall|x: PersonId|
            common_ancestor_set(g, parents_in(g, person)[0], parents_in(g, person)[1]).contains(x)
                <==> x == ancestor,
        forall|way: Seq<PersonId>|
            path_set(g, parents_in(g, person)[0], ancestor).contains(way) <==> way == father_way,
        forall|way: Seq<PersonId>|
            path_set(g, parents_in(g, person)[1], ancestor).contains(way) <==> way == mother_way,
    ensures
        table.contains_key(ancestor),
        Some(table[person] as nat) == pair_term(
            path_edges(father_way) + path_edges(mother_way),
            table[ancestor] as nat,
        ),
{
    let father = parents_in(g, person)[0];
    let mother = parents_in(g, person)[1];
    let set = common_ancestor_set(g, father, mother);
    let rule = |a: PersonId| share_from_table(g, father, mother, table, a);
    assert(one_level(g, person, table) == Some(table[person] as nat));
    assert(is_listing(seq![ancestor], set)) by {
        assert(seq![ancestor][0] == ancestor);
    }
    lemma_total_over_set(seq![ancestor], set, rule);
    lemma_total_of_one(ancestor, rule);
    assert(share_from_table(g, father, mother, table, ancestor) == Some(table[person] as nat));
    let inner = table[ancestor] as nat;
    let father_set = path_set(g, father, ancestor);
    let mother_set = path_set(g, mother, ancestor);
    assert(is_listing(seq![father_way], father_set)) by {
        assert(seq![father_way][0] == father_way);
    }
    assert(is_listing(seq![mother_way], mother_set)) by {
        assert(seq![mother_way][0] == mother_way);
    }
    let father_edges = path_edges(father_way);
    let mothers = listing(mother_set);
    let row = |fp: Seq<PersonId>| row_total(mothers, path_edges(fp), inner);
    let term = |mp: Seq<PersonId>| pair_term(father_edges + path_edges(mp), inner);
    lemma_total_over_set(seq![father_way], father_set, row);
    lemma_total_of_one(father_way, row);
    lemma_total_over_set(seq![mother_way], mother_set, term);
    lemma_total_of_one(mother_way, term);
    assert(row_total(mothers, father_edges, inner) == seq_total(mothers, term));
    assert(pair_total(listing(father_set), mothers, inner) == seq_total(listing(father_set), row));
}

/// One half to the power of five, in units of 2^-96: what a shared ancestor
/// two generations above each parent adds where the ancestor's own
/// coefficient is zero.
pub proof fn lemma_one_thirty_second()
    ensures
        pair_term(4, 0) == Some((ONE_UNITS / 32) as nat),
        ONE_UNITS / 32 == 2475880078570760549798248448,
{
    reveal_with_fuel(halved, 6);
}

} // verus!
