//! The consanguinity calculator.
//!
//! A calculator owns an ancestry graph index and a memo of the coefficients
//! it has worked out. The memo lives and dies with the calculator: whoever
//! needs another graph makes another calculator.

use std::collections::HashMap;
use vstd::prelude::*;
use crate::coefficient::{pair_term, pair_term_units, Coefficient};
use crate::error::AncestryError;
use crate::graph::AncestryGraphIndex;
use crate::ident::{lemma_persons_counted, PersonId};
use crate::inbreeding::{
    coefficient_of, extends_table, has_coefficient, is_coefficient_table, lemma_coefficient_is,
    lemma_no_shared_ancestor, lemma_pair_total_any_order, lemma_table_gains_entry,
    lemma_tables_agree, one_level, pair_total, path_edges, row_total, settled, share_from_table,
};
use crate::paths::{lemma_path_views, lists_path, path_views, AncestorPath};
use crate::pedigree::{
    ancestor_set, common_ancestor_set, has_cycle_from, is_ancestor, is_edge, is_path,
    lemma_ancestor_transitive, lemma_ancestors_finite, lemma_cycle_from_parent,
    lemma_cycle_inherited, lemma_fewer_ancestors_above, lemma_parent_is_ancestor, parents_in,
    path_set, well_shaped, Pedigree,
};
use crate::sums::{
    is_listing, lemma_listing_exists, lemma_total_bounds_each, lemma_total_concat,
    lemma_total_over_set, lemma_total_push, lemma_total_same_terms, listing, seq_total,
};

verus! {

broadcast use vstd::std_specs::hash::group_hash_axioms;

/// What one way from the father of `father_edges` edges adds together with
/// every way in `mother_paths`. `None` where the sum is not a whole number
/// of units that fits.
fn row_sum(mother_paths: &Vec<AncestorPath>, father_edges: usize, inner: u128) -> (r: Option<u128>)
    ensures
        match r {
            Some(v) => row_total(path_views(mother_paths@), father_edges as nat, inner as nat)
                == Some(v as nat),
            None => !fits(row_total(path_views(mother_paths@), father_edges as nat, inner as nat)),
        },
{
    let ghost views = path_views(mother_paths@);
    let ghost term = |mp: Seq<PersonId>| pair_term(father_edges as nat + path_edges(mp), inner as nat);
    let mut sum: u128 = 0;
    let mut j: usize = 0;
    assert(views.take(0) =~= Seq::<Seq<PersonId>>::empty());
    while j < mother_paths.len()
        invariant
            j <= mother_paths.len(),
            views == path_views(mother_paths@),
            term == |mp: Seq<PersonId>| pair_term(father_edges as nat + path_edges(mp), inner as nat),
            seq_total(views.take(j as int), term) == Some(sum as nat),
        decreases mother_paths.len() - j,
    {
        let mother_edges = mother_paths[j].generations();
        let ghost path = views[j as int];
        proof {
            assert(path == mother_paths@[j as int]@);
            assert(views.take(j as int + 1) =~= views.take(j as int).push(path));
            lemma_total_push(views.take(j as int), term, path);
            assert(views =~= views.take(j as int + 1) + views.skip(j as int + 1));
            lemma_total_concat(views.take(j as int + 1), views.skip(j as int + 1), term);
        }
        let part = match pair_term_units(father_edges, mother_edges, inner) {
            Some(v) => v,
            None => {
                return None;
            },
        };
        sum = match sum.checked_add(part) {
            Some(v) => v,
            None => {
                return None;
            },
        };
        j = j + 1;
    }
    assert(views.take(j as int) =~= views);
    Some(sum)
}

/// An amount exists and fits in 128 bits.
pub open spec fn fits(amount: Option<nat>) -> bool {
    amount is Some && amount->Some_0 <= u128::MAX
}

/// What every pair of a way in `father_paths` and a way in `mother_paths`
/// adds. `None` where the sum is not a whole number of units that fits.
fn pair_sum(father_paths: &Vec<AncestorPath>, mother_paths: &Vec<AncestorPath>, inner: u128) -> (r:
    Option<u128>)
    ensures
        match r {
            Some(v) => pair_total(
                path_views(father_paths@),
                path_views(mother_paths@),
                inner as nat,
            ) == Some(v as nat),
            None => !fits(
                pair_total(path_views(father_paths@), path_views(mother_paths@), inner as nat),
            ),
        },
{
    let ghost views = path_views(father_paths@);
    let ghost others = path_views(mother_paths@);
    let ghost row = |fp: Seq<PersonId>| row_total(others, path_edges(fp), inner as nat);
    let mut sum: u128 = 0;
    let mut i: usize = 0;
    assert(views.take(0) =~= Seq::<Seq<PersonId>>::empty());
    while i < father_paths.len()
        invariant
            i <= father_paths.len(),
            views == path_views(father_paths@),
            others == path_views(mother_paths@),
            row == |fp: Seq<PersonId>| row_total(others, path_edges(fp), inner as nat),
            seq_total(views.take(i as int), row) == Some(sum as nat),
        decreases father_paths.len() - i,
    {
        let father_edges = father_paths[i].generations();
        let ghost path = views[i as int];
        proof {
            assert(path == father_paths@[i as int]@);
            assert(views.take(i as int + 1) =~= views.take(i as int).push(path));
            lemma_total_push(views.take(i as int), row, path);
            assert(views =~= views.take(i as int + 1) + views.skip(i as int + 1));
            lemma_total_concat(views.take(i as int + 1), views.skip(i as int + 1), row);
        }
        let part = match row_sum(mother_paths, father_edges, inner) {
            Some(v) => v,
            None => {
                return None;
            },
        };
        sum = match sum.checked_add(part) {
            Some(v) => v,
            None => {
                return None;
            },
        };
        i = i + 1;
    }
    assert(views.take(i as int) =~= views);
    Some(sum)
}

/// What a calculation of the coefficient of `person` yields on a pedigree,
/// where the calculator's memo does not hold the person yet.
pub open spec fn calculation_outcome(g: Pedigree, available: bool, person: PersonId) -> Result<
    Coefficient,
    AncestryError,
> {
    let ps = parents_in(g, person);
    if !available {
        Err(AncestryError::GraphUnavailable)
    } else if ps.len() < 2 {
        Ok(Coefficient { units: 0 })
    } else if forall|x: PersonId| !common_ancestor_set(g, ps[0], ps[1]).contains(x) {
        Ok(Coefficient { units: 0 })
    } else if has_cycle_from(g, ps[0]) || has_cycle_from(g, ps[1]) {
        Err(AncestryError::CyclicAncestry)
    } else if has_coefficient(g, person) {
        Ok(Coefficient { units: coefficient_of(g, person) })
    } else {
        Err(AncestryError::OutOfRange)
    }
}

/// Works out consanguinity coefficients over one ancestry graph index and
/// remembers each coefficient it has worked out.
pub struct ConsanguinityCalculator {
    graph: AncestryGraphIndex,
    cache: HashMap<u128, u128>,
}

impl ConsanguinityCalculator {
    /// The index that the calculator works on.
    pub closed spec fn index(&self) -> AncestryGraphIndex {
        self.graph
    }

    /// The coefficients remembered, in units of 2^-96.
    pub closed spec fn memo(&self) -> Map<PersonId, u128> {
        Map::new(|p: PersonId| self.cache@.contains_key(p.0), |p: PersonId| self.cache@[p.0])
    }

    /// The memo is a table of coefficients of the index, and holds settled
    /// persons only. This holds of every calculator.
    #[verifier::type_invariant]
    pub closed spec fn wf(&self) -> bool {
        &&& is_coefficient_table(self.graph@, self.memo())
        &&& forall|p: PersonId| #[trigger] self.memo().contains_key(p) ==> settled(self.graph@, p)
    }

    /// What the memo holds is what the coefficients are.
    pub proof fn lemma_memo_is_exact(&self, person: PersonId)
        requires
            self.wf(),
            self.memo().contains_key(person),
        ensures
            has_coefficient(self.index()@, person),
            self.memo()[person] == coefficient_of(self.index()@, person),
    {
        lemma_coefficient_is(self.graph@, self.memo(), person);
    }

    /// A calculator over `graph` that remembers nothing yet.
    pub fn new(graph: AncestryGraphIndex) -> (calculator: Self)
        ensures
            calculator.wf(),
            calculator.index() == graph,
            calculator.memo() == Map::<PersonId, u128>::empty(),
    {
        let calculator = ConsanguinityCalculator { graph, cache: HashMap::new() };
        assert(calculator.memo() =~= Map::<PersonId, u128>::empty());
        calculator
    }

    /// The index that the calculator works on.
    pub fn graph(&self) -> (graph: &AncestryGraphIndex)
        ensures
            *graph == self.index(),
    {
        &self.graph
    }

    /// Gives the index back and forgets the memo.
    pub fn into_graph(self) -> (graph: AncestryGraphIndex)
        ensures
            graph == self.index(),
    {
        self.graph
    }

    /// How many coefficients are remembered.
    pub fn cache_len(&self) -> (n: usize)
        ensures
            n == self.memo().dom().len(),
    {
        proof {
            lemma_persons_counted(self.cache@.dom(), self.memo().dom());
        }
        self.cache.len()
    }

    /// Forgets every remembered coefficient.
    pub fn clear_cache(&mut self)
        ensures
            final(self).wf(),
            final(self).index() == old(self).index(),
            final(self).memo() == Map::<PersonId, u128>::empty(),
    {
        self.cache = HashMap::new();
        assert(self.memo() =~= Map::<PersonId, u128>::empty());
    }

    /// Remembers `units` as the coefficient of `person`.
    fn remember(&mut self, person: PersonId, units: u128)
        requires
            old(self).wf(),
            one_level(old(self).index()@, person, old(self).memo()) == Some(units as nat),
            settled(old(self).index()@, person),
        ensures
            final(self).wf(),
            final(self).index() == old(self).index(),
            final(self).memo() == old(self).memo().insert(person, units),
            extends_table(old(self).memo(), final(self).memo()),
    {
        proof {
            lemma_table_gains_entry(self.graph@, self.memo(), person, units);
            if self.memo().contains_key(person) {
                assert(self.memo()[person] == units);
            }
        }
        let mut cache: HashMap<u128, u128> = HashMap::new();
        std::mem::swap(&mut cache, &mut self.cache);
        cache.insert(person.0, units);
        proof {
            let grown = Map::new(|p: PersonId| cache@.contains_key(p.0), |p: PersonId| cache@[p.0]);
            assert(grown =~= old(self).memo().insert(person, units));
        }
        self.cache = cache;
        assert(self.memo() =~= old(self).memo().insert(person, units));
    }

    /// What the shared ancestor `ancestor` adds to the coefficient of
    /// `person`, whose parents are `father` and `mother`. Works out and
    /// remembers the coefficient of `ancestor` on the way.
    fn share_of(
        &mut self,
        Ghost(person): Ghost<PersonId>,
        father: PersonId,
        mother: PersonId,
        ancestor: PersonId,
    ) -> (res: Result<u128, AncestryError>)
        requires
            old(self).wf(),
            old(self).index().available(),
            ancestor_set(old(self).index()@, person).finite(),
            is_ancestor(old(self).index()@, person, father),
            common_ancestor_set(old(self).index()@, father, mother).contains(ancestor),
        ensures
            final(self).wf(),
            final(self).index() == old(self).index(),
            extends_table(old(self).memo(), final(self).memo()),
            forall|p: PersonId|
                final(self).memo().contains_key(p) && !old(self).memo().contains_key(p) ==> p
                    == ancestor || is_ancestor(old(self).index()@, ancestor, p),
            match res {
                Ok(part) => {
                    &&& !has_cycle_from(old(self).index()@, father)
                    &&& !has_cycle_from(old(self).index()@, mother)
                    &&& final(self).memo().contains_key(ancestor)
                    &&& share_from_table(
                        old(self).index()@,
                        father,
                        mother,
                        final(self).memo(),
                        ancestor,
                    ) == Some(part as nat)
                },
                Err(e) => {
                    if has_cycle_from(old(self).index()@, father) || has_cycle_from(
                        old(self).index()@,
                        mother,
                    ) {
                        e == AncestryError::CyclicAncestry && final(self).memo() == old(self).memo()
                    } else {
                        e == AncestryError::OutOfRange && no_share(
                            old(self).index()@,
                            father,
                            mother,
                            ancestor,
                        )
                    }
                },
            },
        decreases ancestor_set(old(self).index()@, person).len(), 0nat,
    {
        let ghost g = self.graph@;
        let father_paths = match self.graph.paths_between(father, ancestor) {
            Ok(paths) => paths,
            Err(e) => {
                return Err(e);
            },
        };
        let mother_paths = match self.graph.paths_between(mother, ancestor) {
            Ok(paths) => paths,
            Err(e) => {
                return Err(e);
            },
        };
        proof {
            lemma_ancestor_transitive(g, person, father, ancestor);
            if has_cycle_from(g, ancestor) {
                lemma_cycle_inherited(g, father, ancestor);
            }
            lemma_fewer_ancestors_above(g, person, ancestor);
        }
        let inner = match self.calculate(ancestor) {
            Ok(c) => c,
            Err(e) => {
                proof {
                    lemma_ancestor_outcome(g, father, ancestor);
                    assert(!has_coefficient(g, ancestor));
                    assert forall|t: Map<PersonId, u128>| #[trigger]
                        is_coefficient_table(g, t) implies !fits(
                        share_from_table(g, father, mother, t, ancestor),
                    ) by {
                        if t.contains_key(ancestor) {
                            assert(is_coefficient_table(g, t) && t.contains_key(ancestor));
                        }
                    }
                }
                return Err(e);
            },
        };
        let part = match pair_sum(&father_paths, &mother_paths, inner.units) {
            Some(v) => v,
            None => {
                proof {
                    let memo = self.memo();
                    assert forall|t: Map<PersonId, u128>| #[trigger]
                        is_coefficient_table(g, t) implies !fits(
                        share_from_table(g, father, mother, t, ancestor),
                    ) by {
                        if t.contains_key(ancestor) {
                            lemma_tables_agree(g, t, memo, ancestor);
                            lemma_share_as_found(
                                g,
                                father,
                                mother,
                                ancestor,
                                father_paths@,
                                mother_paths@,
                                t,
                            );
                        }
                    }
                }
                return Err(AncestryError::OutOfRange);
            },
        };
        proof {
            lemma_share_as_found(
                g,
                father,
                mother,
                ancestor,
                father_paths@,
                mother_paths@,
                self.memo(),
            );
        }
        Ok(part)
    }

    /// The shares of all shared ancestors of the parents of `person`,
    /// summed. Works out and remembers the coefficients of the shared
    /// ancestors on the way.
    fn sum_of_shares(
        &mut self,
        Ghost(person): Ghost<PersonId>,
        father: PersonId,
        mother: PersonId,
        shared: &Vec<PersonId>,
    ) -> (res: Result<u128, AncestryError>)
        requires
            old(self).wf(),
            old(self).index().available(),
            !old(self).memo().contains_key(person),
            parents_in(old(self).index()@, person).len() >= 2,
            father == parents_in(old(self).index()@, person)[0],
            mother == parents_in(old(self).index()@, person)[1],
            shared@.len() >= 1,
            is_listing(shared@, common_ancestor_set(old(self).index()@, father, mother)),
        ensures
            final(self).wf(),
            final(self).index() == old(self).index(),
            extends_table(old(self).memo(), final(self).memo()),
            forall|p: PersonId|
                final(self).memo().contains_key(p) && !old(self).memo().contains_key(p)
                    ==> is_ancestor(old(self).index()@, person, p),
            !final(self).memo().contains_key(person),
            match res {
                Ok(total) => {
                    &&& !has_cycle_from(old(self).index()@, father)
                    &&& !has_cycle_from(old(self).index()@, mother)
                    &&& one_level(old(self).index()@, person, final(self).memo()) == Some(
                        total as nat,
                    )
                },
                Err(e) => {
                    if has_cycle_from(old(self).index()@, father) || has_cycle_from(
                        old(self).index()@,
                        mother,
                    ) {
                        e == AncestryError::CyclicAncestry
                    } else {
                        e == AncestryError::OutOfRange && !has_coefficient(
                            old(self).index()@,
                            person,
                        )
                    }
                },
            },
        decreases ancestor_set(old(self).index()@, person).len(), 1nat,
    {
        let ghost g = self.graph@;
        let ghost memo0 = self.memo();
        let ghost set = common_ancestor_set(g, father, mother);
        proof {
            self.graph.lemma_well_shaped();
            self.graph.lemma_finite();
            assert(is_edge(g, person, father));
            lemma_parent_is_ancestor(g, person, father);
            lemma_ancestors_finite(g, person);
        }
        let mut total: u128 = 0;
        let mut i: usize = 0;
        assert(shared@.take(0) =~= Seq::<PersonId>::empty());
        while i < shared.len()
            invariant
                self.wf(),
                self.graph == old(self).graph,
                g == self.graph@,
                self.graph.available(),
                extends_table(memo0, self.memo()),
                memo0 == old(self).memo(),
                !memo0.contains_key(person),
                well_shaped(g),
                i == 0 ==> self.memo() == memo0,
                parents_in(g, person).len() >= 2,
                father == parents_in(g, person)[0],
                mother == parents_in(g, person)[1],
                forall|p: PersonId|
                    self.memo().contains_key(p) && !memo0.contains_key(p) ==> is_ancestor(
                        g,
                        person,
                        p,
                    ),
                set == common_ancestor_set(g, father, mother),
                shared@.len() >= 1,
                is_listing(shared@, set),
                is_ancestor(g, person, father),
                ancestor_set(g, person).finite(),
                i <= shared.len(),
                i > 0 ==> !has_cycle_from(g, father) && !has_cycle_from(g, mother),
                prefix_total(g, father, mother, self.memo(), shared@.take(i as int), total as nat),
            decreases shared.len() - i,
        {
            let ancestor = shared[i];
            let ghost memo_before = self.memo();
            let ghost done = shared@.take(i as int);
            proof {
                assert(shared@.contains(ancestor));
                assert(set.contains(ancestor));
            }
            let part = match self.share_of(Ghost(person), father, mother, ancestor) {
                Ok(v) => v,
                Err(e) => {
                    proof {
                        lemma_grown_above(g, person, father, ancestor, memo0, memo_before, self.memo());
                        if e == AncestryError::OutOfRange {
                            lemma_no_coefficient_without_share(
                                g,
                                person,
                                father,
                                mother,
                                shared@,
                                i as int,
                            );
                            lemma_not_above_itself(g, person);
                        }
                    }
                    return Err(e);
                },
            };
            proof {
                lemma_grown_above(g, person, father, ancestor, memo0, memo_before, self.memo());
                lemma_prefix_grows(
                    g,
                    father,
                    mother,
                    done,
                    ancestor,
                    memo_before,
                    self.memo(),
                    total as nat,
                    part as nat,
                );
                assert(shared@.take(i as int + 1) =~= done.push(ancestor));
            }
            total = match total.checked_add(part) {
                Some(v) => v,
                None => {
                    proof {
                        lemma_no_coefficient_beyond_range(
                            g,
                            person,
                            father,
                            mother,
                            shared@,
                            self.memo(),
                            i as int + 1,
                            total as nat + part as nat,
                        );
                        lemma_not_above_itself(g, person);
                    }
                    return Err(AncestryError::OutOfRange);
                },
            };
            i = i + 1;
        }
        proof {
            assert(shared@.take(i as int) =~= shared@);
            lemma_total_over_set(
                shared@,
                set,
                |a: PersonId| share_from_table(g, father, mother, self.memo(), a),
            );
            lemma_not_above_itself(g, person);
        }
        Ok(total)
    }

    /// The consanguinity coefficient of `person`.
    ///
    /// A coefficient that the calculator remembers is returned as it is.
    /// Otherwise the coefficient is worked out from the index and remembered:
    /// zero for a person with fewer than two recorded parents or whose
    /// parents share no ancestor, and else the sum over every shared
    /// ancestor and every pair of ways up to that ancestor. Nothing is
    /// remembered for `person` unless the whole sum was formed.
    pub fn calculate(&mut self, person: PersonId) -> (res: Result<Coefficient, AncestryError>)
        ensures
            final(self).wf(),
            final(self).index() == old(self).index(),
            extends_table(old(self).memo(), final(self).memo()),
            forall|p: PersonId|
                final(self).memo().contains_key(p) && !old(self).memo().contains_key(p) ==> p
                    == person || is_ancestor(old(self).index()@, person, p),
            old(self).memo().contains_key(person) ==> final(self).memo() == old(self).memo() && res
                == Ok::<Coefficient, AncestryError>(
                Coefficient { units: old(self).memo()[person] },
            ),
            !old(self).memo().contains_key(person) ==> res == calculation_outcome(
                old(self).index()@,
                old(self).index().available(),
                person,
            ),
            res is Ok ==> final(self).memo().contains_key(person) && final(self).memo()[person]
                == res->Ok_0.units,
            res is Err ==> !final(self).memo().contains_key(person),
            calculated(*old(self), person, *final(self), res),
        decreases ancestor_set(old(self).index()@, person).len(), 2nat,
    {
        proof {
            use_type_invariant(&*self);
        }
        let ghost g = self.graph@;
        match self.cache.get(&person.0) {
            Some(units) => {
                return Ok(Coefficient { units: *units });
            },
            None => {},
        }
        let parents = match self.graph.parents_of(person) {
            Ok(ps) => ps,
            Err(e) => {
                return Err(e);
            },
        };
        if parents.len() < 2 {
            return Ok(self.remember_zero(person));
        }
        let father = parents[0];
        let mother = parents[1];
        let shared = match self.graph.common_ancestors(father, mother) {
            Ok(v) => v,
            Err(e) => {
                return Err(e);
            },
        };
        let ghost set = common_ancestor_set(g, father, mother);
        proof {
            assert(is_listing(shared@, set)) by {
                assert forall|x: PersonId|
                    #![trigger shared@.contains(x)]
                    #![trigger set.contains(x)]
                    shared@.contains(x) <==> set.contains(x) by {}
            }
        }
        if shared.len() == 0 {
            proof {
                assert forall|x: PersonId| !set.contains(x) by {
                    if set.contains(x) {
                        assert(shared@.contains(x));
                    }
                }
                lemma_no_shared_ancestor(g, father, mother, self.memo());
            }
            return Ok(self.remember_zero(person));
        }
        proof {
            assert(shared@.contains(shared@[0]));
            assert(set.contains(shared@[0]));
        }
        let total = match self.sum_of_shares(Ghost(person), father, mother, &shared) {
            Ok(v) => v,
            Err(e) => {
                return Err(e);
            },
        };
        proof {
            self.graph.lemma_well_shaped();
            self.graph.lemma_finite();
            lemma_ancestors_finite(g, person);
            lemma_not_above_itself(g, person);
        }
        self.remember(person, total);
        proof {
            lemma_coefficient_is(g, self.memo(), person);
        }
        Ok(Coefficient { units: total })
    }

    /// Remembers zero as the coefficient of a person for whom the formula
    /// gives zero without looking at any ancestor.
    fn remember_zero(&mut self, person: PersonId) -> (zero: Coefficient)
        requires
            old(self).wf(),
            !old(self).memo().contains_key(person),
            one_level(old(self).index()@, person, old(self).memo()) == Some(0nat),
            settled(old(self).index()@, person),
        ensures
            zero.units == 0,
            final(self).wf(),
            final(self).index() == old(self).index(),
            final(self).memo() == old(self).memo().insert(person, 0u128),
            extends_table(old(self).memo(), final(self).memo()),
            has_coefficient(old(self).index()@, person),
            coefficient_of(old(self).index()@, person) == 0,
    {
        self.remember(person, 0);
        proof {
            lemma_coefficient_is(self.graph@, self.memo(), person);
        }
        Coefficient { units: 0 }
    }
}

/// Nobody whose parents can reach no cycle is their own ancestor.
proof fn lemma_not_above_itself(g: Pedigree, person: PersonId)
    requires
        well_shaped(g),
        parents_in(g, person).len() >= 2,
        !has_cycle_from(g, parents_in(g, person)[0]),
        !has_cycle_from(g, parents_in(g, person)[1]),
    ensures
        !is_ancestor(g, person, person),
        !has_cycle_from(g, person),
{
    if has_cycle_from(g, person) {
        let parent = lemma_cycle_from_parent(g, person);
        let ps = parents_in(g, person);
        let k = choose|k: int| 0 <= k < ps.len() && ps[k] == parent;
        assert(g.contains_key(person));
    }
    if is_ancestor(g, person, person) {
        crate::pedigree::lemma_own_ancestor_is_cycle(g, person);
    }
}

/// What one call of [`ConsanguinityCalculator::calculate`] for `person`
/// makes of a calculator and returns.
pub open spec fn calculated(
    before: ConsanguinityCalculator,
    person: PersonId,
    after: ConsanguinityCalculator,
    res: Result<Coefficient, AncestryError>,
) -> bool {
    &&& after.wf()
    &&& after.index() == before.index()
    &&& extends_table(before.memo(), after.memo())
    &&& before.memo().contains_key(person) ==> after.memo() == before.memo() && res == Ok::<
        Coefficient,
        AncestryError,
    >(Coefficient { units: before.memo()[person] })
    &&& !before.memo().contains_key(person) ==> res == calculation_outcome(
        before.index()@,
        before.index().available(),
        person,
    )
    &&& res is Ok ==> after.memo().contains_key(person) && after.memo()[person] == res->Ok_0.units
    &&& res is Err ==> !after.memo().contains_key(person)
}

/// The shares of the ancestors in `done`, read with `table`, add up to
/// `total`, and `table` holds each of them.
pub open spec fn prefix_total(
    g: Pedigree,
    father: PersonId,
    mother: PersonId,
    table: Map<PersonId, u128>,
    done: Seq<PersonId>,
    total: nat,
) -> bool {
    &&& forall|k: int| 0 <= k < done.len() ==> table.contains_key(#[trigger] done[k])
    &&& seq_total(done, |a: PersonId| share_from_table(g, father, mother, table, a)) == Some(total)
}

/// The sum over the ancestors done so far stands when the memo grows, and
/// grows by the share of the next ancestor.
proof fn lemma_prefix_grows(
    g: Pedigree,
    father: PersonId,
    mother: PersonId,
    done: Seq<PersonId>,
    ancestor: PersonId,
    before: Map<PersonId, u128>,
    after: Map<PersonId, u128>,
    total: nat,
    part: nat,
)
    requires
        prefix_total(g, father, mother, before, done, total),
        extends_table(before, after),
        after.contains_key(ancestor),
        share_from_table(g, father, mother, after, ancestor) == Some(part),
    ensures
        prefix_total(g, father, mother, after, done.push(ancestor), total + part),
{
    let rule_before = |a: PersonId| share_from_table(g, father, mother, before, a);
    let rule_after = |a: PersonId| share_from_table(g, father, mother, after, a);
    assert forall|k: int| 0 <= k < done.len() implies rule_before(#[trigger] done[k]) == rule_after(
        done[k],
    ) by {
        assert(before.contains_key(done[k]));
    }
    lemma_total_same_terms(done, rule_before, rule_after);
    lemma_total_push(done, rule_after, ancestor);
    let longer = done.push(ancestor);
    assert forall|k: int| 0 <= k < longer.len() implies after.contains_key(#[trigger] longer[k]) by {
        if k < done.len() {
            assert(before.contains_key(done[k]));
        }
    }
}

/// What the work on one shared ancestor added to the memo stands above the
/// person whose coefficient is being worked out.
proof fn lemma_grown_above(
    g: Pedigree,
    person: PersonId,
    father: PersonId,
    ancestor: PersonId,
    first: Map<PersonId, u128>,
    before: Map<PersonId, u128>,
    after: Map<PersonId, u128>,
)
    requires
        is_ancestor(g, person, father),
        is_ancestor(g, father, ancestor),
        extends_table(first, before),
        extends_table(before, after),
        forall|p: PersonId|
            before.contains_key(p) && !first.contains_key(p) ==> is_ancestor(g, person, p),
        forall|p: PersonId|
            after.contains_key(p) && !before.contains_key(p) ==> p == ancestor || is_ancestor(
                g,
                ancestor,
                p,
            ),
    ensures
        extends_table(first, after),
        forall|p: PersonId|
            after.contains_key(p) && !first.contains_key(p) ==> is_ancestor(g, person, p),
{
    lemma_ancestor_transitive(g, person, father, ancestor);
    assert forall|p: PersonId| after.contains_key(p) && !first.contains_key(p) implies is_ancestor(
        g,
        person,
        p,
    ) by {
        if !before.contains_key(p) && p != ancestor {
            lemma_ancestor_transitive(g, person, ancestor, p);
        }
    }
}

/// No table of coefficients gives `ancestor` a share that exists and fits.
pub open spec fn no_share(g: Pedigree, father: PersonId, mother: PersonId, ancestor: PersonId) -> bool {
    forall|t: Map<PersonId, u128>| #[trigger]
        is_coefficient_table(g, t) ==> !fits(share_from_table(g, father, mother, t, ancestor))
}

/// What a shared ancestor adds is what the pairs of the ways found add.
proof fn lemma_share_as_found(
    g: Pedigree,
    father: PersonId,
    mother: PersonId,
    ancestor: PersonId,
    father_paths: Seq<AncestorPath>,
    mother_paths: Seq<AncestorPath>,
    table: Map<PersonId, u128>,
)
    requires
        crate::paths::distinct_paths(father_paths),
        crate::paths::distinct_paths(mother_paths),
        forall|path: Seq<PersonId>|
            lists_path(father_paths, path) <==> #[trigger] is_path(g, path, father, ancestor),
        forall|path: Seq<PersonId>|
            lists_path(mother_paths, path) <==> #[trigger] is_path(g, path, mother, ancestor),
        table.contains_key(ancestor),
    ensures
        share_from_table(g, father, mother, table, ancestor) == pair_total(
            path_views(father_paths),
            path_views(mother_paths),
            table[ancestor] as nat,
        ),
{
    lemma_path_views(father_paths);
    lemma_path_views(mother_paths);
    let father_set = path_set(g, father, ancestor);
    let mother_set = path_set(g, mother, ancestor);
    assert(is_listing(path_views(father_paths), father_set)) by {
        assert forall|x: Seq<PersonId>|
            #![trigger path_views(father_paths).contains(x)]
            #![trigger father_set.contains(x)]
            path_views(father_paths).contains(x) <==> father_set.contains(x) by {
            assert(lists_path(father_paths, x) <==> is_path(g, x, father, ancestor));
        }
    }
    assert(is_listing(path_views(mother_paths), mother_set)) by {
        assert forall|x: Seq<PersonId>|
            #![trigger path_views(mother_paths).contains(x)]
            #![trigger mother_set.contains(x)]
            path_views(mother_paths).contains(x) <==> mother_set.contains(x) by {
            assert(lists_path(mother_paths, x) <==> is_path(g, x, mother, ancestor));
        }
    }
    lemma_listing_exists(path_views(father_paths), father_set);
    lemma_listing_exists(path_views(mother_paths), mother_set);
    lemma_pair_total_any_order(
        path_views(father_paths),
        path_views(mother_paths),
        listing(father_set),
        listing(mother_set),
        table[ancestor] as nat,
    );
}

/// A person has no coefficient where one shared ancestor of the parents has
/// no share.
proof fn lemma_no_coefficient_without_share(
    g: Pedigree,
    person: PersonId,
    father: PersonId,
    mother: PersonId,
    shared: Seq<PersonId>,
    at: int,
)
    requires
        parents_in(g, person).len() >= 2,
        father == parents_in(g, person)[0],
        mother == parents_in(g, person)[1],
        is_listing(shared, common_ancestor_set(g, father, mother)),
        0 <= at < shared.len(),
        no_share(g, father, mother, shared[at]),
    ensures
        !has_coefficient(g, person),
{
    if has_coefficient(g, person) {
        let t = choose|t: Map<PersonId, u128>| #[trigger]
            is_coefficient_table(g, t) && t.contains_key(person);
        let set = common_ancestor_set(g, father, mother);
        let rule = |a: PersonId| share_from_table(g, father, mother, t, a);
        assert(one_level(g, person, t) == Some(t[person] as nat));
        lemma_total_over_set(shared, set, rule);
        lemma_total_bounds_each(shared, rule, at);
        assert(fits(share_from_table(g, father, mother, t, shared[at])));
    }
}

/// A person has no coefficient where the shares of some of the shared
/// ancestors of the parents add up to more than fits.
proof fn lemma_no_coefficient_beyond_range(
    g: Pedigree,
    person: PersonId,
    father: PersonId,
    mother: PersonId,
    shared: Seq<PersonId>,
    memo: Map<PersonId, u128>,
    upto: int,
    sum: nat,
)
    requires
        parents_in(g, person).len() >= 2,
        father == parents_in(g, person)[0],
        mother == parents_in(g, person)[1],
        is_listing(shared, common_ancestor_set(g, father, mother)),
        is_coefficient_table(g, memo),
        forall|p: PersonId| #[trigger] memo.contains_key(p) ==> settled(g, p),
        0 <= upto <= shared.len(),
        prefix_total(g, father, mother, memo, shared.take(upto), sum),
        sum > u128::MAX,
    ensures
        !has_coefficient(g, person),
{
    if has_coefficient(g, person) {
        let t = choose|t: Map<PersonId, u128>| #[trigger]
            is_coefficient_table(g, t) && t.contains_key(person);
        let set = common_ancestor_set(g, father, mother);
        let rule = |a: PersonId| share_from_table(g, father, mother, t, a);
        let remembered = |a: PersonId| share_from_table(g, father, mother, memo, a);
        let done = shared.take(upto);
        let rest = shared.skip(upto);
        assert(one_level(g, person, t) == Some(t[person] as nat));
        lemma_total_over_set(shared, set, rule);
        assert(shared =~= done + rest);
        lemma_total_concat(done, rest, rule);
        assert forall|k: int| 0 <= k < done.len() implies rule(#[trigger] done[k]) == remembered(
            done[k],
        ) by {
            assert(done[k] == shared[k]);
            lemma_total_bounds_each(shared, rule, k);
            assert(t.contains_key(done[k]));
            assert(memo.contains_key(done[k]));
            lemma_tables_agree(g, t, memo, done[k]);
        }
        lemma_total_same_terms(done, rule, remembered);
    }
}

/// On a pedigree where `father` can reach no cycle, the calculation for an
/// ancestor of `father` does not end on a cycle.
proof fn lemma_ancestor_outcome(g: Pedigree, father: PersonId, ancestor: PersonId)
    requires
        is_ancestor(g, father, ancestor),
        !has_cycle_from(g, father),
    ensures
        calculation_outcome(g, true, ancestor) != Err::<Coefficient, AncestryError>(
            AncestryError::CyclicAncestry,
        ),
{
    let ps = parents_in(g, ancestor);
    if ps.len() >= 2 {
        assert(is_edge(g, ancestor, ps[0]));
        assert(is_edge(g, ancestor, ps[1]));
        lemma_parent_is_ancestor(g, ancestor, ps[0]);
        lemma_parent_is_ancestor(g, ancestor, ps[1]);
        lemma_ancestor_transitive(g, father, ancestor, ps[0]);
        lemma_ancestor_transitive(g, father, ancestor, ps[1]);
        if has_cycle_from(g, ps[0]) {
            lemma_cycle_inherited(g, father, ps[0]);
        }
        if has_cycle_from(g, ps[1]) {
            lemma_cycle_inherited(g, father, ps[1]);
        }
    }
}

/// A second calculation for the same person on the same calculator returns
/// what the first returned, and leaves the memo as it is.
pub proof fn lemma_repeated_call_returns_the_same(
    first: ConsanguinityCalculator,
    second: ConsanguinityCalculator,
    third: ConsanguinityCalculator,
    person: PersonId,
    earlier: Result<Coefficient, AncestryError>,
    later: Result<Coefficient, AncestryError>,
)
    requires
        calculated(first, person, second, earlier),
        calculated(second, person, third, later),
    ensures
        later == earlier,
        earlier is Ok ==> third.memo() == second.memo(),
{
    if first.memo().contains_key(person) {
        assert(second.memo()[person] == first.memo()[person]);
    } else if earlier is Ok {
    } else {
        assert(!second.memo().contains_key(person));
    }
}

/// Two calculators over the same edges that both return a coefficient for a
/// person return the same one, and two calculators that remember nothing of
/// the person return the same whatever it is.
pub proof fn lemma_calculators_agree(
    one: ConsanguinityCalculator,
    one_after: ConsanguinityCalculator,
    other: ConsanguinityCalculator,
    other_after: ConsanguinityCalculator,
    person: PersonId,
    from_one: Result<Coefficient, AncestryError>,
    from_other: Result<Coefficient, AncestryError>,
)
    requires
        calculated(one, person, one_after, from_one),
        calculated(other, person, other_after, from_other),
        one.index()@ == other.index()@,
    ensures
        from_one is Ok && from_other is Ok ==> from_one == from_other,
        !one.memo().contains_key(person) && !other.memo().contains_key(person)
            && one.index().available() == other.index().available() ==> from_one == from_other,
{
    if from_one is Ok && from_other is Ok {
        one_after.lemma_memo_is_exact(person);
        other_after.lemma_memo_is_exact(person);
    }
}

/// A calculation for a person with fewer than two recorded parents yields
/// zero.
pub proof fn lemma_few_parents_yield_zero(g: Pedigree, person: PersonId)
    requires
        parents_in(g, person).len() < 2,
    ensures
        calculation_outcome(g, true, person) == Ok::<Coefficient, AncestryError>(
            Coefficient { units: 0 },
        ),
{
}

/// A cycle that both parents of a person can reach makes the calculation
/// fail with `CyclicAncestry`.
pub proof fn lemma_shared_cycle_is_reported(g: Pedigree, person: PersonId, on_cycle: PersonId)
    requires
        parents_in(g, person).len() >= 2,
        is_ancestor(g, parents_in(g, person)[0], on_cycle),
        is_ancestor(g, parents_in(g, person)[1], on_cycle),
        has_cycle_from(g, on_cycle),
    ensures
        calculation_outcome(g, true, person) == Err::<Coefficient, AncestryError>(
            AncestryError::CyclicAncestry,
        ),
{
    let father = parents_in(g, person)[0];
    let mother = parents_in(g, person)[1];
    assert(common_ancestor_set(g, father, mother).contains(on_cycle));
    lemma_cycle_inherited(g, father, on_cycle);
}

} // verus!
