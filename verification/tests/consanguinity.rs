use genealogy_core::coefficient::{halve, pair_term_units, Coefficient, ONE_UNITS};
use genealogy_core::consanguinity::ConsanguinityCalculator;
use genealogy_core::error::AncestryError;
use genealogy_core::graph::AncestryGraphIndex;
use genealogy_core::ident::PersonId;

fn as_float(c: Coefficient) -> f64 {
    c.units as f64 / ONE_UNITS as f64
}

fn p(n: u128) -> PersonId {
    PersonId(n)
}

fn graph_of(edges: &[(u128, u128)]) -> AncestryGraphIndex {
    let mut graph = AncestryGraphIndex::new();
    for (child, parent) in edges {
        graph.upsert_edge(p(*child), p(*parent)).unwrap();
    }
    graph
}

const R: u128 = 1;
const F: u128 = 2;
const M: u128 = 3;
const FP: u128 = 4;
const MP: u128 = 5;
const A: u128 = 6;

#[test]
fn shared_great_grandparent_gives_one_thirty_second() {
    let graph = graph_of(&[(R, F), (R, M), (F, FP), (M, MP), (FP, A), (MP, A)]);
    let mut calculator = ConsanguinityCalculator::new(graph);
    let a = calculator.calculate(p(A)).unwrap();
    assert_eq!(as_float(a), 0.0);
    let r = calculator.calculate(p(R)).unwrap();
    assert_eq!(as_float(r), 0.03125);
    assert_eq!(r.units, ONE_UNITS / 32);
}

#[test]
fn zero_or_one_parent_gives_zero() {
    let graph = graph_of(&[(1, 2), (2, 3), (2, 4)]);
    let mut calculator = ConsanguinityCalculator::new(graph);
    assert_eq!(calculator.calculate(p(9)), Ok(Coefficient::zero()));
    assert_eq!(calculator.calculate(p(1)), Ok(Coefficient::zero()));
    assert_eq!(calculator.calculate(p(3)), Ok(Coefficient::zero()));
    assert!(calculator.calculate(p(1)).unwrap().is_zero());
}

#[test]
fn unrelated_parents_give_zero() {
    let graph = graph_of(&[(1, 2), (1, 3), (2, 4), (3, 5)]);
    let mut calculator = ConsanguinityCalculator::new(graph);
    assert_eq!(calculator.calculate(p(1)), Ok(Coefficient::zero()));
}

#[test]
fn a_repeated_call_returns_the_remembered_coefficient() {
    let graph = graph_of(&[(R, F), (R, M), (F, FP), (M, MP), (FP, A), (MP, A)]);
    let mut calculator = ConsanguinityCalculator::new(graph);
    assert_eq!(calculator.cache_len(), 0);
    let first = calculator.calculate(p(R)).unwrap();
    let remembered = calculator.cache_len();
    // The person and the one shared ancestor.
    assert_eq!(remembered, 2);
    let second = calculator.calculate(p(R)).unwrap();
    assert_eq!(first, second);
    assert_eq!(calculator.cache_len(), remembered);
    calculator.clear_cache();
    assert_eq!(calculator.cache_len(), 0);
    assert_eq!(calculator.calculate(p(R)), Ok(first));
}

#[test]
fn a_fresh_calculator_returns_an_equal_coefficient() {
    let edges = [(R, F), (R, M), (F, FP), (M, MP), (FP, A), (MP, A)];
    let mut one = ConsanguinityCalculator::new(graph_of(&edges));
    let mut other = ConsanguinityCalculator::new(graph_of(&edges));
    assert_eq!(one.calculate(p(R)), other.calculate(p(R)));
}

#[test]
fn a_remembered_coefficient_outlives_an_unavailable_index() {
    let graph = graph_of(&[(R, F), (R, M), (F, A), (M, A)]);
    let mut calculator = ConsanguinityCalculator::new(graph);
    let first = calculator.calculate(p(R)).unwrap();
    let mut graph = calculator.into_graph();
    graph.set_available(false);
    let mut calculator = ConsanguinityCalculator::new(graph);
    assert_eq!(calculator.calculate(p(R)), Err(AncestryError::GraphUnavailable));
    assert_eq!(calculator.cache_len(), 0);
    let mut graph = calculator.into_graph();
    graph.set_available(true);
    let mut calculator = ConsanguinityCalculator::new(graph);
    assert_eq!(calculator.calculate(p(R)), Ok(first));
}

#[test]
fn parents_who_are_full_siblings_give_a_quarter() {
    // Father 2 and mother 3 are both children of 4 and 5.
    let graph = graph_of(&[(1, 2), (1, 3), (2, 4), (2, 5), (3, 4), (3, 5)]);
    let mut calculator = ConsanguinityCalculator::new(graph);
    let c = calculator.calculate(p(1)).unwrap();
    assert_eq!(as_float(c), 0.25);
    assert_eq!(c.split(), (0, ONE_UNITS / 4));
}

#[test]
fn parents_who_are_first_cousins_give_one_sixteenth() {
    // 2 is a child of 4, 3 is a child of 5; 4 and 5 are children of 6 and 7.
    let graph = graph_of(&[(1, 2), (1, 3), (2, 4), (3, 5), (4, 6), (4, 7), (5, 6), (5, 7)]);
    let mut calculator = ConsanguinityCalculator::new(graph);
    let c = calculator.calculate(p(1)).unwrap();
    assert_eq!(as_float(c), 0.0625);
}

#[test]
fn an_inbred_shared_ancestor_adds_its_own_coefficient() {
    // The shared ancestor 4 of 2 and 3 is a child of the full siblings 5 and
    // 6, whose parents are 7 and 8: the coefficient of 4 is a quarter.
    let graph = graph_of(&[
        (1, 2),
        (1, 3),
        (2, 4),
        (3, 4),
        (4, 5),
        (4, 6),
        (5, 7),
        (5, 8),
        (6, 7),
        (6, 8),
    ]);
    let mut calculator = ConsanguinityCalculator::new(graph);
    let inner = calculator.calculate(p(4)).unwrap();
    assert_eq!(as_float(inner), 0.25);
    let c = calculator.calculate(p(1)).unwrap();
    // Over 4: one pair of ways of 2 edges, (1/2)^3 (1 + 1/4).
    // Over 5 and 6: one pair of ways of 4 edges each, (1/2)^5 each.
    // Over 7 and 8: each is reached from 2 in two ways and from 3 in two
    // ways, all of 3 edges: four pairs of 6 edges, 4 (1/2)^7 each.
    let expected = 0.125 * 1.25 + 2.0 * 0.03125 + 2.0 * 4.0 * 0.0078125;
    assert_eq!(as_float(c), expected);
}

#[test]
fn every_pair_of_ways_counts() {
    // From 2 two ways lead to 6 (over 4 and over 5); from 3 one way leads to
    // 6 (over 7). 4, 5 and 7 have no other parents.
    let graph = graph_of(&[(1, 2), (1, 3), (2, 4), (2, 5), (4, 6), (5, 6), (3, 7), (7, 6)]);
    let mut calculator = ConsanguinityCalculator::new(graph);
    let c = calculator.calculate(p(1)).unwrap();
    assert_eq!(as_float(c), 2.0 * 0.03125);
}

#[test]
fn cycle_above_the_parents_is_reported() {
    let graph = graph_of(&[(R, F), (R, M), (F, A), (M, A), (A, FP), (FP, A)]);
    let mut calculator = ConsanguinityCalculator::new(graph);
    assert_eq!(calculator.calculate(p(R)), Err(AncestryError::CyclicAncestry));
    assert_eq!(calculator.cache_len(), 0);
    assert_eq!(calculator.calculate(p(R)), Err(AncestryError::CyclicAncestry));
}

#[test]
fn a_cycle_through_the_person_is_reported() {
    let graph = graph_of(&[(1, 2), (1, 3), (2, 4), (3, 4), (4, 1)]);
    let mut calculator = ConsanguinityCalculator::new(graph);
    assert_eq!(calculator.calculate(p(1)), Err(AncestryError::CyclicAncestry));
}

#[test]
fn an_unavailable_index_aborts_the_calculation() {
    let mut graph = graph_of(&[(R, F), (R, M), (F, A), (M, A)]);
    graph.set_available(false);
    let mut calculator = ConsanguinityCalculator::new(graph);
    assert_eq!(calculator.calculate(p(R)), Err(AncestryError::GraphUnavailable));
    assert_eq!(calculator.cache_len(), 0);
    assert!(!calculator.graph().is_available());
}

fn chain_to_shared_ancestor(generations: u128) -> Vec<(u128, u128)> {
    // Person 1 has the father 1000 and the mother 2000. From each the
    // shared ancestor 9 is reached over `generations` edges.
    let mut edges = vec![(1, 1000), (1, 2000)];
    for k in 0..generations - 1 {
        edges.push((1000 + k, 1000 + k + 1));
        edges.push((2000 + k, 2000 + k + 1));
    }
    edges.push((1000 + generations - 1, 9));
    edges.push((2000 + generations - 1, 9));
    edges
}

#[test]
fn the_smallest_coefficient_that_is_held_exactly() {
    // 47 edges on each side of the only shared ancestor: (1/2)^95.
    let graph = graph_of(&chain_to_shared_ancestor(47));
    let mut calculator = ConsanguinityCalculator::new(graph);
    // Every person on the two chains above the parents is shared too only
    // if reached from both: here only 9 is.
    let c = calculator.calculate(p(1)).unwrap();
    assert_eq!(c.units, 2);
}

#[test]
fn a_coefficient_finer_than_the_unit_is_out_of_range() {
    // 48 edges on each side: (1/2)^97 is no whole number of units.
    let graph = graph_of(&chain_to_shared_ancestor(48));
    let mut calculator = ConsanguinityCalculator::new(graph);
    assert_eq!(calculator.calculate(p(1)), Err(AncestryError::OutOfRange));
    // The shared ancestor was worked out on the way; the person was not
    // remembered.
    assert_eq!(calculator.cache_len(), 1);
    assert_eq!(calculator.calculate(p(9)), Ok(Coefficient::zero()));
}

#[test]
fn halving_is_exact_or_nothing() {
    assert_eq!(halve(40, 3), Some(5));
    assert_eq!(halve(40, 4), None);
    assert_eq!(halve(0, 1000), Some(0));
    assert_eq!(halve(7, 0), Some(7));
    assert_eq!(halve(u128::MAX, 1), None);
    assert_eq!(halve(1u128 << 127, 127), Some(1));
    assert_eq!(halve(1u128 << 127, 128), None);
}

#[test]
fn one_pair_of_ways_adds_a_power_of_one_half() {
    assert_eq!(pair_term_units(2, 2, 0), Some(ONE_UNITS / 32));
    assert_eq!(pair_term_units(1, 1, 0), Some(ONE_UNITS / 8));
    assert_eq!(pair_term_units(1, 1, ONE_UNITS / 4), Some(ONE_UNITS / 8 + ONE_UNITS / 32));
    assert_eq!(pair_term_units(0, 0, 0), Some(ONE_UNITS / 2));
    assert_eq!(pair_term_units(47, 48, 0), Some(1));
    assert_eq!(pair_term_units(48, 48, 0), None);
    assert_eq!(pair_term_units(1, 1, 1), None);
    // One plus the inner coefficient does not fit in 128 bits; its half does.
    assert_eq!(pair_term_units(0, 0, u128::MAX - 1), Some(ONE_UNITS / 2 + (u128::MAX - 1) / 2));
}
