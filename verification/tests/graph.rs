use genealogy_core::error::AncestryError;
use genealogy_core::graph::{AncestryGraphIndex, EdgeOutcome};
use genealogy_core::ident::PersonId;

fn p(n: u128) -> PersonId {
    PersonId(n)
}

fn graph_of(edges: &[(u128, u128)]) -> AncestryGraphIndex {
    let mut graph = AncestryGraphIndex::new();
    for (child, parent) in edges {
        graph.upsert_edge(p(*child), p(*parent)).unwrap();
    }
    graph
}

fn sorted(mut ids: Vec<PersonId>) -> Vec<u128> {
    let mut raw: Vec<u128> = ids.drain(..).map(|id| id.0).collect();
    raw.sort();
    raw
}

#[test]
fn new_index_is_empty_and_available() {
    let graph = AncestryGraphIndex::new();
    assert!(graph.is_available());
    assert_eq!(graph.children(), 0);
    assert_eq!(graph.parents_of(p(1)), Ok(vec![]));
}

#[test]
fn parents_come_back_in_the_order_of_assertion() {
    let graph = graph_of(&[(1, 20), (1, 10)]);
    assert_eq!(graph.parents_of(p(1)), Ok(vec![p(20), p(10)]));
    assert_eq!(graph.parents_of(p(20)), Ok(vec![]));
    assert_eq!(graph.children(), 1);
}

#[test]
fn asserting_an_edge_twice_changes_nothing() {
    let mut graph = AncestryGraphIndex::new();
    assert_eq!(graph.upsert_edge(p(1), p(2)), Ok(EdgeOutcome::Inserted));
    assert_eq!(graph.upsert_edge(p(1), p(2)), Ok(EdgeOutcome::AlreadyPresent));
    assert_eq!(graph.upsert_edge(p(1), p(3)), Ok(EdgeOutcome::Inserted));
    assert_eq!(graph.upsert_edge(p(1), p(3)), Ok(EdgeOutcome::AlreadyPresent));
    assert_eq!(graph.upsert_edge(p(1), p(2)), Ok(EdgeOutcome::AlreadyPresent));
    assert_eq!(graph.parents_of(p(1)), Ok(vec![p(2), p(3)]));
}

#[test]
fn a_third_parent_is_not_recorded() {
    let mut graph = graph_of(&[(1, 2), (1, 3)]);
    assert_eq!(graph.upsert_edge(p(1), p(4)), Ok(EdgeOutcome::ParentsFull));
    assert_eq!(graph.parents_of(p(1)), Ok(vec![p(2), p(3)]));
}

#[test]
fn an_unavailable_index_fails_every_call_and_keeps_its_edges() {
    let mut graph = graph_of(&[(1, 2)]);
    graph.set_available(false);
    assert!(!graph.is_available());
    assert_eq!(graph.parents_of(p(1)), Err(AncestryError::GraphUnavailable));
    assert_eq!(graph.upsert_edge(p(1), p(3)), Err(AncestryError::GraphUnavailable));
    assert_eq!(graph.replace_parents(p(1), None, None), Err(AncestryError::GraphUnavailable));
    assert_eq!(graph.apply_edges(&vec![(p(5), p(6))]), Err(AncestryError::GraphUnavailable));
    assert_eq!(graph.ancestors_within_distance(p(1), 3), Err(AncestryError::GraphUnavailable));
    assert_eq!(graph.ancestors_of(p(1)), Err(AncestryError::GraphUnavailable));
    assert_eq!(graph.common_ancestors(p(1), p(2)), Err(AncestryError::GraphUnavailable));
    assert!(matches!(graph.paths_between(p(1), p(2)), Err(AncestryError::GraphUnavailable)));
    graph.set_available(true);
    assert_eq!(graph.parents_of(p(1)), Ok(vec![p(2)]));
    assert_eq!(graph.parents_of(p(5)), Ok(vec![]));
}

#[test]
fn replacing_parents_drops_the_old_ones() {
    let mut graph = graph_of(&[(1, 2), (1, 3), (7, 8)]);
    assert_eq!(graph.replace_parents(p(1), Some(p(4)), Some(p(5))), Ok(()));
    assert_eq!(graph.parents_of(p(1)), Ok(vec![p(4), p(5)]));
    assert_eq!(graph.replace_parents(p(1), None, Some(p(6))), Ok(()));
    assert_eq!(graph.parents_of(p(1)), Ok(vec![p(6)]));
    assert_eq!(graph.replace_parents(p(1), Some(p(9)), Some(p(9))), Ok(()));
    assert_eq!(graph.parents_of(p(1)), Ok(vec![p(9)]));
    assert_eq!(graph.replace_parents(p(1), None, None), Ok(()));
    assert_eq!(graph.parents_of(p(1)), Ok(vec![]));
    assert_eq!(graph.parents_of(p(7)), Ok(vec![p(8)]));
    assert_eq!(graph.children(), 1);
}

#[test]
fn ancestors_within_distance_stops_at_the_distance() {
    // 1 -> 2 -> 4 -> 6, 1 -> 3 -> 5
    let graph = graph_of(&[(1, 2), (1, 3), (2, 4), (3, 5), (4, 6)]);
    assert_eq!(sorted(graph.ancestors_within_distance(p(1), 0).unwrap()), Vec::<u128>::new());
    assert_eq!(sorted(graph.ancestors_within_distance(p(1), 1).unwrap()), vec![2, 3]);
    assert_eq!(sorted(graph.ancestors_within_distance(p(1), 2).unwrap()), vec![2, 3, 4, 5]);
    assert_eq!(sorted(graph.ancestors_within_distance(p(1), 3).unwrap()), vec![2, 3, 4, 5, 6]);
    assert_eq!(
        sorted(graph.ancestors_within_distance(p(1), u32::MAX).unwrap()),
        vec![2, 3, 4, 5, 6]
    );
    assert_eq!(sorted(graph.ancestors_of(p(1)).unwrap()), vec![2, 3, 4, 5, 6]);
    assert_eq!(sorted(graph.ancestors_of(p(6)).unwrap()), Vec::<u128>::new());
}

#[test]
fn ancestors_are_listed_once_under_pedigree_collapse() {
    let graph = graph_of(&[(1, 2), (1, 3), (2, 4), (3, 4), (4, 5)]);
    let all = graph.ancestors_of(p(1)).unwrap();
    assert_eq!(all.len(), 4);
    assert_eq!(sorted(all), vec![2, 3, 4, 5]);
}

#[test]
fn ancestors_of_a_person_on_a_cycle_end_and_hold_the_person() {
    let graph = graph_of(&[(1, 2), (2, 3), (3, 1)]);
    assert_eq!(sorted(graph.ancestors_of(p(1)).unwrap()), vec![1, 2, 3]);
    assert_eq!(sorted(graph.ancestors_within_distance(p(1), 2).unwrap()), vec![2, 3]);
}

#[test]
fn common_ancestors_are_those_above_both() {
    let graph = graph_of(&[(2, 4), (4, 6), (3, 5), (5, 6), (6, 7), (2, 8)]);
    assert_eq!(sorted(graph.common_ancestors(p(2), p(3)).unwrap()), vec![6, 7]);
    assert_eq!(sorted(graph.common_ancestors(p(2), p(2)).unwrap()), vec![4, 6, 7, 8]);
    assert_eq!(sorted(graph.common_ancestors(p(7), p(3)).unwrap()), Vec::<u128>::new());
    // A parent is no ancestor of itself: 6 is above 4, and above 6 only 7 stands.
    assert_eq!(sorted(graph.common_ancestors(p(4), p(6)).unwrap()), vec![7]);
}

#[test]
fn paths_between_lists_every_way_once() {
    // Two ways from 1 to 4: over 2 and over 3. And one longer way over 2, 5.
    let graph = graph_of(&[(1, 2), (1, 3), (2, 4), (3, 4), (2, 5), (5, 4)]);
    let paths = graph.paths_between(p(1), p(4)).unwrap();
    let mut ways: Vec<Vec<u128>> =
        paths.iter().map(|w| w.persons().iter().map(|id| id.0).collect()).collect();
    ways.sort();
    assert_eq!(ways, vec![vec![1, 2, 4], vec![1, 2, 5, 4], vec![1, 3, 4]]);
    let mut lengths: Vec<usize> = paths.iter().map(|w| w.generations()).collect();
    lengths.sort();
    assert_eq!(lengths, vec![2, 2, 3]);
}

#[test]
fn paths_between_unrelated_persons_are_none() {
    let graph = graph_of(&[(1, 2), (3, 4)]);
    assert_eq!(graph.paths_between(p(1), p(4)).unwrap().len(), 0);
    assert_eq!(graph.paths_between(p(2), p(1)).unwrap().len(), 0);
    assert_eq!(graph.paths_between(p(1), p(1)).unwrap().len(), 0);
}

#[test]
fn paths_between_reports_a_cycle_that_can_be_reached() {
    let graph = graph_of(&[(1, 2), (2, 3), (3, 2), (7, 8)]);
    assert!(matches!(graph.paths_between(p(1), p(3)), Err(AncestryError::CyclicAncestry)));
    assert!(matches!(graph.paths_between(p(1), p(9)), Err(AncestryError::CyclicAncestry)));
    assert!(matches!(graph.paths_between(p(2), p(2)), Err(AncestryError::CyclicAncestry)));
    // From 7 no cycle can be reached.
    assert_eq!(graph.paths_between(p(7), p(8)).unwrap().len(), 1);
}

#[test]
fn a_person_who_is_their_own_parent_is_a_cycle() {
    let graph = graph_of(&[(1, 1)]);
    assert!(matches!(graph.paths_between(p(1), p(1)), Err(AncestryError::CyclicAncestry)));
}

#[test]
fn apply_edges_asserts_each_edge_in_turn() {
    let mut graph = AncestryGraphIndex::new();
    graph.apply_edges(&vec![(p(1), p(2)), (p(1), p(3)), (p(1), p(4)), (p(5), p(2))]).unwrap();
    assert_eq!(graph.parents_of(p(1)), Ok(vec![p(2), p(3)]));
    assert_eq!(graph.parents_of(p(5)), Ok(vec![p(2)]));
}
