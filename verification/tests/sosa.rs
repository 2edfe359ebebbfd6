use genealogy_core::error::AncestryError;
use genealogy_core::graph::AncestryGraphIndex;
use genealogy_core::ident::PersonId;
use genealogy_core::sosa::compute_sosa;

fn p(n: u128) -> PersonId {
    PersonId(n)
}

fn graph_of(edges: &[(u128, u128)]) -> AncestryGraphIndex {
    let mut graph = AncestryGraphIndex::new();
    for (child, parent) in edges {
        graph.upsert_edge(p(*child), p(*parent)).unwrap();
    }
    graph
}

#[test]
fn a_person_without_parents_holds_one() {
    let graph = AncestryGraphIndex::new();
    let numbering = compute_sosa(p(9), &graph).unwrap();
    assert_eq!(numbering.get(p(9)), Some(1));
    assert_eq!(numbering.len(), 1);
    assert!(!numbering.contains(p(1)));
}

#[test]
fn fathers_hold_twice_and_mothers_twice_plus_one() {
    // Root 1 with father 2 and mother 3; both have two parents; 5 has a father.
    let graph = graph_of(&[(1, 2), (1, 3), (2, 4), (2, 5), (3, 6), (3, 7), (5, 8)]);
    let numbering = compute_sosa(p(1), &graph).unwrap();
    assert_eq!(numbering.get(p(1)), Some(1));
    assert_eq!(numbering.get(p(2)), Some(2));
    assert_eq!(numbering.get(p(3)), Some(3));
    assert_eq!(numbering.get(p(4)), Some(4));
    assert_eq!(numbering.get(p(5)), Some(5));
    assert_eq!(numbering.get(p(6)), Some(6));
    assert_eq!(numbering.get(p(7)), Some(7));
    assert_eq!(numbering.get(p(8)), Some(10));
    assert_eq!(numbering.len(), 8);
    assert_eq!(numbering.get(p(99)), None);
}

#[test]
fn only_what_the_root_can_reach_is_numbered() {
    let graph = graph_of(&[(1, 2), (3, 4), (2, 5)]);
    let numbering = compute_sosa(p(1), &graph).unwrap();
    assert_eq!(numbering.len(), 3);
    assert!(!numbering.contains(p(3)));
    assert!(!numbering.contains(p(4)));
    assert_eq!(numbering.get(p(5)), Some(4));
}

#[test]
fn a_cycle_ends_the_numbering_with_an_error() {
    let graph = graph_of(&[(1, 2), (2, 3), (3, 1)]);
    assert!(matches!(compute_sosa(p(1), &graph), Err(AncestryError::CyclicAncestry)));
    let graph = graph_of(&[(1, 2), (2, 3), (3, 2)]);
    assert!(matches!(compute_sosa(p(1), &graph), Err(AncestryError::CyclicAncestry)));
    let graph = graph_of(&[(1, 1)]);
    assert!(matches!(compute_sosa(p(1), &graph), Err(AncestryError::CyclicAncestry)));
}

#[test]
fn a_person_reached_twice_gets_no_second_number() {
    // The parents of 1 share the ancestor 4.
    let graph = graph_of(&[(1, 2), (1, 3), (2, 4), (3, 4)]);
    assert!(matches!(compute_sosa(p(1), &graph), Err(AncestryError::CyclicAncestry)));
    // Seen from 2 alone nobody is reached twice.
    let numbering = compute_sosa(p(2), &graph).unwrap();
    assert_eq!(numbering.get(p(4)), Some(2));
}

#[test]
fn an_unavailable_index_yields_no_numbering() {
    let mut graph = graph_of(&[(1, 2)]);
    graph.set_available(false);
    assert!(matches!(compute_sosa(p(1), &graph), Err(AncestryError::GraphUnavailable)));
}

#[test]
fn sixty_four_generations_fit_and_sixty_five_do_not() {
    // A chain of fathers: person k has the father k + 1.
    let mut edges: Vec<(u128, u128)> = Vec::new();
    for k in 1..64u128 {
        edges.push((k, k + 1));
    }
    let graph = graph_of(&edges);
    let numbering = compute_sosa(p(1), &graph).unwrap();
    assert_eq!(numbering.get(p(64)), Some(1u64 << 63));
    assert_eq!(numbering.len(), 64);
    edges.push((64, 65));
    let graph = graph_of(&edges);
    assert!(matches!(compute_sosa(p(1), &graph), Err(AncestryError::OutOfRange)));
}

#[test]
fn the_last_number_of_the_sixty_fourth_generation_fits() {
    // A chain of mothers: person k has the father 1000 + k and the mother k + 1.
    let mut edges: Vec<(u128, u128)> = Vec::new();
    for k in 1..64u128 {
        edges.push((k, 1000 + k));
        edges.push((k, k + 1));
    }
    let graph = graph_of(&edges);
    let numbering = compute_sosa(p(1), &graph).unwrap();
    assert_eq!(numbering.get(p(64)), Some(u64::MAX));
    assert_eq!(numbering.get(p(1063)), Some(u64::MAX - 1));
}

#[test]
fn the_entries_come_in_the_order_of_the_numbers() {
    let graph = graph_of(&[(1, 2), (1, 3), (3, 7), (2, 4), (7, 9)]);
    let numbering = compute_sosa(p(1), &graph).unwrap();
    assert_eq!(
        numbering.entries(),
        &vec![(p(1), 1), (p(2), 2), (p(3), 3), (p(4), 4), (p(7), 6), (p(9), 12)]
    );
}
