use genealogy_core::error::AncestryError;
use genealogy_core::family::{
    append_child, event_date_kind, family_edges, merge_children, remove_child,
};
use genealogy_core::graph::AncestryGraphIndex;
use genealogy_core::ident::PersonId;

fn p(n: u128) -> PersonId {
    PersonId(n)
}

#[test]
fn a_family_stands_for_an_edge_from_each_child_to_each_parent() {
    let children = vec![p(1), p(2)];
    assert_eq!(
        family_edges(&children, Some(p(10)), Some(p(11))),
        vec![(p(1), p(10)), (p(1), p(11)), (p(2), p(10)), (p(2), p(11))]
    );
    assert_eq!(family_edges(&children, None, Some(p(11))), vec![(p(1), p(11)), (p(2), p(11))]);
    assert_eq!(family_edges(&children, Some(p(10)), None), vec![(p(1), p(10)), (p(2), p(10))]);
    assert_eq!(family_edges(&children, None, None), vec![]);
    assert_eq!(family_edges(&vec![], Some(p(10)), Some(p(11))), vec![]);
}

#[test]
fn linking_a_family_puts_the_father_first() {
    let mut index = AncestryGraphIndex::new();
    index.link_family_edges(&vec![p(1), p(2)], Some(p(10)), Some(p(11))).unwrap();
    assert_eq!(index.parents_of(p(1)), Ok(vec![p(10), p(11)]));
    assert_eq!(index.parents_of(p(2)), Ok(vec![p(10), p(11)]));
    // Linking again changes nothing.
    index.link_family_edges(&vec![p(1), p(2)], Some(p(10)), Some(p(11))).unwrap();
    assert_eq!(index.parents_of(p(1)), Ok(vec![p(10), p(11)]));
    assert_eq!(index.children(), 2);
}

#[test]
fn relinking_a_family_replaces_the_edges_wholesale() {
    let mut index = AncestryGraphIndex::new();
    index.link_family_edges(&vec![p(1), p(2), p(3)], Some(p(10)), Some(p(11))).unwrap();
    index.upsert_edge(p(7), p(8)).unwrap();
    // Child 3 leaves, child 4 joins, and the father changes.
    index
        .relink_family(&vec![p(1), p(2), p(3)], &vec![p(1), p(2), p(4)], Some(p(12)), Some(p(11)))
        .unwrap();
    assert_eq!(index.parents_of(p(1)), Ok(vec![p(12), p(11)]));
    assert_eq!(index.parents_of(p(2)), Ok(vec![p(12), p(11)]));
    assert_eq!(index.parents_of(p(3)), Ok(vec![]));
    assert_eq!(index.parents_of(p(4)), Ok(vec![p(12), p(11)]));
    assert_eq!(index.parents_of(p(7)), Ok(vec![p(8)]));
}

#[test]
fn relinking_with_no_parents_clears_the_children() {
    let mut index = AncestryGraphIndex::new();
    index.link_family_edges(&vec![p(1)], Some(p(10)), None).unwrap();
    index.relink_family(&vec![p(1)], &vec![p(1)], None, None).unwrap();
    assert_eq!(index.parents_of(p(1)), Ok(vec![]));
    assert_eq!(index.children(), 0);
}

#[test]
fn an_unavailable_index_links_nothing() {
    let mut index = AncestryGraphIndex::new();
    index.set_available(false);
    assert_eq!(
        index.link_family_edges(&vec![p(1)], Some(p(2)), None),
        Err(AncestryError::GraphUnavailable)
    );
    assert_eq!(
        index.relink_family(&vec![], &vec![p(1)], Some(p(2)), None),
        Err(AncestryError::GraphUnavailable)
    );
    index.set_available(true);
    assert_eq!(index.parents_of(p(1)), Ok(vec![]));
}

#[test]
fn a_child_is_appended_once() {
    assert_eq!(append_child(&vec![p(1), p(2)], p(3)), vec![p(1), p(2), p(3)]);
    assert_eq!(append_child(&vec![p(1), p(2)], p(1)), vec![p(1), p(2)]);
    assert_eq!(append_child(&vec![], p(1)), vec![p(1)]);
}

#[test]
fn a_child_is_removed_wherever_it_stands() {
    assert_eq!(remove_child(&vec![p(1), p(2), p(3)], p(2)), vec![p(1), p(3)]);
    assert_eq!(remove_child(&vec![p(2), p(1), p(2)], p(2)), vec![p(1)]);
    assert_eq!(remove_child(&vec![p(1)], p(9)), vec![p(1)]);
    assert_eq!(remove_child(&vec![], p(9)), vec![]);
}

#[test]
fn an_event_with_a_date_is_exact() {
    assert_eq!(event_date_kind(true), "exact");
    assert_eq!(event_date_kind(false), "unknown");
}

#[test]
fn merged_children_are_each_listed_once() {
    assert_eq!(merge_children(&vec![p(1), p(2)], &vec![p(2), p(3), p(1), p(4)]), vec![
        p(1),
        p(2),
        p(3),
        p(4)
    ]);
    assert_eq!(merge_children(&vec![], &vec![p(5), p(5)]), vec![p(5)]);
    assert_eq!(merge_children(&vec![p(1), p(1)], &vec![]), vec![p(1), p(1)]);
}
