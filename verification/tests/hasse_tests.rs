//! The Hasse diagram by minimal-generator differences.
use semigroup_math::compute::compute;
use semigroup_math::hasse::{graph_edges, graph_edges_text};

#[test]
fn edges_of_3_5_7_up_to_7() {
    let s = compute(&[3, 5, 7]);
    let numbers: Vec<usize> = (0..=7).collect();
    let (nodes, edges) = graph_edges(&numbers, &s);
    assert_eq!(edges, vec![(0, 3), (0, 5), (0, 7), (1, 4), (1, 6), (2, 5), (2, 7), (3, 6), (4, 7)]);
    let mut sorted = nodes.clone();
    sorted.sort_unstable();
    assert_eq!(sorted, vec![0, 1, 2, 3, 4, 5, 6, 7]);
    assert_eq!(graph_edges_text(&s, 7), "(0,3), (0,5), (0,7), (1,4), (1,6), (2,5), (2,7), (3,6), (4,7)");
}

#[test]
fn differences_that_are_not_generators_give_no_edge() {
    let s = compute(&[3, 5, 7]);
    // 6 = 3 + 3 is an element but no minimal generator; 1 and 2 are gaps.
    let (nodes, edges) = graph_edges(&[10, 16, 11, 12], &s);
    assert!(edges.is_empty());
    assert!(nodes.is_empty());
    assert_eq!(graph_edges_text(&s, 2), "");
    let (nodes, edges) = graph_edges(&[9, 2, 12], &s);
    assert_eq!(edges, vec![(9, 12)]);
    assert_eq!(nodes.len(), 2);
}
