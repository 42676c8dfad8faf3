use pairwise_rank::graph::{component_of, connected_components, connection_count, link_count};
use pairwise_rank::pair::{concat_pairs, contains_unordered, Pair};

fn gp(a: usize, b: usize) -> Pair {
    Pair { a, b }
}

#[test]
fn component_of_marks_reachable_entities() {
    let edges = vec![gp(0, 1), gp(1, 4), gp(2, 3)];
    let marks = component_of(5, &edges, 0);
    assert_eq!(marks, vec![true, true, false, false, true]);
}

#[test]
fn component_of_isolated_start() {
    let edges = vec![gp(1, 2)];
    let marks = component_of(3, &edges, 0);
    assert_eq!(marks, vec![true, false, false]);
}

#[test]
fn component_of_empty_graph() {
    let edges: Vec<Pair> = vec![];
    let marks = component_of(4, &edges, 2);
    assert_eq!(marks, vec![false, false, true, false]);
}

#[test]
fn connected_components_labels_groups() {
    let edges = vec![gp(1, 2), gp(3, 4)];
    let labels = connected_components(5, &edges);
    assert_eq!(labels, vec![0, 1, 1, 3, 3]);
}

#[test]
fn connected_components_single_group() {
    let edges = vec![gp(0, 1), gp(1, 2), gp(2, 3)];
    let labels = connected_components(4, &edges);
    assert_eq!(labels, vec![0, 0, 0, 0]);
}

#[test]
fn connection_count_counts_touching_pairs() {
    let answered = vec![gp(0, 1), gp(0, 2), gp(1, 2), gp(3, 0)];
    assert_eq!(connection_count(&answered, 0), 3);
    assert_eq!(connection_count(&answered, 1), 2);
    assert_eq!(connection_count(&answered, 2), 2);
    assert_eq!(connection_count(&answered, 3), 1);
    assert_eq!(connection_count(&answered, 4), 0);
}

#[test]
fn link_count_is_mean_of_connection_counts() {
    let answered = vec![gp(0, 1), gp(0, 2), gp(1, 2)];
    // every entity touches two answered pairs: (2 + 2) / 2 == 2
    assert_eq!(link_count(&answered, gp(0, 1)), 2);
    let sparse = vec![gp(0, 1)];
    // counts 1 and 0: (1 + 0) / 2 rounds down to 0
    assert_eq!(link_count(&sparse, gp(0, 2)), 0);
    // counts 1 and 1: (1 + 1) / 2 == 1
    assert_eq!(link_count(&sparse, gp(0, 1)), 1);
}

#[test]
fn contains_unordered_checks_both_orientations() {
    let list = vec![gp(0, 1), gp(2, 3)];
    assert!(contains_unordered(&list, gp(0, 1)));
    assert!(contains_unordered(&list, gp(1, 0)));
    assert!(contains_unordered(&list, gp(3, 2)));
    assert!(!contains_unordered(&list, gp(0, 2)));
}

#[test]
fn concat_pairs_appends_in_order() {
    let x = vec![gp(0, 1)];
    let y = vec![gp(2, 3), gp(4, 5)];
    let all = concat_pairs(&x, &y);
    assert_eq!(all, vec![gp(0, 1), gp(2, 3), gp(4, 5)]);
}
