//! Strongly connected components and topological orders.
use miden_replay::graph::{strongly_connected_components, topological_order};

fn sorted(mut components: Vec<Vec<usize>>) -> Vec<Vec<usize>> {
    for component in components.iter_mut() {
        component.sort();
    }
    components
}

#[test]
fn components_follow_what_they_depend_on() {
    // 0 -> 1 <-> 2 -> 3, 4 -> 4
    let edges = vec![vec![1], vec![2], vec![1, 3], vec![], vec![4]];
    let components = sorted(strongly_connected_components(&edges));
    assert_eq!(components, vec![vec![3], vec![1, 2], vec![0], vec![4]]);
}

#[test]
fn a_ring_is_one_component() {
    let n = 50;
    let edges: Vec<Vec<usize>> = (0..n).map(|i| vec![(i + 1) % n]).collect();
    let components = sorted(strongly_connected_components(&edges));
    assert_eq!(components, vec![(0..n).collect::<Vec<usize>>()]);
}

#[test]
fn cross_edges_do_not_join_components() {
    let edges = vec![vec![1, 2], vec![], vec![1], vec![0, 2]];
    let components = sorted(strongly_connected_components(&edges));
    assert_eq!(components, vec![vec![1], vec![2], vec![0], vec![3]]);
}

#[test]
fn nothing_has_no_components() {
    assert!(strongly_connected_components(&vec![]).is_empty());
    assert_eq!(topological_order(&vec![]), Some(vec![]));
}

#[test]
fn an_order_places_successors_first() {
    let edges = vec![vec![2, 1], vec![2], vec![], vec![0]];
    assert_eq!(topological_order(&edges), Some(vec![2, 1, 0, 3]));
}

#[test]
fn a_cycle_has_no_order() {
    assert_eq!(topological_order(&vec![vec![1], vec![2], vec![0]]), None);
    assert_eq!(topological_order(&vec![vec![], vec![1]]), None);
}
