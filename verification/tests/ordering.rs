//! The topological sort under the deferred-link resolver.

use cache_archive::toposort::toposort;

fn position(order: &[usize], v: usize) -> usize {
    order.iter().position(|&x| x == v).expect("node missing from order")
}

#[test]
fn empty_graph_sorts_trivially() {
    let order = toposort(0, &vec![]).unwrap();
    assert!(order.is_empty());
}

#[test]
fn isolated_nodes_all_appear_once() {
    let mut order = toposort(4, &vec![]).unwrap();
    order.sort();
    assert_eq!(order, vec![0, 1, 2, 3]);
}

#[test]
fn chain_sorts_in_edge_order() {
    let order = toposort(4, &vec![(0, 1), (1, 2), (2, 3)]).unwrap();
    assert_eq!(order, vec![0, 1, 2, 3]);
}

#[test]
fn diamond_respects_every_edge() {
    let edges = vec![(0, 1), (0, 2), (1, 3), (2, 3)];
    let order = toposort(4, &edges).unwrap();
    for (a, b) in edges {
        assert!(position(&order, a) < position(&order, b));
    }
}

#[test]
fn duplicate_edges_are_harmless() {
    let order = toposort(2, &vec![(0, 1), (0, 1), (0, 1)]).unwrap();
    assert_eq!(order, vec![0, 1]);
}

#[test]
fn cycles_are_detected() {
    assert!(toposort(3, &vec![(0, 1), (1, 2), (2, 0)]).is_none());
}

#[test]
fn self_loop_is_a_cycle() {
    assert!(toposort(1, &vec![(0, 0)]).is_none());
}

#[test]
fn cycle_off_to_the_side_still_fails() {
    assert!(toposort(4, &vec![(0, 1), (2, 3), (3, 2)]).is_none());
}
