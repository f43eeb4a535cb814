use scene_layers::dependency_graph::DependencyGraph;
use scene_layers::item::{LayerItem, ShapeSystemId, SymbolId};

fn sym(id: u32) -> LayerItem {
    LayerItem::Symbol(SymbolId(id))
}

fn shape(id: u64) -> LayerItem {
    LayerItem::ShapeSystem(ShapeSystemId(id))
}

fn graph(edges: &[(u32, u32)]) -> DependencyGraph {
    let mut graph = DependencyGraph::new();
    for (below, above) in edges {
        graph.insert_dependency(sym(*below), sym(*above));
    }
    graph
}

fn assert_valid_sort(edges: &[(u32, u32)], sorted: &[u32]) {
    let expected: Vec<LayerItem> = sorted.iter().map(|id| sym(*id)).collect();
    let mut ascending = expected.clone();
    ascending.sort();
    assert_eq!(graph(edges).resolve(&ascending), expected);
    assert_eq!(graph(edges).resolve(&expected), expected);
}

#[test]
fn resolve_without_edges_is_identity() {
    assert_valid_sort(&[], &[]);
    assert_valid_sort(&[], &[0]);
    assert_valid_sort(&[], &[0, 1]);
    assert_valid_sort(&[], &[0, 1, 2]);
    assert_valid_sort(&[], &[0, 1, 2, 3]);
}

#[test]
fn resolve_non_overlapping_rules() {
    assert_valid_sort(&[(1, 0)], &[1, 0]);
    assert_valid_sort(&[(2, 1)], &[0, 2, 1, 3]);
    assert_valid_sort(&[(1, 0), (3, 2)], &[1, 0, 3, 2]);
}

#[test]
fn resolve_overlapping_rules() {
    assert_valid_sort(&[(4, 3), (3, 2), (2, 1), (1, 0)], &[4, 3, 2, 1, 0]);
    assert_valid_sort(&[(3, 2), (4, 3), (1, 0), (2, 1)], &[4, 3, 2, 1, 0]);
    assert_valid_sort(&[(1, 0), (2, 1), (3, 2), (4, 3)], &[4, 3, 2, 1, 0]);
    assert_valid_sort(
        &[(1, 8), (8, 2), (2, 7), (7, 3), (3, 6), (6, 4), (4, 5)],
        &[1, 8, 2, 7, 3, 6, 4, 5],
    );
}

#[test]
fn resolve_survives_cycles() {
    assert_valid_sort(&[(0, 0)], &[0]);
    assert_valid_sort(&[(0, 0)], &[1, 2, 0]);
    assert_valid_sort(&[(1, 1)], &[0, 2, 1]);
    assert_valid_sort(&[(2, 2)], &[0, 1, 2]);
    assert_valid_sort(&[(0, 1), (1, 0)], &[0, 1]);
    assert_valid_sort(&[(0, 1), (1, 2), (2, 0)], &[0, 1, 2]);
    assert_valid_sort(
        &[(0, 0), (0, 1), (0, 2), (1, 0), (1, 1), (1, 2), (2, 0), (2, 1), (2, 2)],
        &[0, 1, 2],
    );
}

#[test]
fn three_edge_cycle_yields_every_element_once() {
    let order = graph(&[(7, 8), (8, 9), (9, 7)]).resolve(&vec![sym(9), sym(8), sym(7)]);
    assert_eq!(order.len(), 3);
    assert!(order.contains(&sym(7)));
    assert!(order.contains(&sym(8)));
    assert!(order.contains(&sym(9)));
}

#[test]
fn edges_are_idempotent() {
    let mut graph = DependencyGraph::new();
    assert!(graph.insert_dependency(sym(1), sym(2)));
    assert!(!graph.insert_dependency(sym(1), sym(2)));
    assert_eq!(graph.len(), 1);
    assert!(!graph.remove_dependency(sym(2), sym(1)));
    assert!(graph.remove_dependency(sym(1), sym(2)));
    assert!(!graph.remove_dependency(sym(1), sym(2)));
    assert_eq!(graph.len(), 0);
}

#[test]
fn extend_unites_the_edges() {
    let mut global = graph(&[(1, 2)]);
    let local = graph(&[(1, 3), (1, 2)]);
    global.extend(&local);
    assert_eq!(global.len(), 2);
    assert!(global.contains_dependency(sym(1), sym(2)));
    assert!(global.contains_dependency(sym(1), sym(3)));
    assert_eq!(
        global.resolve(&vec![sym(1), sym(2), sym(3)]),
        vec![sym(1), sym(2), sym(3)]
    );
}

#[test]
fn duplicates_come_out_once_and_outside_edges_are_ignored() {
    let graph = graph(&[(5, 1), (9, 1)]);
    assert_eq!(
        graph.resolve(&vec![sym(5), sym(1), sym(5), sym(1)]),
        vec![sym(5), sym(1)]
    );
}

#[test]
fn symbols_rank_below_shape_systems() {
    let graph = DependencyGraph::new();
    assert_eq!(
        graph.resolve(&vec![shape(0), sym(4_000_000_000), shape(3), sym(1)]),
        vec![sym(1), sym(4_000_000_000), shape(0), shape(3)]
    );
    assert!(sym(u32::MAX).less(&shape(0)));
    assert!(!shape(0).less(&sym(0)));
    assert!(shape(1).less(&shape(2)));
    assert!(!sym(2).less(&sym(2)));
    assert!(sym(2).same(&sym(2)));
    assert!(!sym(2).same(&shape(2)));
}

#[test]
fn unconstrained_pairs_follow_readiness_not_identity() {
    let graph = graph(&[(3, 1)]);
    assert_eq!(
        graph.resolve(&vec![sym(1), sym(2), sym(3)]),
        vec![sym(2), sym(3), sym(1)]
    );
}
