use sparknode::dag::diff::{DiffKind, WorldDiff};
use sparknode::dag::graph::{DagEdge, DagNode, DirectedAcyclicGraph};
use sparknode::dag::operations::DagOperations;
use sparknode::dag::traversal::TraversalMode;
use sparknode::gateway::services::build_story_dag;
use sparknode::types::SpError;

fn node(id: u128) -> DagNode {
    DagNode { id, node_type: "scene".to_string(), title: None }
}

fn edge(id: u128, source: u128, target: u128) -> DagEdge {
    DagEdge { id, source, target, edge_type: "causal".to_string(), probability: 1.0f64.to_bits(), observer_weight: 0 }
}

/// 1 -> 2 -> 4, 1 -> 3 -> 4, 4 -> 5
fn diamond() -> DirectedAcyclicGraph {
    let mut g = DirectedAcyclicGraph::new();
    g.add_nodes((1..=5).map(node).collect());
    g.add_edges(vec![edge(10, 1, 2), edge(11, 1, 3), edge(12, 2, 4), edge(13, 3, 4), edge(14, 4, 5)]).unwrap();
    g
}

#[test]
fn add_edge_refuses_missing_ends_and_cycles() {
    let mut g = DirectedAcyclicGraph::new();
    g.add_node(node(1));
    g.add_node(node(2));
    match g.add_edge(edge(9, 1, 3)) {
        Err(SpError::Internal(m)) => assert_eq!(m, "边的源节点或目标节点不存在"),
        other => panic!("unexpected: {:?}", other),
    }
    assert!(g.add_edge(edge(10, 1, 2)).is_ok());
    assert_eq!(g.in_degree[&2], 1);
    match g.add_edge(edge(11, 2, 1)) {
        Err(SpError::DagCycleDetected { source_id, target_id }) => {
            assert_eq!(source_id, 2);
            assert_eq!(target_id, 1);
        },
        other => panic!("unexpected: {:?}", other),
    }
    assert!(matches!(g.add_edge(edge(12, 1, 1)), Err(SpError::DagCycleDetected { .. })));
    assert_eq!(g.edge_count(), 1);
    assert_eq!(g.node_count(), 2);
}

#[test]
fn would_create_cycle_follows_reachability() {
    let g = diamond();
    assert!(g.would_create_cycle(5, 1));
    assert!(g.would_create_cycle(4, 2));
    assert!(g.would_create_cycle(3, 3));
    assert!(!g.would_create_cycle(1, 5));
    assert!(!g.would_create_cycle(2, 3));
}

#[test]
fn topological_sort_orders_every_edge_forward() {
    let g = diamond();
    let order = g.topological_sort().unwrap();
    assert_eq!(order.len(), 5);
    let pos = |x: u128| order.iter().position(|&y| y == x).unwrap();
    for (s, t) in [(1, 2), (1, 3), (2, 4), (3, 4), (4, 5)] {
        assert!(pos(s) < pos(t));
    }
}

#[test]
fn topological_sort_fails_on_a_cycle() {
    let mut g = diamond();
    // Bypass the checks of add_edge to plant a cycle 5 -> 1.
    g.edges.insert(20, edge(20, 5, 1));
    g.out_edges.entry(5).or_default().push(20);
    g.in_edges.entry(1).or_default().push(20);
    *g.in_degree.get_mut(&1).unwrap() += 1;
    match g.topological_sort() {
        Err(SpError::Internal(m)) => assert_eq!(m, "拓扑排序失败: 图中存在环路"),
        other => panic!("unexpected: {:?}", other),
    }
}

#[test]
fn roots_and_leaves() {
    let g = diamond();
    assert_eq!(g.root_nodes(), vec![1]);
    assert_eq!(g.leaf_nodes(), vec![5]);
    let mut empty = DirectedAcyclicGraph::new();
    empty.add_node(node(7));
    assert_eq!(empty.root_nodes(), vec![7]);
    assert_eq!(empty.leaf_nodes(), vec![7]);
}

#[test]
fn remove_node_cascades_edges() {
    let mut g = diamond();
    g.remove_node(4);
    assert_eq!(g.node_count(), 4);
    assert_eq!(g.edge_count(), 2);
    assert!(!g.edges.contains_key(&12) && !g.edges.contains_key(&13) && !g.edges.contains_key(&14));
    assert_eq!(g.out_edges[&2], Vec::<u128>::new());
    assert_eq!(g.in_degree[&5], 0);
    assert!(!g.in_degree.contains_key(&4));
    let mut leaves = g.leaf_nodes();
    leaves.sort();
    assert_eq!(leaves, vec![2, 3, 5]);
}

#[test]
fn breadth_first_records_distances() {
    let g = diamond();
    let r = g.traverse(1, TraversalMode::BreadthFirst);
    assert_eq!(r.visited[0], 1);
    assert_eq!(r.visited.len(), 5);
    assert_eq!(r.depth_map[&1], 0);
    assert_eq!(r.depth_map[&2], 1);
    assert_eq!(r.depth_map[&3], 1);
    assert_eq!(r.depth_map[&4], 2);
    assert_eq!(r.depth_map[&5], 3);
    assert_eq!(r.visited[4], 5);
}

#[test]
fn depth_first_visits_in_preorder() {
    let g = diamond();
    let r = g.traverse(1, TraversalMode::DepthFirst);
    assert_eq!(r.visited, vec![1, 2, 4, 5, 3]);
    assert_eq!(r.depth_map[&5], 3);
    assert_eq!(r.depth_map[&3], 1);
    let single = g.traverse(5, TraversalMode::DepthFirst);
    assert_eq!(single.visited, vec![5]);
}

#[test]
fn all_paths_and_shortest_path() {
    let g = diamond();
    let mut paths = g.find_all_paths(1, 5);
    paths.sort();
    assert_eq!(paths, vec![vec![1, 2, 4, 5], vec![1, 3, 4, 5]]);
    assert_eq!(g.find_all_paths(5, 1), Vec::<Vec<u128>>::new());
    assert_eq!(g.find_all_paths(3, 3), vec![vec![3]]);
    assert_eq!(g.shortest_path(1, 5), Some(vec![1, 2, 4, 5]));
    assert_eq!(g.shortest_path(2, 2), Some(vec![2]));
    assert_eq!(g.shortest_path(5, 1), None);
}

#[test]
fn add_edges_stops_at_first_refusal() {
    let mut g = DirectedAcyclicGraph::new();
    g.add_nodes(vec![node(1), node(2)]);
    let r = g.add_edges(vec![edge(10, 1, 2), edge(11, 2, 1), edge(12, 1, 2)]);
    assert!(matches!(r, Err(SpError::DagCycleDetected { source_id: 2, target_id: 1 })));
    assert_eq!(g.edge_count(), 1);
    assert!(g.edges.contains_key(&10));
}

#[test]
fn impact_radius_counts_affected_downstream_nodes() {
    let g = diamond();
    let mut d = WorldDiff::new();
    assert_eq!(d.compute_impact_radius(&g), 0);
    let changed = |n: u128| DiffKind::NodeChanged { node_id: n, field: "title".to_string(), old_value: "a".to_string(), new_value: "b".to_string() };
    d.diffs.push(changed(5));
    assert_eq!(d.compute_impact_radius(&g), 1);
    d.diffs.push(DiffKind::EdgeAdded(10));
    d.diffs.push(changed(2));
    assert_eq!(d.compute_impact_radius(&g), 3);
    d.diffs.push(changed(1));
    assert_eq!(d.compute_impact_radius(&g), 5);
}

#[test]
fn breadth_first_visits_by_distance() {
    let g = diamond();
    let r = g.traverse(1, TraversalMode::BreadthFirst);
    let depths: Vec<usize> = r.visited.iter().map(|v| r.depth_map[v]).collect();
    assert_eq!(depths, vec![0, 1, 1, 2, 3]);
}

#[test]
fn defaults_are_empty() {
    let g = DirectedAcyclicGraph::default();
    assert_eq!(g.node_count(), 0);
    assert_eq!(g.edge_count(), 0);
    let d = WorldDiff::default();
    assert!(d.diffs.is_empty());
    assert_eq!(d.total_changes, 0);
    assert_eq!(d.impact_radius, 0);
}

#[test]
fn all_paths_lists_one_entry_per_edge_sequence_in_depth_first_order() {
    let g = diamond();
    assert_eq!(g.find_all_paths(1, 5), vec![vec![1, 2, 4, 5], vec![1, 3, 4, 5]]);
    let mut h = DirectedAcyclicGraph::new();
    h.add_nodes(vec![node(1), node(2)]);
    h.add_edges(vec![edge(20, 1, 2), edge(21, 1, 2)]).unwrap();
    assert_eq!(h.find_all_paths(1, 2), vec![vec![1, 2], vec![1, 2]]);
    assert_eq!(h.find_all_paths(1, 1), vec![vec![1]]);
}

#[test]
fn build_story_dag_stops_at_the_first_refused_edge() {
    let ok = build_story_dag(vec![node(1), node(2), node(3)], vec![edge(10, 1, 2), edge(11, 2, 3)]);
    assert!(ok.is_ok());
    let cyc = build_story_dag(vec![node(1), node(2), node(3)], vec![edge(10, 1, 2), edge(11, 2, 3), edge(12, 3, 1), edge(13, 9, 1)]);
    match cyc {
        Err(SpError::DagCycleDetected { source_id, target_id }) => assert_eq!((source_id, target_id), (3, 1)),
        other => panic!("unexpected: {:?}", other.map(|g| g.edge_count())),
    }
}

#[test]
fn remove_node_keeps_in_degrees_equal_to_incoming_edges() {
    let mut g = diamond();
    g.remove_node(2);
    for (id, _) in g.nodes.iter() {
        let incoming = g.edges.values().filter(|e| e.target == *id).count();
        assert_eq!(g.in_degree[id], incoming);
    }
    assert_eq!(g.in_degree[&4], 1);
    assert_eq!(g.in_degree[&3], 1);
}
