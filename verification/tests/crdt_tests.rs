use sparknode::crdt::graph_crdt::{GraphCrdt, GraphOp};
use sparknode::crdt::lww_register::LwwRegister;
use sparknode::prim::Timestamp;

fn reg(value: &str, writer: u128, secs: i64, nanos: u32) -> LwwRegister<String> {
    LwwRegister { value: value.to_string(), writer_id: writer, timestamp: Timestamp { secs, nanos } }
}

#[test]
fn later_write_wins() {
    let mut a = reg("a", 1, 10, 0);
    let b = reg("b", 2, 11, 0);
    assert!(a.merge(&b));
    assert_eq!(a.value, "b");
    assert_eq!(a.writer_id, 2);
    let c = reg("c", 9, 10, 999);
    assert!(!a.merge(&c));
    assert_eq!(a.value, "b");
}

#[test]
fn ties_go_to_the_larger_writer() {
    let mut a = reg("a", 1, 10, 5);
    let b = reg("b", 2, 10, 5);
    assert!(a.merge(&b));
    assert_eq!(a.value, "b");
    let mut b2 = reg("b", 2, 10, 5);
    assert!(!b2.merge(&reg("a", 1, 10, 5)));
    assert_eq!(b2.value, "b");
}

#[test]
fn merging_converges_in_any_order() {
    let x = reg("x", 3, 5, 0);
    let y = reg("y", 1, 7, 0);
    let z = reg("z", 2, 7, 0);
    let mut p = reg("x", 3, 5, 0);
    p.merge(&y);
    p.merge(&z);
    let mut q = reg("z", 2, 7, 0);
    q.merge(&x);
    q.merge(&y);
    assert_eq!(p.value, q.value);
    assert_eq!(p.writer_id, q.writer_id);
    assert_eq!(p.value, "z");
    let mut r = reg("x", 3, 5, 0);
    assert!(!r.merge(&x));
}

#[test]
fn write_and_new_record_the_writer() {
    let mut r = LwwRegister::new(1u32, 5);
    assert_eq!(r.writer_id, 5);
    r.write(2, 6);
    assert_eq!(r.value, 2);
    assert_eq!(r.writer_id, 6);
}

#[test]
fn local_changes_tick_and_log() {
    let mut g = GraphCrdt::new(100, 7);
    g.add_node(1);
    g.add_node(2);
    assert!(g.add_edge(50, 1, 2));
    assert!(!g.add_edge(51, 1, 3));
    assert_eq!(g.vector_clock[&7], 3);
    assert_eq!(g.operations.len(), 3);
    assert!(matches!(g.operations[2].op, GraphOp::AddEdge { edge_id: 50, source: 1, target: 2 }));
    assert_eq!(g.operations[2].vector_clock[&7], 3);
    assert_eq!(g.node_count(), 2);
    assert_eq!(g.edge_count(), 1);
    assert_eq!(g.out_edges(1), vec![(50, 2)]);
    assert_eq!(g.in_edges(2), vec![(50, 1)]);
    assert!(g.out_edges(2).is_empty());
}

#[test]
fn removing_a_node_tombstones_it_and_its_edges() {
    let mut g = GraphCrdt::new(100, 7);
    g.add_node(1);
    g.add_node(2);
    g.add_node(3);
    g.add_edge(50, 1, 2);
    g.add_edge(51, 2, 3);
    g.add_edge(52, 1, 3);
    g.remove_node(2);
    assert!(!g.nodes.contains(&2));
    assert!(g.tombstoned_nodes.contains(&2));
    assert_eq!(g.edge_count(), 1);
    assert!(g.tombstoned_edges.contains(&50) && g.tombstoned_edges.contains(&51));
    assert!(!g.add_edge(53, 2, 3));
    g.add_node(2);
    assert!(!g.tombstoned_nodes.contains(&2));
    g.remove_edge(52);
    assert_eq!(g.edge_count(), 0);
    assert!(g.tombstoned_edges.contains(&52));
}

#[test]
fn cycle_check_over_live_edges() {
    let mut g = GraphCrdt::new(100, 7);
    for n in 1..=3u128 {
        g.add_node(n);
    }
    g.add_edge(50, 1, 2);
    g.add_edge(51, 2, 3);
    assert!(g.would_create_cycle(3, 1));
    assert!(g.would_create_cycle(2, 2));
    assert!(!g.would_create_cycle(1, 3));
}

#[test]
fn merging_remote_changes_once_and_idempotently() {
    let mut a = GraphCrdt::new(100, 1);
    a.add_node(10);
    a.add_node(11);
    a.add_edge(90, 10, 11);
    let mut b = GraphCrdt::new(100, 2);
    b.merge_remote(&a.operations);
    assert_eq!(b.node_count(), 2);
    assert_eq!(b.edge_count(), 1);
    assert_eq!(b.vector_clock[&1], 3);
    assert_eq!(b.operations.len(), 3);
    b.merge_remote(&a.operations);
    assert_eq!(b.operations.len(), 3);
    assert_eq!(b.node_count(), 2);
    a.remove_node(10);
    b.merge_remote(&a.operations);
    assert!(!b.nodes.contains(&10));
    assert!(b.tombstoned_nodes.contains(&10));
    assert_eq!(b.vector_clock[&1], 4);
}

#[test]
fn independent_remote_changes_merge_in_either_order() {
    let mut a = GraphCrdt::new(100, 1);
    a.add_node(10);
    let mut b = GraphCrdt::new(100, 2);
    b.add_node(20);
    let mut c = GraphCrdt::new(100, 3);
    c.merge_remote(&[a.operations[0].copy(), b.operations[0].copy()]);
    let mut d = GraphCrdt::new(100, 4);
    d.merge_remote(&[b.operations[0].copy(), a.operations[0].copy()]);
    assert_eq!(c.nodes, d.nodes);
    assert_eq!(c.tombstoned_nodes, d.tombstoned_nodes);
    assert_eq!(c.vector_clock, d.vector_clock);
    assert_eq!(c.node_count(), 2);
    assert_eq!(c.operations.len(), 2);
    assert_eq!(d.operations.len(), 2);
}

#[test]
fn concurrent_add_and_remove_of_one_node_converge() {
    let mut a = GraphCrdt::new(100, 1);
    a.add_node(10);
    let mut b = GraphCrdt::new(100, 2);
    b.add_node(10);
    b.remove_node(10);
    let add = a.operations[0].copy();
    let remove = b.operations[1].copy();
    let mut c = GraphCrdt::new(100, 3);
    c.merge_remote(&[add.copy(), remove.copy()]);
    let mut d = GraphCrdt::new(100, 4);
    d.merge_remote(&[remove, add]);
    assert_eq!(c.nodes, d.nodes);
    assert_eq!(c.tombstoned_nodes, d.tombstoned_nodes);
    assert_eq!(c.node_stamps, d.node_stamps);
    // the removal was written after the addition, so it wins in both orders
    assert!(!c.nodes.contains(&10));
    assert!(c.tombstoned_nodes.contains(&10));
}

#[test]
fn an_older_remote_change_does_not_undo_a_newer_one() {
    let mut a = GraphCrdt::new(100, 1);
    a.add_node(10);
    let old_add = a.operations[0].copy();
    let mut b = GraphCrdt::new(100, 2);
    b.add_node(10);
    b.remove_node(10);
    let mut c = GraphCrdt::new(100, 3);
    c.merge_remote(&[b.operations[1].copy()]);
    c.merge_remote(&[old_add]);
    assert!(!c.nodes.contains(&10));
}

#[test]
fn a_batch_of_concurrent_changes_converges_in_any_order() {
    let mut a = GraphCrdt::new(100, 1);
    a.add_node(10);
    let mut b = GraphCrdt::new(100, 2);
    b.add_node(20);
    let mut c = GraphCrdt::new(100, 3);
    c.add_node(10);
    c.remove_node(10);
    let ops = [a.operations[0].copy(), b.operations[0].copy(), c.operations[1].copy()];
    let orders = [[0, 1, 2], [2, 1, 0], [1, 2, 0], [2, 0, 1]];
    let mut results = Vec::new();
    for order in orders {
        let mut r = GraphCrdt::new(100, 9);
        let batch: Vec<_> = order.iter().map(|&i| ops[i].copy()).collect();
        r.merge_remote(&batch);
        results.push(r);
    }
    for r in &results[1..] {
        assert_eq!(r.nodes, results[0].nodes);
        assert_eq!(r.tombstoned_nodes, results[0].tombstoned_nodes);
        assert_eq!(r.vector_clock, results[0].vector_clock);
        assert_eq!(r.node_stamps, results[0].node_stamps);
    }
    assert!(results[0].nodes.contains(&20));
    assert!(!results[0].nodes.contains(&10));
}
