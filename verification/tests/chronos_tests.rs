use sparknode::chronos::butterfly::compute_butterfly_effect;
use sparknode::chronos::rollback::rollback_to;
use sparknode::chronos::timeline::Timeline;
use sparknode::merge::conflict::{MergeConflict, MergeStrategy, merge_branches};

#[test]
fn timeline_depths_follow_parents() {
    let mut t = Timeline::new(1);
    assert_eq!(t.current_depth(), 0);
    t.add_checkpoint(10, None);
    assert_eq!(t.root_id, Some(10));
    assert_eq!(t.current_depth(), 0);
    t.add_checkpoint(11, Some(10));
    assert_eq!(t.current_depth(), 1);
    t.add_checkpoint(12, Some(11));
    assert_eq!(t.current_depth(), 2);
    t.add_checkpoint(13, Some(10));
    assert_eq!(t.current_depth(), 1);
    assert_eq!(t.nodes[&10].children, vec![11, 13]);
    assert_eq!(t.root_id, Some(10));
    t.add_checkpoint(14, Some(99));
    assert_eq!(t.current_depth(), 0);
    assert_eq!(t.current_id, Some(14));
}

#[test]
fn rollback_reports_the_depth_change() {
    let r = rollback_to(5, 7, 3);
    assert_eq!(r.checkpoint_id, 5);
    assert_eq!(r.timeline_depth_change, -4);
    assert!(r.rolled_back_nodes.is_empty());
    assert_eq!(rollback_to(5, 0, 2).timeline_depth_change, 2);
}

#[test]
fn butterfly_names_the_divergence() {
    let v = serde_json::Value::Null;
    let d = compute_butterfly_effect(&v, &v, 42);
    assert_eq!(d.divergent_node, 42);
    assert_eq!(d.branch_a, 0);
    assert!(d.affected_downstream_nodes.is_empty());
}

#[test]
fn merge_keeps_conflicts_in_order() {
    let cs = vec![
        MergeConflict::EdgeProbabilityConflict { edge_id: 1, branch_a_prob: 0.2f64.to_bits(), branch_b_prob: 0.4f64.to_bits() },
        MergeConflict::NodeContentConflict { node_id: 2, branch_a_content: "a".to_string(), branch_b_content: "b".to_string() },
    ];
    let r = merge_branches(&cs, MergeStrategy::PreferB);
    assert!(r.resolved);
    assert_eq!(r.strategy_used, MergeStrategy::PreferB);
    assert_eq!(r.conflicts.len(), 2);
    assert!(matches!(&r.conflicts[1], MergeConflict::NodeContentConflict { node_id: 2, branch_b_content, .. } if branch_b_content == "b"));
}
