//! The differences between two parallel branches ("what if the other path
//! had been taken").
use vstd::prelude::*;
use crate::prim::NIL_ID;

verus! {

/// A changed relationship between two characters; values are binary64 bit
/// patterns.
#[derive(Debug)]
pub struct NpcRelationshipChange {
    pub npc_a: u128,
    pub npc_b: u128,
    pub field: String,
    pub value_before: u64,
    pub value_after: u64,
}

/// A changed field of the environment.
#[derive(Debug)]
pub struct EnvironmentChange {
    pub field: String,
    pub before: String,
    pub after: String,
}

/// The comparison of two branches that split at `divergent_node`.
#[derive(Debug)]
pub struct ButterflyDiff {
    pub branch_a: u128,
    pub branch_b: u128,
    pub divergent_node: u128,
    pub affected_downstream_nodes: Vec<u128>,
    pub npc_relationship_changes: Vec<NpcRelationshipChange>,
    pub environment_changes: Vec<EnvironmentChange>,
}

/// Compares the world states of two branches. The states are not read yet:
/// the result names the divergence point, nil branch ids and no changes.
pub fn compute_butterfly_effect(
    branch_a_state: &serde_json::Value,
    branch_b_state: &serde_json::Value,
    divergent_node: u128,
) -> (d: ButterflyDiff)
    ensures
        d.branch_a == NIL_ID,
        d.branch_b == NIL_ID,
        d.divergent_node == divergent_node,
        d.affected_downstream_nodes@.len() == 0,
        d.npc_relationship_changes@.len() == 0,
        d.environment_changes@.len() == 0,
{
    ButterflyDiff {
        branch_a: NIL_ID,
        branch_b: NIL_ID,
        divergent_node,
        affected_downstream_nodes: Vec::new(),
        npc_relationship_changes: Vec::new(),
        environment_changes: Vec::new(),
    }
}

} // verus!
