//! Conflicts between parallel branches and how a merge records them.
use vstd::prelude::*;
use crate::prim::json_clone;

verus! {

/// Something two branches changed differently. Probabilities are binary64
/// bit patterns.
#[derive(Debug)]
pub enum MergeConflict {
    /// Both branches changed a node's content.
    NodeContentConflict { node_id: u128, branch_a_content: String, branch_b_content: String },
    /// Both branches changed an edge's probability.
    EdgeProbabilityConflict { edge_id: u128, branch_a_prob: u64, branch_b_prob: u64 },
    /// Both branches changed a character's state.
    NpcStateConflict {
        npc_id: u128,
        field: String,
        branch_a_value: serde_json::Value,
        branch_b_value: serde_json::Value,
    },
}

/// Abstract value of a conflict.
pub enum MergeConflictView {
    NodeContentConflict { node_id: u128, branch_a_content: Seq<char>, branch_b_content: Seq<char> },
    EdgeProbabilityConflict { edge_id: u128, branch_a_prob: u64, branch_b_prob: u64 },
    NpcStateConflict {
        npc_id: u128,
        field: Seq<char>,
        branch_a_value: serde_json::Value,
        branch_b_value: serde_json::Value,
    },
}

impl View for MergeConflict {
    type V = MergeConflictView;

    open spec fn view(&self) -> MergeConflictView {
        match self {
            MergeConflict::NodeContentConflict { node_id, branch_a_content, branch_b_content } =>
                MergeConflictView::NodeContentConflict {
                    node_id: *node_id,
                    branch_a_content: branch_a_content@,
                    branch_b_content: branch_b_content@,
                },
            MergeConflict::EdgeProbabilityConflict { edge_id, branch_a_prob, branch_b_prob } =>
                MergeConflictView::EdgeProbabilityConflict {
                    edge_id: *edge_id,
                    branch_a_prob: *branch_a_prob,
                    branch_b_prob: *branch_b_prob,
                },
            MergeConflict::NpcStateConflict { npc_id, field, branch_a_value, branch_b_value } =>
                MergeConflictView::NpcStateConflict {
                    npc_id: *npc_id,
                    field: field@,
                    branch_a_value: *branch_a_value,
                    branch_b_value: *branch_b_value,
                },
        }
    }
}

impl MergeConflict {
    /// A copy of this conflict.
    pub fn copy(&self) -> (c: MergeConflict)
        ensures
            c@ == self@,
    {
        match self {
            MergeConflict::NodeContentConflict { node_id, branch_a_content, branch_b_content } =>
                MergeConflict::NodeContentConflict {
                    node_id: *node_id,
                    branch_a_content: branch_a_content.clone(),
                    branch_b_content: branch_b_content.clone(),
                },
            MergeConflict::EdgeProbabilityConflict { edge_id, branch_a_prob, branch_b_prob } =>
                MergeConflict::EdgeProbabilityConflict {
                    edge_id: *edge_id,
                    branch_a_prob: *branch_a_prob,
                    branch_b_prob: *branch_b_prob,
                },
            MergeConflict::NpcStateConflict { npc_id, field, branch_a_value, branch_b_value } =>
                MergeConflict::NpcStateConflict {
                    npc_id: *npc_id,
                    field: field.clone(),
                    branch_a_value: json_clone(branch_a_value),
                    branch_b_value: json_clone(branch_b_value),
                },
        }
    }
}

/// How a merge settles conflicts.
#[derive(Debug, Clone, Copy, PartialEq, Eq, Structural)]
pub enum MergeStrategy {
    /// Keep branch A's side.
    PreferA,
    /// Keep branch B's side.
    PreferB,
    /// Take the average.
    Average,
    /// Keep the later write.
    LastWriteWins,
}

/// The outcome of a merge: the conflicts met, whether they were settled and
/// the strategy used.
#[derive(Debug)]
pub struct MergeResult {
    pub conflicts: Vec<MergeConflict>,
    pub resolved: bool,
    pub strategy_used: MergeStrategy,
}

/// Merges two branches given their conflicts: the result lists the same
/// conflicts in the same order, marked settled by `strategy`.
pub fn merge_branches(conflicts: &[MergeConflict], strategy: MergeStrategy) -> (r: MergeResult)
    ensures
        r.conflicts@.map_values(|c: MergeConflict| c@) == conflicts@.map_values(|c: MergeConflict| c@),
        r.resolved,
        r.strategy_used == strategy,
{
    let mut out: Vec<MergeConflict> = Vec::new();
    let mut i: usize = 0;
    while i < conflicts.len()
        invariant
            i <= conflicts@.len(),
            out@.map_values(|c: MergeConflict| c@) == conflicts@.take(i as int).map_values(|c: MergeConflict| c@),
        decreases conflicts@.len() - i,
    {
        let c = conflicts[i].copy();
        let ghost o1 = out@;
        let ghost cv = c@;
        out.push(c);
        proof {
            assert(out@.map_values(|c: MergeConflict| c@) =~= o1.map_values(|c: MergeConflict| c@).push(cv));
            assert(conflicts@.take(i as int + 1) =~= conflicts@.take(i as int).push(conflicts@[i as int]));
            assert(out@.map_values(|c: MergeConflict| c@) =~= conflicts@.take(i as int + 1).map_values(|c: MergeConflict| c@));
        }
        i += 1;
    }
    assert(conflicts@.take(conflicts@.len() as int) =~= conflicts@);
    MergeResult { conflicts: out, resolved: true, strategy_used: strategy }
}

} // verus!
