//! Going back to an earlier snapshot.
use vstd::prelude::*;

verus! {

/// The outcome of a rollback: the snapshot returned to, the nodes undone
/// and the change in timeline depth.
#[derive(Debug)]
pub struct RollbackResult {
    pub checkpoint_id: u128,
    pub rolled_back_nodes: Vec<u128>,
    pub timeline_depth_change: i32,
}

/// Rolls back to `checkpoint_id`. The depth change is the target depth minus
/// the current depth, each taken as a 32-bit signed integer (wrapping as a
/// cast does); no nodes are listed as undone.
pub fn rollback_to(checkpoint_id: u128, current_depth: usize, target_depth: usize) -> (r: RollbackResult)
    requires
        i32::MIN <= (target_depth as i32) - (current_depth as i32) <= i32::MAX,
    ensures
        r.checkpoint_id == checkpoint_id,
        r.rolled_back_nodes@.len() == 0,
        r.timeline_depth_change == (target_depth as i32) - (current_depth as i32),
{
    RollbackResult {
        checkpoint_id,
        rolled_back_nodes: Vec::new(),
        timeline_depth_change: target_depth as i32 - current_depth as i32,
    }
}

} // verus!
