//! Differences between two snapshots of a story world.
use vstd::prelude::*;
use std::collections::HashSet;
use crate::dag::graph::{DirectedAcyclicGraph, lemma_reaches_self};
use crate::dag::traversal::TraversalMode;

verus! {

/// One difference between two snapshots. Probabilities are binary64 bit
/// patterns.
#[derive(Debug)]
pub enum DiffKind {
    NodeAdded(u128),
    NodeRemoved(u128),
    NodeChanged { node_id: u128, field: String, old_value: String, new_value: String },
    EdgeAdded(u128),
    EdgeRemoved(u128),
    EdgeProbabilityChanged { edge_id: u128, old_value: u64, new_value: u64 },
}

/// The differences between two snapshots, with their count and the number
/// of nodes they reach downstream.
#[derive(Debug)]
pub struct WorldDiff {
    pub diffs: Vec<DiffKind>,
    pub total_changes: usize,
    pub impact_radius: usize,
}

impl WorldDiff {
    /// An empty difference.
    pub fn new() -> (d: Self)
        ensures
            d.diffs@.len() == 0,
            d.total_changes == 0,
            d.impact_radius == 0,
    {
        WorldDiff { diffs: Vec::new(), total_changes: 0, impact_radius: 0 }
    }

    /// The number of nodes affected by the changes: every changed node and
    /// every node downstream of one (the butterfly-effect radius).
    pub fn compute_impact_radius(&self, dag: &DirectedAcyclicGraph) -> (r: usize)
        ensures
            r == affected_nodes(self.diffs@, *dag).len(),
    {
        let mut affected: HashSet<u128> = HashSet::new();
        let mut i: usize = 0;
        proof {
            assert(affected@ =~= affected_upto(self.diffs@, *dag, 0));
        }
        while i < self.diffs.len()
            invariant
                i <= self.diffs@.len(),
                affected@ == affected_upto(self.diffs@, *dag, i as int),
            decreases self.diffs@.len() - i,
        {
            let ghost before = affected@;
            match &self.diffs[i] {
                DiffKind::NodeChanged { node_id, .. } => {
                    let n = *node_id;
                    affected.insert(n);
                    let traversal = dag.traverse(n, TraversalMode::BreadthFirst);
                    let mut j: usize = 0;
                    while j < traversal.visited.len()
                        invariant
                            j <= traversal.visited@.len(),
                            affected@ == before.insert(n).union(traversal.visited@.take(j as int).to_set()),
                        decreases traversal.visited@.len() - j,
                    {
                        proof {
                            assert(traversal.visited@.take(j as int + 1)
                                =~= traversal.visited@.take(j as int).push(traversal.visited@[j as int]));
                            lemma_push_to_set(traversal.visited@.take(j as int), traversal.visited@[j as int]);
                        }
                        affected.insert(traversal.visited[j]);
                        proof {
                            assert(affected@ =~= before.insert(n).union(traversal.visited@.take(j as int + 1).to_set()));
                        }
                        j += 1;
                    }
                    proof {
                        assert(traversal.visited@.take(traversal.visited@.len() as int) == traversal.visited@);
                        assert forall|v: u128| #[trigger] affected@.contains(v)
                            <==> affected_upto(self.diffs@, *dag, i as int + 1).contains(v) by {
                            if v == n {
                                lemma_reaches_self(dag, n);
                            }
                            if traversal.visited@.to_set().contains(v) {
                                assert(traversal.visited@.contains(v));
                            }
                            if dag.reaches(n, v) {
                                assert(traversal.visited@.contains(v));
                            }
                        }
                        assert(affected@ =~= affected_upto(self.diffs@, *dag, i as int + 1));
                    }
                },
                _ => {
                    proof {
                        assert(affected@ =~= affected_upto(self.diffs@, *dag, i as int + 1));
                    }
                },
            }
            i += 1;
        }
        proof {
            assert forall|v: u128| #[trigger] affected@.contains(v) <==> affected_nodes(self.diffs@, *dag).contains(v) by {
                lemma_affected_upto(self.diffs@, *dag, self.diffs@.len() as int, v);
            }
            assert(affected@ =~= affected_nodes(self.diffs@, *dag));
        }
        affected.len()
    }
}

/// The nodes downstream of the first `i` differences that change a node
/// (each changed node included).
pub open spec fn affected_upto(diffs: Seq<DiffKind>, dag: DirectedAcyclicGraph, i: int) -> Set<u128>
    decreases i,
{
    if i <= 0 {
        Set::empty()
    } else {
        let prev = affected_upto(diffs, dag, i - 1);
        match diffs[i - 1] {
            DiffKind::NodeChanged { node_id, .. } => prev.union(Set::new(|v: u128| dag.reaches(node_id, v))),
            _ => prev,
        }
    }
}

/// The nodes a set of differences affects: each changed node and every node
/// reachable from one.
pub open spec fn affected_nodes(diffs: Seq<DiffKind>, dag: DirectedAcyclicGraph) -> Set<u128> {
    Set::new(|v: u128| exists|k: int| 0 <= k < diffs.len() && #[trigger] changes_node_reaching(diffs[k], dag, v))
}

/// `d` changes a node from which `v` is reachable (`v` itself included).
pub open spec fn changes_node_reaching(d: DiffKind, dag: DirectedAcyclicGraph, v: u128) -> bool {
    d matches DiffKind::NodeChanged { node_id, .. } && dag.reaches(node_id, v)
}

proof fn lemma_push_to_set(s: Seq<u128>, x: u128)
    ensures
        s.push(x).to_set() == s.to_set().insert(x),
{
    assert forall|y: u128| #[trigger] s.push(x).to_set().contains(y) <==> s.to_set().insert(x).contains(y) by {
        if s.push(x).contains(y) && y != x {
            let k = choose|k: int| 0 <= k < s.push(x).len() && s.push(x)[k] == y;
            assert(s[k] == y);
        }
        if s.contains(y) {
            let k = choose|k: int| 0 <= k < s.len() && s[k] == y;
            assert(s.push(x)[k] == y);
        }
        if y == x {
            assert(s.push(x)[s.len() as int] == y);
        }
    }
    assert(s.push(x).to_set() =~= s.to_set().insert(x));
}

proof fn lemma_affected_upto(diffs: Seq<DiffKind>, dag: DirectedAcyclicGraph, i: int, v: u128)
    requires
        0 <= i <= diffs.len(),
    ensures
        affected_upto(diffs, dag, i).contains(v)
            <==> exists|k: int| 0 <= k < i && #[trigger] changes_node_reaching(diffs[k], dag, v),
    decreases i,
{
    if i > 0 {
        lemma_affected_upto(diffs, dag, i - 1, v);
        if changes_node_reaching(diffs[i - 1], dag, v) {
            assert(affected_upto(diffs, dag, i).contains(v));
        }
    }
}

impl Default for WorldDiff {
    /// The empty difference.
    fn default() -> (d: Self)
        ensures
            d.diffs@.len() == 0,
            d.total_changes == 0,
            d.impact_radius == 0,
    {
        Self::new()
    }
}

} // verus!
