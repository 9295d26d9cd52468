//! Loading a story's graph from stored rows and checking a new edge against it.
use vstd::prelude::*;
use crate::dag::graph::{DagEdge, DagNode, DirectedAcyclicGraph};
use crate::dag::graph::index_view;
use crate::dag::operations::{
    DagOperations, accepted_in_turn, fresh_edges, lemma_state_decides_acceptance, loaded_nodes, refusal, state_refuses,
    state_with_edges,
};
use crate::types::SpError;

verus! {

/// Checks that an edge `source -> target` may be added to a story graph:
/// both ends must be nodes of the story and the edge must close no cycle.
pub fn check_new_edge(dag: &DirectedAcyclicGraph, source: u128, target: u128) -> (r: Result<(), SpError>)
    ensures
        !(dag.nodes@.contains_key(source) && dag.nodes@.contains_key(target))
            ==> (r matches Err(SpError::Internal(msg)) && msg@ == "邊的源節點或目標節點不存在於此故事"@),
        dag.nodes@.contains_key(source) && dag.nodes@.contains_key(target) && dag.closes_cycle(source, target)
            ==> (r matches Err(SpError::DagCycleDetected { source_id, target_id }) && source_id == source && target_id == target),
        dag.nodes@.contains_key(source) && dag.nodes@.contains_key(target) && !dag.closes_cycle(source, target)
            ==> r is Ok,
{
    if !dag.nodes.contains_key(&source) || !dag.nodes.contains_key(&target) {
        return Err(SpError::Internal(String::from_str("邊的源節點或目標節點不存在於此故事")));
    }
    if dag.would_create_cycle(source, target) {
        return Err(SpError::DagCycleDetected { source_id: source, target_id: target });
    }
    Ok(())
}

/// The ids of `s` are pairwise distinct.
pub open spec fn distinct_edge_ids(s: Seq<DagEdge>) -> bool {
    forall|i: int, j: int| 0 <= i < j < s.len() ==> #[trigger] s[i].id != #[trigger] s[j].id
}

/// Builds a story graph from its stored nodes and edges: every node, then
/// the edges in order, stopping at the first edge that is refused.
pub fn build_story_dag(nodes: Vec<DagNode>, edges: Vec<DagEdge>) -> (r: Result<DirectedAcyclicGraph, SpError>)
    requires
        edges@.len() < usize::MAX,
    ensures
        r is Ok <==> accepted_in_turn(loaded_nodes(nodes@), edges@, edges@.len() as int),
        r matches Ok(g) ==> g.state() == state_with_edges(loaded_nodes(nodes@), edges@),
        distinct_edge_ids(edges@) ==> (r matches Ok(g) ==> g.wf() && g.acyclic()),
        r matches Err(e) ==> exists|k: int| 0 <= k < edges@.len()
            && accepted_in_turn(loaded_nodes(nodes@), edges@, k)
            && state_refuses(state_with_edges(loaded_nodes(nodes@), #[trigger] edges@.take(k)), edges@[k], Err::<(), SpError>(e)),
{
    let ghost all_nodes = nodes@;
    let ghost all_edges = edges@;
    let mut dag = DirectedAcyclicGraph::new();
    proof {
        assert(dag.node_map() =~= Map::empty());
        assert(dag.edge_map() =~= Map::empty());
    }
    dag.add_nodes(nodes);
    assert(dag.edges@ == Map::<u128, DagEdge>::empty());
    proof {
        assert(dag.edge_map() =~= Map::empty());
        assert(index_view(dag.out_edges@) =~= Map::empty());
        assert(index_view(dag.in_edges@) =~= Map::empty());
        assert(dag.state() == loaded_nodes(all_nodes));
    }
    let ghost mid = dag;
    proof {
        if distinct_edge_ids(all_edges) {
            assert(fresh_edges(&mid, all_edges));
        }
    }
    match dag.add_edges(edges) {
        Ok(()) => Ok(dag),
        Err(e) => {
            proof {
                let k = choose|k: int| 0 <= k < all_edges.len()
                    && accepted_in_turn(mid.state(), all_edges, k)
                    && dag.state() == state_with_edges(mid.state(), #[trigger] all_edges.take(k))
                    && refusal(&dag, all_edges[k], Err::<(), SpError>(e));
                assert forall|g: DirectedAcyclicGraph| #[trigger] g.state() == dag.state()
                    implies refusal(&g, all_edges[k], Err::<(), SpError>(e)) by {
                    lemma_state_decides_acceptance(&g, &dag, all_edges[k]);
                }
                assert(state_refuses(state_with_edges(loaded_nodes(all_nodes), all_edges.take(k)), all_edges[k], Err::<(), SpError>(e)));
            }
            Err(e)
        },
    }
}

} // verus!
