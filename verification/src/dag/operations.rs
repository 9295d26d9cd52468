//! Batch insertion and path queries on the story graph.
use vstd::prelude::*;
use std::collections::HashSet;
use crate::dag::graph::{
    DagEdge, DagEdgeView, DagNode, DagNodeView, DirectedAcyclicGraph, index_view, lemma_push_no_dup, lemma_reaches_self,
};
use crate::dag::traversal::{lemma_walk_len_reaches, lemma_walk_len_step};
use crate::types::SpError;

verus! {

broadcast use {vstd::std_specs::hash::group_hash_axioms, vstd::seq_lib::group_seq_properties, vstd::set::group_set_axioms};

/// Higher-level operations on a story graph.
pub trait DagOperations {
    /// The graph's indexes agree with its edges.
    spec fn ops_ready(&self) -> bool;

    /// `n` more edges still fit in the machine's counters.
    spec fn room_for(&self, n: nat) -> bool;

    /// Adds the nodes one after the other.
    fn add_nodes(&mut self, nodes: Vec<DagNode>);

    /// Adds the edges one after the other, stopping at the first refusal.
    fn add_edges(&mut self, edges: Vec<DagEdge>) -> (r: Result<(), SpError>)
        requires
            old(self).ops_ready(),
            old(self).room_for(edges@.len()),
    ;

    /// Every path from `source` to `target` that repeats no node.
    fn find_all_paths(&self, source: u128, target: u128) -> Vec<Vec<u128>>;

    /// A path with the fewest edges from `source` to `target`, if any.
    fn shortest_path(&self, source: u128, target: u128) -> Option<Vec<u128>>;
}

/// The node table after adding `s` in order.
pub open spec fn nodes_with(m: Map<u128, DagNodeView>, s: Seq<DagNode>) -> Map<u128, DagNodeView>
    decreases s.len(),
{
    if s.len() == 0 {
        m
    } else {
        nodes_with(m, s.drop_last()).insert(s.last().id, s.last()@)
    }
}

/// The in-degree table after adding the nodes `s` in order (new ids start at 0).
pub open spec fn degrees_with(m: Map<u128, usize>, s: Seq<DagNode>) -> Map<u128, usize>
    decreases s.len(),
{
    if s.len() == 0 {
        m
    } else {
        let d = degrees_with(m, s.drop_last());
        if d.contains_key(s.last().id) {
            d
        } else {
            d.insert(s.last().id, 0)
        }
    }
}

/// The edge table after adding `s` in order.
pub open spec fn edges_with(m: Map<u128, DagEdgeView>, s: Seq<DagEdge>) -> Map<u128, DagEdgeView>
    decreases s.len(),
{
    if s.len() == 0 {
        m
    } else {
        edges_with(m, s.drop_last()).insert(s.last().id, s.last()@)
    }
}

/// The ids of `s` are distinct and none is in use in `g`.
pub open spec fn fresh_edges(g: &DirectedAcyclicGraph, s: Seq<DagEdge>) -> bool {
    &&& forall|i: int| 0 <= i < s.len() ==> !g.edges@.contains_key(#[trigger] s[i].id)
    &&& forall|i: int, j: int| 0 <= i < j < s.len() ==> #[trigger] s[i].id != #[trigger] s[j].id
}

/// Why `add_edge` refuses `e` in `g`: an end is missing, or the edge would
/// close a cycle.
pub open spec fn refusal(g: &DirectedAcyclicGraph, e: DagEdge, r: Result<(), SpError>) -> bool {
    if !(g.nodes@.contains_key(e.source) && g.nodes@.contains_key(e.target)) {
        r matches Err(SpError::Internal(msg)) && msg@ == "边的源节点或目标节点不存在"@
    } else {
        &&& g.closes_cycle(e.source, e.target)
        &&& r matches Err(SpError::DagCycleDetected { source_id, target_id })
        &&& source_id == e.source && target_id == e.target
    }
}

/// A graph's tables as abstract values: nodes, edges, the outgoing and
/// incoming id lists, and the in-degrees.
pub struct GraphState {
    pub nodes: Map<u128, DagNodeView>,
    pub edges: Map<u128, DagEdgeView>,
    pub outs: Map<u128, Seq<u128>>,
    pub ins: Map<u128, Seq<u128>>,
    pub degree: Map<u128, usize>,
}

impl DirectedAcyclicGraph {
    /// The tables of this graph.
    pub open spec fn state(&self) -> GraphState {
        GraphState {
            nodes: self.node_map(),
            edges: self.edge_map(),
            outs: index_view(self.out_edges@),
            ins: index_view(self.in_edges@),
            degree: self.in_degree@,
        }
    }
}

/// The list of `k` in an id index (empty when absent).
pub open spec fn list_of(m: Map<u128, Seq<u128>>, k: u128) -> Seq<u128> {
    if m.contains_key(k) {
        m[k]
    } else {
        Seq::empty()
    }
}

/// The tables after `add_edge` accepts `e`.
pub open spec fn state_add_edge(st: GraphState, e: DagEdge) -> GraphState {
    GraphState {
        edges: st.edges.insert(e.id, e@),
        outs: st.outs.insert(e.source, list_of(st.outs, e.source).push(e.id)),
        ins: st.ins.insert(e.target, list_of(st.ins, e.target).push(e.id)),
        degree: st.degree.insert(e.target,
            (if st.degree.contains_key(e.target) { st.degree[e.target] + 1 } else { 1 }) as usize),
        ..st
    }
}

/// The tables after each edge of `s` is accepted in turn.
pub open spec fn state_with_edges(st: GraphState, s: Seq<DagEdge>) -> GraphState
    decreases s.len(),
{
    if s.len() == 0 {
        st
    } else {
        state_add_edge(state_with_edges(st, s.drop_last()), s.last())
    }
}

/// `g` accepts `e`: both ends are nodes of `g` and the edge closes no cycle.
pub open spec fn accepts(g: &DirectedAcyclicGraph, e: DagEdge) -> bool {
    &&& g.nodes@.contains_key(e.source)
    &&& g.nodes@.contains_key(e.target)
    &&& !g.closes_cycle(e.source, e.target)
}

/// A graph with tables `st` accepts `e` (whether it does depends on the tables only).
pub open spec fn state_accepts(st: GraphState, e: DagEdge) -> bool {
    forall|g: DirectedAcyclicGraph| #[trigger] g.state() == st ==> accepts(&g, e)
}

/// Starting from tables `st`, each of the first `k` edges of `s` is accepted
/// by the tables the earlier ones left.
pub open spec fn accepted_in_turn(st: GraphState, s: Seq<DagEdge>, k: int) -> bool {
    forall|j: int| 0 <= j < k ==> #[trigger] state_accepts(state_with_edges(st, s.take(j)), s[j])
}

/// Every graph with tables `st` refuses `e` with `r`.
pub open spec fn state_refuses(st: GraphState, e: DagEdge, r: Result<(), SpError>) -> bool {
    forall|g: DirectedAcyclicGraph| #[trigger] g.state() == st ==> refusal(&g, e, r)
}

/// The tables of an empty graph after the nodes `s` are added in order.
pub open spec fn loaded_nodes(s: Seq<DagNode>) -> GraphState {
    GraphState {
        nodes: nodes_with(Map::empty(), s),
        edges: Map::empty(),
        outs: Map::empty(),
        ins: Map::empty(),
        degree: degrees_with(Map::empty(), s),
    }
}

/// Two graphs with the same tables agree on which edges they accept.
pub proof fn lemma_state_decides_acceptance(g1: &DirectedAcyclicGraph, g2: &DirectedAcyclicGraph, e: DagEdge)
    requires
        g1.state() == g2.state(),
    ensures
        accepts(g1, e) == accepts(g2, e),
        g1.nodes@.contains_key(e.source) == g2.nodes@.contains_key(e.source),
        g1.nodes@.contains_key(e.target) == g2.nodes@.contains_key(e.target),
        g1.closes_cycle(e.source, e.target) == g2.closes_cycle(e.source, e.target),
{
    assert forall|k: u128| #[trigger] g1.nodes@.contains_key(k) == g2.nodes@.contains_key(k) by {
        assert(g1.node_map().contains_key(k) == g1.nodes@.contains_key(k));
        assert(g2.node_map().contains_key(k) == g2.nodes@.contains_key(k));
    }
    assert forall|k: u128| #[trigger] g1.edges@.contains_key(k) == g2.edges@.contains_key(k) by {
        assert(g1.edge_map().contains_key(k) == g1.edges@.contains_key(k));
        assert(g2.edge_map().contains_key(k) == g2.edges@.contains_key(k));
    }
    assert forall|a: u128, i: int, b: u128| #[trigger] g1.out_link(a, i, b) == g2.out_link(a, i, b) by {
        assert(g1.out_list(a) == g2.out_list(a)) by {
            assert(index_view(g1.out_edges@).contains_key(a) == g1.out_edges@.contains_key(a));
            assert(index_view(g2.out_edges@).contains_key(a) == g2.out_edges@.contains_key(a));
            if g1.out_edges@.contains_key(a) {
                assert(index_view(g1.out_edges@)[a] == g1.out_edges@[a]@);
                assert(index_view(g2.out_edges@)[a] == g2.out_edges@[a]@);
            }
        }
        if 0 <= i < g1.out_list(a).len() && g1.edges@.contains_key(g1.out_list(a)[i]) {
            let id = g1.out_list(a)[i];
            assert(g1.edge_map()[id] == g2.edge_map()[id]);
        }
    }
    assert forall|a: u128, b: u128| #[trigger] g1.step(a, b) == g2.step(a, b) by {
        if g1.step(a, b) {
            let i = choose|i: int| #[trigger] g1.out_link(a, i, b);
            assert(g2.out_link(a, i, b));
        }
        if g2.step(a, b) {
            let i = choose|i: int| #[trigger] g2.out_link(a, i, b);
            assert(g1.out_link(a, i, b));
        }
    }
    assert forall|p: Seq<u128>| #[trigger] g1.is_walk(p) == g2.is_walk(p) by {
        if g1.is_walk(p) {
            assert forall|i: int| 0 <= i < p.len() - 1 implies #[trigger] g2.walk_step(p, i) by {
                assert(g1.walk_step(p, i));
            }
        }
        if g2.is_walk(p) {
            assert forall|i: int| 0 <= i < p.len() - 1 implies #[trigger] g1.walk_step(p, i) by {
                assert(g2.walk_step(p, i));
            }
        }
    }
    assert(g1.reaches(e.target, e.source) == g2.reaches(e.target, e.source)) by {
        if g1.reaches(e.target, e.source) {
            let p = choose|p: Seq<u128>| #[trigger] g1.is_walk(p) && p[0] == e.target && p.last() == e.source;
            assert(g2.is_walk(p));
        }
        if g2.reaches(e.target, e.source) {
            let p = choose|p: Seq<u128>| #[trigger] g2.is_walk(p) && p[0] == e.target && p.last() == e.source;
            assert(g1.is_walk(p));
        }
    }
}

/// The node lists of a list of paths.
pub open spec fn path_views(ps: Seq<Vec<u128>>) -> Seq<Seq<u128>> {
    ps.map_values(|v: Vec<u128>| v@)
}

/// The simple paths to `target` that continue `path`, in depth-first order:
/// `path` itself when it already ends at `target`, otherwise the
/// continuations through each outgoing edge of its last node in index order,
/// one entry per edge (`fuel` bounds the number of steps).
pub open spec fn paths_from(g: DirectedAcyclicGraph, path: Seq<u128>, target: u128, fuel: nat) -> Seq<Seq<u128>>
    decreases fuel, 0nat, 0nat,
{
    if fuel == 0 {
        Seq::empty()
    } else if path.last() == target {
        seq![path]
    } else {
        paths_through(g, path, target, 0, (fuel - 1) as nat)
    }
}

/// The continuations of `path` through the outgoing edges of its last node
/// from index `j` on.
pub open spec fn paths_through(g: DirectedAcyclicGraph, path: Seq<u128>, target: u128, j: nat, fuel: nat) -> Seq<Seq<u128>>
    decreases fuel, 1nat, g.out_list(path.last()).len() - j,
{
    if j >= g.out_list(path.last()).len() {
        Seq::empty()
    } else {
        let eid = g.out_list(path.last())[j as int];
        let here = if g.edges@.contains_key(eid) && !path.contains(g.edges@[eid].target) {
            paths_from(g, path.push(g.edges@[eid].target), target, fuel)
        } else {
            Seq::empty()
        };
        here + paths_through(g, path, target, j + 1, fuel)
    }
}

/// Every simple path from `source` to `target`, in depth-first order.
pub open spec fn all_paths(g: DirectedAcyclicGraph, source: u128, target: u128) -> Seq<Seq<u128>> {
    paths_from(g, seq![source], target, (g.edges@.dom().map(|e: u128| g.edge_target(e)).insert(source).len() + 1) as nat)
}

impl DirectedAcyclicGraph {
    /// An in-degree entry never exceeds the number of edges.
    proof fn lemma_degree_bound(&self, v: u128)
        requires
            self.wf(),
            self.in_degree@.contains_key(v),
        ensures
            self.in_degree@[v] <= self.edges@.len(),
    {
        let l = self.in_list(v);
        if self.in_edges@.contains_key(v) {
            l.unique_seq_to_set();
            assert(l.to_set().subset_of(self.edges@.dom())) by {
                assert forall|x: u128| #[trigger] l.to_set().contains(x) implies self.edges@.dom().contains(x) by {
                    assert(l.contains(x));
                    let i = choose|i: int| 0 <= i < l.len() && l[i] == x;
                    assert(self.edges@.contains_key(l[i]));
                }
            }
            vstd::set_lib::lemma_len_subset(l.to_set(), self.edges@.dom());
        }
    }
}

/// A copy of a list of ids.
pub fn copy_path(v: &Vec<u128>) -> (r: Vec<u128>)
    ensures
        r@ == v@,
{
    let mut r: Vec<u128> = Vec::new();
    let mut i: usize = 0;
    while i < v.len()
        invariant
            i <= v@.len(),
            r@ == v@.take(i as int),
        decreases v@.len() - i,
    {
        r.push(v[i]);
        i += 1;
        assert(r@ =~= v@.take(i as int));
    }
    assert(v@.take(v@.len() as int) =~= v@);
    r
}

/// With every node labelled below `d` closed under steps (each successor is
/// labelled at most one more), a walk of at most `d` steps from the start
/// (label 0) ends at a node labelled at most its length.
pub proof fn lemma_labels_below(g: &DirectedAcyclicGraph, dist: Map<u128, nat>, start: u128, p: Seq<u128>, d: nat)
    requires
        dist.contains_key(start),
        dist[start] == 0,
        forall|u: u128, w: u128| #[trigger] dist.contains_key(u) && dist[u] < d && #[trigger] g.step(u, w)
            ==> dist.contains_key(w) && dist[w] <= dist[u] + 1,
        g.is_walk(p),
        p[0] == start,
        p.len() - 1 <= d,
    ensures
        dist.contains_key(p.last()),
        dist[p.last()] <= p.len() - 1,
    decreases p.len(),
{
    if p.len() > 1 {
        let q = p.drop_last();
        assert forall|i: int| 0 <= i < q.len() - 1 implies #[trigger] g.walk_step(q, i) by {
            assert(g.walk_step(p, i));
        }
        lemma_labels_below(g, dist, start, q, d);
        assert(g.walk_step(p, p.len() - 2));
    }
}

impl DagOperations for DirectedAcyclicGraph {
    open spec fn ops_ready(&self) -> bool {
        self.wf()
    }

    open spec fn room_for(&self, n: nat) -> bool {
        self.edges@.len() + n < usize::MAX
    }

    fn add_nodes(&mut self, nodes: Vec<DagNode>)
        ensures
            final(self).node_map() == nodes_with(old(self).node_map(), nodes@),
            final(self).in_degree@ == degrees_with(old(self).in_degree@, nodes@),
            final(self).edges@ == old(self).edges@,
            final(self).out_edges@ == old(self).out_edges@,
            final(self).in_edges@ == old(self).in_edges@,
            old(self).wf() ==> final(self).wf(),
            old(self).acyclic() ==> final(self).acyclic(),
    {
        let ghost all = nodes@;
        let n = nodes.len();
        let mut rest = nodes;
        let mut i: usize = 0;
        while rest.len() > 0
            invariant
                all.len() == n,
                i + rest@.len() == all.len(),
                rest@ == all.skip(i as int),
                self.node_map() == nodes_with(old(self).node_map(), all.take(i as int)),
                self.in_degree@ == degrees_with(old(self).in_degree@, all.take(i as int)),
                self.edges@ == old(self).edges@,
                self.out_edges@ == old(self).out_edges@,
                self.in_edges@ == old(self).in_edges@,
                old(self).wf() ==> self.wf(),
                old(self).acyclic() ==> self.acyclic(),
            decreases rest@.len(),
        {
            let node = rest.remove(0);
            proof {
                assert(node == all[i as int]);
                assert(all.take(i as int + 1).drop_last() =~= all.take(i as int));
                assert(all.take(i as int + 1).last() == node);
                assert(rest@ =~= all.skip(i as int + 1));
            }
            let ghost before = self.node_map();
            self.add_node(node);
            proof {
                assert(self.node_map() =~= before.insert(node.id, node@));
            }
            i += 1;
        }
        proof {
            assert(all.take(i as int) =~= all);
        }
    }

    fn add_edges(&mut self, edges: Vec<DagEdge>) -> (r: Result<(), SpError>)
        ensures
            final(self).nodes@ == old(self).nodes@,
            r is Ok ==> final(self).edge_map() == edges_with(old(self).edge_map(), edges@),
            r is Err ==> exists|k: int| 0 <= k < edges@.len()
                && final(self).edge_map() == edges_with(old(self).edge_map(), #[trigger] edges@.take(k))
                && refusal(final(self), edges@[k], r),
            fresh_edges(old(self), edges@) ==> final(self).wf(),
            fresh_edges(old(self), edges@) && old(self).acyclic() ==> final(self).acyclic(),
            r is Ok <==> accepted_in_turn(old(self).state(), edges@, edges@.len() as int),
            r is Ok ==> final(self).state() == state_with_edges(old(self).state(), edges@),
            r is Err ==> exists|k: int| 0 <= k < edges@.len()
                && accepted_in_turn(old(self).state(), edges@, k)
                && final(self).state() == state_with_edges(old(self).state(), #[trigger] edges@.take(k))
                && refusal(final(self), edges@[k], r),
    {
        let ghost all = edges@;
        let ghost o = *self;
        let n = edges.len();
        let mut rest = edges;
        let mut i: usize = 0;
        proof {
            assert forall|v: u128| #[trigger] self.in_degree@.contains_key(v) implies self.in_degree@[v] <= o.edges@.len() by {
                o.lemma_degree_bound(v);
            }
        }
        while rest.len() > 0
            invariant
                o == *old(self),
                all == edges@,
                all.len() == n,
                i + rest@.len() == all.len(),
                rest@ == all.skip(i as int),
                o.wf(),
                o.edges@.len() + all.len() < usize::MAX,
                self.nodes@ == o.nodes@,
                self.edge_map() == edges_with(o.edge_map(), all.take(i as int)),
                self.edges@.len() <= o.edges@.len() + i,
                forall|v: u128| #[trigger] self.in_degree@.contains_key(v) ==> self.in_degree@[v] <= o.edges@.len() + i,
                fresh_edges(&o, all) ==> self.wf(),
                fresh_edges(&o, all) ==> forall|j: int| i <= j < all.len() ==> !self.edges@.contains_key(#[trigger] all[j].id),
                fresh_edges(&o, all) && o.acyclic() ==> self.acyclic(),
                self.state() == state_with_edges(o.state(), all.take(i as int)),
                accepted_in_turn(o.state(), all, i as int),
            decreases rest@.len(),
        {
            let edge = rest.remove(0);
            proof {
                assert(edge == all[i as int]);
                assert(all.take(i as int + 1).drop_last() =~= all.take(i as int));
                assert(all.take(i as int + 1).last() == edge);
                assert(rest@ =~= all.skip(i as int + 1));
            }
            let ghost before = *self;
            let res = self.add_edge(edge);
            match res {
                Ok(()) => {},
                Err(e) => {
                    proof {
                        assert(self.edge_map() == edges_with(o.edge_map(), all.take(i as int)));
                        assert(refusal(self, all[i as int], Err(e)));
                        if accepted_in_turn(o.state(), all, all.len() as int) {
                            assert(state_accepts(state_with_edges(o.state(), all.take(i as int)), all[i as int]));
                            assert(accepts(self, all[i as int]));
                        }
                    }
                    return Err(e);
                },
            }
            proof {
                assert(accepts(&before, edge));
                assert forall|g: DirectedAcyclicGraph| #[trigger] g.state() == before.state() implies accepts(&g, edge) by {
                    lemma_state_decides_acceptance(&g, &before, edge);
                }
                assert(state_accepts(state_with_edges(o.state(), all.take(i as int)), all[i as int]));
                assert forall|j: int| 0 <= j < i + 1 implies #[trigger] state_accepts(state_with_edges(o.state(), all.take(j)), all[j]) by {
                    if j < i {
                        assert(state_accepts(state_with_edges(o.state(), all.take(j)), all[j]));
                    }
                }
                assert(self.state().edges =~= state_add_edge(before.state(), edge).edges);
                assert(self.state().outs =~= state_add_edge(before.state(), edge).outs);
                assert(self.state().ins =~= state_add_edge(before.state(), edge).ins);
                assert(self.state() == state_add_edge(before.state(), edge));
                assert(self.state() == state_with_edges(o.state(), all.take(i as int + 1)));
                assert(self.edge_map() =~= before.edge_map().insert(edge.id, edge@));
                assert(self.edges@.dom() =~= before.edges@.dom().insert(edge.id));
                if fresh_edges(&o, all) {
                    assert forall|j: int| i + 1 <= j < all.len() implies !self.edges@.contains_key(#[trigger] all[j].id) by {
                        assert(all[i as int].id != all[j].id);
                    }
                }
            }
            i += 1;
        }
        proof {
            assert(all.take(i as int) =~= all);
        }
        Ok(())
    }

    fn find_all_paths(&self, source: u128, target: u128) -> (r: Vec<Vec<u128>>)
        ensures
            forall|k: int| 0 <= k < r@.len() ==> self.is_simple_path(source, target, #[trigger] r@[k]@),
            forall|p: Seq<u128>| #[trigger] self.is_simple_path(source, target, p)
                ==> exists|k: int| 0 <= k < r@.len() && #[trigger] r@[k]@ == p,
            path_views(r@) == all_paths(*self, source, target),
    {
        let ghost universe = self.edges@.dom().map(|e: u128| self.edge_target(e)).insert(source);
        proof {
            self.edges@.dom().lemma_map_finite(|e: u128| self.edge_target(e));
        }
        let mut paths: Vec<Vec<u128>> = Vec::new();
        let mut current_path: Vec<u128> = Vec::new();
        current_path.push(source);
        let mut visited: HashSet<u128> = HashSet::new();
        visited.insert(source);
        proof {
            assert(current_path@ == seq![source]);
            assert(self.is_walk(current_path@));
            assert(visited@ =~= current_path@.to_set());
            assert(current_path@.no_duplicates());
        }
        proof {
            assert(path_views(paths@) =~= Seq::<Seq<u128>>::empty());
        }
        self.all_paths_from(source, target, &mut current_path, &mut visited, &mut paths, Ghost(universe), Ghost((universe.len() + 1) as nat));
        proof {
            assert(path_views(paths@) =~= Seq::<Seq<u128>>::empty() + all_paths(*self, source, target));
        }
        proof {
            assert forall|p: Seq<u128>| #[trigger] self.is_simple_path(source, target, p)
                implies exists|k: int| 0 <= k < paths@.len() && #[trigger] paths@[k]@ == p by {
                assert(p.take(1) =~= seq![source]);
                assert(self.completes(seq![source], target, p));
            }
        }
        paths
    }

    fn shortest_path(&self, source: u128, target: u128) -> (r: Option<Vec<u128>>)
        ensures
            r is Some <==> self.reaches(source, target),
            r matches Some(p) ==> {
                &&& self.is_walk(p@)
                &&& p@[0] == source
                &&& p@.last() == target
                &&& self.is_distance(source, target, (p@.len() - 1) as nat)
            },
    {
        let ghost universe = self.edges@.dom().map(|e: u128| self.edge_target(e)).insert(source);
        proof {
            self.edges@.dom().lemma_map_finite(|e: u128| self.edge_target(e));
        }
        let mut visited: HashSet<u128> = HashSet::new();
        let mut queue: Vec<Vec<u128>> = Vec::new();
        let mut order: Vec<u128> = Vec::new();
        let mut first: Vec<u128> = Vec::new();
        first.push(source);
        queue.push(first);
        order.push(source);
        visited.insert(source);
        let ghost mut dist: Map<u128, nat> = map![source => 0nat];
        proof {
            assert(queue@[0]@ == seq![source]);
            assert(self.is_walk(seq![source]));
        }
        let mut head: usize = 0;
        while head < queue.len()
            invariant
                universe.finite(),
                universe == self.edges@.dom().map(|e: u128| self.edge_target(e)).insert(source),
                order@.len() >= 1,
                order@[0] == source,
                order@.no_duplicates(),
                forall|v: u128| #[trigger] order@.contains(v) ==> universe.contains(v),
                order@.len() <= universe.len(),
                queue@.len() == order@.len(),
                head <= order@.len(),
                forall|v: u128| #[trigger] visited@.contains(v) <==> order@.contains(v),
                dist.dom() == visited@,
                dist[source] == 0,
                forall|k: int| 0 <= k < order@.len() ==> {
                    &&& self.is_walk(#[trigger] queue@[k]@)
                    &&& queue@[k]@[0] == source
                    &&& queue@[k]@.last() == order@[k]
                    &&& dist[order@[k]] == queue@[k]@.len() - 1
                    &&& queue@[k]@.len() <= k + 1
                },
                forall|a: int, b: int| #![trigger queue@[a], queue@[b]] 0 <= a <= b < queue@.len() ==> queue@[a]@.len() <= queue@[b]@.len(),
                head < order@.len() ==> queue@[order@.len() - 1]@.len() <= queue@[head as int]@.len() + 1,
                forall|k: int, w: u128| 0 <= k < head && #[trigger] self.step(order@[k], w)
                    ==> dist.contains_key(w) && dist[w] <= dist[order@[k]] + 1,
                forall|k: int| 0 <= k < head ==> #[trigger] order@[k] != target,
            decreases universe.len() - head,
        {
            let path = copy_path(&queue[head]);
            let ghost h = head as int;
            let current = path[path.len() - 1];
            assert(current == order@[h]);
            if current == target {
                proof {
                    let d = dist[target];
                    assert forall|u: u128, w: u128| #[trigger] dist.contains_key(u) && dist[u] < d && #[trigger] self.step(u, w)
                        implies dist.contains_key(w) && dist[w] <= dist[u] + 1 by {
                        assert(order@.contains(u));
                        let k = choose|k: int| 0 <= k < order@.len() && order@[k] == u;
                        assert(queue@[k]@.len() < queue@[h]@.len());
                        if k >= h {
                            assert(queue@[h]@.len() <= queue@[k]@.len());
                        }
                    }
                    assert(self.walk_len(source, target, d)) by {
                        assert(self.is_walk(path@) && path@.len() == d + 1 && path@[0] == source && path@.last() == target);
                    }
                    assert forall|m: nat| #[trigger] self.walk_len(source, target, m) implies d <= m by {
                        if m < d {
                            let p = choose|p: Seq<u128>| #[trigger] self.is_walk(p) && p.len() == m + 1 && p[0] == source && p.last() == target;
                            lemma_labels_below(self, dist, source, p, d);
                        }
                    }
                    lemma_walk_len_reaches(self, source, target, d);
                }
                return Some(path);
            }
            let depth_len = path.len();
            match self.out_edges.get(&current) {
                Some(edge_ids) => {
                    let mut i: usize = 0;
                    while i < edge_ids.len()
                        invariant
                            universe.finite(),
                            universe == self.edges@.dom().map(|e: u128| self.edge_target(e)).insert(source),
                            order@.len() >= 1,
                            order@[0] == source,
                            order@.no_duplicates(),
                            forall|v: u128| #[trigger] order@.contains(v) ==> universe.contains(v),
                            order@.len() <= universe.len(),
                            queue@.len() == order@.len(),
                            h == head,
                            0 <= h < order@.len(),
                            order@[h] == current,
                            current != target,
                            path@ == queue@[h]@,
                            depth_len == path@.len(),
                            forall|v: u128| #[trigger] visited@.contains(v) <==> order@.contains(v),
                            dist.dom() == visited@,
                            dist[source] == 0,
                            forall|k: int| 0 <= k < order@.len() ==> {
                                &&& self.is_walk(#[trigger] queue@[k]@)
                                &&& queue@[k]@[0] == source
                                &&& queue@[k]@.last() == order@[k]
                                &&& dist[order@[k]] == queue@[k]@.len() - 1
                                &&& queue@[k]@.len() <= k + 1
                            },
                            forall|a: int, b: int| #![trigger queue@[a], queue@[b]] 0 <= a <= b < queue@.len() ==> queue@[a]@.len() <= queue@[b]@.len(),
                            queue@[order@.len() - 1]@.len() <= depth_len + 1,
                            forall|k: int, w: u128| 0 <= k < h && #[trigger] self.step(order@[k], w)
                                ==> dist.contains_key(w) && dist[w] <= dist[order@[k]] + 1,
                            forall|k: int| 0 <= k < h ==> #[trigger] order@[k] != target,
                            self.out_edges@.contains_key(current),
                            edge_ids@ == self.out_list(current),
                            i <= edge_ids@.len(),
                            forall|j: int, w: u128| 0 <= j < i && #[trigger] self.out_link(current, j, w)
                                ==> dist.contains_key(w) && dist[w] <= dist[current] + 1,
                        decreases edge_ids@.len() - i,
                    {
                        let eid = edge_ids[i];
                        match self.edges.get(&eid) {
                            Some(edge) => {
                                let t = edge.target;
                                proof {
                                    assert(self.out_link(current, i as int, t));
                                }
                                if !visited.contains(&t) {
                                    let ghost before = order@;
                                    let ghost qb = queue@;
                                    proof {
                                        assert(self.edges@.dom().contains(eid));
                                        assert(self.edge_target(eid) == t);
                                        assert(self.edges@.dom().map(|e: u128| self.edge_target(e)).contains(t));
                                        assert(universe.contains(t));
                                        lemma_push_no_dup(order@, t);
                                        assert(order@.push(t).to_set().subset_of(universe)) by {
                                            assert forall|y: u128| #[trigger] order@.push(t).to_set().contains(y) implies universe.contains(y) by {
                                                assert(order@.push(t).contains(y));
                                            }
                                        }
                                        order@.push(t).unique_seq_to_set();
                                        vstd::set_lib::lemma_len_subset(order@.push(t).to_set(), universe);
                                    }
                                    let mut np = copy_path(&path);
                                    np.push(t);
                                    proof {
                                        assert forall|m: int| 0 <= m < np@.len() - 1 implies #[trigger] self.walk_step(np@, m) by {
                                            if m < path@.len() - 1 {
                                                assert(self.walk_step(path@, m));
                                            } else {
                                                assert(np@[m] == current);
                                            }
                                        }
                                        assert(queue@[h]@.len() <= h + 1);
                                    }
                                    visited.insert(t);
                                    queue.push(np);
                                    order.push(t);
                                    proof {
                                        dist = dist.insert(t, depth_len as nat);
                                        assert forall|k: int| 0 <= k < order@.len() implies {
                                            &&& self.is_walk(#[trigger] queue@[k]@)
                                            &&& queue@[k]@[0] == source
                                            &&& queue@[k]@.last() == order@[k]
                                            &&& dist[order@[k]] == queue@[k]@.len() - 1
                                            &&& queue@[k]@.len() <= k + 1
                                        } by {
                                            if k < before.len() {
                                                assert(queue@[k] == qb[k]);
                                                assert(before.contains(before[k]));
                                            }
                                        }
                                    }
                                }
                            },
                            None => {},
                        }
                        proof {
                            assert forall|j: int, w: u128| 0 <= j < i + 1 && #[trigger] self.out_link(current, j, w)
                                implies dist.contains_key(w) && dist[w] <= dist[current] + 1 by {
                                if j == i {
                                    assert(order@.contains(w));
                                    let k = choose|k: int| 0 <= k < order@.len() && order@[k] == w;
                                    assert(queue@[k]@.len() <= queue@[order@.len() - 1]@.len());
                                }
                            }
                        }
                        i += 1;
                    }
                    proof {
                        assert forall|w: u128| #[trigger] self.step(current, w)
                            implies dist.contains_key(w) && dist[w] <= dist[current] + 1 by {
                            let j = choose|j: int| #[trigger] self.out_link(current, j, w);
                        }
                    }
                },
                None => {},
            }
            head += 1;
        }
        proof {
            assert(!order@.contains(target)) by {
                if order@.contains(target) {
                    let k = choose|k: int| 0 <= k < order@.len() && order@[k] == target;
                }
            }
            assert forall|u: u128, w: u128| #[trigger] dist.contains_key(u) && #[trigger] self.step(u, w)
                implies dist.contains_key(w) && dist[w] <= dist[u] + 1 by {
                assert(order@.contains(u));
                let k = choose|k: int| 0 <= k < order@.len() && order@[k] == u;
            }
            if self.reaches(source, target) {
                let p = choose|p: Seq<u128>| #[trigger] self.is_walk(p) && p[0] == source && p.last() == target;
                crate::dag::traversal::lemma_labels_bound_walk(self, dist, source, p);
            }
        }
        None
    }
}

impl DirectedAcyclicGraph {
    /// `p` is a walk from `s` to `t` that repeats no node.
    pub open spec fn is_simple_path(&self, s: u128, t: u128, p: Seq<u128>) -> bool {
        &&& self.is_walk(p)
        &&& p[0] == s
        &&& p.last() == t
        &&& p.no_duplicates()
    }

    /// `p` continues the walk `path` without repeating a node and ends at `t`.
    pub open spec fn completes(&self, path: Seq<u128>, t: u128, p: Seq<u128>) -> bool {
        &&& p.len() >= path.len()
        &&& p.take(path.len() as int) == path
        &&& self.is_walk(p)
        &&& p.last() == t
        &&& p.no_duplicates()
    }

    /// Appends to `paths` every continuation of `path` (which ends at
    /// `current`) that reaches `target` without repeating a node, trying the
    /// outgoing edges in index order; `path` and `visited` are restored.
    fn all_paths_from(
        &self,
        current: u128,
        target: u128,
        path: &mut Vec<u128>,
        visited: &mut HashSet<u128>,
        paths: &mut Vec<Vec<u128>>,
        Ghost(universe): Ghost<Set<u128>>,
        Ghost(fuel): Ghost<nat>,
    )
        requires
            fuel + old(visited)@.len() >= universe.len() + 1,
            universe.finite(),
            forall|e: u128| #[trigger] self.edges@.contains_key(e) ==> universe.contains(self.edges@[e].target),
            old(path)@.len() >= 1,
            old(path)@.last() == current,
            self.is_walk(old(path)@),
            old(path)@.no_duplicates(),
            old(visited)@ == old(path)@.to_set(),
            old(visited)@.subset_of(universe),
        ensures
            final(path)@ == old(path)@,
            final(visited)@ == old(visited)@,
            final(paths)@.len() >= old(paths)@.len(),
            final(paths)@.take(old(paths)@.len() as int) == old(paths)@,
            forall|k: int| old(paths)@.len() <= k < final(paths)@.len()
                ==> self.completes(old(path)@, target, #[trigger] final(paths)@[k]@),
            forall|p: Seq<u128>| #[trigger] self.completes(old(path)@, target, p)
                ==> exists|k: int| old(paths)@.len() <= k < final(paths)@.len() && #[trigger] final(paths)@[k]@ == p,
            path_views(final(paths)@) == path_views(old(paths)@) + paths_from(*self, old(path)@, target, fuel),
        decreases universe.len() - old(visited)@.len(),
    {
        let ghost p0 = path@;
        let ghost ps0 = paths@;
        proof {
            old(path)@.unique_seq_to_set();
            vstd::set_lib::lemma_len_subset(old(visited)@, universe);
            assert(fuel > 0);
        }
        let ghost f1: nat = (fuel - 1) as nat;
        if current == target {
            let found = copy_path(path);
            paths.push(found);
            proof {
                assert(paths@.take(ps0.len() as int) =~= ps0);
                assert(p0.take(p0.len() as int) =~= p0);
                assert forall|p: Seq<u128>| #[trigger] self.completes(p0, target, p)
                    implies exists|k: int| ps0.len() <= k < paths@.len() && #[trigger] paths@[k]@ == p by {
                    if p.len() > p0.len() {
                        assert(p[p0.len() - 1] == p0.last());
                        assert(p[p.len() - 1] == target);
                    }
                    assert(p =~= p0);
                    assert(paths@[ps0.len() as int]@ == p);
                }
                assert(path_views(paths@) =~= path_views(ps0) + seq![p0]);
            }
            return;
        }
        match self.out_edges.get(&current) {
            Some(edge_ids) => {
                let mut i: usize = 0;
                while i < edge_ids.len()
                    invariant
                        universe.finite(),
                        forall|e: u128| #[trigger] self.edges@.contains_key(e) ==> universe.contains(self.edges@[e].target),
                        path@ == p0,
                        p0.len() >= 1,
                        p0.last() == current,
                        current != target,
                        self.is_walk(p0),
                        p0.no_duplicates(),
                        visited@ == p0.to_set(),
                        visited@.subset_of(universe),
                        visited@.finite(),
                        visited@.len() == p0.len(),
                        p0 == old(path)@,
                        ps0 == old(paths)@,
                        visited@ == old(visited)@,
                        paths@.len() >= ps0.len(),
                        paths@.take(ps0.len() as int) == ps0,
                        forall|k: int| ps0.len() <= k < paths@.len() ==> self.completes(p0, target, #[trigger] paths@[k]@),
                        forall|p: Seq<u128>| #[trigger] self.completes(p0, target, p)
                            && (exists|j: int| 0 <= j < i && #[trigger] self.out_link(current, j, p[p0.len() as int]))
                            ==> exists|k: int| ps0.len() <= k < paths@.len() && #[trigger] paths@[k]@ == p,
                        self.out_edges@.contains_key(current),
                        edge_ids@ == self.out_list(current),
                        i <= edge_ids@.len(),
                        fuel + visited@.len() >= universe.len() + 1,
                        f1 == fuel - 1,
                        path_views(ps0) + paths_through(*self, p0, target, 0, f1)
                            == path_views(paths@) + paths_through(*self, p0, target, i as nat, f1),
                    decreases edge_ids@.len() - i,
                {
                    let eid = edge_ids[i];
                    let ghost ps1 = paths@;
                    proof {
                        assert(edge_ids@[i as int] == eid);
                    }
                    match self.edges.get(&eid) {
                        Some(edge) => {
                            let t = edge.target;
                            proof {
                                assert(self.out_link(current, i as int, t));
                            }
                            if !visited.contains(&t) {
                                proof {
                                    assert(universe.contains(t));
                                    vstd::set_lib::lemma_len_subset(visited@.insert(t), universe);
                                    lemma_push_no_dup(p0, t);
                                    assert(p0.push(t).to_set() =~= visited@.insert(t));
                                    assert forall|m: int| 0 <= m < p0.push(t).len() - 1 implies #[trigger] self.walk_step(p0.push(t), m) by {
                                        if m < p0.len() - 1 {
                                            assert(self.walk_step(p0, m));
                                        } else {
                                            assert(p0.push(t)[m] == current);
                                        }
                                    }
                                }
                                visited.insert(t);
                                path.push(t);
                                self.all_paths_from(t, target, path, visited, paths, Ghost(universe), Ghost(f1));
                                path.pop();
                                visited.remove(&t);
                                proof {
                                    assert(path@ =~= p0);
                                    assert(visited@ =~= p0.to_set());
                                    let q0 = p0.push(t);
                                    assert(!p0.contains(t)) by {
                                        if p0.contains(t) {
                                            assert(p0.to_set().contains(t));
                                        }
                                    }
                                    assert(paths_through(*self, p0, target, i as nat, f1)
                                        == paths_from(*self, q0, target, f1) + paths_through(*self, p0, target, (i + 1) as nat, f1));
                                    assert(path_views(paths@) == path_views(ps1) + paths_from(*self, q0, target, f1));
                                    assert(path_views(paths@) + paths_through(*self, p0, target, (i + 1) as nat, f1)
                                        =~= path_views(ps1) + paths_through(*self, p0, target, i as nat, f1));
                                    assert(paths@.take(ps0.len() as int) =~= ps0) by {
                                        assert forall|m: int| 0 <= m < ps0.len() implies paths@[m] == ps0[m] by {
                                            assert(paths@.take(ps1.len() as int)[m] == ps1[m]);
                                            assert(ps1.take(ps0.len() as int)[m] == ps0[m]);
                                        }
                                    }
                                    assert forall|k: int| ps0.len() <= k < paths@.len() implies self.completes(p0, target, #[trigger] paths@[k]@) by {
                                        if k < ps1.len() {
                                            assert(paths@.take(ps1.len() as int)[k] == ps1[k]);
                                        } else {
                                            let p = paths@[k]@;
                                            assert(self.completes(q0, target, p));
                                            assert(p.take(p0.len() as int) =~= q0.take(p0.len() as int));
                                            assert(q0.take(p0.len() as int) =~= p0);
                                        }
                                    }
                                    assert forall|p: Seq<u128>| #[trigger] self.completes(p0, target, p)
                                        && (exists|j: int| 0 <= j < i + 1 && #[trigger] self.out_link(current, j, p[p0.len() as int]))
                                        implies exists|k: int| ps0.len() <= k < paths@.len() && #[trigger] paths@[k]@ == p by {
                                        let j = choose|j: int| 0 <= j < i + 1 && #[trigger] self.out_link(current, j, p[p0.len() as int]);
                                        if j < i {
                                            let k = choose|k: int| ps0.len() <= k < ps1.len() && #[trigger] ps1[k]@ == p;
                                            assert(paths@.take(ps1.len() as int)[k] == ps1[k]);
                                            assert(paths@[k]@ == p);
                                        } else {
                                            assert(p[p0.len() as int] == t);
                                            assert(p.take(q0.len() as int) =~= q0) by {
                                                assert forall|m: int| 0 <= m < q0.len() implies p.take(q0.len() as int)[m] == q0[m] by {
                                                    if m < p0.len() {
                                                        assert(p.take(p0.len() as int)[m] == p0[m]);
                                                    }
                                                }
                                            }
                                            assert(self.completes(q0, target, p));
                                        }
                                    }
                                }
                            } else {
                                proof {
                                    assert(p0.contains(t)) by {
                                        assert(p0.to_set().contains(t));
                                    }
                                    assert(paths_through(*self, p0, target, i as nat, f1)
                                        =~= paths_through(*self, p0, target, (i + 1) as nat, f1));
                                    assert forall|p: Seq<u128>| #[trigger] self.completes(p0, target, p)
                                        && (exists|j: int| 0 <= j < i + 1 && #[trigger] self.out_link(current, j, p[p0.len() as int]))
                                        implies exists|k: int| ps0.len() <= k < paths@.len() && #[trigger] paths@[k]@ == p by {
                                        let j = choose|j: int| 0 <= j < i + 1 && #[trigger] self.out_link(current, j, p[p0.len() as int]);
                                        if j == i {
                                            assert(p0.to_set().contains(t));
                                            assert(p0.contains(t));
                                            let m = choose|m: int| 0 <= m < p0.len() && p0[m] == t;
                                            assert(p.take(p0.len() as int)[m] == p0[m]);
                                            assert(p[m] == p[p0.len() as int]);
                                        }
                                    }
                                }
                            }
                        },
                        None => {
                            proof {
                                assert(paths_through(*self, p0, target, i as nat, f1)
                                    =~= paths_through(*self, p0, target, (i + 1) as nat, f1));
                                assert forall|p: Seq<u128>| #[trigger] self.completes(p0, target, p)
                                    && (exists|j: int| 0 <= j < i + 1 && #[trigger] self.out_link(current, j, p[p0.len() as int]))
                                    implies exists|k: int| ps0.len() <= k < paths@.len() && #[trigger] paths@[k]@ == p by {
                                    let j = choose|j: int| 0 <= j < i + 1 && #[trigger] self.out_link(current, j, p[p0.len() as int]);
                                }
                            }
                        },
                    }
                    i += 1;
                }
                proof {
                    assert(paths_through(*self, p0, target, i as nat, f1) == Seq::<Seq<u128>>::empty());
                    assert(path_views(paths@) =~= path_views(ps0) + paths_through(*self, p0, target, 0, f1));
                    assert forall|p: Seq<u128>| #[trigger] self.completes(p0, target, p)
                        implies exists|k: int| ps0.len() <= k < paths@.len() && #[trigger] paths@[k]@ == p by {
                        self.lemma_completion_steps(p0, target, p);
                        let j = choose|j: int| #[trigger] self.out_link(current, j, p[p0.len() as int]);
                        if !(0 <= j < i) {
                            assert(self.out_link(current, j, p[p0.len() as int]));
                        }
                    }
                }
            },
            None => {
                proof {
                    assert(self.out_list(current).len() == 0);
                    assert(path_views(paths@) =~= path_views(ps0) + paths_through(*self, p0, target, 0, f1));
                    assert(paths@.take(ps0.len() as int) =~= ps0);
                    assert forall|p: Seq<u128>| #[trigger] self.completes(p0, target, p) implies false by {
                        self.lemma_completion_steps(p0, target, p);
                        let j = choose|j: int| #[trigger] self.out_link(current, j, p[p0.len() as int]);
                    }
                }
            },
        }
    }

    /// A continuation of a path that does not yet end at the target takes a
    /// step out of the path's last node.
    proof fn lemma_completion_steps(&self, path: Seq<u128>, target: u128, p: Seq<u128>)
        requires
            path.len() >= 1,
            path.last() != target,
            self.completes(path, target, p),
        ensures
            p.len() > path.len(),
            self.step(path.last(), p[path.len() as int]),
    {
        assert(p.take(path.len() as int)[path.len() - 1] == path.last());
        if p.len() == path.len() {
            assert(p.last() == path.last());
        }
        assert(self.walk_step(p, path.len() - 1));
    }
}

/// Adding nodes in order stores exactly their ids; a node whose id is not
/// listed again later is stored as given, and every id starts with an
/// in-degree entry.
pub proof fn lemma_loaded_nodes_hold_nodes(s: Seq<DagNode>)
    ensures
        forall|id: u128| #[trigger] loaded_nodes(s).nodes.contains_key(id)
            <==> exists|i: int| 0 <= i < s.len() && #[trigger] s[i].id == id,
        forall|i: int| #![trigger s[i]] 0 <= i < s.len() && (forall|j: int| i < j < s.len() ==> #[trigger] s[j].id != s[i].id)
            ==> loaded_nodes(s).nodes[s[i].id] == s[i]@,
        forall|id: u128| #[trigger] loaded_nodes(s).degree.contains_key(id) <==> loaded_nodes(s).nodes.contains_key(id),
        loaded_nodes(s).edges == Map::<u128, DagEdgeView>::empty(),
    decreases s.len(),
{
    if s.len() > 0 {
        let pre = s.drop_last();
        lemma_loaded_nodes_hold_nodes(pre);
        let x = s.last();
        assert forall|id: u128| #[trigger] loaded_nodes(s).degree.contains_key(id) <==> loaded_nodes(s).nodes.contains_key(id) by {
            assert(loaded_nodes(pre).degree.contains_key(id) <==> loaded_nodes(pre).nodes.contains_key(id));
        }
        assert forall|id: u128| #[trigger] loaded_nodes(s).nodes.contains_key(id)
            <==> exists|i: int| 0 <= i < s.len() && #[trigger] s[i].id == id by {
            if loaded_nodes(s).nodes.contains_key(id) {
                if id == x.id {
                    assert(s[s.len() - 1].id == id);
                } else {
                    assert(loaded_nodes(pre).nodes.contains_key(id));
                    let i = choose|i: int| 0 <= i < pre.len() && #[trigger] pre[i].id == id;
                    assert(s[i].id == id);
                }
            }
            if exists|i: int| 0 <= i < s.len() && #[trigger] s[i].id == id {
                let i = choose|i: int| 0 <= i < s.len() && #[trigger] s[i].id == id;
                if i < s.len() - 1 {
                    assert(pre[i].id == id);
                }
            }
        }
        assert forall|i: int| #![trigger s[i]] 0 <= i < s.len() && (forall|j: int| i < j < s.len() ==> #[trigger] s[j].id != s[i].id)
            implies loaded_nodes(s).nodes[s[i].id] == s[i]@ by {
            if i < s.len() - 1 {
                assert(s[s.len() - 1].id != s[i].id);
                assert(pre[i] == s[i]);
                assert forall|j: int| i < j < pre.len() implies #[trigger] pre[j].id != pre[i].id by {
                    assert(pre[j] == s[j]);
                }
            }
        }
    }
}

/// Accepting edges in turn keeps the nodes; an edge id is stored exactly
/// when it was stored before or is listed; an edge whose id is not listed
/// again later is stored as given; and every listed edge sits in its
/// source's outgoing list and its target's incoming list.
pub proof fn lemma_state_with_edges_holds_edges(st: GraphState, s: Seq<DagEdge>)
    ensures
        state_with_edges(st, s).nodes == st.nodes,
        forall|id: u128| #[trigger] state_with_edges(st, s).edges.contains_key(id)
            <==> st.edges.contains_key(id) || exists|i: int| 0 <= i < s.len() && #[trigger] s[i].id == id,
        forall|i: int| #![trigger s[i]] 0 <= i < s.len() && (forall|j: int| i < j < s.len() ==> #[trigger] s[j].id != s[i].id)
            ==> state_with_edges(st, s).edges[s[i].id] == s[i]@,
        forall|i: int| 0 <= i < s.len() ==> list_of(state_with_edges(st, s).outs, #[trigger] s[i].source).contains(s[i].id)
            && list_of(state_with_edges(st, s).ins, s[i].target).contains(s[i].id),
    decreases s.len(),
{
    if s.len() > 0 {
        let pre = s.drop_last();
        lemma_state_with_edges_holds_edges(st, pre);
        let d = state_with_edges(st, pre);
        let r = state_with_edges(st, s);
        let x = s.last();
        assert forall|id: u128| #[trigger] r.edges.contains_key(id)
            <==> st.edges.contains_key(id) || exists|i: int| 0 <= i < s.len() && #[trigger] s[i].id == id by {
            if r.edges.contains_key(id) && id != x.id && !st.edges.contains_key(id) {
                assert(d.edges.contains_key(id));
                let i = choose|i: int| 0 <= i < pre.len() && #[trigger] pre[i].id == id;
                assert(s[i].id == id);
            }
            if id == x.id {
                assert(s[s.len() - 1].id == id);
            }
            if exists|i: int| 0 <= i < s.len() && #[trigger] s[i].id == id {
                let i = choose|i: int| 0 <= i < s.len() && #[trigger] s[i].id == id;
                if i < s.len() - 1 {
                    assert(pre[i].id == id);
                }
            }
        }
        assert forall|i: int| #![trigger s[i]] 0 <= i < s.len() && (forall|j: int| i < j < s.len() ==> #[trigger] s[j].id != s[i].id)
            implies r.edges[s[i].id] == s[i]@ by {
            if i < s.len() - 1 {
                assert(s[s.len() - 1].id != s[i].id);
                assert(pre[i] == s[i]);
                assert forall|j: int| i < j < pre.len() implies #[trigger] pre[j].id != pre[i].id by {
                    assert(pre[j] == s[j]);
                }
            }
        }
        assert forall|i: int| 0 <= i < s.len() implies list_of(r.outs, #[trigger] s[i].source).contains(s[i].id)
            && list_of(r.ins, s[i].target).contains(s[i].id) by {
            let lo = list_of(d.outs, x.source);
            let li = list_of(d.ins, x.target);
            assert(lo.push(x.id)[lo.len() as int] == x.id);
            assert(li.push(x.id)[li.len() as int] == x.id);
            if i < s.len() - 1 {
                assert(pre[i] == s[i]);
                let e = s[i];
                if e.source == x.source {
                    let k = choose|k: int| 0 <= k < lo.len() && lo[k] == e.id;
                    assert(lo.push(x.id)[k] == e.id);
                }
                if e.target == x.target {
                    let k = choose|k: int| 0 <= k < li.len() && li[k] == e.id;
                    assert(li.push(x.id)[k] == e.id);
                }
            }
        }
    }
}

} // verus!
