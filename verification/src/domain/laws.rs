//! What deciding commands and folding events mean for a story graph, stated
//! over the inputs and the results.
use vstd::prelude::*;
use crate::dag::graph::DagEdgeView;
use crate::domain::aggregate::{
    CollapseCandidate, CollapsePlan, GraphModel, NarrativeGraph, AggregateError, applied,
    apply_shifts, candidates_of, cand_triple, drop_edge, drop_edges, list_of,
};
use crate::dag::graph::{DagNodeView, opt_text, without};
use crate::domain::events::ProbabilityShift;
use crate::domain::commands::{
    CollapseBranchCommand, CreateNodeCommand, DeleteNodeCommand, LinkEdgeCommand, NarrativeCommand,
    UpdateEdgeCommand, UpdateNodeCommand,
};
use crate::domain::aggregate::fresh_meta;
use crate::prim::outside_unit_interval;
use crate::types::{edge_type_of, node_type_of};
use crate::domain::events::NarrativeEvent;

verus! {

/// Every entry listed from `ids` names a stored edge and carries that edge's
/// probability and observer weight; when every id is stored, the entries
/// name exactly the ids, in order.
proof fn lemma_candidates_carry_weights(edges: Map<u128, DagEdgeView>, ids: Seq<u128>)
    ensures
        forall|i: int| 0 <= i < candidates_of(edges, ids).len() ==> {
            let x = #[trigger] candidates_of(edges, ids)[i];
            &&& edges.contains_key(x.0)
            &&& x.1 == edges[x.0].probability
            &&& x.2 == edges[x.0].observer_weight
        },
        (forall|i: int| 0 <= i < ids.len() ==> edges.contains_key(#[trigger] ids[i]))
            ==> candidates_of(edges, ids).map_values(|x: (u128, u64, u64)| x.0) == ids,
    decreases ids.len(),
{
    if ids.len() > 0 {
        lemma_candidates_carry_weights(edges, ids.drop_last());
        let rest = candidates_of(edges, ids.drop_last());
        if forall|i: int| 0 <= i < ids.len() ==> edges.contains_key(#[trigger] ids[i]) {
            assert forall|i: int| 0 <= i < ids.drop_last().len() implies edges.contains_key(#[trigger] ids.drop_last()[i]) by {
                assert(ids.drop_last()[i] == ids[i]);
            }
            assert(edges.contains_key(ids[ids.len() - 1]));
            assert(candidates_of(edges, ids).map_values(|x: (u128, u64, u64)| x.0)
                =~= rest.map_values(|x: (u128, u64, u64)| x.0).push(ids.last()));
            assert(ids =~= ids.drop_last().push(ids.last()));
        }
    }
}

/// A planned collapse lists, for each candidate, a stored edge with that
/// edge's own probability and observer weight; in a well-formed graph the
/// candidates are exactly the node's outgoing edges, in their stored order.
pub proof fn lemma_collapse_candidates_are_stored_edges(g: NarrativeGraph, c: CollapseBranchCommand, p: CollapsePlan)
    requires
        g.collapse_planned(c, Ok(p)),
    ensures
        p.node_id == c.node_id,
        forall|i: int| 0 <= i < p.candidates@.len() ==> {
            let x = #[trigger] p.candidates@[i];
            &&& g.dag.edges@.contains_key(x.edge_id)
            &&& g.dag.wf() ==> g.dag.edges@[x.edge_id].source == c.node_id
            &&& x.probability == g.dag.edges@[x.edge_id].probability
            &&& x.observer_weight == g.dag.edges@[x.edge_id].observer_weight
        },
        g.dag.wf() ==> p.candidates@.map_values(|x: CollapseCandidate| x.edge_id) == g.dag.out_list(c.node_id),
{
    let edges = g.dag.edge_map();
    let ids = g.dag.out_list(c.node_id);
    lemma_candidates_carry_weights(edges, ids);
    let trip = p.candidates@.map_values(|x: CollapseCandidate| cand_triple(x));
    assert(trip == candidates_of(edges, ids));
    assert forall|i: int| 0 <= i < p.candidates@.len() implies {
        let x = #[trigger] p.candidates@[i];
        &&& g.dag.edges@.contains_key(x.edge_id)
        &&& g.dag.wf() ==> g.dag.edges@[x.edge_id].source == c.node_id
        &&& x.probability == g.dag.edges@[x.edge_id].probability
        &&& x.observer_weight == g.dag.edges@[x.edge_id].observer_weight
    } by {
        assert(trip[i] == cand_triple(p.candidates@[i]));
        assert(edges.contains_key(trip[i].0));
        if g.dag.wf() {
            lemma_listed_in_order(g, c.node_id, i);
        }
    }
    if g.dag.wf() {
        assert forall|i: int| 0 <= i < ids.len() implies edges.contains_key(#[trigger] ids[i]) by {
            assert(g.dag.out_edges@.contains_key(c.node_id));
            assert(g.dag.edges@.contains_key(g.dag.out_list(c.node_id)[i]));
        }
        assert(p.candidates@.map_values(|x: CollapseCandidate| x.edge_id)
            =~= candidates_of(edges, ids).map_values(|x: (u128, u64, u64)| x.0));
    }
}

/// In a well-formed graph the `i`-th planned candidate of a node leaves that node.
proof fn lemma_listed_in_order(g: NarrativeGraph, n: u128, i: int)
    requires
        g.dag.wf(),
    ensures
        0 <= i < candidates_of(g.dag.edge_map(), g.dag.out_list(n)).len() ==>
            g.dag.edges@[candidates_of(g.dag.edge_map(), g.dag.out_list(n))[i].0].source == n,
{
    let edges = g.dag.edge_map();
    let ids = g.dag.out_list(n);
    if 0 <= i < candidates_of(edges, ids).len() {
        assert forall|k: int| 0 <= k < ids.len() implies edges.contains_key(#[trigger] ids[k]) by {
            assert(g.dag.out_edges@.contains_key(n));
            assert(g.dag.edges@.contains_key(g.dag.out_list(n)[k]));
        }
        lemma_candidates_carry_weights(edges, ids);
        let m = candidates_of(edges, ids).map_values(|x: (u128, u64, u64)| x.0);
        assert(m[i] == ids[i]);
        assert(g.dag.out_edges@.contains_key(n));
        assert(g.dag.edges@.contains_key(g.dag.out_list(n)[i]));
    }
}

/// An accepted deletion of a node is one `NodeDeleted` event for that node
/// whose cascade holds exactly the stored edges that leave or enter it.
pub proof fn lemma_delete_cascade_is_touching_edges(
    g: NarrativeGraph,
    c: DeleteNodeCommand,
    actor: u128,
    r: Result<Vec<NarrativeEvent>, AggregateError>,
)
    requires
        g.dag.wf(),
        g.dag.nodes@.contains_key(c.node_id),
        g.delete_node_decided(c, actor, r),
    ensures
        r is Ok,
        r->Ok_0@.len() == 1,
        r->Ok_0@[0] matches NarrativeEvent::NodeDeleted { node_id, cascaded_edge_ids, .. }
            && node_id == c.node_id
            && (forall|x: u128| #[trigger] cascaded_edge_ids@.contains(x) <==> g.dag.edges@.contains_key(x)
                && (g.dag.edges@[x].source == c.node_id || g.dag.edges@[x].target == c.node_id))
            && (forall|i: int| 0 <= i < g.dag.edges_from(c.node_id).len()
                ==> g.dag.edges@[#[trigger] cascaded_edge_ids@[i]].source == c.node_id)
            && (forall|i: int| g.dag.edges_from(c.node_id).len() <= i < cascaded_edge_ids@.len()
                ==> g.dag.edges@[#[trigger] cascaded_edge_ids@[i]].target == c.node_id),
{
    let n = c.node_id;
    let outs = g.dag.out_list(n);
    let ins = g.dag.in_list(n);
    if let NarrativeEvent::NodeDeleted { cascaded_edge_ids, .. } = r->Ok_0@[0] {
        let s = cascaded_edge_ids@;
        assert(s == outs + ins);
        assert forall|x: u128| #[trigger] s.contains(x) <==> g.dag.edges@.contains_key(x)
            && (g.dag.edges@[x].source == n || g.dag.edges@[x].target == n) by {
            if s.contains(x) {
                let k = choose|k: int| 0 <= k < s.len() && s[k] == x;
                if k < outs.len() {
                    assert(s[k] == outs[k]);
                    assert(g.dag.out_edges@.contains_key(n));
                    assert(g.dag.edges@.contains_key(g.dag.out_list(n)[k]));
                } else {
                    assert(s[k] == ins[k - outs.len()]);
                    assert(g.dag.in_edges@.contains_key(n));
                    assert(g.dag.edges@.contains_key(g.dag.in_list(n)[k - outs.len()]));
                }
            }
            if g.dag.edges@.contains_key(x) && g.dag.edges@[x].source == n {
                assert(outs.contains(x));
                let k = choose|k: int| 0 <= k < outs.len() && outs[k] == x;
                assert(s[k] == x);
            }
            if g.dag.edges@.contains_key(x) && g.dag.edges@[x].target == n {
                assert(ins.contains(x));
                let k = choose|k: int| 0 <= k < ins.len() && ins[k] == x;
                assert(s[outs.len() + k] == x);
            }
        }
        lemma_out_list_counts(g, n);
        assert forall|i: int| 0 <= i < g.dag.edges_from(n).len() implies g.dag.edges@[#[trigger] s[i]].source == n by {
            assert(s[i] == outs[i]);
            assert(g.dag.out_edges@.contains_key(n));
            assert(g.dag.edges@.contains_key(g.dag.out_list(n)[i]));
        }
        assert forall|i: int| g.dag.edges_from(n).len() <= i < s.len() implies g.dag.edges@[#[trigger] s[i]].target == n by {
            assert(s[i] == ins[i - outs.len()]);
            assert(g.dag.in_edges@.contains_key(n));
            assert(g.dag.edges@.contains_key(g.dag.in_list(n)[i - outs.len()]));
        }
    }
}

/// In a well-formed graph a node's outgoing list holds one entry per stored
/// edge that leaves it.
proof fn lemma_out_list_counts(g: NarrativeGraph, n: u128)
    requires
        g.dag.wf(),
    ensures
        g.dag.out_list(n).len() == g.dag.edges_from(n).len(),
{
    let l = g.dag.out_list(n);
    if !g.dag.out_edges@.contains_key(n) {
        assert(l.len() == 0);
    }
    assert(l.no_duplicates());
    l.unique_seq_to_set();
    assert forall|e: u128| #[trigger] l.to_set().contains(e) <==> g.dag.edges_from(n).contains(e) by {
        if l.contains(e) {
            let i = choose|i: int| 0 <= i < l.len() && l[i] == e;
            assert(g.dag.out_edges@.contains_key(n));
            assert(g.dag.edges@.contains_key(l[i]));
        }
        if g.dag.edges_from(n).contains(e) {
            assert(g.dag.edges@.contains_key(e));
        }
    }
    assert(l.to_set() =~= g.dag.edges_from(n));
}

/// Folding in a new update of a stored edge sets the probability and the
/// observer weight it carries on that edge and keeps the ones it leaves out;
/// a new probability also becomes the edge's cached probability. The edge's
/// ends and kind, every other edge, the nodes and the indexes stay as they
/// were, and the version advances by one.
pub proof fn lemma_edge_update_sets_weights(m: GraphModel, e: NarrativeEvent)
    requires
        !m.seen.contains(e.header().event_id),
        e matches NarrativeEvent::EdgeUpdated { edge_id, .. } && m.edges.contains_key(edge_id),
    ensures
        e matches NarrativeEvent::EdgeUpdated { edge_id, probability, observer_weight, .. } ==> {
            let r = applied(m, e);
            let old_e = m.edges[edge_id];
            &&& r.edges.contains_key(edge_id)
            &&& (probability matches Some(p) ==> r.edges[edge_id].probability == p
                && r.cache.contains_key(edge_id) && r.cache[edge_id] == p)
            &&& (probability is None ==> r.edges[edge_id].probability == old_e.probability && r.cache == m.cache)
            &&& (probability is Some ==> r.cache.remove(edge_id) == m.cache.remove(edge_id))
            &&& (observer_weight matches Some(w) ==> r.edges[edge_id].observer_weight == w)
            &&& (observer_weight is None ==> r.edges[edge_id].observer_weight == old_e.observer_weight)
            &&& r.edges[edge_id].id == old_e.id
            &&& r.edges[edge_id].source == old_e.source
            &&& r.edges[edge_id].target == old_e.target
            &&& r.edges[edge_id].edge_type == old_e.edge_type
            &&& r.edges.remove(edge_id) == m.edges.remove(edge_id)
            &&& r.nodes == m.nodes
            &&& r.out == m.out
            &&& r.inn == m.inn
            &&& r.degree == m.degree
            &&& r.version == m.version + 1
            &&& r.seen == m.seen.insert(e.header().event_id)
        },
{
    if let NarrativeEvent::EdgeUpdated { edge_id, probability, .. } = e {
        let r = applied(m, e);
        assert(r.edges.remove(edge_id) =~= m.edges.remove(edge_id));
        if probability is Some {
            assert(r.cache.remove(edge_id) =~= m.cache.remove(edge_id));
        }
    }
}

/// Folding in a new link adds the edge with the given ends, kind and
/// probability and no observer weight, caches its probability, appends it
/// to its source's outgoing list and its target's incoming list, counts it
/// in its target's in-degree, and leaves every other edge and the nodes as
/// they were.
pub proof fn lemma_edge_link_adds_edge(m: GraphModel, e: NarrativeEvent)
    requires
        !m.seen.contains(e.header().event_id),
        e is EdgeLinked,
    ensures
        e matches NarrativeEvent::EdgeLinked { edge_id, source_node_id, target_node_id, edge_type, probability, .. } ==> {
            let r = applied(m, e);
            &&& r.edges.contains_key(edge_id)
            &&& r.edges[edge_id].id == edge_id
            &&& r.edges[edge_id].source == source_node_id
            &&& r.edges[edge_id].target == target_node_id
            &&& r.edges[edge_id].edge_type == edge_type@
            &&& r.edges[edge_id].probability == probability
            &&& r.edges[edge_id].observer_weight == 0
            &&& r.cache.contains_key(edge_id) && r.cache[edge_id] == probability
            &&& list_of(r.out, source_node_id) == list_of(m.out, source_node_id).push(edge_id)
            &&& list_of(r.inn, target_node_id) == list_of(m.inn, target_node_id).push(edge_id)
            &&& r.degree.contains_key(target_node_id)
            &&& r.degree[target_node_id] == (if m.degree.contains_key(target_node_id) { m.degree[target_node_id] + 1 } else { 1 })
                || (m.degree.contains_key(target_node_id) && m.degree[target_node_id] == usize::MAX)
            &&& r.edges.remove(edge_id) == m.edges.remove(edge_id)
            &&& r.nodes == m.nodes
            &&& r.version == m.version + 1
        },
{
    if let NarrativeEvent::EdgeLinked { edge_id, .. } = e {
        let r = applied(m, e);
        assert(r.edges.remove(edge_id) =~= m.edges.remove(edge_id));
    }
}

/// Dropping a list of edges removes exactly the listed stored edges and
/// their cached probabilities; the nodes stay.
proof fn lemma_drop_edges_removes(m: GraphModel, ids: Seq<u128>)
    ensures
        drop_edges(m, ids).nodes == m.nodes,
        forall|k: u128| #[trigger] drop_edges(m, ids).edges.contains_key(k)
            <==> m.edges.contains_key(k) && !ids.contains(k),
        forall|k: u128| #[trigger] drop_edges(m, ids).edges.contains_key(k)
            ==> drop_edges(m, ids).edges[k] == m.edges[k],
        forall|k: u128| m.edges.contains_key(k) && ids.contains(k) ==> !#[trigger] drop_edges(m, ids).cache.contains_key(k),
    decreases ids.len(),
{
    if ids.len() > 0 {
        let pre = ids.drop_last();
        lemma_drop_edges_removes(m, pre);
        let d = drop_edges(m, pre);
        let x = ids.last();
        assert forall|k: u128| ids.contains(k) <==> pre.contains(k) || k == x by {
            if ids.contains(k) {
                let i = choose|i: int| 0 <= i < ids.len() && ids[i] == k;
                if i < ids.len() - 1 {
                    assert(pre[i] == k);
                }
            }
            if pre.contains(k) {
                let i = choose|i: int| 0 <= i < pre.len() && pre[i] == k;
                assert(ids[i] == k);
            }
            if k == x {
                assert(ids[ids.len() - 1] == k);
            }
        }
        let r = drop_edge(d, x);
        assert forall|k: u128| m.edges.contains_key(k) && ids.contains(k) implies !#[trigger] r.cache.contains_key(k) by {
            if pre.contains(k) {
                assert(!d.cache.contains_key(k));
            } else {
                assert(k == x);
                assert(d.edges.contains_key(k));
            }
        }
    }
}

/// Folding in a new node creation stores the node with the given id, kind
/// and title and gives it an in-degree entry; the edges stay as they were.
pub proof fn lemma_node_create_adds_node(m: GraphModel, e: NarrativeEvent)
    requires
        !m.seen.contains(e.header().event_id),
        e is NodeCreated,
    ensures
        e matches NarrativeEvent::NodeCreated { node_id, node_type, title, .. } ==> {
            let r = applied(m, e);
            &&& r.nodes.contains_key(node_id)
            &&& r.nodes[node_id] == (DagNodeView { id: node_id, node_type: node_type@, title: opt_text(title) })
            &&& r.nodes.remove(node_id) == m.nodes.remove(node_id)
            &&& r.degree.contains_key(node_id)
            &&& (m.degree.contains_key(node_id) ==> r.degree == m.degree)
            &&& (!m.degree.contains_key(node_id) ==> r.degree[node_id] == 0)
            &&& r.edges == m.edges
            &&& r.cache == m.cache
            &&& r.version == m.version + 1
        },
{
    if let NarrativeEvent::NodeCreated { node_id, .. } = e {
        let r = applied(m, e);
        assert(r.nodes.remove(node_id) =~= m.nodes.remove(node_id));
    }
}

/// Folding in a new node update of a stored node sets the title it carries
/// and keeps the node's id and kind; without a title, or for a node that is
/// not stored, the nodes stay as they were. Edges never change.
pub proof fn lemma_node_update_sets_title(m: GraphModel, e: NarrativeEvent)
    requires
        !m.seen.contains(e.header().event_id),
        e is NodeUpdated,
    ensures
        e matches NarrativeEvent::NodeUpdated { node_id, title, .. } ==> {
            let r = applied(m, e);
            &&& (m.nodes.contains_key(node_id) && title is Some) ==> {
                &&& r.nodes.contains_key(node_id)
                &&& r.nodes[node_id].title == opt_text(title)
                &&& r.nodes[node_id].id == m.nodes[node_id].id
                &&& r.nodes[node_id].node_type == m.nodes[node_id].node_type
                &&& r.nodes.remove(node_id) == m.nodes.remove(node_id)
            }
            &&& !(m.nodes.contains_key(node_id) && title is Some) ==> r.nodes == m.nodes
            &&& r.edges == m.edges
            &&& r.version == m.version + 1
        },
{
    if let NarrativeEvent::NodeUpdated { node_id, .. } = e {
        let r = applied(m, e);
        assert(r.nodes.remove(node_id) =~= m.nodes.remove(node_id));
    }
}

/// Leaving an id out of a list drops every occurrence of it and keeps
/// every other id.
proof fn lemma_without_drops(s: Seq<u128>, x: u128)
    ensures
        !without(s, x).contains(x),
        forall|y: u128| y != x ==> (#[trigger] without(s, x).contains(y) <==> s.contains(y)),
    decreases s.len(),
{
    if s.len() > 0 {
        let pre = s.drop_last();
        lemma_without_drops(pre, x);
        assert forall|y: u128| #[trigger] s.contains(y) <==> pre.contains(y) || y == s.last() by {
            if s.contains(y) {
                let k = choose|k: int| 0 <= k < s.len() && s[k] == y;
                if k < s.len() - 1 {
                    assert(pre[k] == y);
                }
            }
            if pre.contains(y) {
                let k = choose|k: int| 0 <= k < pre.len() && pre[k] == y;
                assert(s[k] == y);
            }
            if y == s.last() {
                assert(s[s.len() - 1] == y);
            }
        }
        let w = without(pre, x);
        if s.last() != x {
            assert forall|y: u128| #[trigger] w.push(s.last()).contains(y) <==> w.contains(y) || y == s.last() by {
                if w.push(s.last()).contains(y) {
                    let k = choose|k: int| 0 <= k < w.len() + 1 && w.push(s.last())[k] == y;
                    if k < w.len() {
                        assert(w[k] == y);
                    }
                }
                if w.contains(y) {
                    let k = choose|k: int| 0 <= k < w.len() && w[k] == y;
                    assert(w.push(s.last())[k] == y);
                }
                if y == s.last() {
                    assert(w.push(s.last())[w.len() as int] == y);
                }
            }
        }
    }
}

/// Folding in a new edge deletion removes the edge and its cached
/// probability, takes it out of its source's outgoing list and its target's
/// incoming list, and leaves every other edge and the nodes as they were.
pub proof fn lemma_edge_delete_removes_edge(m: GraphModel, e: NarrativeEvent)
    requires
        !m.seen.contains(e.header().event_id),
        e is EdgeDeleted,
    ensures
        e matches NarrativeEvent::EdgeDeleted { edge_id, .. } ==> {
            let r = applied(m, e);
            &&& !r.edges.contains_key(edge_id)
            &&& r.edges == m.edges.remove(edge_id)
            &&& r.nodes == m.nodes
            &&& m.edges.contains_key(edge_id) ==> {
                &&& !r.cache.contains_key(edge_id)
                &&& !list_of(r.out, m.edges[edge_id].source).contains(edge_id)
                &&& !list_of(r.inn, m.edges[edge_id].target).contains(edge_id)
            }
            &&& r.version == m.version + 1
        },
{
    if let NarrativeEvent::EdgeDeleted { edge_id, .. } = e {
        let r = applied(m, e);
        assert(r.edges =~= m.edges.remove(edge_id));
        if m.edges.contains_key(edge_id) {
            let old_e = m.edges[edge_id];
            if m.out.contains_key(old_e.source) {
                lemma_without_drops(m.out[old_e.source], edge_id);
            }
            if m.inn.contains_key(old_e.target) {
                lemma_without_drops(m.inn[old_e.target], edge_id);
            }
        }
    }
}

/// Folding in a new node deletion removes the node and every edge its
/// cascade lists (with their cached probabilities); every other edge stays.
pub proof fn lemma_node_delete_removes_cascade(m: GraphModel, e: NarrativeEvent)
    requires
        !m.seen.contains(e.header().event_id),
        e is NodeDeleted,
    ensures
        e matches NarrativeEvent::NodeDeleted { node_id, cascaded_edge_ids, .. } ==> {
            let r = applied(m, e);
            &&& !r.nodes.contains_key(node_id)
            &&& r.nodes == m.nodes.remove(node_id)
            &&& forall|k: u128| #[trigger] r.edges.contains_key(k)
                <==> m.edges.contains_key(k) && !cascaded_edge_ids@.contains(k)
            &&& forall|k: u128| #[trigger] r.edges.contains_key(k) ==> r.edges[k] == m.edges[k]
            &&& forall|k: u128| m.edges.contains_key(k) && cascaded_edge_ids@.contains(k) ==> !#[trigger] r.cache.contains_key(k)
            &&& !r.degree.contains_key(node_id)
            &&& r.version == m.version + 1
        },
{
    if let NarrativeEvent::NodeDeleted { cascaded_edge_ids, .. } = e {
        lemma_drop_edges_removes(m, cascaded_edge_ids@);
    }
}

/// After applying shifts in order, a stored edge that no shift names keeps
/// its state, and a stored edge takes the target probability of the last
/// shift that names it, with no observer weight, and caches it.
proof fn lemma_shifts_set_probabilities(m: GraphModel, s: Seq<ProbabilityShift>)
    ensures
        apply_shifts(m, s).nodes == m.nodes,
        apply_shifts(m, s).edges.dom() == m.edges.dom(),
        forall|k: u128| #[trigger] m.edges.contains_key(k) ==> {
            let r = apply_shifts(m, s);
            &&& r.edges[k].id == m.edges[k].id
            &&& r.edges[k].source == m.edges[k].source
            &&& r.edges[k].target == m.edges[k].target
            &&& r.edges[k].edge_type == m.edges[k].edge_type
            &&& (forall|i: int| 0 <= i < s.len() ==> #[trigger] s[i].edge_id != k) ==> r.edges[k] == m.edges[k]
        },
        forall|k: u128, i: int| #![trigger m.edges.contains_key(k), s[i]]
            m.edges.contains_key(k) && 0 <= i < s.len() && s[i].edge_id == k
            && (forall|j: int| i < j < s.len() ==> #[trigger] s[j].edge_id != k) ==> {
            let r = apply_shifts(m, s);
            &&& r.edges[k].probability == s[i].probability_after
            &&& r.edges[k].observer_weight == 0
            &&& r.cache.contains_key(k) && r.cache[k] == s[i].probability_after
        },
    decreases s.len(),
{
    if s.len() > 0 {
        let pre = s.drop_last();
        lemma_shifts_set_probabilities(m, pre);
        let d = apply_shifts(m, pre);
        let x = s.last();
        assert(apply_shifts(m, s).edges.dom() =~= m.edges.dom());
        assert forall|k: u128| #[trigger] m.edges.contains_key(k) implies {
            let r = apply_shifts(m, s);
            &&& r.edges[k].id == m.edges[k].id
            &&& r.edges[k].source == m.edges[k].source
            &&& r.edges[k].target == m.edges[k].target
            &&& r.edges[k].edge_type == m.edges[k].edge_type
            &&& (forall|i: int| 0 <= i < s.len() ==> #[trigger] s[i].edge_id != k) ==> r.edges[k] == m.edges[k]
        } by {
            if forall|i: int| 0 <= i < s.len() ==> #[trigger] s[i].edge_id != k {
                assert forall|i: int| 0 <= i < pre.len() implies #[trigger] pre[i].edge_id != k by {
                    assert(pre[i] == s[i]);
                }
                assert(s[s.len() - 1].edge_id != k);
            }
        }
        assert forall|k: u128, i: int| #![trigger m.edges.contains_key(k), s[i]]
            m.edges.contains_key(k) && 0 <= i < s.len() && s[i].edge_id == k
            && (forall|j: int| i < j < s.len() ==> #[trigger] s[j].edge_id != k) implies {
            let r = apply_shifts(m, s);
            &&& r.edges[k].probability == s[i].probability_after
            &&& r.edges[k].observer_weight == 0
            &&& r.cache.contains_key(k) && r.cache[k] == s[i].probability_after
        } by {
            if i < s.len() - 1 {
                assert(s[s.len() - 1].edge_id != k);
                assert(pre[i] == s[i]);
                assert forall|j: int| i < j < pre.len() implies #[trigger] pre[j].edge_id != k by {
                    assert(pre[j] == s[j]);
                }
            }
        }
    }
}

/// Folding in a new collapse gives each stored edge the target probability
/// of the last shift that names it, with no observer weight, and caches it;
/// edges that no shift names, and the nodes, stay as they were.
pub proof fn lemma_collapse_applies_shifts(m: GraphModel, e: NarrativeEvent)
    requires
        !m.seen.contains(e.header().event_id),
        e is BranchCollapsed,
    ensures
        e matches NarrativeEvent::BranchCollapsed { shifts, .. } ==> {
            let r = applied(m, e);
            &&& r.nodes == m.nodes
            &&& r.edges.dom() == m.edges.dom()
            &&& forall|k: u128| #[trigger] m.edges.contains_key(k)
                && (forall|i: int| 0 <= i < shifts@.len() ==> #[trigger] shifts@[i].edge_id != k)
                ==> r.edges[k] == m.edges[k]
            &&& forall|k: u128, i: int| #![trigger m.edges.contains_key(k), shifts@[i]]
                m.edges.contains_key(k) && 0 <= i < shifts@.len() && shifts@[i].edge_id == k
                && (forall|j: int| i < j < shifts@.len() ==> #[trigger] shifts@[j].edge_id != k) ==> {
                &&& r.edges[k].probability == shifts@[i].probability_after
                &&& r.edges[k].observer_weight == 0
                &&& r.cache.contains_key(k) && r.cache[k] == shifts@[i].probability_after
                &&& r.edges[k].source == m.edges[k].source
                &&& r.edges[k].target == m.edges[k].target
            }
            &&& r.version == m.version + 1
        },
{
    if let NarrativeEvent::BranchCollapsed { shifts, .. } = e {
        lemma_shifts_set_probabilities(m, shifts@);
    }
}

/// Checkpoints and rollbacks change nothing in the graph; they only count a
/// version and record their id.
pub proof fn lemma_markers_leave_graph(m: GraphModel, e: NarrativeEvent)
    requires
        !m.seen.contains(e.header().event_id),
        e is CheckpointCreated || e is BranchRolledBack,
    ensures
        applied(m, e).nodes == m.nodes,
        applied(m, e).edges == m.edges,
        applied(m, e).out == m.out,
        applied(m, e).inn == m.inn,
        applied(m, e).degree == m.degree,
        applied(m, e).cache == m.cache,
        applied(m, e).version == m.version + 1,
        applied(m, e).seen == m.seen.insert(e.header().event_id),
{
}

/// Deleting a node and folding the resulting event in leaves the node gone
/// and no edge that leaves or enters it; every other edge stays.
pub proof fn lemma_delete_then_fold_leaves_no_dangling_edge(
    g: NarrativeGraph,
    c: DeleteNodeCommand,
    actor: u128,
    r: Result<Vec<NarrativeEvent>, AggregateError>,
)
    requires
        g.dag.wf(),
        g.dag.nodes@.contains_key(c.node_id),
        g.delete_node_decided(c, actor, r),
        r is Ok && r->Ok_0@.len() > 0 && !g.applied_events@.contains(r->Ok_0@[0].header().event_id),
    ensures
        ({
            let after = applied(g.model(), r->Ok_0@[0]);
            &&& !after.nodes.contains_key(c.node_id)
            &&& forall|k: u128| #[trigger] after.edges.contains_key(k)
                ==> after.edges[k].source != c.node_id && after.edges[k].target != c.node_id
            &&& forall|k: u128| #[trigger] g.dag.edges@.contains_key(k) && g.dag.edges@[k].source != c.node_id
                && g.dag.edges@[k].target != c.node_id ==> after.edges.contains_key(k) && after.edges[k] == g.dag.edges@[k]@
        }),
{
    lemma_delete_cascade_is_touching_edges(g, c, actor, r);
    let e = r->Ok_0@[0];
    let m = g.model();
    lemma_node_delete_removes_cascade(m, e);
}

/// Linking two nodes and folding the resulting event in stores an edge from
/// the command's source to its target with the command's kind and
/// probability.
pub proof fn lemma_link_then_fold_adds_directed_edge(
    g: NarrativeGraph,
    c: LinkEdgeCommand,
    actor: u128,
    r: Result<Vec<NarrativeEvent>, AggregateError>,
)
    requires
        g.link_edge_decided(c, actor, r),
        r is Ok,
        !g.applied_events@.contains(r->Ok_0@[0].header().event_id),
    ensures
        r->Ok_0@[0] matches NarrativeEvent::EdgeLinked { edge_id, .. } && {
            let after = applied(g.model(), r->Ok_0@[0]);
            &&& after.edges.contains_key(edge_id)
            &&& after.edges[edge_id].source == c.source_node_id
            &&& after.edges[edge_id].target == c.target_node_id
            &&& after.edges[edge_id].edge_type == c.edge_type@
            &&& after.edges[edge_id].probability == c.probability
            &&& after.cache[edge_id] == c.probability
        },
{
    lemma_edge_link_adds_edge(g.model(), r->Ok_0@[0]);
}

/// Updating an edge and folding the resulting event in gives the edge the
/// command's probability and observer weight where the command sets them.
pub proof fn lemma_update_then_fold_sets_weights(
    g: NarrativeGraph,
    c: UpdateEdgeCommand,
    actor: u128,
    r: Result<Vec<NarrativeEvent>, AggregateError>,
)
    requires
        g.update_edge_decided(c, actor, r),
        r is Ok,
        !g.applied_events@.contains(r->Ok_0@[0].header().event_id),
    ensures
        ({
            let after = applied(g.model(), r->Ok_0@[0]);
            &&& after.edges.contains_key(c.edge_id)
            &&& (c.probability matches Some(p) ==> after.edges[c.edge_id].probability == p && after.cache[c.edge_id] == p)
            &&& (c.observer_weight matches Some(w) ==> after.edges[c.edge_id].observer_weight == w)
            &&& (c.probability is None ==> after.edges[c.edge_id].probability == g.dag.edges@[c.edge_id].probability)
        }),
{
    lemma_edge_update_sets_weights(g.model(), r->Ok_0@[0]);
}

/// A command is accepted only when what it names is there and what it
/// carries is valid, and the one event it yields is recorded for the
/// graph's story by the acting user: a node is created only in its own
/// story with a known kind; a node is updated or deleted only when stored; a
/// link only joins two stored nodes, closes no cycle, carries a probability
/// in [0, 1] and a known kind; an edge is updated only when stored and with
/// a probability in [0, 1]; an edge is deleted only when stored; a checkpoint
/// only names a stored node. Any refusal yields no event.
pub proof fn lemma_accepted_commands_are_valid(
    g: NarrativeGraph,
    command: NarrativeCommand,
    actor: u128,
    r: Result<Vec<NarrativeEvent>, AggregateError>,
)
    requires
        g.decided(command, actor, r),
    ensures
        r matches Ok(v) ==> v@.len() == 1 && fresh_meta(v@[0].header(), g.story_id, actor),
        r is Ok ==> match command {
            NarrativeCommand::CreateNode(c) => c.story_id == g.story_id && node_type_of(c.node_type@) is Some,
            NarrativeCommand::UpdateNode(c) => g.dag.nodes@.contains_key(c.node_id),
            NarrativeCommand::DeleteNode(c) => g.dag.nodes@.contains_key(c.node_id),
            NarrativeCommand::LinkEdge(c) => {
                &&& g.dag.nodes@.contains_key(c.source_node_id)
                &&& g.dag.nodes@.contains_key(c.target_node_id)
                &&& !g.dag.closes_cycle(c.source_node_id, c.target_node_id)
                &&& !outside_unit_interval(c.probability)
                &&& edge_type_of(c.edge_type@) is Some
            },
            NarrativeCommand::UpdateEdge(c) => g.dag.edges@.contains_key(c.edge_id)
                && (c.probability matches Some(p) ==> !outside_unit_interval(p)),
            NarrativeCommand::DeleteEdge(c) => g.dag.edges@.contains_key(c.edge_id),
            NarrativeCommand::CreateCheckpoint(c) => g.dag.nodes@.contains_key(c.node_id),
            NarrativeCommand::Rollback(_) => true,
            NarrativeCommand::CollapseBranch(_) => false,
        },
{
}

/// A collapse is planned only for a stored node with outgoing edges, for the
/// command's node, reader and signal.
pub proof fn lemma_collapse_planned_only_for_branching_node(g: NarrativeGraph, c: CollapseBranchCommand, p: CollapsePlan)
    requires
        g.collapse_planned(c, Ok(p)),
    ensures
        g.dag.nodes@.contains_key(c.node_id),
        g.dag.out_list(c.node_id).len() > 0,
        p.node_id == c.node_id,
        p.reader_id == c.reader_id,
        p.signal == c.signal,
{
}

/// Creating a node and folding the resulting event in stores a node with the
/// command's kind and title.
pub proof fn lemma_create_then_fold_stores_node(
    g: NarrativeGraph,
    c: CreateNodeCommand,
    actor: u128,
    r: Result<Vec<NarrativeEvent>, AggregateError>,
)
    requires
        g.create_node_decided(c, actor, r),
        r is Ok,
        !g.applied_events@.contains(r->Ok_0@[0].header().event_id),
    ensures
        r->Ok_0@[0] matches NarrativeEvent::NodeCreated { node_id, .. } && {
            let after = applied(g.model(), r->Ok_0@[0]);
            &&& after.nodes.contains_key(node_id)
            &&& after.nodes[node_id].id == node_id
            &&& after.nodes[node_id].node_type == c.node_type@
            &&& after.nodes[node_id].title == opt_text(c.title)
        },
{
    lemma_node_create_adds_node(g.model(), r->Ok_0@[0]);
}

/// Updating a node with a new title and folding the resulting event in gives
/// the stored node that title.
pub proof fn lemma_update_node_then_fold_sets_title(
    g: NarrativeGraph,
    c: UpdateNodeCommand,
    actor: u128,
    r: Result<Vec<NarrativeEvent>, AggregateError>,
)
    requires
        g.update_node_decided(c, actor, r),
        r is Ok,
        c.title is Some,
        !g.applied_events@.contains(r->Ok_0@[0].header().event_id),
    ensures
        ({
            let after = applied(g.model(), r->Ok_0@[0]);
            &&& after.nodes.contains_key(c.node_id)
            &&& after.nodes[c.node_id].title == opt_text(c.title)
        }),
{
    lemma_node_update_sets_title(g.model(), r->Ok_0@[0]);
}

} // verus!
