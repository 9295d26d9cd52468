//! The story graph: nodes, edges, an outgoing and an incoming edge index and an
//! in-degree table, with cycle detection on insertion.
use vstd::prelude::*;
use std::collections::HashMap;
use std::collections::HashSet;
use crate::types::SpError;

verus! {

broadcast use {vstd::std_specs::hash::group_hash_axioms, vstd::seq_lib::group_seq_properties};

/// A node of the story graph.
#[derive(Debug)]
pub struct DagNode {
    pub id: u128,
    pub node_type: String,
    pub title: Option<String>,
}

/// An edge of the story graph. `probability` and `observer_weight` are
/// binary64 bit patterns.
#[derive(Debug)]
pub struct DagEdge {
    pub id: u128,
    pub source: u128,
    pub target: u128,
    pub edge_type: String,
    pub probability: u64,
    pub observer_weight: u64,
}

/// Abstract value of a node.
pub struct DagNodeView {
    pub id: u128,
    pub node_type: Seq<char>,
    pub title: Option<Seq<char>>,
}

/// Abstract value of an edge.
pub struct DagEdgeView {
    pub id: u128,
    pub source: u128,
    pub target: u128,
    pub edge_type: Seq<char>,
    pub probability: u64,
    pub observer_weight: u64,
}

/// The text of an optional string.
pub open spec fn opt_text(o: Option<String>) -> Option<Seq<char>> {
    match o {
        Some(s) => Some(s@),
        None => None,
    }
}

impl View for DagNode {
    type V = DagNodeView;

    open spec fn view(&self) -> DagNodeView {
        DagNodeView { id: self.id, node_type: self.node_type@, title: opt_text(self.title) }
    }
}

impl View for DagEdge {
    type V = DagEdgeView;

    open spec fn view(&self) -> DagEdgeView {
        DagEdgeView {
            id: self.id,
            source: self.source,
            target: self.target,
            edge_type: self.edge_type@,
            probability: self.probability,
            observer_weight: self.observer_weight,
        }
    }
}

/// Copies an optional string.
pub fn clone_opt_string(o: &Option<String>) -> (r: Option<String>)
    ensures
        opt_text(r) == opt_text(*o),
{
    match o {
        Some(s) => Some(s.clone()),
        None => None,
    }
}

/// A directed graph of story nodes with an outgoing-edge index
/// (`source -> [edge ids]`), an incoming-edge index (`target -> [edge ids]`) and
/// an in-degree table.
#[derive(Debug)]
pub struct DirectedAcyclicGraph {
    pub nodes: HashMap<u128, DagNode>,
    pub out_edges: HashMap<u128, Vec<u128>>,
    pub in_edges: HashMap<u128, Vec<u128>>,
    pub edges: HashMap<u128, DagEdge>,
    pub in_degree: HashMap<u128, usize>,
}

/// The ids listed under `k` in an edge index (empty when `k` has no entry).
pub open spec fn index_list(m: Map<u128, Vec<u128>>, k: u128) -> Seq<u128> {
    if m.contains_key(k) {
        m[k]@
    } else {
        Seq::empty()
    }
}

/// The edge index after appending `e` to the list of `k`.
pub open spec fn index_push(m: Map<u128, Vec<u128>>, k: u128, e: u128) -> Map<u128, Seq<u128>> {
    index_view(m).insert(k, index_list(m, k).push(e))
}

/// An edge index viewed as lists of ids.
pub open spec fn index_view(m: Map<u128, Vec<u128>>) -> Map<u128, Seq<u128>> {
    Map::new(|k: u128| m.contains_key(k), |k: u128| m[k]@)
}

impl DirectedAcyclicGraph {
    /// The stored nodes by id, as abstract values.
    pub open spec fn node_map(&self) -> Map<u128, DagNodeView> {
        self.nodes@.map_values(|n: DagNode| n@)
    }

    /// The stored edges by id, as abstract values.
    pub open spec fn edge_map(&self) -> Map<u128, DagEdgeView> {
        self.edges@.map_values(|e: DagEdge| e@)
    }

    /// The ids in the outgoing index of `a`.
    pub open spec fn out_list(&self, a: u128) -> Seq<u128> {
        index_list(self.out_edges@, a)
    }

    /// The ids in the incoming index of `a`.
    pub open spec fn in_list(&self, a: u128) -> Seq<u128> {
        index_list(self.in_edges@, a)
    }

    /// The `i`-th id in the outgoing index of `a` names a stored edge to `b`.
    pub open spec fn out_link(&self, a: u128, i: int, b: u128) -> bool {
        &&& 0 <= i < self.out_list(a).len()
        &&& self.edges@.contains_key(self.out_list(a)[i])
        &&& self.edges@[self.out_list(a)[i]].target == b
    }

    /// `b` is an immediate successor of `a` through the outgoing index.
    pub open spec fn step(&self, a: u128, b: u128) -> bool {
        exists|i: int| #[trigger] self.out_link(a, i, b)
    }

    /// Position `i` of `p` is followed by a successor.
    pub open spec fn walk_step(&self, p: Seq<u128>, i: int) -> bool {
        self.step(p[i], p[i + 1])
    }

    /// `p` is a non-empty walk along successor steps.
    pub open spec fn is_walk(&self, p: Seq<u128>) -> bool {
        &&& p.len() >= 1
        &&& forall|i: int| 0 <= i < p.len() - 1 ==> #[trigger] self.walk_step(p, i)
    }

    /// `b` can be reached from `a` in zero or more steps.
    pub open spec fn reaches(&self, a: u128, b: u128) -> bool {
        exists|p: Seq<u128>| #[trigger] self.is_walk(p) && p[0] == a && p.last() == b
    }

    /// No walk of one or more steps returns to its start.
    pub open spec fn acyclic(&self) -> bool {
        forall|p: Seq<u128>| #[trigger] self.is_walk(p) && p.len() >= 2 ==> p[0] != p.last()
    }

    /// The number of stored edges ending at `t`.
    pub open spec fn edges_into(&self, t: u128) -> Set<u128> {
        self.edges@.dom().filter(|e: u128| self.edges@[e].target == t)
    }

    /// The indexes and the in-degree table agree with the stored edges.
    pub open spec fn wf(&self) -> bool {
        &&& forall|e: u128| #[trigger] self.edges@.contains_key(e) ==> {
            &&& self.edges@[e].id == e
            &&& self.nodes@.contains_key(self.edges@[e].source)
            &&& self.nodes@.contains_key(self.edges@[e].target)
            &&& self.out_list(self.edges@[e].source).contains(e)
            &&& self.in_list(self.edges@[e].target).contains(e)
        }
        &&& forall|n: u128| #[trigger] self.nodes@.contains_key(n) ==> self.nodes@[n].id == n
        &&& forall|n: u128| #[trigger] self.out_edges@.contains_key(n) ==> {
            &&& self.nodes@.contains_key(n)
            &&& self.out_list(n).no_duplicates()
            &&& forall|i: int| 0 <= i < self.out_list(n).len() ==> {
                &&& #[trigger] self.edges@.contains_key(self.out_list(n)[i])
                &&& self.edges@[self.out_list(n)[i]].source == n
            }
        }
        &&& forall|n: u128| #[trigger] self.in_edges@.contains_key(n) ==> {
            &&& self.nodes@.contains_key(n)
            &&& self.in_list(n).no_duplicates()
            &&& forall|i: int| 0 <= i < self.in_list(n).len() ==> {
                &&& #[trigger] self.edges@.contains_key(self.in_list(n)[i])
                &&& self.edges@[self.in_list(n)[i]].target == n
            }
        }
        &&& forall|n: u128| #[trigger] self.in_degree@.contains_key(n) <==> self.nodes@.contains_key(n)
        &&& forall|n: u128| #[trigger] self.in_degree@.contains_key(n) ==> self.in_degree@[n] == self.in_list(n).len()
    }

    /// An empty graph.
    pub fn new() -> (g: Self)
        ensures
            g.nodes@ == Map::<u128, DagNode>::empty(),
            g.edges@ == Map::<u128, DagEdge>::empty(),
            g.out_edges@ == Map::<u128, Vec<u128>>::empty(),
            g.in_edges@ == Map::<u128, Vec<u128>>::empty(),
            g.in_degree@ == Map::<u128, usize>::empty(),
            g.wf(),
            g.acyclic(),
    {
        let g = DirectedAcyclicGraph {
            nodes: HashMap::new(),
            out_edges: HashMap::new(),
            in_edges: HashMap::new(),
            edges: HashMap::new(),
            in_degree: HashMap::new(),
        };
        assert forall|p: Seq<u128>| #[trigger] g.is_walk(p) && p.len() >= 2 implies p[0] != p.last() by {
            assert(g.walk_step(p, 0));
        }
        g
    }

    /// Number of nodes.
    pub fn node_count(&self) -> (n: usize)
        ensures
            n == self.nodes@.len(),
    {
        self.nodes.len()
    }

    /// Number of edges.
    pub fn edge_count(&self) -> (n: usize)
        ensures
            n == self.edges@.len(),
    {
        self.edges.len()
    }
}

impl DirectedAcyclicGraph {
    /// The target recorded for edge `e`.
    pub open spec fn edge_target(&self, e: u128) -> u128 {
        self.edges@[e].target
    }

    /// Adding an edge `source -> target` would close a cycle: the two ends
    /// coincide or `source` is reachable from `target`.
    pub open spec fn closes_cycle(&self, source: u128, target: u128) -> bool {
        source == target || self.reaches(target, source)
    }

    /// Adds (or replaces) a node; a new node starts with in-degree 0.
    pub fn add_node(&mut self, node: DagNode)
        ensures
            final(self).nodes@ == old(self).nodes@.insert(node.id, node),
            final(self).in_degree@ == (if old(self).in_degree@.contains_key(node.id) {
                old(self).in_degree@
            } else {
                old(self).in_degree@.insert(node.id, 0)
            }),
            final(self).edges@ == old(self).edges@,
            final(self).out_edges@ == old(self).out_edges@,
            final(self).in_edges@ == old(self).in_edges@,
            old(self).wf() ==> final(self).wf(),
            old(self).acyclic() ==> final(self).acyclic(),
    {
        let id = node.id;
        if !self.in_degree.contains_key(&id) {
            self.in_degree.insert(id, 0);
        }
        self.nodes.insert(id, node);
        proof {
            let o = old(self);
            assert forall|a: u128, b: u128| self.step(a, b) == o.step(a, b) by {
                assert forall|i: int| self.out_link(a, i, b) == o.out_link(a, i, b) by {}
            }
            assert forall|p: Seq<u128>| self.is_walk(p) == o.is_walk(p) by {
                assert forall|i: int| self.walk_step(p, i) == o.walk_step(p, i) by {}
            }
        }
    }

    /// Decides whether adding `source -> target` would close a cycle, by a
    /// search from `target` along outgoing edges.
    pub fn would_create_cycle(&self, source: u128, target: u128) -> (r: bool)
        ensures
            r == self.closes_cycle(source, target),
    {
        if source == target {
            return true;
        }
        let ghost targets = self.edges@.dom().map(|e: u128| self.edge_target(e)).insert(target);
        proof {
            self.edges@.dom().lemma_map_finite(|e: u128| self.edge_target(e));
            lemma_reaches_self(self, target);
        }
        let mut visited: HashSet<u128> = HashSet::new();
        let mut queue: Vec<u128> = Vec::new();
        visited.insert(target);
        queue.push(target);
        assert(queue@ == seq![target]);
        assert(queue@[0] == target);
        while queue.len() > 0
            invariant
                targets.finite(),
                targets == self.edges@.dom().map(|e: u128| self.edge_target(e)).insert(target),
                targets.contains(target),
                visited@.subset_of(targets),
                visited@.len() <= targets.len(),
                visited@.contains(target),
                source != target,
                forall|v: u128| #[trigger] queue@.contains(v) ==> visited@.contains(v),
                forall|v: u128| #[trigger] visited@.contains(v) ==> self.reaches(target, v),
                visited@.contains(source) ==> queue@.contains(source),
                forall|v: u128, w: u128|
                    visited@.contains(v) && !queue@.contains(v) && #[trigger] self.step(v, w)
                        ==> visited@.contains(w),
            decreases 2 * (targets.len() - visited@.len()) + queue@.len(),
        {
            proof {
                vstd::set_lib::lemma_len_subset(visited@, targets);
            }
            let ghost before = 2 * (targets.len() - visited@.len()) + queue@.len();
            let ghost q0 = queue@;
            let current = queue.pop().unwrap();
            assert(q0[q0.len() - 1] == current);
            assert(q0.contains(current));
            assert(visited@.contains(current));
            if current == source {
                return true;
            }
            let ghost popped = queue@;
            assert forall|v: u128| #[trigger] popped.contains(v) implies q0.contains(v) by {
                let k = choose|k: int| 0 <= k < popped.len() && popped[k] == v;
                assert(q0[k] == v);
            }
            match self.out_edges.get(&current) {
                Some(edge_ids) => {
                    let mut i: usize = 0;
                    while i < edge_ids.len()
                        invariant
                            targets.finite(),
                            targets == self.edges@.dom().map(|e: u128| self.edge_target(e)).insert(target),
                            visited@.subset_of(targets),
                            visited@.len() <= targets.len(),
                            visited@.contains(target),
                            visited@.contains(current),
                            current != source,
                            source != target,
                            i <= edge_ids@.len(),
                            self.out_edges@.contains_key(current),
                            edge_ids@ == self.out_list(current),
                            forall|v: u128| #[trigger] queue@.contains(v) ==> visited@.contains(v),
                            forall|v: u128| #[trigger] popped.contains(v) ==> queue@.contains(v),
                            forall|v: u128| #[trigger] visited@.contains(v) ==> self.reaches(target, v),
                            visited@.contains(source) ==> queue@.contains(source),
                            forall|v: u128, w: u128|
                                visited@.contains(v) && !queue@.contains(v) && v != current
                                    && #[trigger] self.step(v, w) ==> visited@.contains(w),
                            forall|j: int, w: u128| 0 <= j < i && #[trigger] self.out_link(current, j, w)
                                ==> visited@.contains(w),
                            2 * (targets.len() - visited@.len()) + queue@.len() < before,
                        decreases edge_ids@.len() - i,
                    {
                        let eid = edge_ids[i];
                        match self.edges.get(&eid) {
                            Some(edge) => {
                                let t = edge.target;
                                if !visited.contains(&t) {
                                    proof {
                                        assert(self.edges@.dom().contains(eid));
                                        assert(*edge == self.edges@[eid]);
                                        assert(self.edge_target(eid) == t);
                                        assert(self.edges@.dom().map(|e: u128| self.edge_target(e)).contains(t));
                                        assert(targets.contains(t));
                                        assert(self.out_link(current, i as int, t));
                                        lemma_reaches_step(self, target, current, t);
                                        vstd::set_lib::lemma_len_subset(visited@.insert(t), targets);
                                    }
                                    let ghost q1 = queue@;
                                    visited.insert(t);
                                    queue.push(t);
                                    proof {
                                        assert(queue@ == q1.push(t));
                                        assert(queue@[q1.len() as int] == t);
                                        assert forall|v: u128| #[trigger] q1.contains(v) implies queue@.contains(v) by {
                                            let k = choose|k: int| 0 <= k < q1.len() && q1[k] == v;
                                            assert(queue@[k] == v);
                                        }
                                        assert forall|v: u128| #[trigger] queue@.contains(v) implies visited@.contains(v) by {
                                            let k = choose|k: int| 0 <= k < queue@.len() && queue@[k] == v;
                                            if k < q1.len() {
                                                assert(q1[k] == v);
                                            }
                                        }
                                    }
                                }
                            },
                            None => {},
                        }
                        i += 1;
                    }
                },
                None => {},
            }
            assert(2 * (targets.len() - visited@.len()) + queue@.len() < before);
            proof {
                assert forall|v: u128, w: u128|
                    visited@.contains(v) && !queue@.contains(v) && #[trigger] self.step(v, w)
                        implies visited@.contains(w) by {
                    if v == current {
                        let j = choose|j: int| #[trigger] self.out_link(current, j, w);
                    }
                }
            }
        }
        proof {
            if self.reaches(target, source) {
                let p = choose|p: Seq<u128>| #[trigger] self.is_walk(p) && p[0] == target && p.last() == source;
                lemma_closed_set_contains_walk(self, visited@, p);
            }
        }
        false
    }
}

impl DirectedAcyclicGraph {
    /// Adds an edge after checking that both ends exist and that it closes no
    /// cycle; the edge is appended to the outgoing list of its source and the
    /// incoming list of its target, and the target's in-degree grows by one.
    pub fn add_edge(&mut self, edge: DagEdge) -> (r: Result<(), SpError>)
        requires
            old(self).in_degree@.contains_key(edge.target) ==> old(self).in_degree@[edge.target] < usize::MAX,
        ensures
            !(old(self).nodes@.contains_key(edge.source) && old(self).nodes@.contains_key(edge.target)) ==> {
                &&& r matches Err(SpError::Internal(msg)) && msg@ == "边的源节点或目标节点不存在"@
                &&& *final(self) == *old(self)
            },
            old(self).nodes@.contains_key(edge.source) && old(self).nodes@.contains_key(edge.target)
                && old(self).closes_cycle(edge.source, edge.target) ==> {
                &&& r matches Err(SpError::DagCycleDetected { source_id, target_id })
                    && source_id == edge.source && target_id == edge.target
                &&& *final(self) == *old(self)
            },
            old(self).nodes@.contains_key(edge.source) && old(self).nodes@.contains_key(edge.target)
                && !old(self).closes_cycle(edge.source, edge.target) ==> {
                &&& r is Ok
                &&& final(self).nodes@ == old(self).nodes@
                &&& final(self).edges@ == old(self).edges@.insert(edge.id, edge)
                &&& index_view(final(self).out_edges@) == index_push(old(self).out_edges@, edge.source, edge.id)
                &&& index_view(final(self).in_edges@) == index_push(old(self).in_edges@, edge.target, edge.id)
                &&& final(self).in_degree@ == old(self).in_degree@.insert(edge.target,
                    (if old(self).in_degree@.contains_key(edge.target) { old(self).in_degree@[edge.target] + 1 } else { 1 }) as usize)
            },
            old(self).wf() && !old(self).edges@.contains_key(edge.id) ==> final(self).wf(),
            old(self).wf() && old(self).acyclic() && !old(self).edges@.contains_key(edge.id) ==> final(self).acyclic(),
    {
        if !self.nodes.contains_key(&edge.source) || !self.nodes.contains_key(&edge.target) {
            return Err(SpError::Internal(String::from_str("边的源节点或目标节点不存在")));
        }
        if self.would_create_cycle(edge.source, edge.target) {
            return Err(SpError::DagCycleDetected { source_id: edge.source, target_id: edge.target });
        }
        let ghost o = *self;
        let id = edge.id;
        let src = edge.source;
        let tgt = edge.target;
        let mut outs = match self.out_edges.remove(&src) {
            Some(v) => v,
            None => Vec::new(),
        };
        outs.push(id);
        self.out_edges.insert(src, outs);
        let mut ins = match self.in_edges.remove(&tgt) {
            Some(v) => v,
            None => Vec::new(),
        };
        ins.push(id);
        self.in_edges.insert(tgt, ins);
        let d: usize = match self.in_degree.get(&tgt) {
            Some(d) => *d,
            None => 0,
        };
        self.in_degree.insert(tgt, d + 1);
        self.edges.insert(id, edge);
        proof {
            assert(index_view(self.out_edges@) =~= index_push(o.out_edges@, src, id));
            assert(index_view(self.in_edges@) =~= index_push(o.in_edges@, tgt, id));
            assert forall|k: u128| #[trigger] self.out_list(k) == (if k == src { o.out_list(src).push(id) } else { o.out_list(k) }) by {}
            assert forall|k: u128| #[trigger] self.in_list(k) == (if k == tgt { o.in_list(tgt).push(id) } else { o.in_list(k) }) by {}
            if o.wf() && !o.edges@.contains_key(id) {
                lemma_add_edge_wf(o, *self, src, tgt, id);
                if o.acyclic() {
                    lemma_add_edge_acyclic(o, *self, src, tgt, id);
                }
            }
        }
        Ok(())
    }
}

/// After adding a fresh edge the indexes still agree with the stored edges.
#[verifier::spinoff_prover]
#[verifier::rlimit(40)]
pub(crate) proof fn lemma_add_edge_wf(o: DirectedAcyclicGraph, n: DirectedAcyclicGraph, src: u128, tgt: u128, id: u128)
    requires
        o.wf(),
        !o.edges@.contains_key(id),
        o.nodes@.contains_key(src),
        o.nodes@.contains_key(tgt),
        n.nodes@ == o.nodes@,
        n.edges@.contains_key(id),
        n.edges@ == o.edges@.insert(id, n.edges@[id]),
        n.edges@[id].id == id,
        n.edges@[id].source == src,
        n.edges@[id].target == tgt,
        forall|k: u128| #[trigger] n.out_edges@.contains_key(k) <==> (o.out_edges@.contains_key(k) || k == src),
        forall|k: u128| #[trigger] n.in_edges@.contains_key(k) <==> (o.in_edges@.contains_key(k) || k == tgt),
        forall|k: u128| #[trigger] n.out_list(k) == (if k == src { o.out_list(src).push(id) } else { o.out_list(k) }),
        forall|k: u128| #[trigger] n.in_list(k) == (if k == tgt { o.in_list(tgt).push(id) } else { o.in_list(k) }),
        o.in_degree@[tgt] < usize::MAX,
        n.in_degree@ == o.in_degree@.insert(tgt, (o.in_degree@[tgt] + 1) as usize),
    ensures
        n.wf(),
{
    assert forall|e: u128| #[trigger] n.edges@.contains_key(e) implies {
        &&& n.edges@[e].id == e
        &&& n.nodes@.contains_key(n.edges@[e].source)
        &&& n.nodes@.contains_key(n.edges@[e].target)
        &&& n.out_list(n.edges@[e].source).contains(e)
        &&& n.in_list(n.edges@[e].target).contains(e)
    } by {
        if e == id {
            assert(n.out_list(src).last() == id);
            assert(n.in_list(tgt).last() == id);
        } else {
            assert(o.edges@.contains_key(e));
            let s = o.edges@[e].source;
            let t = o.edges@[e].target;
            let i = choose|i: int| 0 <= i < o.out_list(s).len() && o.out_list(s)[i] == e;
            assert(n.out_list(s)[i] == e);
            let j = choose|j: int| 0 <= j < o.in_list(t).len() && o.in_list(t)[j] == e;
            assert(n.in_list(t)[j] == e);
        }
    }
    assert forall|k: u128| #[trigger] n.out_edges@.contains_key(k) implies {
        &&& n.nodes@.contains_key(k)
        &&& n.out_list(k).no_duplicates()
        &&& forall|i: int| 0 <= i < n.out_list(k).len() ==> {
            &&& #[trigger] n.edges@.contains_key(n.out_list(k)[i])
            &&& n.edges@[n.out_list(k)[i]].source == k
        }
    } by {
        lemma_add_edge_out_key(o, n, src, tgt, id, k);
    }
    assert forall|k: u128| #[trigger] n.in_edges@.contains_key(k) implies {
        &&& n.nodes@.contains_key(k)
        &&& n.in_list(k).no_duplicates()
        &&& forall|i: int| 0 <= i < n.in_list(k).len() ==> {
            &&& #[trigger] n.edges@.contains_key(n.in_list(k)[i])
            &&& n.edges@[n.in_list(k)[i]].target == k
        }
    } by {
        lemma_add_edge_in_key(o, n, src, tgt, id, k);
    }
    assert forall|k: u128| #[trigger] n.in_degree@.contains_key(k) implies n.in_degree@[k] == n.in_list(k).len() by {
    if k == tgt {
            assert(o.in_degree@.contains_key(k));
            assert(o.in_degree@[k] == o.in_list(k).len());
            assert(n.in_list(k).len() == o.in_list(k).len() + 1);
        } else {
            assert(o.in_degree@.contains_key(k));
            assert(n.in_list(k) == o.in_list(k));
        }
    }
}

/// After adding a fresh edge, the outgoing list of `k` is still a list of
/// distinct stored edges leaving `k`.
#[verifier::spinoff_prover]
proof fn lemma_add_edge_out_key(o: DirectedAcyclicGraph, n: DirectedAcyclicGraph, src: u128, tgt: u128, id: u128, k: u128)
    requires
        n.out_edges@.contains_key(k),
        o.wf(),
        !o.edges@.contains_key(id),
        o.nodes@.contains_key(src),
        o.nodes@.contains_key(tgt),
        n.nodes@ == o.nodes@,
        n.edges@.contains_key(id),
        n.edges@ == o.edges@.insert(id, n.edges@[id]),
        n.edges@[id].id == id,
        n.edges@[id].source == src,
        n.edges@[id].target == tgt,
        forall|x: u128| #[trigger] n.out_edges@.contains_key(x) <==> (o.out_edges@.contains_key(x) || x == src),
        forall|x: u128| #[trigger] n.in_edges@.contains_key(x) <==> (o.in_edges@.contains_key(x) || x == tgt),
        forall|x: u128| #[trigger] n.out_list(x) == (if x == src { o.out_list(src).push(id) } else { o.out_list(x) }),
        forall|x: u128| #[trigger] n.in_list(x) == (if x == tgt { o.in_list(tgt).push(id) } else { o.in_list(x) }),
        o.in_degree@[tgt] < usize::MAX,
        n.in_degree@ == o.in_degree@.insert(tgt, (o.in_degree@[tgt] + 1) as usize),
    ensures
        n.nodes@.contains_key(k),
        n.out_list(k).no_duplicates(),
        forall|i: int| 0 <= i < n.out_list(k).len() ==> {
            &&& #[trigger] n.edges@.contains_key(n.out_list(k)[i])
            &&& n.edges@[n.out_list(k)[i]].source == k
        },
{
    if k == src {
        if o.out_edges@.contains_key(k) {
            assert forall|i: int| 0 <= i < o.out_list(k).len() implies o.out_list(k)[i] != id by {
                assert(o.edges@.contains_key(o.out_list(k)[i]));
            }
        }
        assert forall|i: int, j: int| 0 <= i < n.out_list(k).len() && 0 <= j < n.out_list(k).len() && i != j
            implies n.out_list(k)[i] != n.out_list(k)[j] by {
            if o.out_edges@.contains_key(k) {
                if i < o.out_list(k).len() && j < o.out_list(k).len() {
                } else if i < o.out_list(k).len() {
                    assert(o.edges@.contains_key(o.out_list(k)[i]));
                } else {
                    assert(o.edges@.contains_key(o.out_list(k)[j]));
                }
            }
        }
        assert forall|i: int| 0 <= i < n.out_list(k).len() implies {
            &&& #[trigger] n.edges@.contains_key(n.out_list(k)[i])
            &&& n.edges@[n.out_list(k)[i]].source == k
        } by {
            if i < o.out_list(k).len() {
                assert(o.out_edges@.contains_key(k));
                assert(o.edges@.contains_key(o.out_list(k)[i]));
            }
        }
    } else {
        assert forall|i: int| 0 <= i < n.out_list(k).len() implies {
            &&& #[trigger] n.edges@.contains_key(n.out_list(k)[i])
            &&& n.edges@[n.out_list(k)[i]].source == k
        } by {
            assert(o.edges@.contains_key(o.out_list(k)[i]));
        }
    }
}

/// After adding a fresh edge, the incoming list of `k` is still a list of
/// distinct stored edges entering `k`.
#[verifier::spinoff_prover]
proof fn lemma_add_edge_in_key(o: DirectedAcyclicGraph, n: DirectedAcyclicGraph, src: u128, tgt: u128, id: u128, k: u128)
    requires
        n.in_edges@.contains_key(k),
        o.wf(),
        !o.edges@.contains_key(id),
        o.nodes@.contains_key(src),
        o.nodes@.contains_key(tgt),
        n.nodes@ == o.nodes@,
        n.edges@.contains_key(id),
        n.edges@ == o.edges@.insert(id, n.edges@[id]),
        n.edges@[id].id == id,
        n.edges@[id].source == src,
        n.edges@[id].target == tgt,
        forall|x: u128| #[trigger] n.out_edges@.contains_key(x) <==> (o.out_edges@.contains_key(x) || x == src),
        forall|x: u128| #[trigger] n.in_edges@.contains_key(x) <==> (o.in_edges@.contains_key(x) || x == tgt),
        forall|x: u128| #[trigger] n.out_list(x) == (if x == src { o.out_list(src).push(id) } else { o.out_list(x) }),
        forall|x: u128| #[trigger] n.in_list(x) == (if x == tgt { o.in_list(tgt).push(id) } else { o.in_list(x) }),
        o.in_degree@[tgt] < usize::MAX,
        n.in_degree@ == o.in_degree@.insert(tgt, (o.in_degree@[tgt] + 1) as usize),
    ensures
        n.nodes@.contains_key(k),
        n.in_list(k).no_duplicates(),
        forall|i: int| 0 <= i < n.in_list(k).len() ==> {
            &&& #[trigger] n.edges@.contains_key(n.in_list(k)[i])
            &&& n.edges@[n.in_list(k)[i]].target == k
        },
{
    if k == tgt {
        assert forall|i: int, j: int| 0 <= i < n.in_list(k).len() && 0 <= j < n.in_list(k).len() && i != j
            implies n.in_list(k)[i] != n.in_list(k)[j] by {
            if o.in_edges@.contains_key(k) {
                if i < o.in_list(k).len() && j < o.in_list(k).len() {
                } else if i < o.in_list(k).len() {
                    assert(o.edges@.contains_key(o.in_list(k)[i]));
                } else {
                    assert(o.edges@.contains_key(o.in_list(k)[j]));
                }
            }
        }
        assert forall|i: int| 0 <= i < n.in_list(k).len() implies {
            &&& #[trigger] n.edges@.contains_key(n.in_list(k)[i])
            &&& n.edges@[n.in_list(k)[i]].target == k
        } by {
            if i < o.in_list(k).len() {
                assert(o.in_edges@.contains_key(k));
                assert(o.edges@.contains_key(o.in_list(k)[i]));
            }
        }
    } else {
        assert forall|i: int| 0 <= i < n.in_list(k).len() implies {
            &&& #[trigger] n.edges@.contains_key(n.in_list(k)[i])
            &&& n.edges@[n.in_list(k)[i]].target == k
        } by {
            assert(o.edges@.contains_key(o.in_list(k)[i]));
        }
    }
}

/// After adding a fresh edge `src -> tgt`, every step is an old step or the new one.
proof fn lemma_add_edge_steps(o: DirectedAcyclicGraph, n: DirectedAcyclicGraph, src: u128, tgt: u128, id: u128)
    requires
        o.wf(),
        !o.edges@.contains_key(id),
        n.edges@ == o.edges@.insert(id, n.edges@[id]),
        n.edges@[id].target == tgt,
        forall|k: u128| #[trigger] n.out_list(k) == (if k == src { o.out_list(src).push(id) } else { o.out_list(k) }),
    ensures
        forall|a: u128, b: u128| #[trigger] n.step(a, b) ==> o.step(a, b) || (a == src && b == tgt),
{
    assert forall|a: u128, b: u128| #[trigger] n.step(a, b) implies o.step(a, b) || (a == src && b == tgt) by {
        let i = choose|i: int| #[trigger] n.out_link(a, i, b);
        if a == src && i == o.out_list(src).len() {
        } else {
            assert(o.out_edges@.contains_key(a));
            assert(o.edges@.contains_key(o.out_list(a)[i]));
            assert(o.out_link(a, i, b));
        }
    }
}

/// Walks compose.
pub proof fn lemma_reaches_trans(g: &DirectedAcyclicGraph, a: u128, b: u128, c: u128)
    requires
        g.reaches(a, b),
        g.reaches(b, c),
    ensures
        g.reaches(a, c),
{
    let p = choose|p: Seq<u128>| #[trigger] g.is_walk(p) && p[0] == a && p.last() == b;
    let q = choose|q: Seq<u128>| #[trigger] g.is_walk(q) && q[0] == b && q.last() == c;
    let w = p + q.drop_first();
    assert forall|i: int| 0 <= i < w.len() - 1 implies #[trigger] g.walk_step(w, i) by {
        if i < p.len() - 1 {
            assert(g.walk_step(p, i));
        } else {
            assert(g.walk_step(q, i - p.len() + 1));
        }
    }
    assert(g.is_walk(w));
    if q.len() == 1 {
        assert(w.last() == p.last());
    } else {
        assert(w.last() == q.last());
    }
}

/// A walk of the grown graph is an old walk or passes through the new edge.
proof fn lemma_add_edge_walk(o: DirectedAcyclicGraph, n: DirectedAcyclicGraph, src: u128, tgt: u128, p: Seq<u128>)
    requires
        n.is_walk(p),
        forall|a: u128, b: u128| #[trigger] n.step(a, b) ==> o.step(a, b) || (a == src && b == tgt),
    ensures
        o.is_walk(p) || (o.reaches(p[0], src) && o.reaches(tgt, p.last())),
    decreases p.len(),
{
    if p.len() > 1 {
        let q = p.drop_last();
        assert forall|i: int| 0 <= i < q.len() - 1 implies #[trigger] n.walk_step(q, i) by {
            assert(n.walk_step(p, i));
        }
        lemma_add_edge_walk(o, n, src, tgt, q);
        let k = p.len() - 2;
        assert(n.walk_step(p, k));
        let a = p[k];
        let b = p[k + 1];
        assert(q.last() == a);
        if o.step(a, b) {
            if o.is_walk(q) {
                assert forall|i: int| 0 <= i < p.len() - 1 implies #[trigger] o.walk_step(p, i) by {
                    if i < k {
                        assert(o.walk_step(q, i));
                    }
                }
            } else {
                lemma_reaches_step(&o, tgt, a, b);
            }
        } else {
            assert(a == src && b == tgt);
            lemma_reaches_self(&o, tgt);
            if o.is_walk(q) {
                assert(o.reaches(p[0], src));
            }
        }
    } else {
        assert forall|i: int| 0 <= i < p.len() - 1 implies #[trigger] o.walk_step(p, i) by {}
    }
}

/// Adding a fresh edge that closes no cycle keeps the graph acyclic.
pub(crate) proof fn lemma_add_edge_acyclic(o: DirectedAcyclicGraph, n: DirectedAcyclicGraph, src: u128, tgt: u128, id: u128)
    requires
        o.wf(),
        o.acyclic(),
        !o.closes_cycle(src, tgt),
        !o.edges@.contains_key(id),
        n.edges@ == o.edges@.insert(id, n.edges@[id]),
        n.edges@[id].target == tgt,
        forall|k: u128| #[trigger] n.out_list(k) == (if k == src { o.out_list(src).push(id) } else { o.out_list(k) }),
    ensures
        n.acyclic(),
{
    lemma_add_edge_steps(o, n, src, tgt, id);
    assert forall|p: Seq<u128>| #[trigger] n.is_walk(p) && p.len() >= 2 implies p[0] != p.last() by {
        lemma_add_edge_walk(o, n, src, tgt, p);
        if !o.is_walk(p) && p[0] == p.last() {
            lemma_reaches_trans(&o, tgt, p[0], src);
        }
    }
}

/// `s` with every occurrence of `x` removed.
pub open spec fn without(s: Seq<u128>, x: u128) -> Seq<u128>
    decreases s.len(),
{
    if s.len() == 0 {
        s
    } else if s.last() == x {
        without(s.drop_last(), x)
    } else {
        without(s.drop_last(), x).push(s.last())
    }
}

/// Copies a list of ids leaving out every occurrence of `x`.
pub fn vec_without(v: &Vec<u128>, x: u128) -> (r: Vec<u128>)
    ensures
        r@ == without(v@, x),
{
    let mut r: Vec<u128> = Vec::new();
    let mut i: usize = 0;
    while i < v.len()
        invariant
            i <= v@.len(),
            r@ == without(v@.take(i as int), x),
        decreases v@.len() - i,
    {
        assert(v@.take(i as int + 1).drop_last() == v@.take(i as int));
        if v[i] != x {
            r.push(v[i]);
        }
        i += 1;
    }
    assert(v@.take(v@.len() as int) == v@);
    r
}

/// Every node of a walk that starts inside a set closed under `step` lies in it.
pub proof fn lemma_closed_set_contains_walk(g: &DirectedAcyclicGraph, s: Set<u128>, p: Seq<u128>)
    requires
        g.is_walk(p),
        s.contains(p[0]),
        forall|v: u128, w: u128| s.contains(v) && #[trigger] g.step(v, w) ==> s.contains(w),
    ensures
        s.contains(p.last()),
    decreases p.len(),
{
    if p.len() > 1 {
        let q = p.drop_last();
        assert forall|i: int| 0 <= i < q.len() - 1 implies #[trigger] g.walk_step(q, i) by {
            assert(g.walk_step(p, i));
        }
        lemma_closed_set_contains_walk(g, s, q);
        assert(g.walk_step(p, p.len() - 2));
    }
}

/// A walk to `b` extends by one step to any successor of `b`.
pub proof fn lemma_reaches_step(g: &DirectedAcyclicGraph, a: u128, b: u128, c: u128)
    requires
        g.reaches(a, b),
        g.step(b, c),
    ensures
        g.reaches(a, c),
{
    let p = choose|p: Seq<u128>| #[trigger] g.is_walk(p) && p[0] == a && p.last() == b;
    let q = p.push(c);
    assert forall|i: int| 0 <= i < q.len() - 1 implies #[trigger] g.walk_step(q, i) by {
        if i < p.len() - 1 {
            assert(g.walk_step(p, i));
        }
    }
    assert(g.is_walk(q));
}

/// Appending a fresh id keeps a list free of repetitions.
pub proof fn lemma_push_no_dup(s: Seq<u128>, x: u128)
    requires
        s.no_duplicates(),
        !s.contains(x),
    ensures
        s.push(x).no_duplicates(),
{
    let r = s.push(x);
    assert forall|i: int, j: int| 0 <= i < r.len() && 0 <= j < r.len() && i != j implies r[i] != r[j] by {
        if i < s.len() && j < s.len() {
        } else if i < s.len() {
            assert(s.contains(s[i]));
        } else {
            assert(s.contains(s[j]));
        }
    }
}

/// Every node reaches itself.
pub proof fn lemma_reaches_self(g: &DirectedAcyclicGraph, a: u128)
    ensures
        g.reaches(a, a),
{
    let p = seq![a];
    assert(g.is_walk(p));
}

impl Default for DirectedAcyclicGraph {
    /// The empty graph.
    fn default() -> (g: Self)
        ensures
            g.nodes@ == Map::<u128, DagNode>::empty(),
            g.edges@ == Map::<u128, DagEdge>::empty(),
            g.out_edges@ == Map::<u128, Vec<u128>>::empty(),
            g.in_edges@ == Map::<u128, Vec<u128>>::empty(),
            g.in_degree@ == Map::<u128, usize>::empty(),
            g.wf(),
            g.acyclic(),
    {
        Self::new()
    }
}

} // verus!
