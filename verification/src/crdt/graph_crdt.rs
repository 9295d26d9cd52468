//! A replicated story graph: live and tombstoned nodes and edges, an
//! operation log and a vector clock per replica.
use vstd::prelude::*;
use std::collections::HashMap;
use std::collections::HashSet;
use crate::prim::{Timestamp, now, timestamp_later};
use crate::crdt::lww_register::beats;
use crate::dag::graph::lemma_push_no_dup;
use vstd::seq_lib::lemma_multiset_commutative;

verus! {

broadcast use {vstd::std_specs::hash::group_hash_axioms, vstd::seq_lib::group_seq_properties, vstd::set::group_set_axioms};

/// A change to the replicated graph.
#[derive(Debug)]
pub enum GraphOp {
    AddNode { node_id: u128 },
    RemoveNode { node_id: u128 },
    UpdateNode { node_id: u128, field: String },
    AddEdge { edge_id: u128, source: u128, target: u128 },
    RemoveEdge { edge_id: u128 },
    UpdateEdge { edge_id: u128, field: String },
}

/// Abstract value of a change.
pub enum GraphOpView {
    AddNode { node_id: u128 },
    RemoveNode { node_id: u128 },
    UpdateNode { node_id: u128, field: Seq<char> },
    AddEdge { edge_id: u128, source: u128, target: u128 },
    RemoveEdge { edge_id: u128 },
    UpdateEdge { edge_id: u128, field: Seq<char> },
}

impl View for GraphOp {
    type V = GraphOpView;

    open spec fn view(&self) -> GraphOpView {
        match *self {
            GraphOp::AddNode { node_id } => GraphOpView::AddNode { node_id },
            GraphOp::RemoveNode { node_id } => GraphOpView::RemoveNode { node_id },
            GraphOp::UpdateNode { node_id, field } => GraphOpView::UpdateNode { node_id, field: field@ },
            GraphOp::AddEdge { edge_id, source, target } => GraphOpView::AddEdge { edge_id, source, target },
            GraphOp::RemoveEdge { edge_id } => GraphOpView::RemoveEdge { edge_id },
            GraphOp::UpdateEdge { edge_id, field } => GraphOpView::UpdateEdge { edge_id, field: field@ },
        }
    }
}

/// A logged change with its writer, wall-clock time and the writer's vector
/// clock (peer id to counter) after the change.
#[derive(Debug)]
pub struct GraphOperation {
    pub op: GraphOp,
    pub writer_id: u128,
    pub timestamp: Timestamp,
    pub vector_clock: HashMap<u128, u64>,
    pub tombstone: bool,
}

/// Abstract value of a logged change.
pub struct OperationView {
    pub op: GraphOpView,
    pub writer_id: u128,
    pub timestamp: Timestamp,
    pub vector_clock: Map<u128, u64>,
    pub tombstone: bool,
}

impl View for GraphOperation {
    type V = OperationView;

    open spec fn view(&self) -> OperationView {
        OperationView {
            op: self.op@,
            writer_id: self.writer_id,
            timestamp: self.timestamp,
            vector_clock: self.vector_clock@,
            tombstone: self.tombstone,
        }
    }
}

impl GraphOp {
    /// A copy of this change.
    pub fn copy(&self) -> (r: GraphOp)
        ensures
            r@ == self@,
    {
        match self {
            GraphOp::AddNode { node_id } => GraphOp::AddNode { node_id: *node_id },
            GraphOp::RemoveNode { node_id } => GraphOp::RemoveNode { node_id: *node_id },
            GraphOp::UpdateNode { node_id, field } => GraphOp::UpdateNode { node_id: *node_id, field: field.clone() },
            GraphOp::AddEdge { edge_id, source, target } => GraphOp::AddEdge { edge_id: *edge_id, source: *source, target: *target },
            GraphOp::RemoveEdge { edge_id } => GraphOp::RemoveEdge { edge_id: *edge_id },
            GraphOp::UpdateEdge { edge_id, field } => GraphOp::UpdateEdge { edge_id: *edge_id, field: field.clone() },
        }
    }
}

impl GraphOperation {
    /// A copy of this logged change.
    pub fn copy(&self) -> (r: GraphOperation)
        ensures
            r@ == self@,
    {
        GraphOperation {
            op: self.op.copy(),
            writer_id: self.writer_id,
            timestamp: self.timestamp,
            vector_clock: self.vector_clock.clone(),
            tombstone: self.tombstone,
        }
    }
}

/// The counter of `peer` in a vector clock (0 when absent).
pub open spec fn clock_of(clock: Map<u128, u64>, peer: u128) -> int {
    if clock.contains_key(peer) {
        clock[peer] as int
    } else {
        0
    }
}

/// A replica of a story graph. Deletions leave tombstones, and adding an
/// element again clears its tombstone. Every node and edge remembers the
/// stamp (write time, writer) of the last change that decided it; a remote
/// change to an element takes effect only when its stamp beats that one, so
/// concurrent changes settle the same way in every order.
#[derive(Debug)]
pub struct GraphCrdt {
    pub story_id: u128,
    pub nodes: HashSet<u128>,
    pub tombstoned_nodes: HashSet<u128>,
    pub edges: HashMap<u128, (u128, u128)>,
    pub tombstoned_edges: HashSet<u128>,
    pub operations: Vec<GraphOperation>,
    pub vector_clock: HashMap<u128, u64>,
    pub peer_id: u128,
    pub node_stamps: HashMap<u128, (Timestamp, u128)>,
    pub edge_stamps: HashMap<u128, (Timestamp, u128)>,
}

impl GraphCrdt {
    /// No element is both live and tombstoned.
    pub open spec fn wf(&self) -> bool {
        &&& self.nodes@.disjoint(self.tombstoned_nodes@)
        &&& self.edges@.dom().disjoint(self.tombstoned_edges@)
    }

    /// The log of `self` is the log of `o` with one entry for `op` appended,
    /// written by this replica with its clock after the change.
    pub open spec fn logged(&self, o: &GraphCrdt, op: GraphOpView) -> bool {
        &&& self.operations@.len() == o.operations@.len() + 1
        &&& self.operations@.take(o.operations@.len() as int) == o.operations@
        &&& self.operations@.last()@.op == op
        &&& self.operations@.last().writer_id == self.peer_id
        &&& self.operations@.last().vector_clock@ == self.vector_clock@
        &&& !self.operations@.last().tombstone
    }

    /// This replica's clock after one local change: its own counter grows by one.
    pub open spec fn ticked(&self, o: &GraphCrdt) -> bool {
        self.vector_clock@ == o.vector_clock@.insert(o.peer_id, (clock_of(o.vector_clock@, o.peer_id) + 1) as u64)
    }

    /// One more local change fits in this replica's counter.
    pub open spec fn can_tick(&self) -> bool {
        clock_of(self.vector_clock@, self.peer_id) < u64::MAX
    }

    /// An empty replica of story `story_id` held by `peer_id`.
    pub fn new(story_id: u128, peer_id: u128) -> (g: Self)
        ensures
            g.story_id == story_id,
            g.peer_id == peer_id,
            g.nodes@ == Set::<u128>::empty(),
            g.tombstoned_nodes@ == Set::<u128>::empty(),
            g.edges@ == Map::<u128, (u128, u128)>::empty(),
            g.tombstoned_edges@ == Set::<u128>::empty(),
            g.operations@.len() == 0,
            g.vector_clock@ == Map::<u128, u64>::empty(),
            g.node_stamps@ == Map::<u128, (Timestamp, u128)>::empty(),
            g.edge_stamps@ == Map::<u128, (Timestamp, u128)>::empty(),
            g.wf(),
    {
        GraphCrdt {
            story_id,
            nodes: HashSet::new(),
            tombstoned_nodes: HashSet::new(),
            edges: HashMap::new(),
            tombstoned_edges: HashSet::new(),
            operations: Vec::new(),
            vector_clock: HashMap::new(),
            peer_id,
            node_stamps: HashMap::new(),
            edge_stamps: HashMap::new(),
        }
    }

    /// Advances this replica's own counter.
    fn tick(&mut self)
        requires
            old(self).can_tick(),
        ensures
            final(self).ticked(old(self)),
            final(self).nodes@ == old(self).nodes@,
            final(self).tombstoned_nodes@ == old(self).tombstoned_nodes@,
            final(self).edges@ == old(self).edges@,
            final(self).tombstoned_edges@ == old(self).tombstoned_edges@,
            final(self).operations@ == old(self).operations@,
            final(self).peer_id == old(self).peer_id,
            final(self).story_id == old(self).story_id,
            final(self).node_stamps@ == old(self).node_stamps@,
            final(self).edge_stamps@ == old(self).edge_stamps@,
    {
        let counter: u64 = match self.vector_clock.get(&self.peer_id) {
            Some(c) => *c,
            None => 0,
        };
        self.vector_clock.insert(self.peer_id, counter + 1);
    }

    /// Appends a record of `op` with this replica's current clock and
    /// returns the record's stamp.
    fn log(&mut self, op: GraphOp) -> (st: (Timestamp, u128))
        ensures
            final(self).logged(old(self), op@),
            st == (final(self).operations@.last().timestamp, final(self).peer_id),
            final(self).node_stamps@ == old(self).node_stamps@,
            final(self).edge_stamps@ == old(self).edge_stamps@,
            final(self).nodes@ == old(self).nodes@,
            final(self).tombstoned_nodes@ == old(self).tombstoned_nodes@,
            final(self).edges@ == old(self).edges@,
            final(self).tombstoned_edges@ == old(self).tombstoned_edges@,
            final(self).vector_clock@ == old(self).vector_clock@,
            final(self).peer_id == old(self).peer_id,
            final(self).story_id == old(self).story_id,
    {
        let t = now();
        let record = GraphOperation {
            op,
            writer_id: self.peer_id,
            timestamp: t,
            vector_clock: self.vector_clock.clone(),
            tombstone: false,
        };
        self.operations.push(record);
        assert(self.operations@.take(old(self).operations@.len() as int) =~= old(self).operations@);
        (t, self.peer_id)
    }

    /// Adds a live node, clearing its tombstone, and logs the change.
    pub fn add_node(&mut self, node_id: u128)
        requires
            old(self).can_tick(),
        ensures
            final(self).nodes@ == old(self).nodes@.insert(node_id),
            final(self).tombstoned_nodes@ == old(self).tombstoned_nodes@.remove(node_id),
            final(self).edges@ == old(self).edges@,
            final(self).tombstoned_edges@ == old(self).tombstoned_edges@,
            final(self).ticked(old(self)),
            final(self).logged(old(self), GraphOpView::AddNode { node_id }),
            final(self).node_stamps@ == old(self).node_stamps@.insert(node_id, last_stamp(final(self))),
            final(self).edge_stamps@ == old(self).edge_stamps@,
            final(self).peer_id == old(self).peer_id,
            final(self).story_id == old(self).story_id,
            old(self).wf() ==> final(self).wf(),
    {
        self.tick();
        self.nodes.insert(node_id);
        self.tombstoned_nodes.remove(&node_id);
        let ghost mid = *self;
        let st = self.log(GraphOp::AddNode { node_id });
        self.node_stamps.insert(node_id, st);
        proof {
            assert(mid.operations@ == old(self).operations@);
        }
    }

    /// Adds an edge between two live, untombstoned nodes, clearing its
    /// tombstone, and logs the change; refuses (changing nothing) otherwise.
    pub fn add_edge(&mut self, edge_id: u128, source: u128, target: u128) -> (r: bool)
        requires
            old(self).can_tick(),
        ensures
            r == (old(self).nodes@.contains(source) && old(self).nodes@.contains(target)
                && !old(self).tombstoned_nodes@.contains(source) && !old(self).tombstoned_nodes@.contains(target)),
            !r ==> *final(self) == *old(self),
            r ==> {
                &&& final(self).nodes@ == old(self).nodes@
                &&& final(self).tombstoned_nodes@ == old(self).tombstoned_nodes@
                &&& final(self).edges@ == old(self).edges@.insert(edge_id, (source, target))
                &&& final(self).tombstoned_edges@ == old(self).tombstoned_edges@.remove(edge_id)
                &&& final(self).ticked(old(self))
                &&& final(self).logged(old(self), GraphOpView::AddEdge { edge_id, source, target })
                &&& final(self).edge_stamps@ == old(self).edge_stamps@.insert(edge_id, last_stamp(final(self)))
                &&& final(self).node_stamps@ == old(self).node_stamps@
            },
            final(self).peer_id == old(self).peer_id,
            final(self).story_id == old(self).story_id,
            old(self).wf() ==> final(self).wf(),
    {
        if !self.nodes.contains(&source) || !self.nodes.contains(&target)
            || self.tombstoned_nodes.contains(&source) || self.tombstoned_nodes.contains(&target) {
            return false;
        }
        self.tick();
        self.edges.insert(edge_id, (source, target));
        self.tombstoned_edges.remove(&edge_id);
        let st = self.log(GraphOp::AddEdge { edge_id, source, target });
        self.edge_stamps.insert(edge_id, st);
        true
    }

    /// Removes an edge, leaving a tombstone, and logs the change.
    pub fn remove_edge(&mut self, edge_id: u128)
        requires
            old(self).can_tick(),
        ensures
            final(self).nodes@ == old(self).nodes@,
            final(self).tombstoned_nodes@ == old(self).tombstoned_nodes@,
            final(self).edges@ == old(self).edges@.remove(edge_id),
            final(self).tombstoned_edges@ == old(self).tombstoned_edges@.insert(edge_id),
            final(self).ticked(old(self)),
            final(self).logged(old(self), GraphOpView::RemoveEdge { edge_id }),
            final(self).edge_stamps@ == old(self).edge_stamps@.insert(edge_id, last_stamp(final(self))),
            final(self).node_stamps@ == old(self).node_stamps@,
            final(self).peer_id == old(self).peer_id,
            final(self).story_id == old(self).story_id,
            old(self).wf() ==> final(self).wf(),
    {
        self.tick();
        self.edges.remove(&edge_id);
        self.tombstoned_edges.insert(edge_id);
        let st = self.log(GraphOp::RemoveEdge { edge_id });
        self.edge_stamps.insert(edge_id, st);
    }

    /// Number of live nodes.
    pub fn node_count(&self) -> (n: usize)
        ensures
            n == self.nodes@.len(),
    {
        self.nodes.len()
    }

    /// Number of live edges.
    pub fn edge_count(&self) -> (n: usize)
        ensures
            n == self.edges@.len(),
    {
        self.edges.len()
    }
}

/// The live edges that leave or enter `n`.
pub open spec fn touching(edges: Map<u128, (u128, u128)>, n: u128) -> Set<u128> {
    edges.dom().filter(|e: u128| edges[e].0 == n || edges[e].1 == n)
}

/// Which end of an edge a selection looks at.
pub enum EdgeEnd {
    Source,
    Target,
    Either,
}

/// The edge `(s, t)` has `n` at the chosen end.
pub open spec fn end_matches(st: (u128, u128), n: u128, end: EdgeEnd) -> bool {
    match end {
        EdgeEnd::Source => st.0 == n,
        EdgeEnd::Target => st.1 == n,
        EdgeEnd::Either => st.0 == n || st.1 == n,
    }
}

/// The other end of `(s, t)` from the chosen one (the target when selecting
/// by source, the source otherwise).
pub open spec fn far_end(st: (u128, u128), end: EdgeEnd) -> u128 {
    match end {
        EdgeEnd::Source => st.1,
        _ => st.0,
    }
}

impl GraphCrdt {
    /// The live edges with `n` at the chosen end, as `(edge id, other end)`
    /// pairs, each once, in the edge table's iteration order.
    fn select_edges(&self, n: u128, end: EdgeEnd) -> (r: Vec<(u128, u128)>)
        ensures
            r@.no_duplicates(),
            forall|p: (u128, u128)| #[trigger] r@.contains(p) <==> (self.edges@.contains_key(p.0)
                && end_matches(self.edges@[p.0], n, end) && p.1 == far_end(self.edges@[p.0], end)),
            forall|i: int, j: int| 0 <= i < r@.len() && 0 <= j < r@.len() && i != j ==> #[trigger] r@[i].0 != #[trigger] r@[j].0,
    {
        let mut r: Vec<(u128, u128)> = Vec::new();
        let ghost mut seen: Set<u128> = Set::empty();
        for (id, st) in it: self.edges.iter()
            invariant
                it.seq().no_duplicates(),
                it.seq().len() == self.edges@.dom().len(),
                forall|j: int| 0 <= j < it.seq().len() ==> self.edges@.contains_key(*(#[trigger] it.seq()[j]).0)
                    && self.edges@[*it.seq()[j].0] == *it.seq()[j].1,
                forall|k: u128| #[trigger] self.edges@.contains_key(k) ==> it.seq().contains((&k, &self.edges@[k])),
                seen.finite(),
                seen.len() == it.index(),
                seen.subset_of(self.edges@.dom()),
                forall|x: u128| #[trigger] seen.contains(x) <==> (exists|j: int| 0 <= j < it.index() && *it.seq()[j].0 == x),
                forall|p: (u128, u128)| #[trigger] r@.contains(p) <==> (seen.contains(p.0) && self.edges@.contains_key(p.0)
                    && end_matches(self.edges@[p.0], n, end) && p.1 == far_end(self.edges@[p.0], end)),
                forall|i: int, j: int| 0 <= i < r@.len() && 0 <= j < r@.len() && i != j ==> #[trigger] r@[i].0 != #[trigger] r@[j].0,
                forall|i: int| 0 <= i < r@.len() ==> seen.contains(#[trigger] r@[i].0),
                r@.no_duplicates(),
        {
            let ghost pos = it.index();
            assert(it.seq()[pos] == (id, st));
            assert(!seen.contains(*id)) by {
                if seen.contains(*id) {
                    let j = choose|j: int| 0 <= j < pos && *it.seq()[j].0 == *id;
                    assert(*it.seq()[j].1 == *it.seq()[pos].1);
                    assert(it.seq()[j] == it.seq()[pos]);
                }
            }
            let (s, t) = *st;
            let hit = match end {
                EdgeEnd::Source => s == n,
                EdgeEnd::Target => t == n,
                EdgeEnd::Either => s == n || t == n,
            };
            if hit {
                let other = match end {
                    EdgeEnd::Source => t,
                    _ => s,
                };
                proof {
                    assert(!r@.contains((*id, other)));
                    lemma_push_no_dup_pairs(r@, (*id, other));
                }
                r.push((*id, other));
            }
            proof {
                seen = seen.insert(*id);
            }
        }
        proof {
            vstd::set_lib::lemma_subset_equality(seen, self.edges@.dom());
        }
        r
    }

    /// The live edges leaving `node_id`, as `(edge id, target)` pairs.
    pub fn out_edges(&self, node_id: u128) -> (r: Vec<(u128, u128)>)
        ensures
            r@.no_duplicates(),
            forall|p: (u128, u128)| #[trigger] r@.contains(p) <==> (self.edges@.contains_key(p.0)
                && self.edges@[p.0].0 == node_id && p.1 == self.edges@[p.0].1),
    {
        self.select_edges(node_id, EdgeEnd::Source)
    }

    /// The live edges entering `node_id`, as `(edge id, source)` pairs.
    pub fn in_edges(&self, node_id: u128) -> (r: Vec<(u128, u128)>)
        ensures
            r@.no_duplicates(),
            forall|p: (u128, u128)| #[trigger] r@.contains(p) <==> (self.edges@.contains_key(p.0)
                && self.edges@[p.0].1 == node_id && p.1 == self.edges@[p.0].0),
    {
        self.select_edges(node_id, EdgeEnd::Target)
    }

    /// Removes a node, leaving a tombstone, removes (with tombstones) every
    /// live edge that touches it, and logs the change.
    pub fn remove_node(&mut self, node_id: u128)
        requires
            old(self).can_tick(),
        ensures
            final(self).nodes@ == old(self).nodes@.remove(node_id),
            final(self).tombstoned_nodes@ == old(self).tombstoned_nodes@.insert(node_id),
            final(self).edges@ == old(self).edges@.remove_keys(touching(old(self).edges@, node_id)),
            final(self).tombstoned_edges@ == old(self).tombstoned_edges@.union(touching(old(self).edges@, node_id)),
            final(self).ticked(old(self)),
            final(self).logged(old(self), GraphOpView::RemoveNode { node_id }),
            final(self).node_stamps@ == old(self).node_stamps@.insert(node_id, last_stamp(final(self))),
            final(self).edge_stamps@ == old(self).edge_stamps@,
            final(self).peer_id == old(self).peer_id,
            final(self).story_id == old(self).story_id,
            old(self).wf() ==> final(self).wf(),
    {
        self.tick();
        self.nodes.remove(&node_id);
        self.tombstoned_nodes.insert(node_id);
        let doomed = self.select_edges(node_id, EdgeEnd::Either);
        let ghost e0 = self.edges@;
        let ghost tb0 = self.tombstoned_edges@;
        let ghost gone = touching(e0, node_id);
        let mut i: usize = 0;
        while i < doomed.len()
            invariant
                i <= doomed@.len(),
                e0 == old(self).edges@,
                tb0 == old(self).tombstoned_edges@,
                gone == touching(e0, node_id),
                forall|p: (u128, u128)| #[trigger] doomed@.contains(p) <==> (e0.contains_key(p.0)
                    && end_matches(e0[p.0], node_id, EdgeEnd::Either) && p.1 == far_end(e0[p.0], EdgeEnd::Either)),
                self.edges@ == e0.remove_keys(Set::new(|x: u128| exists|j: int| 0 <= j < i && #[trigger] doomed@[j].0 == x)),
                self.tombstoned_edges@ == tb0.union(Set::new(|x: u128| exists|j: int| 0 <= j < i && #[trigger] doomed@[j].0 == x)),
                self.nodes@ == old(self).nodes@.remove(node_id),
                self.tombstoned_nodes@ == old(self).tombstoned_nodes@.insert(node_id),
                self.ticked(old(self)),
                self.operations@ == old(self).operations@,
                self.peer_id == old(self).peer_id,
                self.story_id == old(self).story_id,
                self.node_stamps@ == old(self).node_stamps@,
                self.edge_stamps@ == old(self).edge_stamps@,
            decreases doomed@.len() - i,
        {
            let id = doomed[i].0;
            let ghost before_e = self.edges@;
            self.edges.remove(&id);
            self.tombstoned_edges.insert(id);
            proof {
                let a = Set::new(|x: u128| exists|j: int| 0 <= j < i && #[trigger] doomed@[j].0 == x);
                let b = Set::new(|x: u128| exists|j: int| 0 <= j < i + 1 && #[trigger] doomed@[j].0 == x);
                assert(b =~= a.insert(id)) by {
                    assert forall|x: u128| b.contains(x) implies a.insert(id).contains(x) by {
                        let j = choose|j: int| 0 <= j < i + 1 && #[trigger] doomed@[j].0 == x;
                        if j < i {
                            assert(a.contains(x));
                        }
                    }
                }
                assert(self.edges@ =~= e0.remove_keys(b));
                assert(self.tombstoned_edges@ =~= tb0.union(b));
            }
            i += 1;
        }
        proof {
            let all = Set::new(|x: u128| exists|j: int| 0 <= j < i && #[trigger] doomed@[j].0 == x);
            assert(all =~= gone) by {
                assert forall|x: u128| all.contains(x) <==> gone.contains(x) by {
                    if all.contains(x) {
                        let j = choose|j: int| 0 <= j < i && #[trigger] doomed@[j].0 == x;
                        assert(doomed@.contains(doomed@[j]));
                    }
                    if gone.contains(x) {
                        let p = (x, far_end(e0[x], EdgeEnd::Either));
                        assert(doomed@.contains(p));
                        let j = choose|j: int| 0 <= j < doomed@.len() && doomed@[j] == p;
                        assert(doomed@[j].0 == x);
                    }
                }
            }
        }
        let ghost mid = *self;
        let st = self.log(GraphOp::RemoveNode { node_id });
        self.node_stamps.insert(node_id, st);
        proof {
            assert(mid.operations@ == old(self).operations@);
        }
    }
}

/// Appending a pair not yet listed keeps a list free of repetitions.
pub proof fn lemma_push_no_dup_pairs(s: Seq<(u128, u128)>, x: (u128, u128))
    requires
        s.no_duplicates(),
        !s.contains(x),
    ensures
        s.push(x).no_duplicates(),
{
    let r = s.push(x);
    assert forall|i: int, j: int| 0 <= i < r.len() && 0 <= j < r.len() && i != j implies r[i] != r[j] by {
        if i < s.len() && j < s.len() {
        } else if i < s.len() {
            assert(s.contains(s[i]));
        } else {
            assert(s.contains(s[j]));
        }
    }
}

impl GraphCrdt {
    /// A live edge leads from `a` to `b`.
    pub open spec fn cstep(&self, a: u128, b: u128) -> bool {
        exists|e: u128| #[trigger] self.edges@.contains_key(e) && self.edges@[e] == (a, b)
    }

    /// Position `i` of `p` is followed along a live edge.
    pub open spec fn cwalk_step(&self, p: Seq<u128>, i: int) -> bool {
        self.cstep(p[i], p[i + 1])
    }

    /// `p` is a non-empty walk along live edges.
    pub open spec fn cwalk(&self, p: Seq<u128>) -> bool {
        &&& p.len() >= 1
        &&& forall|i: int| 0 <= i < p.len() - 1 ==> #[trigger] self.cwalk_step(p, i)
    }

    /// `b` can be reached from `a` along live edges.
    pub open spec fn creaches(&self, a: u128, b: u128) -> bool {
        exists|p: Seq<u128>| #[trigger] self.cwalk(p) && p[0] == a && p.last() == b
    }

    /// Decides whether a live edge `source -> target` would close a cycle: the
    /// ends coincide or `source` is reachable from `target`.
    pub fn would_create_cycle(&self, source: u128, target: u128) -> (r: bool)
        ensures
            r == (source == target || self.creaches(target, source)),
    {
        if source == target {
            return true;
        }
        let ghost targets = self.edges@.dom().map(|e: u128| self.edges@[e].1).insert(target);
        proof {
            self.edges@.dom().lemma_map_finite(|e: u128| self.edges@[e].1);
            let p = seq![target];
            assert(self.cwalk(p));
        }
        let mut visited: HashSet<u128> = HashSet::new();
        let mut queue: Vec<u128> = Vec::new();
        visited.insert(target);
        queue.push(target);
        assert(queue@[0] == target);
        while queue.len() > 0
            invariant
                targets.finite(),
                targets == self.edges@.dom().map(|e: u128| self.edges@[e].1).insert(target),
                visited@.subset_of(targets),
                visited@.len() <= targets.len(),
                visited@.contains(target),
                source != target,
                forall|v: u128| #[trigger] queue@.contains(v) ==> visited@.contains(v),
                forall|v: u128| #[trigger] visited@.contains(v) ==> self.creaches(target, v),
                visited@.contains(source) ==> queue@.contains(source),
                forall|v: u128, w: u128|
                    visited@.contains(v) && !queue@.contains(v) && #[trigger] self.cstep(v, w)
                        ==> visited@.contains(w),
            decreases 2 * (targets.len() - visited@.len()) + queue@.len(),
        {
            proof {
                vstd::set_lib::lemma_len_subset(visited@, targets);
            }
            let ghost before = 2 * (targets.len() - visited@.len()) + queue@.len();
            let ghost q0 = queue@;
            let current = queue.pop().unwrap();
            assert(q0[q0.len() - 1] == current);
            assert(q0.contains(current));
            if current == source {
                return true;
            }
            let ghost popped = queue@;
            assert forall|v: u128| #[trigger] popped.contains(v) implies q0.contains(v) by {
                let k = choose|k: int| 0 <= k < popped.len() && popped[k] == v;
                assert(q0[k] == v);
            }
            let outs = self.out_edges(current);
            let mut i: usize = 0;
            while i < outs.len()
                invariant
                    targets.finite(),
                    targets == self.edges@.dom().map(|e: u128| self.edges@[e].1).insert(target),
                    visited@.subset_of(targets),
                    visited@.len() <= targets.len(),
                    visited@.contains(target),
                    visited@.contains(current),
                    current != source,
                    source != target,
                    i <= outs@.len(),
                    forall|p: (u128, u128)| #[trigger] outs@.contains(p) <==> (self.edges@.contains_key(p.0)
                        && self.edges@[p.0].0 == current && p.1 == self.edges@[p.0].1),
                    forall|v: u128| #[trigger] queue@.contains(v) ==> visited@.contains(v),
                    forall|v: u128| #[trigger] popped.contains(v) ==> queue@.contains(v),
                    forall|v: u128| #[trigger] visited@.contains(v) ==> self.creaches(target, v),
                    visited@.contains(source) ==> queue@.contains(source),
                    forall|v: u128, w: u128|
                        visited@.contains(v) && !queue@.contains(v) && v != current
                            && #[trigger] self.cstep(v, w) ==> visited@.contains(w),
                    forall|j: int| 0 <= j < i ==> visited@.contains(#[trigger] outs@[j].1),
                    2 * (targets.len() - visited@.len()) + queue@.len() < before,
                decreases outs@.len() - i,
            {
                let t = outs[i].1;
                let ghost eid = outs@[i as int].0;
                if !visited.contains(&t) {
                    proof {
                        assert(outs@.contains(outs@[i as int]));
                        assert(self.edges@.dom().contains(eid));
                        assert(self.edges@.dom().map(|e: u128| self.edges@[e].1).contains(t));
                        assert(self.cstep(current, t));
                        self.lemma_creaches_step(target, current, t);
                        vstd::set_lib::lemma_len_subset(visited@.insert(t), targets);
                    }
                    let ghost q1 = queue@;
                    visited.insert(t);
                    queue.push(t);
                    proof {
                        assert(queue@[q1.len() as int] == t);
                        assert forall|v: u128| #[trigger] q1.contains(v) implies queue@.contains(v) by {
                            let k = choose|k: int| 0 <= k < q1.len() && q1[k] == v;
                            assert(queue@[k] == v);
                        }
                        assert forall|v: u128| #[trigger] queue@.contains(v) implies visited@.contains(v) by {
                            let k = choose|k: int| 0 <= k < queue@.len() && queue@[k] == v;
                            if k < q1.len() {
                                assert(q1[k] == v);
                            }
                        }
                    }
                }
                i += 1;
            }
            assert(2 * (targets.len() - visited@.len()) + queue@.len() < before);
            proof {
                assert forall|v: u128, w: u128|
                    visited@.contains(v) && !queue@.contains(v) && #[trigger] self.cstep(v, w)
                        implies visited@.contains(w) by {
                    if v == current {
                        let e = choose|e: u128| #[trigger] self.edges@.contains_key(e) && self.edges@[e] == (v, w);
                        assert(outs@.contains((e, w)));
                        let j = choose|j: int| 0 <= j < outs@.len() && outs@[j] == (e, w);
                        assert(visited@.contains(outs@[j].1));
                    }
                }
            }
        }
        proof {
            if self.creaches(target, source) {
                let p = choose|p: Seq<u128>| #[trigger] self.cwalk(p) && p[0] == target && p.last() == source;
                self.lemma_closed_contains_cwalk(visited@, p);
            }
        }
        false
    }

    /// A walk to `b` extends by one live edge out of `b`.
    proof fn lemma_creaches_step(&self, a: u128, b: u128, c: u128)
        requires
            self.creaches(a, b),
            self.cstep(b, c),
        ensures
            self.creaches(a, c),
    {
        let p = choose|p: Seq<u128>| #[trigger] self.cwalk(p) && p[0] == a && p.last() == b;
        let q = p.push(c);
        assert forall|i: int| 0 <= i < q.len() - 1 implies #[trigger] self.cwalk_step(q, i) by {
            if i < p.len() - 1 {
                assert(self.cwalk_step(p, i));
            }
        }
        assert(self.cwalk(q));
    }

    /// A walk that starts in a set closed under live edges stays in it.
    proof fn lemma_closed_contains_cwalk(&self, s: Set<u128>, p: Seq<u128>)
        requires
            self.cwalk(p),
            s.contains(p[0]),
            forall|v: u128, w: u128| s.contains(v) && #[trigger] self.cstep(v, w) ==> s.contains(w),
        ensures
            s.contains(p.last()),
        decreases p.len(),
    {
        if p.len() > 1 {
            let q = p.drop_last();
            assert forall|i: int| 0 <= i < q.len() - 1 implies #[trigger] self.cwalk_step(q, i) by {
                assert(self.cwalk_step(p, i));
            }
            self.lemma_closed_contains_cwalk(s, q);
            assert(self.cwalk_step(p, p.len() - 2));
        }
    }
}

/// Abstract state of a replica.
pub struct CrdtModel {
    pub nodes: Set<u128>,
    pub tomb_nodes: Set<u128>,
    pub edges: Map<u128, (u128, u128)>,
    pub tomb_edges: Set<u128>,
    pub clock: Map<u128, u64>,
    pub log: Seq<OperationView>,
    pub node_stamps: Map<u128, (Timestamp, u128)>,
    pub edge_stamps: Map<u128, (Timestamp, u128)>,
}

/// The stamp of the latest entry of a replica's log.
pub open spec fn last_stamp(g: &GraphCrdt) -> (Timestamp, u128) {
    (g.operations@.last().timestamp, g.operations@.last().writer_id)
}

/// The stamp of a logged change: its write time and writer.
pub open spec fn op_stamp(o: OperationView) -> (Timestamp, u128) {
    (o.timestamp, o.writer_id)
}

/// A change stamped `st` decides element `k`: nothing decided it yet, or
/// `st` beats the stamp that did.
pub open spec fn fresher(stamps: Map<u128, (Timestamp, u128)>, k: u128, st: (Timestamp, u128)) -> bool {
    !stamps.contains_key(k) || beats(st, stamps[k])
}

/// Every counter of `remote` is matched by `local`: a change stamped with
/// `remote` is already reflected in a replica whose clock is `local`.
pub open spec fn clock_covers(local: Map<u128, u64>, remote: Map<u128, u64>) -> bool {
    forall|p: u128| #[trigger] remote.contains_key(p) ==> remote[p] <= clock_of(local, p)
}

/// The larger of two counters.
pub open spec fn max_u64(a: u64, b: u64) -> u64 {
    if a > b {
        a
    } else {
        b
    }
}

/// `local` with the counters of the peers in `done` raised to those of `remote`.
pub open spec fn join_some(local: Map<u128, u64>, remote: Map<u128, u64>, done: Set<u128>) -> Map<u128, u64> {
    Map::new(
        |p: u128| local.contains_key(p) || (done.contains(p) && remote.contains_key(p)),
        |p: u128| if done.contains(p) && remote.contains_key(p) {
            max_u64(clock_of(local, p) as u64, remote[p])
        } else {
            local[p]
        },
    )
}

/// The pointwise maximum of two vector clocks.
pub open spec fn join_clock(local: Map<u128, u64>, remote: Map<u128, u64>) -> Map<u128, u64> {
    join_some(local, remote, remote.dom())
}

/// The effect of a remote change stamped `st` on the live and tombstoned
/// sets: it decides its node or edge when its stamp beats the one that
/// decided it last (changes of attributes are left to the registers that
/// hold them).
pub open spec fn apply_remote(m: CrdtModel, op: GraphOpView, st: (Timestamp, u128)) -> CrdtModel {
    match op {
        GraphOpView::AddNode { node_id } => if fresher(m.node_stamps, node_id, st) {
            CrdtModel {
                nodes: m.nodes.insert(node_id),
                tomb_nodes: m.tomb_nodes.remove(node_id),
                node_stamps: m.node_stamps.insert(node_id, st),
                ..m
            }
        } else {
            m
        },
        GraphOpView::RemoveNode { node_id } => if fresher(m.node_stamps, node_id, st) {
            CrdtModel {
                nodes: m.nodes.remove(node_id),
                tomb_nodes: m.tomb_nodes.insert(node_id),
                node_stamps: m.node_stamps.insert(node_id, st),
                ..m
            }
        } else {
            m
        },
        GraphOpView::AddEdge { edge_id, source, target } => if fresher(m.edge_stamps, edge_id, st) {
            CrdtModel {
                edges: m.edges.insert(edge_id, (source, target)),
                tomb_edges: m.tomb_edges.remove(edge_id),
                edge_stamps: m.edge_stamps.insert(edge_id, st),
                ..m
            }
        } else {
            m
        },
        GraphOpView::RemoveEdge { edge_id } => if fresher(m.edge_stamps, edge_id, st) {
            CrdtModel {
                edges: m.edges.remove(edge_id),
                tomb_edges: m.tomb_edges.insert(edge_id),
                edge_stamps: m.edge_stamps.insert(edge_id, st),
                ..m
            }
        } else {
            m
        },
        _ => m,
    }
}

/// Merging one remote change: skipped when the local clock already covers
/// its clock; otherwise applied, its clock joined in and the change logged.
pub open spec fn merge_op(m: CrdtModel, o: OperationView) -> CrdtModel {
    if clock_covers(m.clock, o.vector_clock) {
        m
    } else {
        let a = apply_remote(m, o.op, op_stamp(o));
        CrdtModel { clock: join_clock(a.clock, o.vector_clock), log: a.log.push(o), ..a }
    }
}

/// Merging remote changes one after the other.
pub open spec fn merge_ops(m: CrdtModel, ops: Seq<OperationView>) -> CrdtModel
    decreases ops.len(),
{
    if ops.len() == 0 {
        m
    } else {
        merge_op(merge_ops(m, ops.drop_last()), ops.last())
    }
}

/// The abstract values of a list of logged changes.
pub open spec fn op_views(ops: Seq<GraphOperation>) -> Seq<OperationView> {
    ops.map_values(|o: GraphOperation| o@)
}

impl GraphCrdt {
    /// The abstract state of this replica.
    pub open spec fn model(&self) -> CrdtModel {
        CrdtModel {
            nodes: self.nodes@,
            tomb_nodes: self.tombstoned_nodes@,
            edges: self.edges@,
            tomb_edges: self.tombstoned_edges@,
            clock: self.vector_clock@,
            log: op_views(self.operations@),
            node_stamps: self.node_stamps@,
            edge_stamps: self.edge_stamps@,
        }
    }

    /// Decides whether this replica's clock covers `remote_clock`.
    fn has_seen(&self, remote_clock: &HashMap<u128, u64>) -> (r: bool)
        ensures
            r == clock_covers(self.vector_clock@, remote_clock@),
    {
        let ghost mut done: Set<u128> = Set::empty();
        for (peer, c) in it: remote_clock.iter()
            invariant
                it.seq().no_duplicates(),
                it.seq().len() == remote_clock@.dom().len(),
                forall|j: int| 0 <= j < it.seq().len() ==> remote_clock@.contains_key(*(#[trigger] it.seq()[j]).0)
                    && remote_clock@[*it.seq()[j].0] == *it.seq()[j].1,
                done.finite(),
                done.len() == it.index(),
                done.subset_of(remote_clock@.dom()),
                forall|x: u128| #[trigger] done.contains(x) <==> (exists|j: int| 0 <= j < it.index() && *it.seq()[j].0 == x),
                forall|x: u128| #[trigger] done.contains(x) ==> remote_clock@[x] <= clock_of(self.vector_clock@, x),
        {
            let ghost pos = it.index();
            assert(it.seq()[pos] == (peer, c));
            assert(!done.contains(*peer)) by {
                if done.contains(*peer) {
                    let j = choose|j: int| 0 <= j < pos && *it.seq()[j].0 == *peer;
                    assert(*it.seq()[j].1 == *it.seq()[pos].1);
                    assert(it.seq()[j] == it.seq()[pos]);
                }
            }
            let local: u64 = match self.vector_clock.get(peer) {
                Some(v) => *v,
                None => 0,
            };
            if *c > local {
                return false;
            }
            proof {
                done = done.insert(*peer);
            }
        }
        proof {
            vstd::set_lib::lemma_subset_equality(done, remote_clock@.dom());
        }
        true
    }

    /// Merges changes received from other replicas, in order: a change whose
    /// clock this replica already covers is skipped; any other decides the
    /// node or edge it names when its stamp beats the one that decided it
    /// last (a remote edge is taken in whether or not its ends are live
    /// here, so the outcome does not depend on the order of the changes),
    /// its clock is joined into this replica's clock, and the change is
    /// appended to the log.
    pub fn merge_remote(&mut self, remote_ops: &[GraphOperation])
        ensures
            final(self).model() == merge_ops(old(self).model(), op_views(remote_ops@)),
            final(self).peer_id == old(self).peer_id,
            final(self).story_id == old(self).story_id,
            old(self).wf() ==> final(self).wf(),
    {
        let ghost all = op_views(remote_ops@);
        let mut i: usize = 0;
        while i < remote_ops.len()
            invariant
                i <= remote_ops@.len(),
                all == op_views(remote_ops@),
                self.model() == merge_ops(old(self).model(), all.take(i as int)),
                self.peer_id == old(self).peer_id,
                self.story_id == old(self).story_id,
                old(self).wf() ==> self.wf(),
            decreases remote_ops@.len() - i,
        {
            let op = &remote_ops[i];
            let ghost m0 = self.model();
            proof {
                assert(all.take(i as int + 1).drop_last() =~= all.take(i as int));
                assert(all.take(i as int + 1).last() == op@);
            }
            if !self.has_seen(&op.vector_clock) {
                let st = (op.timestamp, op.writer_id);
                match &op.op {
                    GraphOp::AddNode { node_id } => {
                        if decides(&self.node_stamps, *node_id, st) {
                            self.nodes.insert(*node_id);
                            self.tombstoned_nodes.remove(node_id);
                            self.node_stamps.insert(*node_id, st);
                        }
                    },
                    GraphOp::RemoveNode { node_id } => {
                        if decides(&self.node_stamps, *node_id, st) {
                            self.nodes.remove(node_id);
                            self.tombstoned_nodes.insert(*node_id);
                            self.node_stamps.insert(*node_id, st);
                        }
                    },
                    GraphOp::AddEdge { edge_id, source, target } => {
                        if decides(&self.edge_stamps, *edge_id, st) {
                            self.edges.insert(*edge_id, (*source, *target));
                            self.tombstoned_edges.remove(edge_id);
                            self.edge_stamps.insert(*edge_id, st);
                        }
                    },
                    GraphOp::RemoveEdge { edge_id } => {
                        if decides(&self.edge_stamps, *edge_id, st) {
                            self.edges.remove(edge_id);
                            self.tombstoned_edges.insert(*edge_id);
                            self.edge_stamps.insert(*edge_id, st);
                        }
                    },
                    _ => {},
                }
                proof {
                    assert(self.model() == apply_remote(m0, op.op@, op_stamp(op@)));
                }
                join_clock_into(&mut self.vector_clock, &op.vector_clock);
                let ghost before_push = self.operations@;
                self.operations.push(op.copy());
                proof {
                    assert(op_views(self.operations@) =~= op_views(before_push).push(op@));
                    assert(self.model() == merge_op(m0, op@));
                }
            }
            i += 1;
        }
        proof {
            assert(all.take(i as int) =~= all);
        }
    }
}

/// Whether stamp `a` beats stamp `b` (later, or as late with a larger writer).
fn stamp_beats(a: (Timestamp, u128), b: (Timestamp, u128)) -> (r: bool)
    ensures
        r == beats(a, b),
{
    timestamp_later(a.0, b.0) || (a.0 == b.0 && a.1 > b.1)
}

/// Whether a change stamped `st` decides element `k`.
fn decides(stamps: &HashMap<u128, (Timestamp, u128)>, k: u128, st: (Timestamp, u128)) -> (r: bool)
    ensures
        r == fresher(stamps@, k, st),
{
    match stamps.get(&k) {
        None => true,
        Some(cur) => stamp_beats(st, *cur),
    }
}

/// Raises the counters of `local` to those of `remote` (pointwise maximum,
/// absent counters read as 0).
pub fn join_clock_into(local: &mut HashMap<u128, u64>, remote: &HashMap<u128, u64>)
    ensures
        final(local)@ == join_clock(old(local)@, remote@),
{
    let ghost local0 = local@;
    let ghost mut done: Set<u128> = Set::empty();
    proof {
        assert(join_some(local0, remote@, done) =~= local0);
    }
    for (peer, c) in it: remote.iter()
        invariant
            it.seq().no_duplicates(),
            it.seq().len() == remote@.dom().len(),
            forall|j: int| 0 <= j < it.seq().len() ==> remote@.contains_key(*(#[trigger] it.seq()[j]).0)
                && remote@[*it.seq()[j].0] == *it.seq()[j].1,
            done.finite(),
            done.len() == it.index(),
            done.subset_of(remote@.dom()),
            forall|x: u128| #[trigger] done.contains(x) <==> (exists|j: int| 0 <= j < it.index() && *it.seq()[j].0 == x),
            local0 == old(local)@,
            local@ == join_some(local0, remote@, done),
    {
        let ghost pos = it.index();
        assert(it.seq()[pos] == (peer, c));
        assert(!done.contains(*peer)) by {
            if done.contains(*peer) {
                let j = choose|j: int| 0 <= j < pos && *it.seq()[j].0 == *peer;
                assert(*it.seq()[j].1 == *it.seq()[pos].1);
                assert(it.seq()[j] == it.seq()[pos]);
            }
        }
        let mine: u64 = match local.get(peer) {
            Some(v) => *v,
            None => 0,
        };
        let m: u64 = if mine > *c { mine } else { *c };
        local.insert(*peer, m);
        proof {
            done = done.insert(*peer);
            assert(local@ =~= join_some(local0, remote@, done));
        }
    }
    proof {
        vstd::set_lib::lemma_subset_equality(done, remote@.dom());
    }
}

/// Joining a clock in never lowers a counter, and afterwards it covers the
/// clock that was joined.
pub proof fn lemma_join_clock(local: Map<u128, u64>, remote: Map<u128, u64>)
    ensures
        forall|p: u128| clock_of(local, p) <= #[trigger] clock_of(join_clock(local, remote), p),
        clock_covers(join_clock(local, remote), remote),
{
    let j = join_clock(local, remote);
    assert forall|p: u128| clock_of(local, p) <= #[trigger] clock_of(j, p) by {}
    assert forall|p: u128| #[trigger] remote.contains_key(p) implies remote[p] <= clock_of(j, p) by {}
}

/// A clock covers whatever a smaller clock covers.
pub proof fn lemma_covers_grow(small: Map<u128, u64>, big: Map<u128, u64>, remote: Map<u128, u64>)
    requires
        forall|p: u128| clock_of(small, p) <= #[trigger] clock_of(big, p),
        clock_covers(small, remote),
    ensures
        clock_covers(big, remote),
{
    assert forall|p: u128| #[trigger] remote.contains_key(p) implies remote[p] <= clock_of(big, p) by {
        assert(clock_of(small, p) <= clock_of(big, p));
    }
}

/// Merging changes never lowers a counter, and afterwards the clock covers
/// every merged change.
pub proof fn lemma_merge_ops_covers(m: CrdtModel, ops: Seq<OperationView>)
    ensures
        forall|p: u128| clock_of(m.clock, p) <= #[trigger] clock_of(merge_ops(m, ops).clock, p),
        forall|i: int| 0 <= i < ops.len() ==> clock_covers(merge_ops(m, ops).clock, #[trigger] ops[i].vector_clock),
    decreases ops.len(),
{
    if ops.len() > 0 {
        let pre = ops.drop_last();
        lemma_merge_ops_covers(m, pre);
        let m1 = merge_ops(m, pre);
        let o = ops.last();
        let m2 = merge_op(m1, o);
        if !clock_covers(m1.clock, o.vector_clock) {
            let a = apply_remote(m1, o.op, op_stamp(o));
            assert(a.clock == m1.clock);
            lemma_join_clock(a.clock, o.vector_clock);
        }
        assert forall|p: u128| clock_of(m.clock, p) <= #[trigger] clock_of(m2.clock, p) by {
            assert(clock_of(m1.clock, p) <= clock_of(m2.clock, p));
        }
        assert forall|i: int| 0 <= i < ops.len() implies clock_covers(m2.clock, #[trigger] ops[i].vector_clock) by {
            if i < ops.len() - 1 {
                assert(pre[i] == ops[i]);
                lemma_covers_grow(m1.clock, m2.clock, pre[i].vector_clock);
            }
        }
    }
}

/// Changes whose clocks are all covered leave a replica unchanged.
pub proof fn lemma_merge_covered(m: CrdtModel, ops: Seq<OperationView>)
    requires
        forall|i: int| 0 <= i < ops.len() ==> clock_covers(m.clock, #[trigger] ops[i].vector_clock),
    ensures
        merge_ops(m, ops) == m,
    decreases ops.len(),
{
    if ops.len() > 0 {
        let pre = ops.drop_last();
        assert forall|i: int| 0 <= i < pre.len() implies clock_covers(m.clock, #[trigger] pre[i].vector_clock) by {
            assert(pre[i] == ops[i]);
        }
        lemma_merge_covered(m, pre);
        assert(clock_covers(m.clock, ops[ops.len() - 1].vector_clock));
    }
}

/// Merging the same remote changes a second time changes nothing.
pub proof fn lemma_merge_remote_idempotent(m: CrdtModel, ops: Seq<OperationView>)
    ensures
        merge_ops(merge_ops(m, ops), ops) == merge_ops(m, ops),
{
    lemma_merge_ops_covers(m, ops);
    lemma_merge_covered(merge_ops(m, ops), ops);
}

/// The node a change adds or removes, if any.
pub open spec fn node_written(op: GraphOpView) -> Option<u128> {
    match op {
        GraphOpView::AddNode { node_id } => Some(node_id),
        GraphOpView::RemoveNode { node_id } => Some(node_id),
        _ => None,
    }
}

/// The edge a change adds or removes, if any.
pub open spec fn edge_written(op: GraphOpView) -> Option<u128> {
    match op {
        GraphOpView::AddEdge { edge_id, .. } => Some(edge_id),
        GraphOpView::RemoveEdge { edge_id } => Some(edge_id),
        _ => None,
    }
}

/// Two changes decide the same node or the same edge.
pub open spec fn same_element(a: GraphOpView, b: GraphOpView) -> bool {
    ||| node_written(a) is Some && node_written(a) == node_written(b)
    ||| edge_written(a) is Some && edge_written(a) == edge_written(b)
}

/// Beating is transitive.
proof fn lemma_beats_transitive(a: (Timestamp, u128), b: (Timestamp, u128), c: (Timestamp, u128))
    ensures
        beats(a, b) && beats(b, c) ==> beats(a, c),
{
}

/// Applying two changes in either order gives the same state, unless they
/// decide the same element with the same stamp.
#[verifier::rlimit(60)]
pub proof fn lemma_apply_commute(m: CrdtModel, a: GraphOpView, sa: (Timestamp, u128), b: GraphOpView, sb: (Timestamp, u128))
    requires
        same_element(a, b) ==> sa != sb,
    ensures
        apply_remote(apply_remote(m, a, sa), b, sb) == apply_remote(apply_remote(m, b, sb), a, sa),
{
    crate::crdt::lww_register::lemma_beats_total(sa, sb);
    lemma_beats_transitive(sa, sb, m.node_stamps[node_written(a)->0]);
    lemma_beats_transitive(sb, sa, m.node_stamps[node_written(a)->0]);
    lemma_beats_transitive(sa, sb, m.edge_stamps[edge_written(a)->0]);
    lemma_beats_transitive(sb, sa, m.edge_stamps[edge_written(a)->0]);
    let x = apply_remote(apply_remote(m, a, sa), b, sb);
    let y = apply_remote(apply_remote(m, b, sb), a, sa);
    assert(x.nodes =~= y.nodes);
    assert(x.tomb_nodes =~= y.tomb_nodes);
    assert(x.edges =~= y.edges);
    assert(x.tomb_edges =~= y.tomb_edges);
    assert(x.node_stamps =~= y.node_stamps);
    assert(x.edge_stamps =~= y.edge_stamps);
}

/// Joining two clocks into a third gives the same clock in either order.
pub proof fn lemma_join_clock_commute(c: Map<u128, u64>, a: Map<u128, u64>, b: Map<u128, u64>)
    ensures
        join_clock(join_clock(c, a), b) == join_clock(join_clock(c, b), a),
{
    let x = join_clock(join_clock(c, a), b);
    let y = join_clock(join_clock(c, b), a);
    assert forall|p: u128| #[trigger] x.contains_key(p) <==> y.contains_key(p) by {}
    assert forall|p: u128| #[trigger] x.contains_key(p) implies x[p] == y[p] by {}
    assert(x =~= y);
}

/// Convergence: two remote changes that this replica merges whichever comes
/// first (neither is covered by the clock the other leaves behind) leave the
/// same live and tombstoned nodes and edges, the same stamps and the same
/// clock in either order, so long as they do not decide the same element
/// with the same stamp; the log holds the same changes, in the order they
/// came.
pub proof fn lemma_merge_concurrent_commute(m: CrdtModel, a: OperationView, b: OperationView)
    requires
        same_element(a.op, b.op) ==> op_stamp(a) != op_stamp(b),
        !clock_covers(join_clock(m.clock, a.vector_clock), b.vector_clock),
        !clock_covers(join_clock(m.clock, b.vector_clock), a.vector_clock),
    ensures
        ({
            let x = merge_ops(m, seq![a, b]);
            let y = merge_ops(m, seq![b, a]);
            &&& x.nodes == y.nodes
            &&& x.tomb_nodes == y.tomb_nodes
            &&& x.edges == y.edges
            &&& x.tomb_edges == y.tomb_edges
            &&& x.node_stamps == y.node_stamps
            &&& x.edge_stamps == y.edge_stamps
            &&& x.clock == y.clock
            &&& x.log.to_multiset() == y.log.to_multiset()
        }),
{
    lemma_join_clock(m.clock, a.vector_clock);
    lemma_join_clock(m.clock, b.vector_clock);
    if clock_covers(m.clock, a.vector_clock) {
        lemma_covers_grow(m.clock, join_clock(m.clock, b.vector_clock), a.vector_clock);
    }
    if clock_covers(m.clock, b.vector_clock) {
        lemma_covers_grow(m.clock, join_clock(m.clock, a.vector_clock), b.vector_clock);
    }
    let ab = seq![a, b];
    let ba = seq![b, a];
    assert(ab.drop_last() == seq![a]);
    assert(ba.drop_last() == seq![b]);
    assert(seq![a].drop_last() == Seq::<OperationView>::empty());
    assert(seq![b].drop_last() == Seq::<OperationView>::empty());
    let ma = merge_op(m, a);
    let mb = merge_op(m, b);
    assert(merge_ops(m, Seq::<OperationView>::empty()) == m);
    assert(seq![a].last() == a && seq![b].last() == b && ab.last() == b && ba.last() == a);
    assert(merge_ops(m, seq![a]) == ma);
    assert(merge_ops(m, seq![b]) == mb);
    let x = merge_op(ma, b);
    let y = merge_op(mb, a);
    assert(merge_ops(m, ab) == x);
    assert(merge_ops(m, ba) == y);
    lemma_apply_commute(m, a.op, op_stamp(a), b.op, op_stamp(b));
    lemma_join_clock_commute(m.clock, a.vector_clock, b.vector_clock);
    assert(x.log == m.log.push(a).push(b));
    assert(y.log == m.log.push(b).push(a));
    assert(x.log.to_multiset() =~= y.log.to_multiset());
}

/// Two changes of `s` that decide the same element with the same stamp are
/// the same change.
pub open spec fn clash_free(s: Seq<OperationView>) -> bool {
    forall|a: OperationView, b: OperationView| #![trigger s.contains(a), s.contains(b)]
        s.contains(a) && s.contains(b) && same_element(a.op, b.op) && op_stamp(a) == op_stamp(b) ==> a.op == b.op
}

/// Taking in a change that is not skipped: applied and its clock joined in
/// (the log aside).
pub open spec fn take_in(m: CrdtModel, o: OperationView) -> CrdtModel {
    let a = apply_remote(m, o.op, op_stamp(o));
    CrdtModel { clock: join_clock(a.clock, o.vector_clock), ..a }
}

/// Taking in the changes of `s` one after the other.
pub open spec fn take_in_all(m: CrdtModel, s: Seq<OperationView>) -> CrdtModel
    decreases s.len(),
{
    if s.len() == 0 {
        m
    } else {
        take_in(take_in_all(m, s.drop_last()), s.last())
    }
}

proof fn lemma_take_in_commute(m: CrdtModel, a: OperationView, b: OperationView)
    requires
        same_element(a.op, b.op) && op_stamp(a) == op_stamp(b) ==> a.op == b.op,
    ensures
        take_in(take_in(m, a), b) == take_in(take_in(m, b), a),
{
    let x = take_in(take_in(m, a), b);
    let y = take_in(take_in(m, b), a);
    if same_element(a.op, b.op) && op_stamp(a) == op_stamp(b) {
        assert(apply_remote(apply_remote(m, a.op, op_stamp(a)), b.op, op_stamp(b))
            == apply_remote(apply_remote(m, b.op, op_stamp(b)), a.op, op_stamp(a)));
    } else {
        lemma_apply_commute(m, a.op, op_stamp(a), b.op, op_stamp(b));
    }
    lemma_join_clock_commute(m.clock, a.vector_clock, b.vector_clock);
    let ma = apply_remote(apply_remote(m, a.op, op_stamp(a)), b.op, op_stamp(b));
    assert(x.nodes == ma.nodes && x.tomb_nodes == ma.tomb_nodes && x.edges == ma.edges);
    assert(x.tomb_edges == ma.tomb_edges && x.node_stamps == ma.node_stamps && x.edge_stamps == ma.edge_stamps);
    assert(x.log == m.log && y.log == m.log);
}

/// Moving one change to the end of a clash-free sequence does not change
/// what taking them all in gives.
proof fn lemma_take_in_move(m: CrdtModel, a: Seq<OperationView>, x: OperationView, b: Seq<OperationView>)
    requires
        clash_free(a + seq![x] + b),
    ensures
        take_in_all(m, a + seq![x] + b) == take_in_all(m, a + b + seq![x]),
    decreases b.len(),
{
    let whole = a + seq![x] + b;
    if b.len() == 0 {
        assert(a + seq![x] + b =~= a + b + seq![x]);
    } else {
        let b1 = b.drop_last();
        let y = b.last();
        assert(clash_free(a + seq![x] + b1)) by {
            assert forall|p: OperationView, q: OperationView| #![trigger (a + seq![x] + b1).contains(p), (a + seq![x] + b1).contains(q)]
                (a + seq![x] + b1).contains(p) && (a + seq![x] + b1).contains(q) && same_element(p.op, q.op)
                && op_stamp(p) == op_stamp(q) implies p.op == q.op by {
                let i = choose|i: int| 0 <= i < (a + seq![x] + b1).len() && (a + seq![x] + b1)[i] == p;
                let j = choose|j: int| 0 <= j < (a + seq![x] + b1).len() && (a + seq![x] + b1)[j] == q;
                assert(whole[i] == p && whole[j] == q);
                assert(whole.contains(p) && whole.contains(q));
            }
        }
        lemma_take_in_move(m, a, x, b1);
        assert((a + seq![x] + b).drop_last() =~= a + seq![x] + b1);
        assert((a + seq![x] + b).last() == y);
        assert((a + b1 + seq![x]).drop_last() =~= a + b1);
        assert((a + b + seq![x]).drop_last() =~= a + b1 + seq![y]);
        assert((a + b1 + seq![y]).drop_last() =~= a + b1);
        assert(whole[a.len() as int] == x && whole[whole.len() - 1] == y);
        assert(whole.contains(x) && whole.contains(y));
        lemma_take_in_commute(take_in_all(m, a + b1), x, y);
        let base = take_in_all(m, a + b1);
        assert((a + b + seq![x]).last() == x);
        assert((a + b1 + seq![x]).last() == x);
        assert((a + b1 + seq![y]).last() == y);
        assert(take_in_all(m, whole) == take_in(take_in_all(m, a + seq![x] + b1), y));
        assert(take_in_all(m, a + b1 + seq![x]) == take_in(base, x));
        assert(take_in_all(m, a + b1 + seq![y]) == take_in(base, y));
        assert(take_in_all(m, a + b + seq![x]) == take_in(take_in_all(m, a + b1 + seq![y]), x));
    }
}

/// Clash-freedom depends only on which changes a sequence holds.
proof fn lemma_clash_free_subset(s: Seq<OperationView>, t: Seq<OperationView>)
    requires
        clash_free(s),
        forall|o: OperationView| #[trigger] t.contains(o) ==> s.contains(o),
    ensures
        clash_free(t),
{
    assert forall|a: OperationView, b: OperationView| #![trigger t.contains(a), t.contains(b)]
        t.contains(a) && t.contains(b) && same_element(a.op, b.op) && op_stamp(a) == op_stamp(b) implies a.op == b.op by {
        assert(s.contains(a) && s.contains(b));
    }
}

/// Taking in a clash-free batch of changes gives the same state in every
/// order.
proof fn lemma_take_in_permutation(m: CrdtModel, s1: Seq<OperationView>, s2: Seq<OperationView>)
    requires
        s1.to_multiset() == s2.to_multiset(),
        clash_free(s1),
    ensures
        take_in_all(m, s1) == take_in_all(m, s2),
    decreases s1.len(),
{
    broadcast use vstd::multiset::group_multiset_axioms;
    assert forall|o: OperationView| #[trigger] s2.contains(o) <==> s1.contains(o) by {
        assert(s2.contains(o) <==> s2.to_multiset().count(o) > 0);
        assert(s1.contains(o) <==> s1.to_multiset().count(o) > 0);
    }
    assert(s1.to_multiset().len() == s1.len());
    assert(s2.to_multiset().len() == s2.len());
    if s1.len() == 0 {
        assert(s2.len() == 0);
        assert(s2 =~= s1);
    } else {
        let x = s1.last();
        let pre = s1.drop_last();
        assert(s1.contains(x)) by {
            assert(s1[s1.len() - 1] == x);
        }
        assert(s2.contains(x));
        let k = choose|k: int| 0 <= k < s2.len() && s2[k] == x;
        let a = s2.take(k);
        let b = s2.skip(k + 1);
        assert(s2 =~= a + seq![x] + b) by {
            assert forall|i: int| 0 <= i < s2.len() implies #[trigger] s2[i] == (a + seq![x] + b)[i] by {
                if i < k {
                } else if i == k {
                } else {
                    assert(b[i - k - 1] == s2[i]);
                }
            }
        }
        lemma_clash_free_subset(s1, s2);
        lemma_take_in_move(m, a, x, b);
        assert((a + b + seq![x]).drop_last() =~= a + b);
        assert((a + b + seq![x]).last() == x);
        // the multiset of `a + b` is that of the rest of `s1`
        assert(pre.push(x) =~= s1);
        assert((a + b).push(x) =~= a + b + seq![x]);
        lemma_multiset_commutative(a + seq![x], b);
        lemma_multiset_commutative(a, b);
        assert(a + seq![x] =~= a.push(x));
        assert(s1.to_multiset() =~= pre.to_multiset().insert(x));
        assert(s2.to_multiset() =~= (a + b).to_multiset().insert(x));
        assert forall|y: OperationView| #[trigger] pre.to_multiset().count(y) == (a + b).to_multiset().count(y) by {
            assert(s1.to_multiset().count(y) == pre.to_multiset().insert(x).count(y));
            assert(s2.to_multiset().count(y) == (a + b).to_multiset().insert(x).count(y));
        }
        assert(pre.to_multiset() =~= (a + b).to_multiset());
        assert forall|o: OperationView| #[trigger] pre.contains(o) implies s1.contains(o) by {
            let i = choose|i: int| 0 <= i < pre.len() && pre[i] == o;
            assert(s1[i] == o);
        }
        lemma_clash_free_subset(s1, pre);
        lemma_take_in_permutation(m, pre, a + b);
    }
}

/// A clock value that beats a replica's counter and every change's counter
/// for a peer beats the counter left after taking the changes in.
proof fn lemma_take_in_clock_bound(m: CrdtModel, s: Seq<OperationView>, p: u128, v: int)
    requires
        v > clock_of(m.clock, p),
        forall|j: int| 0 <= j < s.len() ==> v > clock_of(#[trigger] s[j].vector_clock, p),
    ensures
        v > clock_of(take_in_all(m, s).clock, p),
    decreases s.len(),
{
    if s.len() > 0 {
        let pre = s.drop_last();
        assert forall|j: int| 0 <= j < pre.len() implies v > clock_of(#[trigger] pre[j].vector_clock, p) by {
            assert(pre[j] == s[j]);
        }
        lemma_take_in_clock_bound(m, pre, p, v);
        assert(v > clock_of(s[s.len() - 1].vector_clock, p));
    }
}

/// Change `o` carries a counter of its own for peer `p`: higher than the
/// replica's and than every other change of `s` has for `p`.
pub open spec fn own_peer(c: Map<u128, u64>, s: Seq<OperationView>, o: OperationView, p: u128) -> bool {
    &&& o.vector_clock.contains_key(p)
    &&& o.vector_clock[p] > clock_of(c, p)
    &&& forall|o2: OperationView| #[trigger] s.contains(o2) && o2 != o ==> o.vector_clock[p] > clock_of(o2.vector_clock, p)
}

/// Every change of `s` carries a counter of its own: the changes are
/// pairwise concurrent and none is already known to a replica with clock `c`.
pub open spec fn own_counters(c: Map<u128, u64>, s: Seq<OperationView>) -> bool {
    forall|o: OperationView| #[trigger] s.contains(o) ==> exists|p: u128| own_peer(c, s, o, p)
}

/// A batch of changes that each carry a counter of their own is merged
/// without skipping any: the result is taking them all in, with the log
/// extended by the batch.
proof fn lemma_merge_no_skip(m: CrdtModel, s: Seq<OperationView>)
    requires
        own_counters(m.clock, s),
        s.no_duplicates(),
    ensures
        merge_ops(m, s) == (CrdtModel { log: m.log + s, ..take_in_all(m, s) }),
    decreases s.len(),
{
    if s.len() == 0 {
        assert(m.log + s =~= m.log);
    } else {
        let pre = s.drop_last();
        let o = s.last();
        assert forall|q: OperationView| #[trigger] pre.contains(q) implies s.contains(q) by {
            let i = choose|i: int| 0 <= i < pre.len() && pre[i] == q;
            assert(s[i] == q);
        }
        assert(own_counters(m.clock, pre)) by {
            assert forall|q: OperationView| #[trigger] pre.contains(q) implies exists|p: u128| own_peer(m.clock, pre, q, p) by {
                let p = choose|p: u128| own_peer(m.clock, s, q, p);
                assert(own_peer(m.clock, pre, q, p));
            }
        }
        lemma_merge_no_skip(m, pre);
        let t = take_in_all(m, pre);
        assert(s.contains(o)) by {
            assert(s[s.len() - 1] == o);
        }
        let p = choose|p: u128| own_peer(m.clock, s, o, p);
        assert forall|j: int| 0 <= j < pre.len() implies o.vector_clock[p] > clock_of(#[trigger] pre[j].vector_clock, p) by {
            assert(pre[j] == s[j]);
            assert(s.contains(s[j]));
            assert(s[j] != s[s.len() - 1]);
        }
        lemma_take_in_clock_bound(m, pre, p, o.vector_clock[p] as int);
        assert(!clock_covers(t.clock, o.vector_clock));
        assert((m.log + pre).push(o) =~= m.log + s);
    }
}

/// Convergence: replicas in the same state that merge the same batch of
/// pairwise-concurrent changes (each carrying a counter no other change and
/// no replica has reached, no change repeated, and no two deciding the same
/// element with the same stamp unless they are the same change), in any two
/// orders, end with the same live and tombstoned nodes and edges, the same
/// stamps and the same clock; their logs hold the same changes.
pub proof fn lemma_merge_batch_converges(m: CrdtModel, ops1: Seq<OperationView>, ops2: Seq<OperationView>)
    requires
        ops1.to_multiset() == ops2.to_multiset(),
        ops1.no_duplicates(),
        own_counters(m.clock, ops1),
        clash_free(ops1),
    ensures
        ({
            let x = merge_ops(m, ops1);
            let y = merge_ops(m, ops2);
            &&& x.nodes == y.nodes
            &&& x.tomb_nodes == y.tomb_nodes
            &&& x.edges == y.edges
            &&& x.tomb_edges == y.tomb_edges
            &&& x.node_stamps == y.node_stamps
            &&& x.edge_stamps == y.edge_stamps
            &&& x.clock == y.clock
            &&& x.log.to_multiset() == y.log.to_multiset()
        }),
{
    broadcast use vstd::multiset::group_multiset_axioms;
    assert forall|o: OperationView| #[trigger] ops2.contains(o) <==> ops1.contains(o) by {
        assert(ops2.contains(o) <==> ops2.to_multiset().count(o) > 0);
        assert(ops1.contains(o) <==> ops1.to_multiset().count(o) > 0);
    }
    ops1.lemma_multiset_has_no_duplicates();
    ops2.lemma_multiset_has_no_duplicates_conv();
    assert(own_counters(m.clock, ops2)) by {
        assert forall|q: OperationView| #[trigger] ops2.contains(q) implies exists|p: u128| own_peer(m.clock, ops2, q, p) by {
            assert(ops1.contains(q));
            let p = choose|p: u128| own_peer(m.clock, ops1, q, p);
            assert(own_peer(m.clock, ops2, q, p));
        }
    }
    lemma_merge_no_skip(m, ops1);
    lemma_merge_no_skip(m, ops2);
    lemma_take_in_permutation(m, ops1, ops2);
    lemma_multiset_commutative(m.log, ops1);
    lemma_multiset_commutative(m.log, ops2);
}

/// The element a remote change names is decided by it when no change
/// decided that element before, or when its stamp beats the one that did.
pub open spec fn decides_element(stamps: Map<u128, (Timestamp, u128)>, k: u128, o: OperationView) -> bool {
    !stamps.contains_key(k) || beats((o.timestamp, o.writer_id), stamps[k])
}

/// Merging one remote change that this replica's clock does not cover yet.
/// When the change decides the node or edge it names, an added one becomes
/// live (an edge with the given ends) and leaves the tombstones, a removed
/// one stops being live and is tombstoned, and the change's stamp is
/// recorded for it; when it does not decide it, that element keeps its
/// state. Every other node and edge keeps its state, the change is logged,
/// and the replica's clock covers the change's clock afterwards.
pub proof fn lemma_merge_op_decides_element(m: CrdtModel, o: OperationView)
    requires
        !clock_covers(m.clock, o.vector_clock),
    ensures
        ({
            let r = merge_op(m, o);
            let st = (o.timestamp, o.writer_id);
            &&& r.log == m.log.push(o)
            &&& clock_covers(r.clock, o.vector_clock)
            &&& match o.op {
                GraphOpView::AddNode { node_id } => if decides_element(m.node_stamps, node_id, o) {
                    &&& r.nodes.contains(node_id) && !r.tomb_nodes.contains(node_id)
                    &&& r.node_stamps.contains_key(node_id) && r.node_stamps[node_id] == st
                    &&& r.nodes.remove(node_id) == m.nodes.remove(node_id)
                    &&& r.tomb_nodes.remove(node_id) == m.tomb_nodes.remove(node_id)
                    &&& r.edges == m.edges && r.tomb_edges == m.tomb_edges
                } else {
                    r.nodes == m.nodes && r.tomb_nodes == m.tomb_nodes && r.node_stamps == m.node_stamps
                        && r.edges == m.edges && r.tomb_edges == m.tomb_edges
                },
                GraphOpView::RemoveNode { node_id } => if decides_element(m.node_stamps, node_id, o) {
                    &&& !r.nodes.contains(node_id) && r.tomb_nodes.contains(node_id)
                    &&& r.node_stamps.contains_key(node_id) && r.node_stamps[node_id] == st
                    &&& r.nodes.remove(node_id) == m.nodes.remove(node_id)
                    &&& r.tomb_nodes.remove(node_id) == m.tomb_nodes.remove(node_id)
                    &&& r.edges == m.edges && r.tomb_edges == m.tomb_edges
                } else {
                    r.nodes == m.nodes && r.tomb_nodes == m.tomb_nodes && r.node_stamps == m.node_stamps
                        && r.edges == m.edges && r.tomb_edges == m.tomb_edges
                },
                GraphOpView::AddEdge { edge_id, source, target } => if decides_element(m.edge_stamps, edge_id, o) {
                    &&& r.edges.contains_key(edge_id) && r.edges[edge_id] == (source, target)
                    &&& !r.tomb_edges.contains(edge_id)
                    &&& r.edge_stamps.contains_key(edge_id) && r.edge_stamps[edge_id] == st
                    &&& r.edges.remove(edge_id) == m.edges.remove(edge_id)
                    &&& r.tomb_edges.remove(edge_id) == m.tomb_edges.remove(edge_id)
                    &&& r.nodes == m.nodes && r.tomb_nodes == m.tomb_nodes
                } else {
                    r.edges == m.edges && r.tomb_edges == m.tomb_edges && r.edge_stamps == m.edge_stamps
                        && r.nodes == m.nodes && r.tomb_nodes == m.tomb_nodes
                },
                GraphOpView::RemoveEdge { edge_id } => if decides_element(m.edge_stamps, edge_id, o) {
                    &&& !r.edges.contains_key(edge_id) && r.tomb_edges.contains(edge_id)
                    &&& r.edge_stamps.contains_key(edge_id) && r.edge_stamps[edge_id] == st
                    &&& r.edges.remove(edge_id) == m.edges.remove(edge_id)
                    &&& r.tomb_edges.remove(edge_id) == m.tomb_edges.remove(edge_id)
                    &&& r.nodes == m.nodes && r.tomb_nodes == m.tomb_nodes
                } else {
                    r.edges == m.edges && r.tomb_edges == m.tomb_edges && r.edge_stamps == m.edge_stamps
                        && r.nodes == m.nodes && r.tomb_nodes == m.tomb_nodes
                },
                _ => r.nodes == m.nodes && r.tomb_nodes == m.tomb_nodes && r.edges == m.edges
                    && r.tomb_edges == m.tomb_edges,
            }
        }),
{
    let a = apply_remote(m, o.op, op_stamp(o));
    lemma_join_clock(a.clock, o.vector_clock);
    let r = merge_op(m, o);
    match o.op {
        GraphOpView::AddNode { node_id } => {
            assert(r.nodes.remove(node_id) =~= m.nodes.remove(node_id));
            assert(r.tomb_nodes.remove(node_id) =~= m.tomb_nodes.remove(node_id));
        },
        GraphOpView::RemoveNode { node_id } => {
            assert(r.nodes.remove(node_id) =~= m.nodes.remove(node_id));
            assert(r.tomb_nodes.remove(node_id) =~= m.tomb_nodes.remove(node_id));
        },
        GraphOpView::AddEdge { edge_id, .. } => {
            assert(r.edges.remove(edge_id) =~= m.edges.remove(edge_id));
            assert(r.tomb_edges.remove(edge_id) =~= m.tomb_edges.remove(edge_id));
        },
        GraphOpView::RemoveEdge { edge_id } => {
            assert(r.edges.remove(edge_id) =~= m.edges.remove(edge_id));
            assert(r.tomb_edges.remove(edge_id) =~= m.tomb_edges.remove(edge_id));
        },
        _ => {},
    }
}

/// A remote change that this replica's clock already covers changes nothing.
pub proof fn lemma_merge_op_covered(m: CrdtModel, o: OperationView)
    requires
        clock_covers(m.clock, o.vector_clock),
    ensures
        merge_op(m, o) == m,
{
}

/// Joining two vector clocks takes, for every peer, the larger of the two
/// counters (an absent counter counting as 0), and names exactly the peers
/// that either clock names.
pub proof fn lemma_join_clock_is_max(local: Map<u128, u64>, remote: Map<u128, u64>)
    ensures
        forall|p: u128| #[trigger] clock_of(join_clock(local, remote), p)
            == if clock_of(local, p) >= clock_of(remote, p) { clock_of(local, p) } else { clock_of(remote, p) },
        join_clock(local, remote).dom() == local.dom().union(remote.dom()),
{
    assert(join_clock(local, remote).dom() =~= local.dom().union(remote.dom()));
}

} // verus!
