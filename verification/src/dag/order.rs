//! Roots, leaves and a topological order of the story graph.
use vstd::prelude::*;
use std::collections::HashMap;
use crate::dag::graph::{DirectedAcyclicGraph, lemma_push_no_dup};
use crate::dag::removal::{lemma_minus_contains, lemma_minus_empty, lemma_minus_insert, lemma_minus_no_dups, lemma_without_len, lemma_minus_congruent, minus};
use crate::types::SpError;

verus! {

broadcast use {vstd::std_specs::hash::group_hash_axioms, vstd::seq_lib::group_seq_properties, vstd::set::group_set_axioms};

impl DirectedAcyclicGraph {
    /// The nodes whose in-degree entry is 0, each once, in the table's
    /// iteration order.
    pub fn root_nodes(&self) -> (r: Vec<u128>)
        ensures
            r@.no_duplicates(),
            forall|k: u128| #[trigger] r@.contains(k) <==> (self.in_degree@.contains_key(k) && self.in_degree@[k] == 0),
    {
        let mut r: Vec<u128> = Vec::new();
        let ghost mut seen: Set<u128> = Set::empty();
        for k in it: self.in_degree.keys()
            invariant
                r@.no_duplicates(),
                it.seq().no_duplicates(),
                it.seq().len() == self.in_degree@.dom().len(),
                it.seq().unref().to_set() == self.in_degree@.dom(),
                seen.finite(),
                seen.len() == it.index(),
                seen.subset_of(self.in_degree@.dom()),
                forall|x: u128| #[trigger] seen.contains(x) <==> (exists|j: int| 0 <= j < it.index() && *it.seq()[j] == x),
                forall|x: u128| #[trigger] r@.contains(x) <==> (seen.contains(x) && self.in_degree@[x] == 0),
        {
            let ghost pos = it.index();
            assert(it.seq()[pos] == k);
            assert(!seen.contains(*k)) by {
                if seen.contains(*k) {
                    let j = choose|j: int| 0 <= j < pos && *it.seq()[j] == *k;
                    assert(it.seq()[j] == it.seq()[pos]);
                }
            }
            proof {
                assert(it.seq().unref().contains(*k)) by {
                    assert(it.seq().unref()[pos] == *k);
                }
                assert(it.seq().unref().to_set().contains(*k));
            }
            let d = *self.in_degree.get(k).unwrap();
            if d == 0 {
                proof {
                    lemma_push_no_dup(r@, *k);
                }
                r.push(*k);
            }
            proof {
                seen = seen.insert(*k);
            }
        }
        proof {
            vstd::set_lib::lemma_subset_equality(seen, self.in_degree@.dom());
        }
        r
    }

    /// The nodes without outgoing edges, each once, in the node table's
    /// iteration order.
    pub fn leaf_nodes(&self) -> (r: Vec<u128>)
        ensures
            r@.no_duplicates(),
            forall|k: u128| #[trigger] r@.contains(k) <==> (self.nodes@.contains_key(k) && self.out_list(k).len() == 0),
    {
        let mut r: Vec<u128> = Vec::new();
        let ghost mut seen: Set<u128> = Set::empty();
        for k in it: self.nodes.keys()
            invariant
                r@.no_duplicates(),
                it.seq().no_duplicates(),
                it.seq().len() == self.nodes@.dom().len(),
                it.seq().unref().to_set() == self.nodes@.dom(),
                seen.finite(),
                seen.len() == it.index(),
                seen.subset_of(self.nodes@.dom()),
                forall|x: u128| #[trigger] seen.contains(x) <==> (exists|j: int| 0 <= j < it.index() && *it.seq()[j] == x),
                forall|x: u128| #[trigger] r@.contains(x) <==> (seen.contains(x) && self.out_list(x).len() == 0),
        {
            let ghost pos = it.index();
            assert(it.seq()[pos] == k);
            assert(!seen.contains(*k)) by {
                if seen.contains(*k) {
                    let j = choose|j: int| 0 <= j < pos && *it.seq()[j] == *k;
                    assert(it.seq()[j] == it.seq()[pos]);
                }
            }
            proof {
                assert(it.seq().unref().contains(*k)) by {
                    assert(it.seq().unref()[pos] == *k);
                }
                assert(it.seq().unref().to_set().contains(*k));
            }
            let is_leaf = match self.out_edges.get(k) {
                Some(v) => v.len() == 0,
                None => true,
            };
            if is_leaf {
                proof {
                    lemma_push_no_dup(r@, *k);
                }
                r.push(*k);
            }
            proof {
                seen = seen.insert(*k);
            }
        }
        proof {
            vstd::set_lib::lemma_subset_equality(seen, self.nodes@.dom());
        }
        r
    }
}

impl DirectedAcyclicGraph {
    /// `s` lists every node exactly once, and the source of every edge comes
    /// before its target.
    pub open spec fn is_topological_order(&self, s: Seq<u128>) -> bool {
        &&& s.no_duplicates()
        &&& forall|k: u128| #[trigger] s.contains(k) <==> self.nodes@.contains_key(k)
        &&& forall|e: u128, i: int, j: int|
            #![trigger self.edges@[e], s[i], s[j]]
            self.edges@.contains_key(e) && 0 <= i < s.len() && 0 <= j < s.len()
                && s[i] == self.edges@[e].source && s[j] == self.edges@[e].target ==> i < j
    }

    /// The incoming edges of `v` that have not been taken off yet.
    pub open spec fn pending(&self, v: u128, taken: Set<u128>) -> Seq<u128> {
        minus(self.in_list(v), taken)
    }

    /// Orders the nodes so that every edge points forward (Kahn's method):
    /// the nodes of in-degree 0 go first, and a node follows as soon as all
    /// of its incoming edges have been passed. Fails when some node is never
    /// freed, which happens exactly when the graph has a cycle.
    pub fn topological_sort(&self) -> (r: Result<Vec<u128>, SpError>)
        requires
            self.wf(),
        ensures
            match r {
                Ok(order) => self.is_topological_order(order@),
                Err(e) => e matches SpError::Internal(msg) && msg@ == "拓扑排序失败: 图中存在环路"@,
            },
            r is Ok <==> self.acyclic(),
    {
        let mut deg: HashMap<u128, usize> = self.in_degree.clone();
        let mut order: Vec<u128> = self.root_nodes();
        let mut head: usize = 0;
        let ghost mut taken: Set<u128> = Set::empty();
        proof {
            assert forall|v: u128| #[trigger] self.pending(v, taken) == self.in_list(v) by {
                lemma_minus_empty(self.in_list(v));
            }
            self.lemma_order_fits(order@);
        }
        while head < order.len()
            invariant
                self.wf(),
                deg@.dom() == self.in_degree@.dom(),
                order@.no_duplicates(),
                forall|v: u128| #[trigger] order@.contains(v) ==> self.nodes@.contains_key(v),
                order@.len() <= self.nodes@.len(),
                head <= order@.len(),
                forall|v: u128| #[trigger] deg@.contains_key(v) ==> deg@[v] == self.pending(v, taken).len(),
                forall|v: u128| #[trigger] deg@.contains_key(v) ==> (order@.contains(v) <==> deg@[v] == 0),
                forall|e: u128| #[trigger] taken.contains(e) <==> (self.edges@.contains_key(e)
                    && order@.take(head as int).contains(self.edges@[e].source)),
                forall|e: u128, i: int, j: int|
                    #![trigger taken.contains(e), order@[i], order@[j]]
                    taken.contains(e) && 0 <= i < order@.len() && 0 <= j < order@.len()
                        && order@[i] == self.edges@[e].source && order@[j] == self.edges@[e].target ==> i < j,
            decreases self.nodes@.len() - head,
        {
            let current = order[head];
            let ghost before = taken;
            proof {
                assert(order@.take(head as int + 1) =~= order@.take(head as int).push(current));
                assert(!order@.take(head as int).contains(current)) by {
                    if order@.take(head as int).contains(current) {
                        let q = choose|q: int| 0 <= q < head && order@.take(head as int)[q] == current;
                        assert(order@[q] == order@[head as int]);
                    }
                }
            }
            head += 1;
            match self.out_edges.get(&current) {
                Some(edge_ids) => {
                    let mut i: usize = 0;
                    while i < edge_ids.len()
                        invariant
                            self.wf(),
                            deg@.dom() == self.in_degree@.dom(),
                            order@.no_duplicates(),
                            forall|v: u128| #[trigger] order@.contains(v) ==> self.nodes@.contains_key(v),
                            order@.len() <= self.nodes@.len(),
                            1 <= head <= order@.len(),
                            order@[head - 1] == current,
                            self.out_edges@.contains_key(current),
                            edge_ids@ == self.out_list(current),
                            i <= edge_ids@.len(),
                            forall|v: u128| #[trigger] deg@.contains_key(v) ==> deg@[v] == self.pending(v, taken).len(),
                            forall|v: u128| #[trigger] deg@.contains_key(v) ==> (order@.contains(v) <==> deg@[v] == 0),
                            forall|e: u128| #[trigger] taken.contains(e) <==> (self.edges@.contains_key(e)
                                && (order@.take(head - 1).contains(self.edges@[e].source)
                                    || edge_ids@.take(i as int).contains(e))),
                            forall|e: u128, a: int, b: int|
                                #![trigger taken.contains(e), order@[a], order@[b]]
                                taken.contains(e) && 0 <= a < order@.len() && 0 <= b < order@.len()
                                    && order@[a] == self.edges@[e].source && order@[b] == self.edges@[e].target ==> a < b,
                        decreases edge_ids@.len() - i,
                    {
                        let eid = edge_ids[i];
                        let ghost hp: int = head - 1;
                        let ghost tb = taken;
                        let ghost ob = order@;
                        let ghost t0 = self.edges@[eid].target;
                        proof {
                            assert(self.edges@.contains_key(self.out_list(current)[i as int]));
                            assert(self.edges@[eid].source == current);
                            assert(self.nodes@.contains_key(t0));
                            assert(deg@.contains_key(t0));
                            assert(!taken.contains(eid)) by {
                                if taken.contains(eid) {
                                    if order@.take(hp).contains(current) {
                                        let q = choose|q: int| 0 <= q < head - 1 && order@.take(hp)[q] == current;
                                        assert(order@[q] == order@[hp]);
                                    } else {
                                        let q = choose|q: int| 0 <= q < i && edge_ids@.take(i as int)[q] == eid;
                                        assert(edge_ids@[q] == edge_ids@[i as int]);
                                    }
                                }
                            }
                            assert(self.in_list(t0).contains(eid));
                            lemma_minus_contains(self.in_list(t0), taken, eid);
                            assert(deg@[t0] >= 1);
                            assert(!order@.contains(t0));
                        }
                        let edge = self.edges.get(&eid).unwrap();
                        let t = edge.target;
                        let dv: usize = *deg.get(&t).unwrap();
                        let nd: usize = dv - 1;
                        deg.insert(t, nd);
                        if nd == 0 {
                            proof {
                                lemma_push_no_dup(order@, t);
                                self.lemma_order_fits(order@.push(t));
                            }
                            order.push(t);
                        }
                        proof {
                            taken = taken.insert(eid);
                            assert(edge_ids@.take(i as int + 1) =~= edge_ids@.take(i as int).push(eid));
                            assert(order@.take(hp) =~= ob.take(hp));
                            assert forall|v: u128| #[trigger] deg@.contains_key(v) implies deg@[v] == self.pending(v, taken).len() by {
                                if v == t0 {
                                    lemma_minus_no_dups(self.in_list(t0), tb);
                                    lemma_without_len(minus(self.in_list(t0), tb), eid);
                                    lemma_minus_insert(self.in_list(t0), tb, eid);
                                } else {
                                    assert forall|x: u128| #[trigger] self.in_list(v).contains(x)
                                        implies (taken.contains(x) <==> tb.contains(x)) by {
                                        let q = choose|q: int| 0 <= q < self.in_list(v).len() && self.in_list(v)[q] == x;
                                        assert(self.edges@.contains_key(self.in_list(v)[q]));
                                    }
                                    lemma_minus_congruent(self.in_list(v), taken, tb);
                                }
                            }
                            assert forall|v: u128| #[trigger] order@.contains(v) implies self.nodes@.contains_key(v) by {
                                if v != t0 {
                                    assert(ob.contains(v));
                                }
                            }
                            assert forall|v: u128| #[trigger] deg@.contains_key(v) implies (order@.contains(v) <==> deg@[v] == 0) by {
                                if v != t0 {
                                    assert(order@.contains(v) <==> ob.contains(v));
                                }
                            }
                            assert forall|e: u128, a: int, b: int|
                                #![trigger taken.contains(e), order@[a], order@[b]]
                                taken.contains(e) && 0 <= a < order@.len() && 0 <= b < order@.len()
                                    && order@[a] == self.edges@[e].source && order@[b] == self.edges@[e].target implies a < b by {
                                if a < ob.len() && b < ob.len() {
                                    if e == eid {
                                        assert(ob[hp] == current);
                                        assert(!ob.contains(t0));
                                        assert(ob.contains(ob[b]));
                                    } else {
                                        assert(tb.contains(e));
                                        assert(ob[a] == order@[a]);
                                        assert(ob[b] == order@[b]);
                                    }
                                } else {
                                    if b >= ob.len() {
                                        if a >= ob.len() {
                                        } else {
                                            assert(a < head) by {
                                                if e == eid {
                                                    assert(ob[hp] == current);
                                                    assert(ob[a] == current);
                                                } else if ob.take(hp).contains(self.edges@[e].source) {
                                                    let q = choose|q: int| 0 <= q < head - 1 && ob.take(hp)[q] == self.edges@[e].source;
                                                    assert(ob[q] == ob[a]);
                                                } else {
                                                    assert(self.edges@[e].source == current);
                                                    assert(ob[hp] == ob[a]);
                                                }
                                            }
                                        }
                                    } else {
                                        assert(a >= ob.len());
                                        assert(order@[a] == t0);
                                        assert(self.edges@[e].source == t0);
                                        if e == eid {
                                            assert(ob.contains(ob[hp]));
                                        } else {
                                            assert(tb.contains(e));
                                            if ob.take(hp).contains(t0) {
                                                let q = choose|q: int| 0 <= q < head - 1 && ob.take(hp)[q] == t0;
                                                assert(ob.contains(ob[q]));
                                            } else {
                                                assert(ob.contains(ob[hp]));
                                            }
                                        }
                                    }
                                }
                            }
                        }
                        i += 1;
                    }
                    proof {
                        assert(edge_ids@.take(edge_ids@.len() as int) =~= edge_ids@);
                        assert forall|e: u128| #[trigger] taken.contains(e) <==> (self.edges@.contains_key(e)
                            && order@.take(head as int).contains(self.edges@[e].source)) by {
                            assert(order@.take(head as int) =~= order@.take(head - 1).push(current));
                            if self.edges@.contains_key(e) && self.edges@[e].source == current {
                                assert(self.out_list(current).contains(e));
                            }
                            if edge_ids@.contains(e) {
                                let q = choose|q: int| 0 <= q < edge_ids@.len() && edge_ids@[q] == e;
                                assert(self.edges@.contains_key(self.out_list(current)[q]));
                            }
                        }
                    }
                },
                None => {
                    proof {
                        assert forall|e: u128| #[trigger] taken.contains(e) <==> (self.edges@.contains_key(e)
                            && order@.take(head as int).contains(self.edges@[e].source)) by {
                            assert(order@.take(head as int) =~= order@.take(head - 1).push(current));
                            if self.edges@.contains_key(e) && self.edges@[e].source == current {
                                assert(self.out_list(current).contains(e));
                            }
                        }
                    }
                },
            }
        }
        if order.len() == self.nodes.len() {
            proof {
                self.lemma_kahn_done(order@, taken);
                self.lemma_topological_acyclic(order@);
            }
            Ok(order)
        } else {
            proof {
                assert(order@.take(head as int) =~= order@);
                self.lemma_kahn_stuck(order@, taken, deg@);
            }
            Err(SpError::Internal(String::from_str("拓扑排序失败: 图中存在环路")))
        }
    }
}

impl DirectedAcyclicGraph {
    /// A list of distinct nodes is no longer than the node table.
    proof fn lemma_order_fits(&self, s: Seq<u128>)
        requires
            s.no_duplicates(),
            forall|v: u128| #[trigger] s.contains(v) ==> self.nodes@.contains_key(v),
        ensures
            s.len() <= self.nodes@.len(),
    {
        s.unique_seq_to_set();
        assert(s.to_set().subset_of(self.nodes@.dom()));
        vstd::set_lib::lemma_len_subset(s.to_set(), self.nodes@.dom());
    }

    /// When every node has been placed, the placement is a topological order.
    proof fn lemma_kahn_done(&self, order: Seq<u128>, taken: Set<u128>)
        requires
            self.wf(),
            order.no_duplicates(),
            forall|v: u128| #[trigger] order.contains(v) ==> self.nodes@.contains_key(v),
            order.len() == self.nodes@.len(),
            forall|e: u128| #[trigger] taken.contains(e) <==> (self.edges@.contains_key(e) && order.contains(self.edges@[e].source)),
            forall|e: u128, i: int, j: int|
                #![trigger taken.contains(e), order[i], order[j]]
                taken.contains(e) && 0 <= i < order.len() && 0 <= j < order.len()
                    && order[i] == self.edges@[e].source && order[j] == self.edges@[e].target ==> i < j,
        ensures
            self.is_topological_order(order),
    {
        order.unique_seq_to_set();
        assert(order.to_set().subset_of(self.nodes@.dom()));
        vstd::set_lib::lemma_subset_equality(order.to_set(), self.nodes@.dom());
        assert forall|k: u128| #[trigger] order.contains(k) <==> self.nodes@.contains_key(k) by {
            if self.nodes@.contains_key(k) {
                assert(order.to_set().contains(k));
            }
        }
        assert forall|e: u128, i: int, j: int|
            #![trigger self.edges@[e], order[i], order[j]]
            self.edges@.contains_key(e) && 0 <= i < order.len() && 0 <= j < order.len()
                && order[i] == self.edges@[e].source && order[j] == self.edges@[e].target implies i < j by {
            assert(order.contains(order[i]));
            assert(taken.contains(e));
        }
    }

    /// A graph whose nodes can be put in topological order has no cycle.
    pub proof fn lemma_topological_acyclic(&self, order: Seq<u128>)
        requires
            self.wf(),
            self.is_topological_order(order),
        ensures
            self.acyclic(),
    {
        assert forall|p: Seq<u128>| #[trigger] self.is_walk(p) && p.len() >= 2 implies p[0] != p.last() by {
            let (i, j) = self.lemma_walk_rises(order, p);
        }
    }

    /// Along a walk of one or more steps, the position in a topological order rises.
    proof fn lemma_walk_rises(&self, order: Seq<u128>, p: Seq<u128>) -> (ij: (int, int))
        requires
            self.wf(),
            self.is_topological_order(order),
            self.is_walk(p),
            p.len() >= 2,
        ensures
            0 <= ij.0 < ij.1 < order.len(),
            order[ij.0] == p[0],
            order[ij.1] == p.last(),
        decreases p.len(),
    {
        let k = p.len() - 2;
        assert(self.walk_step(p, k));
        let q = choose|q: int| #[trigger] self.out_link(p[k], q, p[k + 1]);
        assert(self.out_edges@.contains_key(p[k]));
        let e = self.out_list(p[k])[q];
        assert(self.edges@.contains_key(e));
        assert(self.nodes@.contains_key(p[k]));
        assert(self.nodes@.contains_key(p[k + 1]));
        assert(order.contains(p[k]));
        assert(order.contains(p[k + 1]));
        let a = choose|a: int| 0 <= a < order.len() && order[a] == p[k];
        let b = choose|b: int| 0 <= b < order.len() && order[b] == p[k + 1];
        assert(self.edges@[e].source == p[k]);
        assert(a < b);
        if p.len() == 2 {
            (a, b)
        } else {
            let r = p.drop_last();
            assert forall|i: int| 0 <= i < r.len() - 1 implies #[trigger] self.walk_step(r, i) by {
                assert(self.walk_step(p, i));
            }
            let (i0, j0) = self.lemma_walk_rises(order, r);
            assert(order[j0] == order[a]);
            (i0, b)
        }
    }

    /// A walk of `k` nodes, all in `s`, ending at `x`, built backwards by
    /// picking a predecessor inside `s` each time.
    proof fn back_walk(&self, s: Set<u128>, x: u128, k: nat) -> (w: Seq<u128>)
        requires
            s.contains(x),
            k >= 1,
            forall|v: u128| #[trigger] s.contains(v) ==> exists|u: u128| s.contains(u) && self.step(u, v),
        ensures
            w.len() == k,
            self.is_walk(w),
            w.last() == x,
            forall|i: int| 0 <= i < w.len() ==> s.contains(#[trigger] w[i]),
        decreases k,
    {
        if k == 1 {
            let w = seq![x];
            assert(self.is_walk(w));
            w
        } else {
            let w0 = self.back_walk(s, x, (k - 1) as nat);
            assert(s.contains(w0[0]));
            let u = choose|u: u128| s.contains(u) && self.step(u, w0[0]);
            let w = seq![u] + w0;
            assert forall|i: int| 0 <= i < w.len() - 1 implies #[trigger] self.walk_step(w, i) by {
                if i > 0 {
                    assert(self.walk_step(w0, i - 1));
                }
            }
            assert forall|i: int| 0 <= i < w.len() implies s.contains(#[trigger] w[i]) by {
                if i > 0 {
                    assert(w[i] == w0[i - 1]);
                }
            }
            w
        }
    }

    /// If every node of a non-empty finite set has a predecessor in the set,
    /// the graph has a cycle.
    pub proof fn lemma_back_closed_cycle(&self, s: Set<u128>, x: u128)
        requires
            s.finite(),
            s.contains(x),
            forall|v: u128| #[trigger] s.contains(v) ==> exists|u: u128| s.contains(u) && self.step(u, v),
        ensures
            !self.acyclic(),
    {
        let w = self.back_walk(s, x, s.len() + 1);
        assert(w.to_set().subset_of(s)) by {
            assert forall|y: u128| #[trigger] w.to_set().contains(y) implies s.contains(y) by {
                assert(w.contains(y));
                let i = choose|i: int| 0 <= i < w.len() && w[i] == y;
            }
        }
        vstd::set_lib::lemma_len_subset(w.to_set(), s);
        if w.no_duplicates() {
            w.unique_seq_to_set();
        }
        assert(!w.no_duplicates());
        let (i, j) = choose|i: int, j: int| 0 <= i < w.len() && 0 <= j < w.len() && i != j && w[i] == w[j];
        let lo = if i < j { i } else { j };
        let hi = if i < j { j } else { i };
        let p = w.subrange(lo, hi + 1);
        assert forall|m: int| 0 <= m < p.len() - 1 implies #[trigger] self.walk_step(p, m) by {
            assert(self.walk_step(w, lo + m));
        }
        assert(self.is_walk(p) && p.len() >= 2);
        assert(p[0] == p.last());
    }

    /// When the search stops before every node is placed, the unplaced nodes
    /// each wait on an unplaced predecessor, so the graph has a cycle.
    proof fn lemma_kahn_stuck(&self, order: Seq<u128>, taken: Set<u128>, deg: Map<u128, usize>)
        requires
            self.wf(),
            deg.dom() == self.in_degree@.dom(),
            order.no_duplicates(),
            forall|v: u128| #[trigger] order.contains(v) ==> self.nodes@.contains_key(v),
            order.len() != self.nodes@.len(),
            forall|v: u128| #[trigger] deg.contains_key(v) ==> deg[v] == self.pending(v, taken).len(),
            forall|v: u128| #[trigger] deg.contains_key(v) ==> (order.contains(v) <==> deg[v] == 0),
            forall|e: u128| #[trigger] taken.contains(e) <==> (self.edges@.contains_key(e) && order.contains(self.edges@[e].source)),
        ensures
            !self.acyclic(),
    {
        self.lemma_order_fits(order);
        order.unique_seq_to_set();
        let s = self.nodes@.dom().difference(order.to_set());
        assert(order.to_set().subset_of(self.nodes@.dom()));
        if s.is_empty() {
            assert(self.nodes@.dom() =~= order.to_set()) by {
                assert forall|v: u128| #[trigger] self.nodes@.dom().contains(v) implies order.to_set().contains(v) by {
                    assert(!s.contains(v));
                }
            }
            assert(false);
        }
        let x = s.choose();
        assert forall|v: u128| #[trigger] s.contains(v) implies exists|u: u128| s.contains(u) && self.step(u, v) by {
            assert(deg.contains_key(v));
            assert(!order.contains(v)) by {
                if order.contains(v) {
                    assert(order.to_set().contains(v));
                }
            }
            let pend = self.pending(v, taken);
            assert(pend.len() > 0);
            let e = pend[0];
            assert(pend.contains(e));
            lemma_minus_contains(self.in_list(v), taken, e);
            let qi = choose|qi: int| 0 <= qi < self.in_list(v).len() && self.in_list(v)[qi] == e;
            assert(self.in_edges@.contains_key(v));
            assert(self.edges@.contains_key(self.in_list(v)[qi]));
            let u = self.edges@[e].source;
            assert(!order.contains(u));
            assert(self.nodes@.contains_key(u));
            assert(!order.to_set().contains(u));
            assert(s.contains(u));
            assert(self.out_list(u).contains(e));
            let qo = choose|qo: int| 0 <= qo < self.out_list(u).len() && self.out_list(u)[qo] == e;
            assert(self.out_link(u, qo, v));
            assert(self.step(u, v));
        }
        self.lemma_back_closed_cycle(s, x);
    }
}

} // verus!
