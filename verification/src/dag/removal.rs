//! Removing a node together with every edge that touches it.
use vstd::prelude::*;
use std::collections::HashMap;
use crate::dag::graph::{DirectedAcyclicGraph, vec_without, without};

verus! {

broadcast use {vstd::std_specs::hash::group_hash_axioms, vstd::seq_lib::group_seq_properties};

/// `s` with every element of `d` left out, order kept.
pub open spec fn minus(s: Seq<u128>, d: Set<u128>) -> Seq<u128>
    decreases s.len(),
{
    if s.len() == 0 {
        s
    } else if d.contains(s.last()) {
        minus(s.drop_last(), d)
    } else {
        minus(s.drop_last(), d).push(s.last())
    }
}

/// What is left of `s` is what it held outside `d`.
pub proof fn lemma_minus_contains(s: Seq<u128>, d: Set<u128>, x: u128)
    ensures
        minus(s, d).contains(x) <==> s.contains(x) && !d.contains(x),
    decreases s.len(),
{
    if s.len() > 0 {
        lemma_minus_contains(s.drop_last(), d, x);
        assert(s =~= s.drop_last().push(s.last()));
    }
}

/// Removing one more id is the same as one `without` step.
pub proof fn lemma_minus_insert(s: Seq<u128>, d: Set<u128>, x: u128)
    ensures
        without(minus(s, d), x) == minus(s, d.insert(x)),
    decreases s.len(),
{
    if s.len() > 0 {
        lemma_minus_insert(s.drop_last(), d, x);
        let q = minus(s.drop_last(), d);
        let a = s.last();
        if !d.contains(a) {
            assert(q.push(a).drop_last() =~= q);
            assert(q.push(a).last() == a);
        }
    }
}

/// What is left of a list without repetitions has none either.
pub proof fn lemma_minus_no_dups(s: Seq<u128>, d: Set<u128>)
    requires
        s.no_duplicates(),
    ensures
        minus(s, d).no_duplicates(),
    decreases s.len(),
{
    if s.len() > 0 {
        let t = s.drop_last();
        assert(t.no_duplicates());
        lemma_minus_no_dups(t, d);
        if !d.contains(s.last()) {
            let q = minus(t, d);
            lemma_minus_contains(t, d, s.last());
            assert(!t.contains(s.last())) by {
                if t.contains(s.last()) {
                    let j = choose|j: int| 0 <= j < t.len() && t[j] == s.last();
                    assert(s[j] == s[s.len() - 1]);
                }
            }
            let r = q.push(s.last());
            assert forall|i: int, j: int| 0 <= i < r.len() && 0 <= j < r.len() && i != j implies r[i] != r[j] by {
                if i < q.len() && j < q.len() {
                } else if i < q.len() {
                    assert(q.contains(q[i]));
                } else {
                    assert(q.contains(q[j]));
                }
            }
        }
    }
}

/// Leaving out an id that occurs once shortens a list by one.
pub proof fn lemma_without_len(s: Seq<u128>, x: u128)
    requires
        s.no_duplicates(),
    ensures
        s.contains(x) ==> without(s, x).len() == s.len() - 1,
        !s.contains(x) ==> without(s, x) == s,
    decreases s.len(),
{
    if s.len() > 0 {
        let t = s.drop_last();
        assert(t.no_duplicates());
        lemma_without_len(t, x);
        assert(s =~= t.push(s.last()));
        if s.last() == x {
            assert(!t.contains(x)) by {
                if t.contains(x) {
                    let j = choose|j: int| 0 <= j < t.len() && t[j] == x;
                    assert(s[j] == s[s.len() - 1]);
                }
            }
        }
    }
}

/// Leaving nothing out keeps the list.
pub proof fn lemma_minus_empty(s: Seq<u128>)
    ensures
        minus(s, Set::empty()) == s,
    decreases s.len(),
{
    if s.len() > 0 {
        lemma_minus_empty(s.drop_last());
        assert(s =~= s.drop_last().push(s.last()));
    }
}

/// Only the members that occur in `s` matter.
pub proof fn lemma_minus_congruent(s: Seq<u128>, d1: Set<u128>, d2: Set<u128>)
    requires
        forall|x: u128| #[trigger] s.contains(x) ==> (d1.contains(x) <==> d2.contains(x)),
    ensures
        minus(s, d1) == minus(s, d2),
    decreases s.len(),
{
    if s.len() > 0 {
        let t = s.drop_last();
        assert forall|x: u128| #[trigger] t.contains(x) implies (d1.contains(x) <==> d2.contains(x)) by {
            let j = choose|j: int| 0 <= j < t.len() && t[j] == x;
            assert(s[j] == x);
            assert(s.contains(x));
        }
        lemma_minus_congruent(t, d1, d2);
        assert(s.contains(s.last()));
    }
}

impl DirectedAcyclicGraph {
    /// The ids of the stored edges leaving `s`.
    pub open spec fn edges_from(&self, s: u128) -> Set<u128> {
        self.edges@.dom().filter(|e: u128| self.edges@[e].source == s)
    }

    /// Removes a node and every edge that leaves or enters it, updating the
    /// indexes of the other ends and the in-degrees of the targets.
    pub fn remove_node(&mut self, node_id: u128)
        requires
            old(self).wf(),
        ensures
            final(self).nodes@ == old(self).nodes@.remove(node_id),
            final(self).edges@ == old(self).edges@.remove_keys(
                old(self).edges_from(node_id).union(old(self).edges_into(node_id))),
            final(self).out_edges@.dom() == old(self).out_edges@.dom().remove(node_id),
            final(self).in_edges@.dom() == old(self).in_edges@.dom().remove(node_id),
            forall|k: u128| k != node_id ==> #[trigger] final(self).out_list(k)
                == minus(old(self).out_list(k), old(self).edges_into(node_id)),
            forall|k: u128| k != node_id ==> #[trigger] final(self).in_list(k)
                == minus(old(self).in_list(k), old(self).edges_from(node_id)),
            final(self).wf(),
            forall|v: u128| #[trigger] final(self).nodes@.contains_key(v)
                ==> final(self).in_degree@[v] == final(self).edges_into(v).len(),
            old(self).acyclic() ==> final(self).acyclic(),
    {
        let ghost o = *self;
        let ghost from_n = o.edges_from(node_id);
        let ghost into_n = o.edges_into(node_id);
        let outs: Vec<u128> = match self.out_edges.remove(&node_id) {
            Some(v) => v,
            None => Vec::new(),
        };
        assert(outs@ == o.out_list(node_id));
        let ghost mut d1: Set<u128> = Set::empty();
        proof {
            assert forall|k: u128| #[trigger] minus(o.in_list(k), d1) == o.in_list(k) by {
                lemma_minus_empty(o.in_list(k));
            }
        }
        let mut i: usize = 0;
        while i < outs.len()
            invariant
                o.wf(),
                outs@ == o.out_list(node_id),
                i <= outs@.len(),
                forall|x: u128| #[trigger] d1.contains(x) <==> outs@.take(i as int).contains(x),
                self.nodes@ == o.nodes@,
                self.out_edges@ == o.out_edges@.remove(node_id),
                self.edges@ == o.edges@.remove_keys(d1),
                self.in_edges@.dom() == o.in_edges@.dom(),
                forall|k: u128| #[trigger] self.in_edges@.contains_key(k) ==> self.in_edges@[k]@ == minus(o.in_list(k), d1),
                self.in_degree@.dom() == o.in_degree@.dom(),
                forall|k: u128| #[trigger] self.in_degree@.contains_key(k) ==> self.in_degree@[k] == minus(o.in_list(k), d1).len(),
            decreases outs@.len() - i,
        {
            let eid = outs[i];
            proof {
                if o.out_edges@.contains_key(node_id) {
                    assert(o.edges@.contains_key(o.out_list(node_id)[i as int]));
                }
                assert(!d1.contains(eid)) by {
                    if d1.contains(eid) {
                        let j = choose|j: int| 0 <= j < i && outs@.take(i as int)[j] == eid;
                        assert(outs@[j] == outs@[i as int]);
                    }
                }
                assert(outs@.take(i as int + 1) =~= outs@.take(i as int).push(eid));
            }
            let ghost t0 = o.edges@[eid].target;
            proof {
                assert(o.in_list(t0).contains(eid));
                assert(o.in_edges@.contains_key(t0));
                assert(o.in_degree@.contains_key(t0));
                lemma_minus_contains(o.in_list(t0), d1, eid);
                lemma_minus_no_dups(o.in_list(t0), d1);
                lemma_without_len(minus(o.in_list(t0), d1), eid);
                lemma_minus_insert(o.in_list(t0), d1, eid);
                assert forall|k: u128| k != t0 implies #[trigger] minus(o.in_list(k), d1.insert(eid)) == minus(o.in_list(k), d1) by {
                    assert forall|x: u128| #[trigger] o.in_list(k).contains(x)
                        implies (d1.insert(eid).contains(x) <==> d1.contains(x)) by {
                        let j = choose|j: int| 0 <= j < o.in_list(k).len() && o.in_list(k)[j] == x;
                        assert(o.edges@.contains_key(o.in_list(k)[j]));
                    }
                    lemma_minus_congruent(o.in_list(k), d1.insert(eid), d1);
                }
            }
            let removed = self.edges.remove(&eid);
            match removed {
                Some(edge) => {
                    let t = edge.target;
                    assert(t == t0);
                    match self.in_edges.remove(&t) {
                        Some(v) => {
                            let w = vec_without(&v, eid);
                            self.in_edges.insert(t, w);
                        },
                        None => {},
                    }
                    match self.in_degree.get(&t) {
                        Some(d) => {
                            let nd: usize = if *d > 0 { *d - 1 } else { 0 };
                            self.in_degree.insert(t, nd);
                        },
                        None => {},
                    }
                },
                None => {},
            }
            proof {
                d1 = d1.insert(eid);
                assert(self.edges@ =~= o.edges@.remove_keys(d1));
                assert(self.in_edges@.dom() =~= o.in_edges@.dom());
                assert(self.in_degree@.dom() =~= o.in_degree@.dom());
            }
            i += 1;
        }
        proof {
            assert(outs@.take(outs@.len() as int) =~= outs@);
            assert forall|x: u128| #[trigger] d1.contains(x) <==> from_n.contains(x) by {
                if d1.contains(x) {
                    let j = choose|j: int| 0 <= j < outs@.len() && outs@[j] == x;
                    assert(o.out_edges@.contains_key(node_id));
                    assert(o.edges@.contains_key(o.out_list(node_id)[j]));
                }
                if from_n.contains(x) {
                    assert(o.edges@.contains_key(x));
                }
            }
            assert(d1 =~= from_n);
        }
        let ghost mid = *self;
        let ins: Vec<u128> = match self.in_edges.remove(&node_id) {
            Some(v) => v,
            None => Vec::new(),
        };
        proof {
            if o.in_edges@.contains_key(node_id) {
                assert(ins@ == minus(o.in_list(node_id), from_n));
            } else {
                assert(ins@ =~= minus(o.in_list(node_id), from_n));
            }
            lemma_minus_no_dups(o.in_list(node_id), from_n);
        }
        let ghost mut d2: Set<u128> = Set::empty();
        proof {
            assert forall|k: u128| #[trigger] minus(o.out_list(k), d2) == o.out_list(k) by {
                lemma_minus_empty(o.out_list(k));
            }
        }
        let mut j: usize = 0;
        while j < ins.len()
            invariant
                o.wf(),
                from_n == o.edges_from(node_id),
                ins@ == minus(o.in_list(node_id), from_n),
                ins@.no_duplicates(),
                j <= ins@.len(),
                forall|x: u128| #[trigger] d2.contains(x) <==> ins@.take(j as int).contains(x),
                self.nodes@ == o.nodes@,
                self.edges@ == o.edges@.remove_keys(from_n.union(d2)),
                self.out_edges@.dom() == o.out_edges@.dom().remove(node_id),
                forall|k: u128| #[trigger] self.out_edges@.contains_key(k) ==> self.out_edges@[k]@ == minus(o.out_list(k), d2),
                self.in_edges@ == mid.in_edges@.remove(node_id),
                self.in_degree@ == mid.in_degree@,
            decreases ins@.len() - j,
        {
            let eid = ins[j];
            let ghost s0 = o.edges@[eid].source;
            proof {
                lemma_minus_contains(o.in_list(node_id), from_n, eid);
                assert(ins@.contains(eid));
                assert(o.in_edges@.contains_key(node_id));
                let q = choose|q: int| 0 <= q < o.in_list(node_id).len() && o.in_list(node_id)[q] == eid;
                assert(o.edges@.contains_key(o.in_list(node_id)[q]));
                assert(s0 != node_id);
                assert(!d2.contains(eid)) by {
                    if d2.contains(eid) {
                        let q2 = choose|q2: int| 0 <= q2 < j && ins@.take(j as int)[q2] == eid;
                        assert(ins@[q2] == ins@[j as int]);
                    }
                }
                assert(ins@.take(j as int + 1) =~= ins@.take(j as int).push(eid));
                assert(o.out_list(s0).contains(eid));
                assert(o.out_edges@.contains_key(s0));
                lemma_minus_insert(o.out_list(s0), d2, eid);
                assert forall|k: u128| k != s0 implies #[trigger] minus(o.out_list(k), d2.insert(eid)) == minus(o.out_list(k), d2) by {
                    assert forall|x: u128| #[trigger] o.out_list(k).contains(x)
                        implies (d2.insert(eid).contains(x) <==> d2.contains(x)) by {
                        let q3 = choose|q3: int| 0 <= q3 < o.out_list(k).len() && o.out_list(k)[q3] == x;
                        assert(o.edges@.contains_key(o.out_list(k)[q3]));
                    }
                    lemma_minus_congruent(o.out_list(k), d2.insert(eid), d2);
                }
            }
            let removed = self.edges.remove(&eid);
            match removed {
                Some(edge) => {
                    let s = edge.source;
                    assert(s == s0);
                    match self.out_edges.remove(&s) {
                        Some(v) => {
                            let w = vec_without(&v, eid);
                            self.out_edges.insert(s, w);
                        },
                        None => {},
                    }
                },
                None => {},
            }
            proof {
                d2 = d2.insert(eid);
                assert(self.edges@ =~= o.edges@.remove_keys(from_n.union(d2)));
                assert(self.out_edges@.dom() =~= o.out_edges@.dom().remove(node_id));
            }
            j += 1;
        }
        self.nodes.remove(&node_id);
        self.in_degree.remove(&node_id);
        proof {
            assert(ins@.take(ins@.len() as int) =~= ins@);
            let gone = from_n.union(into_n);
            assert forall|x: u128| #[trigger] d2.contains(x) <==> (into_n.contains(x) && !from_n.contains(x)) by {
                lemma_minus_contains(o.in_list(node_id), from_n, x);
                if into_n.contains(x) {
                    assert(o.edges@.contains_key(x));
                }
                if d2.contains(x) {
                    let q = choose|q: int| 0 <= q < o.in_list(node_id).len() && o.in_list(node_id)[q] == x;
                    assert(o.edges@.contains_key(o.in_list(node_id)[q]));
                }
            }
            assert(from_n.union(d2) =~= gone);
            lemma_remove_node_shape(o, *self, node_id, d2);
            lemma_in_degree_counts(self);
        }
    }
}

/// The graph left after removing a node and its edges: the remaining index
/// lists are the old ones with the removed edges left out, it is still well
/// formed, and it gains no walk.
proof fn lemma_remove_node_shape(o: DirectedAcyclicGraph, n: DirectedAcyclicGraph, node_id: u128, d2: Set<u128>)
    requires
        o.wf(),
        n.nodes@ == o.nodes@.remove(node_id),
        n.edges@ == o.edges@.remove_keys(o.edges_from(node_id).union(o.edges_into(node_id))),
        forall|x: u128| #[trigger] d2.contains(x) <==> (o.edges_into(node_id).contains(x) && !o.edges_from(node_id).contains(x)),
        n.out_edges@.dom() == o.out_edges@.dom().remove(node_id),
        forall|k: u128| #[trigger] n.out_edges@.contains_key(k) ==> n.out_edges@[k]@ == minus(o.out_list(k), d2),
        n.in_edges@.dom() == o.in_edges@.dom().remove(node_id),
        forall|k: u128| #[trigger] n.in_edges@.contains_key(k) ==> n.in_edges@[k]@ == minus(o.in_list(k), o.edges_from(node_id)),
        n.in_degree@.dom() == o.in_degree@.dom().remove(node_id),
        forall|k: u128| #[trigger] n.in_degree@.contains_key(k) ==> n.in_degree@[k] == minus(o.in_list(k), o.edges_from(node_id)).len(),
    ensures
        forall|k: u128| k != node_id ==> #[trigger] n.out_list(k) == minus(o.out_list(k), o.edges_into(node_id)),
        forall|k: u128| k != node_id ==> #[trigger] n.in_list(k) == minus(o.in_list(k), o.edges_from(node_id)),
        n.wf(),
        o.acyclic() ==> n.acyclic(),
{
    let from_n = o.edges_from(node_id);
    let into_n = o.edges_into(node_id);
    assert forall|k: u128| k != node_id implies #[trigger] n.out_list(k) == minus(o.out_list(k), into_n) by {
        assert forall|x: u128| #[trigger] o.out_list(k).contains(x) implies (d2.contains(x) <==> into_n.contains(x)) by {
            let q = choose|q: int| 0 <= q < o.out_list(k).len() && o.out_list(k)[q] == x;
            assert(o.edges@.contains_key(o.out_list(k)[q]));
            assert(!from_n.contains(x));
        }
        lemma_minus_congruent(o.out_list(k), d2, into_n);
    }
    assert forall|k: u128| k != node_id implies #[trigger] n.in_list(k) == minus(o.in_list(k), from_n) by {}
    // Every edge left has both ends left, and sits in the lists of its ends.
    assert forall|e: u128| #[trigger] n.edges@.contains_key(e) implies {
        &&& n.edges@[e].id == e
        &&& n.nodes@.contains_key(n.edges@[e].source)
        &&& n.nodes@.contains_key(n.edges@[e].target)
        &&& n.out_list(n.edges@[e].source).contains(e)
        &&& n.in_list(n.edges@[e].target).contains(e)
    } by {
        assert(o.edges@.contains_key(e));
        let s = o.edges@[e].source;
        let t = o.edges@[e].target;
        assert(!from_n.contains(e));
        assert(!into_n.contains(e));
        lemma_minus_contains(o.out_list(s), into_n, e);
        lemma_minus_contains(o.in_list(t), from_n, e);
    }
    assert forall|k: u128| #[trigger] n.out_edges@.contains_key(k) implies {
        &&& n.nodes@.contains_key(k)
        &&& n.out_list(k).no_duplicates()
        &&& forall|i: int| 0 <= i < n.out_list(k).len() ==> {
            &&& #[trigger] n.edges@.contains_key(n.out_list(k)[i])
            &&& n.edges@[n.out_list(k)[i]].source == k
        }
    } by {
        lemma_minus_no_dups(o.out_list(k), into_n);
        assert forall|i: int| 0 <= i < n.out_list(k).len() implies {
            &&& #[trigger] n.edges@.contains_key(n.out_list(k)[i])
            &&& n.edges@[n.out_list(k)[i]].source == k
        } by {
            let x = n.out_list(k)[i];
            lemma_minus_contains(o.out_list(k), into_n, x);
            assert(n.out_list(k).contains(x));
            let q = choose|q: int| 0 <= q < o.out_list(k).len() && o.out_list(k)[q] == x;
            assert(o.edges@.contains_key(o.out_list(k)[q]));
            assert(!from_n.contains(x));
        }
    }
    assert forall|k: u128| #[trigger] n.in_edges@.contains_key(k) implies {
        &&& n.nodes@.contains_key(k)
        &&& n.in_list(k).no_duplicates()
        &&& forall|i: int| 0 <= i < n.in_list(k).len() ==> {
            &&& #[trigger] n.edges@.contains_key(n.in_list(k)[i])
            &&& n.edges@[n.in_list(k)[i]].target == k
        }
    } by {
        lemma_minus_no_dups(o.in_list(k), from_n);
        assert forall|i: int| 0 <= i < n.in_list(k).len() implies {
            &&& #[trigger] n.edges@.contains_key(n.in_list(k)[i])
            &&& n.edges@[n.in_list(k)[i]].target == k
        } by {
            let x = n.in_list(k)[i];
            lemma_minus_contains(o.in_list(k), from_n, x);
            assert(n.in_list(k).contains(x));
            let q = choose|q: int| 0 <= q < o.in_list(k).len() && o.in_list(k)[q] == x;
            assert(o.edges@.contains_key(o.in_list(k)[q]));
            assert(!into_n.contains(x));
        }
    }
    assert forall|k: u128| #[trigger] n.in_degree@.contains_key(k) <==> n.nodes@.contains_key(k) by {}
    assert forall|k: u128| #[trigger] n.in_degree@.contains_key(k) implies n.in_degree@[k] == n.in_list(k).len() by {
        if !o.in_edges@.contains_key(k) {
            assert(o.in_list(k) =~= Seq::<u128>::empty());
            assert(minus(o.in_list(k), from_n) =~= Seq::<u128>::empty());
        }
    }
    if o.acyclic() {
        assert forall|a: u128, b: u128| #[trigger] n.step(a, b) implies o.step(a, b) by {
            let i = choose|i: int| #[trigger] n.out_link(a, i, b);
            let x = n.out_list(a)[i];
            assert(n.out_list(a).contains(x));
            lemma_minus_contains(o.out_list(a), into_n, x);
            let q = choose|q: int| 0 <= q < o.out_list(a).len() && o.out_list(a)[q] == x;
            assert(o.out_link(a, q, b));
        }
        assert forall|p: Seq<u128>| #[trigger] n.is_walk(p) && p.len() >= 2 implies p[0] != p.last() by {
            assert forall|i: int| 0 <= i < p.len() - 1 implies #[trigger] o.walk_step(p, i) by {
                assert(n.walk_step(p, i));
            }
            assert(o.is_walk(p));
        }
    }
}

/// In a well-formed graph every node's in-degree is the number of stored
/// edges that enter it (so it holds after `remove_node` too, which keeps the
/// graph well formed).
pub proof fn lemma_in_degree_counts(g: &DirectedAcyclicGraph)
    requires
        g.wf(),
    ensures
        forall|n: u128| #[trigger] g.nodes@.contains_key(n) ==> g.in_degree@[n] == g.edges_into(n).len(),
{
    assert forall|n: u128| #[trigger] g.nodes@.contains_key(n) implies g.in_degree@[n] == g.edges_into(n).len() by {
        let l = g.in_list(n);
        assert(g.in_degree@.contains_key(n));
        if g.in_edges@.contains_key(n) {
            l.unique_seq_to_set();
        } else {
            assert(l.no_duplicates());
            l.unique_seq_to_set();
        }
        assert forall|e: u128| #[trigger] l.to_set().contains(e) <==> g.edges_into(n).contains(e) by {
            if l.contains(e) {
                let i = choose|i: int| 0 <= i < l.len() && l[i] == e;
                assert(g.in_edges@.contains_key(n));
                assert(g.edges@.contains_key(l[i]));
            }
            if g.edges_into(n).contains(e) {
                assert(g.edges@.contains_key(e));
            }
        }
        assert(l.to_set() =~= g.edges_into(n));
    }
}

} // verus!
