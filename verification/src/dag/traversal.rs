//! Breadth-first and depth-first walks from a start node.
use vstd::prelude::*;
use std::collections::HashMap;
use std::collections::HashSet;
use crate::dag::graph::{DirectedAcyclicGraph, lemma_closed_set_contains_walk, lemma_push_no_dup, lemma_reaches_self};

verus! {

broadcast use {vstd::std_specs::hash::group_hash_axioms, vstd::seq_lib::group_seq_properties, vstd::set::group_set_axioms};

/// How a traversal visits the graph.
#[derive(Debug, Clone, Copy)]
pub enum TraversalMode {
    /// Level by level (all branches at one depth before the next).
    BreadthFirst,
    /// Along one branch as deep as it goes before the next.
    DepthFirst,
}

/// The nodes in the order they were visited, and the depth each was found at.
#[derive(Debug)]
pub struct TraversalResult {
    pub visited: Vec<u128>,
    pub depth_map: HashMap<u128, usize>,
}

impl DirectedAcyclicGraph {
    /// A walk of exactly `n` steps leads from `a` to `b`.
    pub open spec fn walk_len(&self, a: u128, b: u128, n: nat) -> bool {
        exists|p: Seq<u128>| #[trigger] self.is_walk(p) && p.len() == n + 1 && p[0] == a && p.last() == b
    }

    /// `n` is the fewest steps from `a` to `b`.
    pub open spec fn is_distance(&self, a: u128, b: u128, n: nat) -> bool {
        &&& self.walk_len(a, b, n)
        &&& forall|m: nat| #[trigger] self.walk_len(a, b, m) ==> n <= m
    }

    /// Visits every node reachable from `start`, in the given mode.
    pub fn traverse(&self, start: u128, mode: TraversalMode) -> (r: TraversalResult)
        ensures
            r.visited@.no_duplicates(),
            r.visited@.len() >= 1,
            r.visited@[0] == start,
            forall|v: u128| #[trigger] r.visited@.contains(v) <==> self.reaches(start, v),
            r.depth_map@.dom() == r.visited@.to_set(),
            forall|v: u128| #[trigger] r.depth_map@.contains_key(v) ==> self.walk_len(start, v, r.depth_map@[v] as nat),
            mode is BreadthFirst ==> forall|v: u128| #[trigger] r.depth_map@.contains_key(v)
                ==> self.is_distance(start, v, r.depth_map@[v] as nat),
            mode is BreadthFirst ==> forall|i: int, j: int| 0 <= i <= j < r.visited@.len()
                ==> r.depth_map@[#[trigger] r.visited@[i]] <= r.depth_map@[#[trigger] r.visited@[j]],
            mode is DepthFirst ==> forall|k: int| 0 < k < r.visited@.len()
                ==> #[trigger] self.entered_from_earlier(r.visited@, r.depth_map@, k),
            mode is DepthFirst ==> pairs_of(r.visited@, r.depth_map@) == dfs_order(*self, start),
    {
        match mode {
            TraversalMode::BreadthFirst => self.bfs_traverse(start),
            TraversalMode::DepthFirst => self.dfs_traverse(start),
        }
    }
}

/// A walk of `n` steps to `b` extends by one step to a successor of `b`.
pub proof fn lemma_walk_len_step(g: &DirectedAcyclicGraph, a: u128, b: u128, c: u128, n: nat)
    requires
        g.walk_len(a, b, n),
        g.step(b, c),
    ensures
        g.walk_len(a, c, n + 1),
{
    let p = choose|p: Seq<u128>| #[trigger] g.is_walk(p) && p.len() == n + 1 && p[0] == a && p.last() == b;
    let q = p.push(c);
    assert forall|i: int| 0 <= i < q.len() - 1 implies #[trigger] g.walk_step(q, i) by {
        if i < p.len() - 1 {
            assert(g.walk_step(p, i));
        }
    }
    assert(g.is_walk(q));
}

/// A walk of some length witnesses reachability.
pub proof fn lemma_walk_len_reaches(g: &DirectedAcyclicGraph, a: u128, b: u128, n: nat)
    requires
        g.walk_len(a, b, n),
    ensures
        g.reaches(a, b),
{
    let p = choose|p: Seq<u128>| #[trigger] g.is_walk(p) && p.len() == n + 1 && p[0] == a && p.last() == b;
}

/// If every step out of a labelled node reaches a labelled node whose label
/// is at most one more, then a walk from the start (label 0) ends at a
/// labelled node whose label is at most the walk's length.
pub proof fn lemma_labels_bound_walk(g: &DirectedAcyclicGraph, dist: Map<u128, nat>, start: u128, p: Seq<u128>)
    requires
        dist.contains_key(start),
        dist[start] == 0,
        forall|u: u128, w: u128| #[trigger] dist.contains_key(u) && #[trigger] g.step(u, w)
            ==> dist.contains_key(w) && dist[w] <= dist[u] + 1,
        g.is_walk(p),
        p[0] == start,
    ensures
        dist.contains_key(p.last()),
        dist[p.last()] <= p.len() - 1,
    decreases p.len(),
{
    if p.len() > 1 {
        let q = p.drop_last();
        assert forall|i: int| 0 <= i < q.len() - 1 implies #[trigger] g.walk_step(q, i) by {
            assert(g.walk_step(p, i));
        }
        lemma_labels_bound_walk(g, dist, start, q);
        assert(g.walk_step(p, p.len() - 2));
    }
}

/// A walk of any length to `b` gives a label bound: the label is the distance.
pub proof fn lemma_labels_are_distances(g: &DirectedAcyclicGraph, dist: Map<u128, nat>, start: u128, v: u128)
    requires
        dist.contains_key(start),
        dist[start] == 0,
        forall|u: u128, w: u128| #[trigger] dist.contains_key(u) && #[trigger] g.step(u, w)
            ==> dist.contains_key(w) && dist[w] <= dist[u] + 1,
        dist.contains_key(v),
        g.walk_len(start, v, dist[v]),
    ensures
        g.is_distance(start, v, dist[v]),
{
    assert forall|m: nat| #[trigger] g.walk_len(start, v, m) implies dist[v] <= m by {
        let p = choose|p: Seq<u128>| #[trigger] g.is_walk(p) && p.len() == m + 1 && p[0] == start && p.last() == v;
        lemma_labels_bound_walk(g, dist, start, p);
    }
}

impl DirectedAcyclicGraph {
    /// Breadth-first: nodes are visited in order of their distance from
    /// `start`, and each is recorded with that distance.
    fn bfs_traverse(&self, start: u128) -> (r: TraversalResult)
        ensures
            r.visited@.no_duplicates(),
            r.visited@.len() >= 1,
            r.visited@[0] == start,
            forall|v: u128| #[trigger] r.visited@.contains(v) <==> self.reaches(start, v),
            r.depth_map@.dom() == r.visited@.to_set(),
            forall|v: u128| #[trigger] r.depth_map@.contains_key(v) ==> self.is_distance(start, v, r.depth_map@[v] as nat),
            forall|v: u128| #[trigger] r.depth_map@.contains_key(v) ==> self.walk_len(start, v, r.depth_map@[v] as nat),
            forall|i: int, j: int| 0 <= i <= j < r.visited@.len()
                ==> r.depth_map@[#[trigger] r.visited@[i]] <= r.depth_map@[#[trigger] r.visited@[j]],
    {
        let ghost universe = self.edges@.dom().map(|e: u128| self.edge_target(e)).insert(start);
        proof {
            self.edges@.dom().lemma_map_finite(|e: u128| self.edge_target(e));
        }
        let mut order: Vec<u128> = Vec::new();
        let mut depths: Vec<usize> = Vec::new();
        let mut seen: HashSet<u128> = HashSet::new();
        let mut depth_map: HashMap<u128, usize> = HashMap::new();
        order.push(start);
        depths.push(0);
        seen.insert(start);
        let ghost mut dist: Map<u128, nat> = map![start => 0nat];
        proof {
            lemma_reaches_self(self, start);
            let p = seq![start];
            assert(self.is_walk(p));
            assert(self.walk_len(start, start, 0));
        }
        let mut head: usize = 0;
        while head < order.len()
            invariant
                universe.finite(),
                universe == self.edges@.dom().map(|e: u128| self.edge_target(e)).insert(start),
                order@.len() >= 1,
                order@[0] == start,
                order@.no_duplicates(),
                forall|v: u128| #[trigger] order@.contains(v) ==> universe.contains(v),
                order@.len() <= universe.len(),
                depths@.len() == order@.len(),
                depths@[0] == 0,
                head <= order@.len(),
                forall|v: u128| #[trigger] seen@.contains(v) <==> order@.contains(v),
                dist.dom() == seen@,
                forall|i: int| 0 <= i < order@.len() ==> dist[#[trigger] order@[i]] == depths@[i],
                forall|i: int, j: int| #![trigger depths@[i], depths@[j]] 0 <= i <= j < depths@.len() ==> depths@[i] <= depths@[j],
                forall|i: int| 0 <= i < depths@.len() ==> #[trigger] depths@[i] <= i,
                head < order@.len() ==> depths@[order@.len() - 1] <= depths@[head as int] + 1,
                forall|i: int| 0 <= i < order@.len() ==> self.walk_len(start, #[trigger] order@[i], depths@[i] as nat),
                forall|i: int, w: u128| 0 <= i < head && #[trigger] self.step(order@[i], w)
                    ==> dist.contains_key(w) && dist[w] <= depths@[i] + 1,
                forall|v: u128| #[trigger] depth_map@.contains_key(v) <==> order@.take(head as int).contains(v),
                forall|v: u128| #[trigger] depth_map@.contains_key(v) ==> depth_map@[v] == dist[v],
            decreases universe.len() - head,
        {
            let current = order[head];
            let depth = depths[head];
            depth_map.insert(current, depth);
            let ghost h = head as int;
            proof {
                assert(order@.take(h + 1) =~= order@.take(h).push(current));
            }
            match self.out_edges.get(&current) {
                Some(edge_ids) => {
                    let mut i: usize = 0;
                    while i < edge_ids.len()
                        invariant
                            universe.finite(),
                            universe == self.edges@.dom().map(|e: u128| self.edge_target(e)).insert(start),
                            order@.len() >= 1,
                            order@[0] == start,
                            order@.no_duplicates(),
                            forall|v: u128| #[trigger] order@.contains(v) ==> universe.contains(v),
                            order@.len() <= universe.len(),
                            depths@.len() == order@.len(),
                            depths@[0] == 0,
                            h == head,
                            0 <= h < order@.len(),
                            order@[h] == current,
                            depths@[h] == depth,
                            forall|v: u128| #[trigger] seen@.contains(v) <==> order@.contains(v),
                            dist.dom() == seen@,
                            forall|k: int| 0 <= k < order@.len() ==> dist[#[trigger] order@[k]] == depths@[k],
                            forall|a: int, b: int| #![trigger depths@[a], depths@[b]] 0 <= a <= b < depths@.len() ==> depths@[a] <= depths@[b],
                            forall|k: int| 0 <= k < depths@.len() ==> #[trigger] depths@[k] <= k,
                            depths@[order@.len() - 1] <= depth + 1,
                            forall|k: int| 0 <= k < order@.len() ==> self.walk_len(start, #[trigger] order@[k], depths@[k] as nat),
                            forall|k: int, w: u128| 0 <= k < h && #[trigger] self.step(order@[k], w)
                                ==> dist.contains_key(w) && dist[w] <= depths@[k] + 1,
                            self.out_edges@.contains_key(current),
                            edge_ids@ == self.out_list(current),
                            i <= edge_ids@.len(),
                            forall|j: int, w: u128| 0 <= j < i && #[trigger] self.out_link(current, j, w)
                                ==> dist.contains_key(w) && dist[w] <= depth + 1,
                            forall|v: u128| #[trigger] depth_map@.contains_key(v) <==> order@.take(h + 1).contains(v),
                            forall|v: u128| #[trigger] depth_map@.contains_key(v) ==> depth_map@[v] == dist[v],
                        decreases edge_ids@.len() - i,
                    {
                        let eid = edge_ids[i];
                        match self.edges.get(&eid) {
                            Some(edge) => {
                                let t = edge.target;
                                proof {
                                    assert(self.out_link(current, i as int, t));
                                    assert(self.step(current, t));
                                }
                                if !seen.contains(&t) {
                                    let ghost before = order@;
                                    proof {
                                        assert(self.edges@.dom().contains(eid));
                                        assert(self.edge_target(eid) == t);
                                        assert(self.edges@.dom().map(|e: u128| self.edge_target(e)).contains(t));
                                        assert(universe.contains(t));
                                        lemma_push_no_dup(order@, t);
                                        assert(order@.push(t).to_set().subset_of(universe)) by {
                                            assert forall|y: u128| #[trigger] order@.push(t).to_set().contains(y) implies universe.contains(y) by {
                                                assert(order@.push(t).contains(y));
                                            }
                                        }
                                        order@.push(t).unique_seq_to_set();
                                        vstd::set_lib::lemma_len_subset(order@.push(t).to_set(), universe);
                                        lemma_walk_len_step(self, start, current, t, depth as nat);
                                    }
                                    assert(depths@[h] <= h);
                                    let len_now = order.len();
                                    assert(depth < len_now);
                                    seen.insert(t);
                                    order.push(t);
                                    depths.push(depth + 1);
                                    proof {
                                        dist = dist.insert(t, (depth + 1) as nat);
                                        assert(order@.take(h + 1) =~= before.take(h + 1));
                                        assert forall|k: int| 0 <= k < order@.len() implies dist[#[trigger] order@[k]] == depths@[k] by {
                                            if k < before.len() {
                                                assert(before.contains(before[k]));
                                            }
                                        }
                                    }
                                }
                            },
                            None => {},
                        }
                        proof {
                            assert forall|j: int, w: u128| 0 <= j < i + 1 && #[trigger] self.out_link(current, j, w)
                                implies dist.contains_key(w) && dist[w] <= depth + 1 by {
                                if j == i {
                                    assert(order@.contains(w));
                                    let k = choose|k: int| 0 <= k < order@.len() && order@[k] == w;
                                    assert(depths@[k] <= depths@[order@.len() - 1]);
                                }
                            }
                        }
                        i += 1;
                    }
                    proof {
                        assert forall|w: u128| #[trigger] self.step(current, w)
                            implies dist.contains_key(w) && dist[w] <= depth + 1 by {
                            let j = choose|j: int| #[trigger] self.out_link(current, j, w);
                        }
                    }
                },
                None => {},
            }
            head += 1;
        }
        proof {
            assert(order@.take(order@.len() as int) =~= order@);
            assert forall|u: u128, w: u128| #[trigger] dist.contains_key(u) && #[trigger] self.step(u, w)
                implies dist.contains_key(w) && dist[w] <= dist[u] + 1 by {
                assert(order@.contains(u));
                let k = choose|k: int| 0 <= k < order@.len() && order@[k] == u;
            }
            assert forall|v: u128| #[trigger] order@.contains(v) <==> self.reaches(start, v) by {
                if order@.contains(v) {
                    let k = choose|k: int| 0 <= k < order@.len() && order@[k] == v;
                    lemma_walk_len_reaches(self, start, v, depths@[k] as nat);
                }
                if self.reaches(start, v) {
                    let p = choose|p: Seq<u128>| #[trigger] self.is_walk(p) && p[0] == start && p.last() == v;
                    lemma_labels_bound_walk(self, dist, start, p);
                }
            }
            assert forall|v: u128| #[trigger] depth_map@.contains_key(v)
                implies self.is_distance(start, v, depth_map@[v] as nat) && self.walk_len(start, v, depth_map@[v] as nat) by {
                let k = choose|k: int| 0 <= k < order@.len() && order@[k] == v;
                lemma_labels_are_distances(self, dist, start, v);
            }
            assert(depth_map@.dom() =~= order@.to_set());
            assert forall|i: int, j: int| 0 <= i <= j < order@.len()
                implies depth_map@[#[trigger] order@[i]] <= depth_map@[#[trigger] order@[j]] by {
                assert(order@.contains(order@[i]));
                assert(order@.contains(order@[j]));
                assert(depth_map@.contains_key(order@[i]));
                assert(depth_map@.contains_key(order@[j]));
                assert(depth_map@[order@[i]] == dist[order@[i]]);
                assert(depth_map@[order@[j]] == dist[order@[j]]);
                assert(dist[order@[i]] == depths@[i]);
                assert(dist[order@[j]] == depths@[j]);
                assert(depths@[i] <= depths@[j]);
            }
        }
        TraversalResult { visited: order, depth_map }
    }
}

/// The visited nodes of `p`, each with its depth.
pub open spec fn firsts(p: Seq<(u128, nat)>) -> Seq<u128> {
    p.map_values(|q: (u128, nat)| q.0)
}

/// A visited list with the depths recorded for it.
pub open spec fn pairs_of(vis: Seq<u128>, dm: Map<u128, usize>) -> Seq<(u128, nat)> {
    vis.map_values(|v: u128| (v, dm[v] as nat))
}

/// Depth-first visit of `v` at depth `d` after the visits `vis`: nothing
/// when `v` was visited already, otherwise `v` followed by the visits of the
/// targets of its outgoing edges, in index order (`fuel` bounds the number
/// of new visits).
pub open spec fn dfs_from(g: DirectedAcyclicGraph, v: u128, d: nat, vis: Seq<(u128, nat)>, fuel: nat) -> Seq<(u128, nat)>
    decreases fuel, 0nat, 0nat,
{
    if fuel == 0 || firsts(vis).contains(v) {
        vis
    } else {
        dfs_children(g, v, d, 0, vis.push((v, d)), (fuel - 1) as nat)
    }
}

/// Depth-first visits of the targets of the outgoing edges of `v` from
/// index `j` on.
pub open spec fn dfs_children(g: DirectedAcyclicGraph, v: u128, d: nat, j: nat, vis: Seq<(u128, nat)>, fuel: nat) -> Seq<(u128, nat)>
    decreases fuel, 1nat, g.out_list(v).len() - j,
{
    if j >= g.out_list(v).len() {
        vis
    } else {
        let eid = g.out_list(v)[j as int];
        let next = if g.edges@.contains_key(eid) {
            dfs_from(g, g.edges@[eid].target, d + 1, vis, fuel)
        } else {
            vis
        };
        dfs_children(g, v, d, j + 1, next, fuel)
    }
}

/// The depth-first preorder from `start`, each node with its depth in the
/// depth-first tree.
pub open spec fn dfs_order(g: DirectedAcyclicGraph, start: u128) -> Seq<(u128, nat)> {
    dfs_from(g, start, 0, Seq::empty(), (g.edges@.dom().map(|e: u128| g.edge_target(e)).insert(start).len() + 1) as nat)
}

impl DirectedAcyclicGraph {
    /// The `k`-th visited node was entered along an edge from a node visited
    /// before it, one level deeper than that node.
    pub open spec fn entered_from_earlier(&self, vis: Seq<u128>, dm: Map<u128, usize>, k: int) -> bool {
        exists|i: int| 0 <= i < k && #[trigger] self.step(vis[i], vis[k]) && dm[vis[i]] + 1 == dm[vis[k]]
    }

    /// The bookkeeping of a depth-first walk from `start`: the visited list
    /// has no repetitions and is what was seen, everything seen lies in
    /// `universe`, and each recorded depth is the length of a walk from `start`.
    pub open spec fn dfs_state(&self, vis: Seq<u128>, dm: Map<u128, usize>, seen: Set<u128>, universe: Set<u128>, start: u128) -> bool {
        &&& vis.len() > 0 ==> vis[0] == start
        &&& forall|k: int| 0 < k < vis.len() ==> #[trigger] self.entered_from_earlier(vis, dm, k)
        &&& vis.no_duplicates()
        &&& forall|v: u128| #[trigger] seen.contains(v) <==> vis.contains(v)
        &&& forall|v: u128| #[trigger] vis.contains(v) ==> universe.contains(v)
        &&& dm.dom() == seen
        &&& forall|v: u128| #[trigger] dm.contains_key(v) ==> self.walk_len(start, v, dm[v] as nat)
    }

    /// Depth-first: each node is recorded with the depth of the branch it
    /// was first reached along.
    fn dfs_traverse(&self, start: u128) -> (r: TraversalResult)
        ensures
            r.visited@.no_duplicates(),
            r.visited@.len() >= 1,
            r.visited@[0] == start,
            forall|v: u128| #[trigger] r.visited@.contains(v) <==> self.reaches(start, v),
            r.depth_map@.dom() == r.visited@.to_set(),
            forall|v: u128| #[trigger] r.depth_map@.contains_key(v) ==> self.walk_len(start, v, r.depth_map@[v] as nat),
            forall|k: int| 0 < k < r.visited@.len() ==> #[trigger] self.entered_from_earlier(r.visited@, r.depth_map@, k),
            pairs_of(r.visited@, r.depth_map@) == dfs_order(*self, start),
    {
        let ghost universe = self.edges@.dom().map(|e: u128| self.edge_target(e)).insert(start);
        proof {
            self.edges@.dom().lemma_map_finite(|e: u128| self.edge_target(e));
            let p = seq![start];
            assert(self.is_walk(p));
            assert(self.walk_len(start, start, 0));
        }
        let mut visited: Vec<u128> = Vec::new();
        let mut depth_map: HashMap<u128, usize> = HashMap::new();
        let mut seen: HashSet<u128> = HashSet::new();
        proof {
            assert(depth_map@.dom() =~= seen@);
        }
        proof {
            assert(pairs_of(visited@, depth_map@) =~= Seq::<(u128, nat)>::empty());
        }
        self.dfs_visit(start, 0, &mut visited, &mut depth_map, &mut seen, Ghost(universe), Ghost(start), Ghost((universe.len() + 1) as nat));
        proof {
            assert(visited@.take(0) =~= Seq::<u128>::empty());
            let s = seen@;
            assert forall|v: u128, w: u128| s.contains(v) && #[trigger] self.step(v, w) implies s.contains(w) by {
                let k = choose|k: int| 0 <= k < visited@.len() && visited@[k] == v;
            }
            assert forall|v: u128| #[trigger] visited@.contains(v) <==> self.reaches(start, v) by {
                if visited@.contains(v) {
                    assert(depth_map@.contains_key(v));
                    lemma_walk_len_reaches(self, start, v, depth_map@[v] as nat);
                }
                if self.reaches(start, v) {
                    let p = choose|p: Seq<u128>| #[trigger] self.is_walk(p) && p[0] == start && p.last() == v;
                    lemma_closed_set_contains_walk(self, s, p);
                }
            }
            assert(depth_map@.dom() =~= visited@.to_set());
        }
        TraversalResult { visited, depth_map }
    }

    /// Visits `current` (unless seen already) and then, in index order, the
    /// targets of its outgoing edges.
    fn dfs_visit(
        &self,
        current: u128,
        depth: usize,
        visited: &mut Vec<u128>,
        depth_map: &mut HashMap<u128, usize>,
        seen: &mut HashSet<u128>,
        Ghost(universe): Ghost<Set<u128>>,
        Ghost(start): Ghost<u128>,
        Ghost(fuel): Ghost<nat>,
    )
        requires
            fuel + old(seen)@.len() >= universe.len() + 1,
            universe.finite(),
            universe == self.edges@.dom().map(|e: u128| self.edge_target(e)).insert(start),
            universe.contains(current),
            self.dfs_state(old(visited)@, old(depth_map)@, old(seen)@, universe, start),
            self.walk_len(start, current, depth as nat),
            depth <= old(visited)@.len(),
            old(visited)@.len() == 0 ==> current == start,
            old(visited)@.len() > 0 ==> exists|i: int| 0 <= i < old(visited)@.len()
                && #[trigger] self.step(old(visited)@[i], current) && old(depth_map)@[old(visited)@[i]] + 1 == depth,
        ensures
            self.dfs_state(final(visited)@, final(depth_map)@, final(seen)@, universe, start),
            final(visited)@.len() >= old(visited)@.len(),
            final(visited)@.take(old(visited)@.len() as int) == old(visited)@,
            old(seen)@.subset_of(final(seen)@),
            forall|v: u128| #[trigger] old(depth_map)@.contains_key(v) ==> final(depth_map)@[v] == old(depth_map)@[v],
            final(seen)@.contains(current),
            !old(seen)@.contains(current) ==> final(visited)@[old(visited)@.len() as int] == current,
            forall|k: int, w: u128| old(visited)@.len() <= k < final(visited)@.len() && #[trigger] self.step(final(visited)@[k], w)
                ==> final(seen)@.contains(w),
            pairs_of(final(visited)@, final(depth_map)@)
                == dfs_from(*self, current, depth as nat, pairs_of(old(visited)@, old(depth_map)@), fuel),
        decreases universe.len() - old(seen)@.len(),
    {
        proof {
            assert(old(seen)@.subset_of(universe));
            vstd::set_lib::lemma_len_subset(old(seen)@, universe);
        }
        proof {
            assert(firsts(pairs_of(visited@, depth_map@)) =~= visited@);
        }
        if seen.contains(&current) {
            proof {
                assert(visited@.take(visited@.len() as int) =~= visited@);
            }
            return;
        }
        let ghost l0 = visited@.len();
        proof {
            lemma_push_no_dup(visited@, current);
        }
        seen.insert(current);
        visited.push(current);
        depth_map.insert(current, depth);
        proof {
            assert(visited@.take(l0 as int) =~= old(visited)@);
            assert(old(seen)@.insert(current) =~= seen@);
            assert(depth_map@.dom() =~= seen@);
            assert(seen@.subset_of(universe));
            assert forall|k: int| 0 < k < visited@.len() implies #[trigger] self.entered_from_earlier(visited@, depth_map@, k) by {
                if k < l0 {
                    assert(self.entered_from_earlier(old(visited)@, old(depth_map)@, k));
                    let i = choose|i: int| 0 <= i < k && #[trigger] self.step(old(visited)@[i], old(visited)@[k])
                        && old(depth_map)@[old(visited)@[i]] + 1 == old(depth_map)@[old(visited)@[k]];
                    assert(old(depth_map)@.contains_key(old(visited)@[i]));
                    assert(old(depth_map)@.contains_key(old(visited)@[k]));
                    assert(visited@[i] == old(visited)@[i] && visited@[k] == old(visited)@[k]);
                    assert(old(visited)@.contains(old(visited)@[i]) && old(visited)@.contains(old(visited)@[k]));
                    assert(depth_map@[visited@[i]] == old(depth_map)@[old(visited)@[i]]);
                    assert(depth_map@[visited@[k]] == old(depth_map)@[old(visited)@[k]]);
                    assert(self.step(visited@[i], visited@[k]) && depth_map@[visited@[i]] + 1 == depth_map@[visited@[k]]);
                } else {
                    let i = choose|i: int| 0 <= i < old(visited)@.len()
                        && #[trigger] self.step(old(visited)@[i], current) && old(depth_map)@[old(visited)@[i]] + 1 == depth;
                    assert(old(depth_map)@.contains_key(old(visited)@[i]));
                    assert(visited@[i] == old(visited)@[i]);
                    assert(old(visited)@.contains(old(visited)@[i]));
                    assert(depth_map@[visited@[i]] == old(depth_map)@[old(visited)@[i]]);
                    assert(visited@[k] == current && depth_map@[current] == depth);
                    assert(self.step(visited@[i], visited@[k]) && depth_map@[visited@[i]] + 1 == depth_map@[visited@[k]]);
                }
            }
            vstd::set_lib::lemma_len_subset(seen@, universe);
            assert(fuel > 0);
            assert(!firsts(pairs_of(old(visited)@, old(depth_map)@)).contains(current));
            assert(pairs_of(visited@, depth_map@) =~= pairs_of(old(visited)@, old(depth_map)@).push((current, depth as nat))) by {
                assert forall|k: int| 0 <= k < l0 implies #[trigger] pairs_of(visited@, depth_map@)[k]
                    == pairs_of(old(visited)@, old(depth_map)@)[k] by {
                    assert(old(visited)@.contains(old(visited)@[k]));
                    assert(old(depth_map)@.contains_key(old(visited)@[k]));
                }
            }
        }
        let ghost p1 = pairs_of(visited@, depth_map@);
        let ghost f1: nat = (fuel - 1) as nat;
        match self.out_edges.get(&current) {
            Some(edge_ids) => {
                let mut i: usize = 0;
                while i < edge_ids.len()
                    invariant
                        universe.finite(),
                        universe == self.edges@.dom().map(|e: u128| self.edge_target(e)).insert(start),
                        self.dfs_state(visited@, depth_map@, seen@, universe, start),
                        visited@.len() > l0,
                        l0 == old(visited)@.len(),
                        visited@.take(l0 as int) == old(visited)@,
                        visited@[l0 as int] == current,
                        old(seen)@.insert(current).subset_of(seen@),
                        !old(seen)@.contains(current),
                        old(seen)@.finite(),
                        old(depth_map)@.dom() == old(seen)@,
                        forall|v: u128| #[trigger] old(depth_map)@.contains_key(v) ==> depth_map@[v] == old(depth_map)@[v],
                        depth_map@[current] == depth,
                        depth <= l0,
                        self.walk_len(start, current, depth as nat),
                        self.out_edges@.contains_key(current),
                        edge_ids@ == self.out_list(current),
                        i <= edge_ids@.len(),
                        forall|j: int, w: u128| 0 <= j < i && #[trigger] self.out_link(current, j, w) ==> seen@.contains(w),
                        forall|k: int, w: u128| l0 < k < visited@.len() && #[trigger] self.step(visited@[k], w) ==> seen@.contains(w),
                        f1 + seen@.len() >= universe.len() + 1,
                        dfs_children(*self, current, depth as nat, 0, p1, f1)
                            == dfs_children(*self, current, depth as nat, i as nat, pairs_of(visited@, depth_map@), f1),
                    decreases edge_ids@.len() - i,
                {
                    let eid = edge_ids[i];
                    match self.edges.get(&eid) {
                        Some(edge) => {
                            let t = edge.target;
                            let ghost vis0 = visited@;
                            let ghost seen0 = seen@;
                            let ghost dm0 = depth_map@;
                            proof {
                                assert(self.out_link(current, i as int, t));
                                assert(self.edges@.dom().contains(eid));
                                assert(self.edge_target(eid) == t);
                                assert(self.edges@.dom().map(|e: u128| self.edge_target(e)).contains(t));
                                lemma_walk_len_step(self, start, current, t, depth as nat);
                                assert(seen@.subset_of(universe));
                                vstd::set_lib::lemma_len_subset(seen@, universe);
                                vstd::set_lib::lemma_len_subset(old(seen)@.insert(current), seen@);
                                assert(old(seen)@.insert(current).len() == old(seen)@.len() + 1);
                            }
                            let vl = visited.len();
                            assert(depth < vl);
                            assert(self.step(visited@[l0 as int], t) && depth_map@[visited@[l0 as int]] + 1 == depth + 1);
                            let ghost pre = pairs_of(visited@, depth_map@);
                            self.dfs_visit(t, depth + 1, visited, depth_map, seen, Ghost(universe), Ghost(start), Ghost(f1));
                            proof {
                                assert(visited@.take(l0 as int) =~= vis0.take(l0 as int)) by {
                                    assert(visited@.take(vis0.len() as int) == vis0);
                                    assert forall|q: int| 0 <= q < l0 implies visited@[q] == vis0[q] by {
                                        assert(visited@.take(vis0.len() as int)[q] == vis0[q]);
                                    }
                                }
                                assert(visited@[l0 as int] == vis0[l0 as int]) by {
                                    assert(visited@.take(vis0.len() as int)[l0 as int] == vis0[l0 as int]);
                                }
                                assert forall|k: int, w: u128| l0 < k < visited@.len() && #[trigger] self.step(visited@[k], w)
                                    implies seen@.contains(w) by {
                                    if k < vis0.len() {
                                        assert(visited@.take(vis0.len() as int)[k] == vis0[k]);
                                        assert(seen0.contains(w));
                                    }
                                }
                                assert forall|j: int, w: u128| 0 <= j < i + 1 && #[trigger] self.out_link(current, j, w)
                                    implies seen@.contains(w) by {
                                    if j < i {
                                        assert(seen0.contains(w));
                                    }
                                }
                                assert forall|v: u128| #[trigger] old(depth_map)@.contains_key(v)
                                    implies depth_map@[v] == old(depth_map)@[v] by {
                                    assert(dm0.contains_key(v));
                                }
                                assert(dm0.contains_key(current));
                                assert(seen@.subset_of(universe));
                                vstd::set_lib::lemma_len_subset(seen0, seen@);
                                assert(edge_ids@[i as int] == eid && self.edges@.contains_key(eid) && self.edges@[eid].target == t);
                                assert(dfs_children(*self, current, depth as nat, i as nat, pre, f1)
                                    == dfs_children(*self, current, depth as nat, (i + 1) as nat, pairs_of(visited@, depth_map@), f1));
                            }
                        },
                        None => {
                            proof {
                                assert(edge_ids@[i as int] == eid && !self.edges@.contains_key(eid));
                                assert(dfs_children(*self, current, depth as nat, i as nat, pairs_of(visited@, depth_map@), f1)
                                    == dfs_children(*self, current, depth as nat, (i + 1) as nat, pairs_of(visited@, depth_map@), f1));
                            }
                        },
                    }
                    i += 1;
                }
                proof {
                    assert forall|k: int, w: u128| l0 <= k < visited@.len() && #[trigger] self.step(visited@[k], w)
                        implies seen@.contains(w) by {
                        if k == l0 {
                            let j = choose|j: int| #[trigger] self.out_link(current, j, w);
                        }
                    }
                    assert(dfs_children(*self, current, depth as nat, i as nat, pairs_of(visited@, depth_map@), f1)
                        == pairs_of(visited@, depth_map@));
                }
            },
            None => {
                proof {
                    assert(self.out_list(current).len() == 0);
                    assert(dfs_children(*self, current, depth as nat, 0, p1, f1) == p1);
                    assert forall|k: int, w: u128| l0 <= k < visited@.len() && #[trigger] self.step(visited@[k], w)
                        implies seen@.contains(w) by {
                        let j = choose|j: int| #[trigger] self.out_link(current, j, w);
                    }
                }
            },
        }
    }
}

} // verus!
