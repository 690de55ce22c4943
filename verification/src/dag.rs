//! Directed graphs whose every edge leads from a node to a node with a
//! greater number. Such a graph has no cycle, and the order of the numbers is
//! a topological order of it.

use vstd::prelude::*;
use petgraph::graph::Graph;
use petgraph::Directed;
use crate::digraph::{
    neighbours_of, topology_add_edge, topology_add_node, topology_update_edge, topology_edge_count, topology_edges,
    topology_neighbours, topology_new, topology_node_count, topology_nodes,
};

verus! {

/// Whether `edges` has an edge from `u` to `v`.
pub open spec fn edge_in(edges: Seq<(usize, usize)>, u: int, v: int) -> bool {
    exists|k: int| 0 <= k < edges.len() && (#[trigger] edges[k]).0 == u && edges[k].1 == v
}

/// One more edge is an edge besides those that were there.
pub proof fn lemma_edge_in_push(edges: Seq<(usize, usize)>, e: (usize, usize))
    ensures
        forall|u: int, v: int| #[trigger]
            edge_in(edges.push(e), u, v) <==> edge_in(edges, u, v) || (u == e.0 && v == e.1),
{
    let longer = edges.push(e);
    assert forall|u: int, v: int| #[trigger]
        edge_in(longer, u, v) <==> edge_in(edges, u, v) || (u == e.0 && v == e.1) by {
        if edge_in(longer, u, v) {
            let k = choose|k: int| 0 <= k < longer.len() && (#[trigger] longer[k]).0 == u
                && longer[k].1 == v;
            if k < edges.len() {
                assert(edges[k] == longer[k]);
            }
        }
        if edge_in(edges, u, v) {
            let k = choose|k: int| 0 <= k < edges.len() && (#[trigger] edges[k]).0 == u
                && edges[k].1 == v;
            assert(longer[k] == edges[k]);
        }
        if u == e.0 && v == e.1 {
            assert(longer[edges.len() as int] == e);
        }
    }
}

/// Where no edge occurs twice, no neighbour of a node is listed twice.
pub proof fn lemma_neighbours_once(edges: Seq<(usize, usize)>, a: usize, outgoing: bool)
    requires
        edges.no_duplicates(),
    ensures
        neighbours_of(edges, a, outgoing).no_duplicates(),
    decreases edges.len(),
{
    if edges.len() > 0 {
        let rest = edges.drop_last();
        let e = edges.last();
        assert forall|i: int, j: int|
            0 <= i < rest.len() && 0 <= j < rest.len() && i != j implies rest[i] != rest[j] by {
            assert(rest[i] == edges[i] && rest[j] == edges[j]);
        }
        lemma_neighbours_once(rest, a, outgoing);
        lemma_neighbours(rest, a, outgoing);
        let here = neighbours_of(edges, a, outgoing);
        let before = neighbours_of(rest, a, outgoing);
        let added = if outgoing {
            e.0 == a
        } else {
            e.1 == a
        };
        let other = if outgoing {
            e.1
        } else {
            e.0
        };
        if added {
            assert(here =~= seq![other] + before);
            if before.contains(other) {
                let k = if outgoing {
                    choose|k: int|
                        0 <= k < rest.len() && (#[trigger] rest[k]).0 == a as int && rest[k].1
                            == other as int
                } else {
                    choose|k: int|
                        0 <= k < rest.len() && (#[trigger] rest[k]).0 == other as int && rest[k].1
                            == a as int
                };
                assert(edges[k] == rest[k]);
                assert(edges[k] == edges[edges.len() - 1]);
            }
            assert forall|i: int, j: int|
                0 <= i < here.len() && 0 <= j < here.len() && i != j implies here[i] != here[j] by {
                if i > 0 && j > 0 {
                    assert(here[i] == before[i - 1] && here[j] == before[j - 1]);
                } else if i == 0 {
                    assert(here[j] == before[j - 1]);
                    assert(before.contains(before[j - 1]));
                } else {
                    assert(here[i] == before[i - 1]);
                    assert(before.contains(before[i - 1]));
                }
            }
        } else {
            assert(here =~= before);
        }
    }
}

/// Two lists of edges that join the same nodes, each edge once, give a node
/// equally many neighbours.
pub proof fn lemma_neighbours_count(
    edges: Seq<(usize, usize)>,
    others: Seq<(usize, usize)>,
    a: usize,
    outgoing: bool,
)
    requires
        edges.no_duplicates(),
        others.no_duplicates(),
        forall|u: int, v: int| #[trigger] edge_in(edges, u, v) == edge_in(others, u, v),
    ensures
        neighbours_of(edges, a, outgoing).len() == neighbours_of(others, a, outgoing).len(),
{
    let here = neighbours_of(edges, a, outgoing);
    let there = neighbours_of(others, a, outgoing);
    lemma_neighbours_once(edges, a, outgoing);
    lemma_neighbours_once(others, a, outgoing);
    lemma_neighbours(edges, a, outgoing);
    lemma_neighbours(others, a, outgoing);
    assert forall|s: usize| here.to_set().contains(s) == there.to_set().contains(s) by {
        assert(here.contains(s) == there.contains(s));
    }
    assert(here.to_set() =~= there.to_set());
    here.unique_seq_to_set();
    there.unique_seq_to_set();
}

/// The neighbours of a node are the nodes that an edge joins it with.
pub proof fn lemma_neighbours(edges: Seq<(usize, usize)>, a: usize, outgoing: bool)
    ensures
        forall|s: usize| #[trigger]
            neighbours_of(edges, a, outgoing).contains(s) <==> if outgoing {
                edge_in(edges, a as int, s as int)
            } else {
                edge_in(edges, s as int, a as int)
            },
    decreases edges.len(),
{
    if edges.len() > 0 {
        let rest = edges.drop_last();
        let e = edges.last();
        lemma_neighbours(rest, a, outgoing);
        lemma_edge_in_push(rest, e);
        assert(rest.push(e) =~= edges);
        let here = neighbours_of(edges, a, outgoing);
        let before = neighbours_of(rest, a, outgoing);
        assert forall|s: usize| #[trigger]
            here.contains(s) <==> if outgoing {
                edge_in(edges, a as int, s as int)
            } else {
                edge_in(edges, s as int, a as int)
            } by {
            let added = if outgoing {
                e.0 == a
            } else {
                e.1 == a
            };
            let other = if outgoing {
                e.1
            } else {
                e.0
            };
            if added {
                assert(here =~= seq![other] + before);
                if here.contains(s) {
                    let i = choose|i: int| 0 <= i < here.len() && here[i] == s;
                    if i > 0 {
                        assert(before[i - 1] == s);
                    }
                }
                if before.contains(s) {
                    let i = choose|i: int| 0 <= i < before.len() && before[i] == s;
                    assert(here[i + 1] == s);
                }
                if s == other {
                    assert(here[0] == s);
                }
            } else {
                assert(here == before);
            }
        }
    } else {
        assert forall|s: usize| !(#[trigger] neighbours_of(edges, a, outgoing).contains(s)) by {
        }
    }
}

/// A directed graph whose edges all lead to nodes with greater numbers.
pub struct Dag {
    topology: Graph<(), (), Directed, usize>,
}

impl Dag {
    /// The number of nodes; they are numbered from zero.
    pub closed spec fn len(&self) -> nat {
        topology_nodes(self.topology)
    }

    /// The edges, each as source and target, in the order of their addition.
    pub closed spec fn edges(&self) -> Seq<(usize, usize)> {
        topology_edges(self.topology)
    }

    /// Whether an edge leads from `u` to `v`.
    pub open spec fn has_edge(&self, u: int, v: int) -> bool {
        edge_in(self.edges(), u, v)
    }

    /// No edge occurs twice.
    pub open spec fn edges_once(&self) -> bool {
        self.edges().no_duplicates()
    }

    /// Every edge leads to a node with a greater number.
    pub open spec fn wf(&self) -> bool {
        &&& self.len() <= usize::MAX
        &&& forall|k: int|
            0 <= k < self.edges().len() ==> (#[trigger] self.edges()[k]).0 < self.edges()[k].1
                < self.len()
    }

    /// An edge leads to a node with a greater number.
    pub proof fn lemma_edge_grows(&self, u: int, v: int)
        requires
            self.wf(),
            self.has_edge(u, v),
        ensures
            0 <= u < v < self.len(),
    {
    }

    /// The nodes of `p` are joined by edges, each to the next.
    pub open spec fn is_path(&self, p: Seq<int>) -> bool {
        &&& p.len() >= 1
        &&& 0 <= p[0] < self.len()
        &&& forall|k: int| 0 <= k < p.len() - 1 ==> self.has_edge(#[trigger] p[k], p[k + 1])
    }

    /// A path leads from `u` to `v`; every node leads to itself.
    pub open spec fn reaches(&self, u: int, v: int) -> bool {
        exists|p: Seq<int>| #[trigger] self.is_path(p) && p.first() == u && p.last() == v
    }

    /// Along a path the numbers of the nodes grow.
    pub proof fn lemma_path_grows(&self, p: Seq<int>)
        requires
            self.wf(),
            self.is_path(p),
        ensures
            p.first() <= p.last(),
            p.len() >= 2 ==> p.first() < p.last(),
            p.last() < self.len(),
        decreases p.len(),
    {
        if p.len() >= 2 {
            let q = p.drop_last();
            assert forall|k: int| 0 <= k < q.len() - 1 implies self.has_edge(
                #[trigger] q[k],
                q[k + 1],
            ) by {
                assert(self.has_edge(p[k], p[k + 1]));
            }
            self.lemma_path_grows(q);
            assert(self.has_edge(p[p.len() - 2], p[p.len() - 2 + 1]));
        }
    }

    /// The graph has no cycle: no path of at least one edge returns to its
    /// first node.
    pub proof fn lemma_acyclic(&self, p: Seq<int>)
        requires
            self.wf(),
            self.is_path(p),
            p.len() >= 2,
        ensures
            p.first() != p.last(),
    {
        self.lemma_path_grows(p);
    }

    /// What a node reaches has no smaller number.
    pub proof fn lemma_reaches_grows(&self, u: int, v: int)
        requires
            self.wf(),
            self.reaches(u, v),
        ensures
            0 <= u <= v < self.len(),
    {
        let p = choose|p: Seq<int>| #[trigger] self.is_path(p) && p.first() == u && p.last() == v;
        self.lemma_path_grows(p);
    }

    /// Every node reaches itself.
    pub proof fn lemma_reaches_self(&self, u: int)
        requires
            0 <= u < self.len(),
        ensures
            self.reaches(u, u),
    {
        let p = seq![u];
        assert(self.is_path(p));
        assert(p.first() == u && p.last() == u);
    }

    /// A node reaches what a node behind one of its edges reaches.
    pub proof fn lemma_reaches_first(&self, u: int, s: int, v: int)
        requires
            self.wf(),
            self.has_edge(u, s),
            self.reaches(s, v),
        ensures
            self.reaches(u, v),
    {
        let p = choose|p: Seq<int>| #[trigger] self.is_path(p) && p.first() == s && p.last() == v;
        let q = seq![u] + p;
        assert forall|k: int| 0 <= k < q.len() - 1 implies self.has_edge(#[trigger] q[k], q[k + 1]) by {
            if k > 0 {
                assert(self.has_edge(p[k - 1], p[k - 1 + 1]));
            }
        }
        assert(self.is_path(q));
        assert(q.first() == u && q.last() == v);
    }

    /// A node reaches what lies behind an edge from a node that it reaches.
    pub proof fn lemma_reaches_last(&self, u: int, t: int, v: int)
        requires
            self.wf(),
            self.reaches(u, t),
            self.has_edge(t, v),
        ensures
            self.reaches(u, v),
    {
        let p = choose|p: Seq<int>| #[trigger] self.is_path(p) && p.first() == u && p.last() == t;
        let q = p.push(v);
        assert forall|k: int| 0 <= k < q.len() - 1 implies self.has_edge(#[trigger] q[k], q[k + 1]) by {
            if k < p.len() - 1 {
                assert(self.has_edge(p[k], p[k + 1]));
            }
        }
        assert(self.is_path(q));
        assert(q.first() == u && q.last() == v);
    }

    /// A node reaches another node only through one of its edges.
    pub proof fn lemma_reaches_split_first(&self, u: int, v: int)
        requires
            self.wf(),
            self.reaches(u, v),
            u != v,
        ensures
            exists|s: int| #[trigger] self.has_edge(u, s) && self.reaches(s, v),
    {
        let p = choose|p: Seq<int>| #[trigger] self.is_path(p) && p.first() == u && p.last() == v;
        let q = p.drop_first();
        assert(self.has_edge(p[0int], p[0int + 1]));
        assert forall|k: int| 0 <= k < q.len() - 1 implies self.has_edge(#[trigger] q[k], q[k + 1]) by {
            assert(self.has_edge(p[k + 1], p[k + 1 + 1]));
        }
        assert(self.is_path(q));
        assert(q.first() == p[1] && q.last() == v);
        assert(self.has_edge(u, p[1]) && self.reaches(p[1], v));
    }

    /// A node is reached from another node only through one of its edges.
    pub proof fn lemma_reaches_split_last(&self, u: int, v: int)
        requires
            self.wf(),
            self.reaches(u, v),
            u != v,
        ensures
            exists|t: int| #[trigger] self.has_edge(t, v) && self.reaches(u, t),
    {
        let p = choose|p: Seq<int>| #[trigger] self.is_path(p) && p.first() == u && p.last() == v;
        let q = p.drop_last();
        let t = p[p.len() - 2];
        assert(self.has_edge(p[p.len() - 2], p[p.len() - 2 + 1]));
        assert forall|k: int| 0 <= k < q.len() - 1 implies self.has_edge(#[trigger] q[k], q[k + 1]) by {
            assert(self.has_edge(p[k], p[k + 1]));
        }
        assert(self.is_path(q));
        assert(q.first() == u && q.last() == t);
        assert(self.has_edge(t, v) && self.reaches(u, t));
    }

    /// A graph without nodes.
    pub fn new() -> (g: Dag)
        ensures
            g.wf(),
            g.len() == 0,
            g.edges() == Seq::<(usize, usize)>::empty(),
    {
        Dag { topology: topology_new() }
    }

    pub fn node_count(&self) -> (n: usize)
        ensures
            n == self.len(),
    {
        topology_node_count(&self.topology)
    }

    pub fn edge_count(&self) -> (n: usize)
        ensures
            n == self.edges().len(),
    {
        topology_edge_count(&self.topology)
    }

    /// Adds a node; it gets the next number.
    pub fn add_node(&mut self) -> (ix: usize)
        requires
            old(self).wf(),
            old(self).len() < usize::MAX,
        ensures
            final(self).wf(),
            ix == old(self).len(),
            final(self).len() == old(self).len() + 1,
            final(self).edges() == old(self).edges(),
    {
        let ix = topology_add_node(&mut self.topology);
        proof {
            let after = self.edges();
            assert forall|k: int| 0 <= k < after.len() implies (#[trigger] after[k]).0 < after[k].1
                < self.len() by {
                assert(after[k] == old(self).edges()[k]);
            }
        }
        ix
    }

    /// Adds an edge from a node to a node with a greater number.
    pub fn add_edge(&mut self, u: usize, v: usize)
        requires
            old(self).wf(),
            u < v < old(self).len(),
        ensures
            final(self).wf(),
            final(self).len() == old(self).len(),
            final(self).edges() == old(self).edges().push((u, v)),
            forall|a: int, b: int| #[trigger]
                final(self).has_edge(a, b) <==> old(self).has_edge(a, b) || (a == u && b == v),
    {
        topology_add_edge(&mut self.topology, u, v);
        proof {
            lemma_edge_in_push(old(self).edges(), (u, v));
            let before = old(self).edges();
            let after = self.edges();
            assert forall|k: int| 0 <= k < after.len() implies (#[trigger] after[k]).0 < after[k].1
                < self.len() by {
                if k < before.len() {
                    assert(after[k] == before[k]);
                }
            }
        }
    }

    /// Adds an edge from a node to a node with a greater number, unless the
    /// graph has that edge already.
    pub fn update_edge(&mut self, u: usize, v: usize)
        requires
            old(self).wf(),
            u < v < old(self).len(),
        ensures
            final(self).wf(),
            final(self).len() == old(self).len(),
            final(self).edges() == if old(self).has_edge(u as int, v as int) {
                old(self).edges()
            } else {
                old(self).edges().push((u, v))
            },
            forall|a: int, b: int| #[trigger]
                final(self).has_edge(a, b) <==> old(self).has_edge(a, b) || (a == u && b == v),
            old(self).edges_once() ==> final(self).edges_once(),
    {
        topology_update_edge(&mut self.topology, u, v);
        proof {
            let before = old(self).edges();
            let after = self.edges();
            if before.contains((u, v)) {
                let k = choose|k: int| 0 <= k < before.len() && before[k] == (u, v);
                assert(before[k].0 == u && before[k].1 == v);
            }
            if old(self).has_edge(u as int, v as int) {
                let k = choose|k: int|
                    0 <= k < before.len() && (#[trigger] before[k]).0 == u && before[k].1 == v;
                assert(before[k] == (u, v));
            } else {
                lemma_edge_in_push(before, (u, v));
                assert forall|k: int| 0 <= k < after.len() implies (#[trigger] after[k]).0
                    < after[k].1 < self.len() by {
                    if k < before.len() {
                        assert(after[k] == before[k]);
                    }
                }
                if before.no_duplicates() {
                    assert forall|i: int, j: int|
                        0 <= i < after.len() && 0 <= j < after.len() && i != j implies after[i]
                        != after[j] by {
                        if i < before.len() && j < before.len() {
                            assert(after[i] == before[i] && after[j] == before[j]);
                        } else if i < before.len() {
                            assert(after[i] == before[i]);
                            assert(!(before[i].0 == u && before[i].1 == v));
                        } else {
                            assert(after[j] == before[j]);
                            assert(!(before[j].0 == u && before[j].1 == v));
                        }
                    }
                }
            }
        }
    }

    /// The nodes that the edges from `v` lead to, newest edge first.
    pub fn successors(&self, v: usize) -> (r: Vec<usize>)
        requires
            self.wf(),
        ensures
            r@ == neighbours_of(self.edges(), v, true),
            forall|s: usize| #[trigger] r@.contains(s) <==> self.has_edge(v as int, s as int),
            forall|k: int| 0 <= k < r@.len() ==> v < #[trigger] r@[k] < self.len(),
    {
        let r = topology_neighbours(&self.topology, v, petgraph::Direction::Outgoing);
        proof {
            lemma_neighbours(self.edges(), v, true);
            assert forall|k: int| 0 <= k < r@.len() implies v < #[trigger] r@[k] < self.len() by {
                assert(r@.contains(r@[k]));
            }
        }
        r
    }

    /// The nodes that the edges to `v` come from, newest edge first.
    pub fn predecessors(&self, v: usize) -> (r: Vec<usize>)
        requires
            self.wf(),
        ensures
            r@ == neighbours_of(self.edges(), v, false),
            forall|s: usize| #[trigger] r@.contains(s) <==> self.has_edge(s as int, v as int),
            forall|k: int| 0 <= k < r@.len() ==> #[trigger] r@[k] < v < self.len(),
    {
        let r = topology_neighbours(&self.topology, v, petgraph::Direction::Incoming);
        proof {
            lemma_neighbours(self.edges(), v, false);
            assert forall|k: int| 0 <= k < r@.len() implies #[trigger] r@[k] < v < self.len() by {
                assert(r@.contains(r@[k]));
            }
        }
        r
    }

    /// Marks the nodes that reach `target`.
    pub fn reaching(&self, target: usize) -> (r: Vec<bool>)
        requires
            self.wf(),
            target < self.len(),
        ensures
            r@.len() == self.len(),
            forall|v: int| 0 <= v < r@.len() ==> #[trigger] r@[v] == self.reaches(v, target as int),
    {
        let n = self.node_count();
        let mut r = false_vec(n);
        let mut v: usize = n;
        while v > 0
            invariant
                0 <= v <= n,
                n == self.len(),
                target < n,
                self.wf(),
                r@.len() == n,
                forall|w: int| v <= w < n ==> #[trigger] r@[w] == self.reaches(w, target as int),
            decreases v,
        {
            v -= 1;
            let succ = self.successors(v);
            let mut hit = v == target;
            let mut k: usize = 0;
            while k < succ.len()
                invariant
                    0 <= k <= succ@.len(),
                    0 <= v < n,
                    n == self.len(),
                    r@.len() == n,
                    forall|j: int| 0 <= j < succ@.len() ==> v < #[trigger] succ@[j] < n,
                    hit <==> (v == target || exists|j: int| 0 <= j < k && r@[succ@[j] as int]),
                decreases succ@.len() - k,
            {
                if r[succ[k]] {
                    hit = true;
                }
                k += 1;
            }
            proof {
                if hit {
                    if v == target {
                        self.lemma_reaches_self(v as int);
                    } else {
                        let j = choose|j: int| 0 <= j < succ@.len() && r@[succ@[j] as int];
                        assert(succ@.contains(succ@[j]));
                        self.lemma_reaches_first(v as int, succ@[j] as int, target as int);
                    }
                }
                if self.reaches(v as int, target as int) && v != target {
                    self.lemma_reaches_split_first(v as int, target as int);
                    let s = choose|s: int| #[trigger]
                        self.has_edge(v as int, s) && self.reaches(s, target as int);
                    self.lemma_edge_grows(v as int, s);
                    assert(succ@.contains(s as usize));
                    let j = choose|j: int| 0 <= j < succ@.len() && succ@[j] == s as usize;
                    assert(r@[succ@[j] as int]);
                }
            }
            r.set(v, hit);
        }
        r
    }

    /// Marks the nodes that `source` reaches.
    pub fn reachable_from(&self, source: usize) -> (r: Vec<bool>)
        requires
            self.wf(),
            source < self.len(),
        ensures
            r@.len() == self.len(),
            forall|v: int| 0 <= v < r@.len() ==> #[trigger] r@[v] == self.reaches(source as int, v),
    {
        let n = self.node_count();
        let mut r = false_vec(n);
        let mut v: usize = 0;
        while v < n
            invariant
                0 <= v <= n,
                n == self.len(),
                source < n,
                self.wf(),
                r@.len() == n,
                forall|w: int| 0 <= w < v ==> #[trigger] r@[w] == self.reaches(source as int, w),
            decreases n - v,
        {
            let pred = self.predecessors(v);
            let mut hit = v == source;
            let mut k: usize = 0;
            while k < pred.len()
                invariant
                    0 <= k <= pred@.len(),
                    0 <= v < n,
                    n == self.len(),
                    r@.len() == n,
                    forall|j: int| 0 <= j < pred@.len() ==> #[trigger] pred@[j] < v,
                    hit <==> (v == source || exists|j: int| 0 <= j < k && r@[pred@[j] as int]),
                decreases pred@.len() - k,
            {
                if r[pred[k]] {
                    hit = true;
                }
                k += 1;
            }
            proof {
                if hit {
                    if v == source {
                        self.lemma_reaches_self(v as int);
                    } else {
                        let j = choose|j: int| 0 <= j < pred@.len() && r@[pred@[j] as int];
                        assert(pred@.contains(pred@[j]));
                        self.lemma_reaches_last(source as int, pred@[j] as int, v as int);
                    }
                }
                if self.reaches(source as int, v as int) && v != source {
                    self.lemma_reaches_split_last(source as int, v as int);
                    let t = choose|t: int| #[trigger]
                        self.has_edge(t, v as int) && self.reaches(source as int, t);
                    self.lemma_edge_grows(t, v as int);
                    assert(pred@.contains(t as usize));
                    let j = choose|j: int| 0 <= j < pred@.len() && pred@[j] == t as usize;
                    assert(r@[pred@[j] as int]);
                }
            }
            r.set(v, hit);
            v += 1;
        }
        r
    }

    /// An edge joins `u` and `w`, in one direction or the other.
    pub open spec fn adjacent(&self, u: int, w: int) -> bool {
        self.has_edge(u, w) || self.has_edge(w, u)
    }

    /// The nodes of `p` are joined by edges, each with the next, whatever
    /// the directions of the edges.
    pub open spec fn is_walk(&self, p: Seq<int>) -> bool {
        &&& p.len() >= 1
        &&& 0 <= p[0] < self.len()
        &&& forall|k: int| 0 <= k < p.len() - 1 ==> self.adjacent(#[trigger] p[k], p[k + 1])
    }

    /// Edges join `u` with `v`, directly or through other nodes, whatever
    /// their directions.
    pub open spec fn joined(&self, u: int, v: int) -> bool {
        exists|p: Seq<int>| #[trigger] self.is_walk(p) && p.first() == u && p.last() == v
    }

    /// Every node is joined with itself.
    pub proof fn lemma_joined_self(&self, u: int)
        requires
            0 <= u < self.len(),
        ensures
            self.joined(u, u),
    {
        let p = seq![u];
        assert(self.is_walk(p));
        assert(p.first() == u && p.last() == u);
    }

    /// What a node is joined with is joined with the neighbours of that.
    pub proof fn lemma_joined_step(&self, u: int, t: int, v: int)
        requires
            self.joined(u, t),
            self.adjacent(t, v),
        ensures
            self.joined(u, v),
    {
        let p = choose|p: Seq<int>| #[trigger] self.is_walk(p) && p.first() == u && p.last() == t;
        let q = p.push(v);
        assert forall|k: int| 0 <= k < q.len() - 1 implies self.adjacent(#[trigger] q[k], q[k + 1]) by {
            if k < p.len() - 1 {
                assert(self.adjacent(p[k], p[k + 1]));
            }
        }
        assert(self.is_walk(q));
        assert(q.first() == u && q.last() == v);
    }

    /// A set of nodes that no edge leaves holds all that its nodes are
    /// joined with.
    pub proof fn lemma_closed_holds_joined(&self, members: Seq<usize>, p: Seq<int>)
        requires
            self.wf(),
            self.is_walk(p),
            members.contains(p.first() as usize),
            forall|u: int, w: int| #[trigger]
                self.has_edge(u, w) ==> (members.contains(u as usize) <==> members.contains(
                    w as usize,
                )),
        ensures
            members.contains(p.last() as usize),
        decreases p.len(),
    {
        if p.len() >= 2 {
            let q = p.drop_last();
            assert forall|k: int| 0 <= k < q.len() - 1 implies self.adjacent(#[trigger] q[k], q[k + 1]) by {
                assert(self.adjacent(p[k], p[k + 1]));
            }
            self.lemma_closed_holds_joined(members, q);
            assert(self.adjacent(p[p.len() - 2], p[p.len() - 2 + 1]));
            let t = p[p.len() - 2];
            let v = p.last();
            if self.has_edge(t, v) {
                self.lemma_edge_grows(t, v);
            } else {
                self.lemma_edge_grows(v, t);
            }
        }
    }

    /// Nodes that an edge joins are both marked or both not.
    pub open spec fn closed_marks(&self, marks: Seq<bool>) -> bool {
        &&& marks.len() == self.len()
        &&& forall|u: int, w: int| #[trigger] self.has_edge(u, w) ==> marks[u] == marks[w]
    }

    /// Marks every node that edges join with `start`, directly or through
    /// other nodes, whatever the directions of the edges, and lists the
    /// nodes that it marked. From a node that is marked already nothing is
    /// reached: no node is listed, and the marks stay as they are.
    pub fn component_of(&self, start: usize, marks: &mut Vec<bool>) -> (members: Vec<usize>)
        requires
            self.wf(),
            start < self.len(),
            self.closed_marks(old(marks)@),
        ensures
            self.closed_marks(final(marks)@),
            forall|v: int|
                0 <= v < self.len() ==> (#[trigger] final(marks)@[v] <==> old(marks)@[v]
                    || members@.contains(v as usize)),
            forall|k: int|
                0 <= k < members@.len() ==> #[trigger] members@[k] < self.len() && !old(marks)@[members@[k] as int],
            members@.contains(start) <==> !old(marks)@[start as int],
            forall|u: int, w: int| #[trigger]
                self.has_edge(u, w) ==> (members@.contains(u as usize) <==> members@.contains(
                    w as usize,
                )),
            forall|v: int|
                0 <= v < self.len() ==> (members@.contains(v as usize) <==> !old(
                    marks,
                )@[start as int] && #[trigger] self.joined(start as int, v)),
            old(marks)@[start as int] ==> *final(marks) == *old(marks) && members@.len() == 0,
    {
        if marks[start] {
            return Vec::new();
        }
        self.component_from(start, marks)
    }

    /// The component of a node that is not marked.
    fn component_from(&self, start: usize, marks: &mut Vec<bool>) -> (members: Vec<usize>)
        requires
            self.wf(),
            start < self.len(),
            self.closed_marks(old(marks)@),
            !old(marks)@[start as int],
        ensures
            self.closed_marks(final(marks)@),
            forall|v: int|
                0 <= v < self.len() ==> (#[trigger] final(marks)@[v] <==> old(marks)@[v]
                    || members@.contains(v as usize)),
            forall|k: int|
                0 <= k < members@.len() ==> #[trigger] members@[k] < self.len() && !old(marks)@[members@[k] as int],
            members@.contains(start),
            forall|u: int, w: int| #[trigger]
                self.has_edge(u, w) ==> (members@.contains(u as usize) <==> members@.contains(
                    w as usize,
                )),
            forall|v: int|
                0 <= v < self.len() ==> (members@.contains(v as usize) <==> #[trigger] self.joined(
                    start as int,
                    v,
                )),
    {
        let n = self.node_count();
        let mut members: Vec<usize> = Vec::new();
        let mut stack: Vec<usize> = Vec::new();
        marks.set(start, true);
        stack.push(start);
        proof {
            lemma_count_true_bound(marks@);
            assert(stack@[0] == start);
            self.lemma_joined_self(start as int);
        }
        while stack.len() > 0
            invariant
                n == self.len(),
                forall|k: int| 0 <= k < stack@.len() ==> self.joined(start as int, #[trigger] stack@[k] as int),
                forall|k: int|
                    0 <= k < members@.len() ==> self.joined(start as int, #[trigger] members@[k] as int),
                start < n,
                self.wf(),
                self.closed_marks(old(marks)@),
                marks@.len() == n,
                forall|v: int| 0 <= v < n && old(marks)@[v] ==> #[trigger] marks@[v],
                forall|k: int|
                    0 <= k < stack@.len() ==> #[trigger] stack@[k] < n && marks@[stack@[k] as int]
                        && !old(marks)@[stack@[k] as int],
                forall|k: int|
                    0 <= k < members@.len() ==> #[trigger] members@[k] < n
                        && marks@[members@[k] as int] && !old(marks)@[members@[k] as int],
                forall|v: int|
                    0 <= v < n && #[trigger] marks@[v] && !old(marks)@[v] ==> stack@.contains(
                        v as usize,
                    ) || members@.contains(v as usize),
                forall|k: int, w: int|
                    0 <= k < members@.len() && #[trigger] self.adjacent(
                        #[trigger] members@[k] as int,
                        w,
                    ) ==> marks@[w],
                stack@.contains(start) || members@.contains(start),
            decreases 2 * (n - count_true(marks@)) + stack@.len(),
        {
            proof {
                lemma_count_true_bound(marks@);
            }
            let ghost stack0 = stack@;
            let ghost members0 = members@;
            let u = stack.pop().unwrap();
            members.push(u);
            proof {
                assert(stack0[stack0.len() - 1] == u);
                assert(members@[members@.len() - 1] == u);
                assert(self.joined(start as int, stack0[stack0.len() - 1] as int));
                assert forall|k: int| 0 <= k < stack@.len() implies self.joined(
                    start as int,
                    #[trigger] stack@[k] as int,
                ) by {
                    assert(stack@[k] == stack0[k]);
                }
                assert forall|k: int| 0 <= k < members@.len() implies self.joined(
                    start as int,
                    #[trigger] members@[k] as int,
                ) by {
                    if k < members0.len() {
                        assert(members@[k] == members0[k]);
                    }
                }
                assert forall|v: int|
                    0 <= v < n && #[trigger] marks@[v] && !old(marks)@[v] implies stack@.contains(
                    v as usize,
                ) || members@.contains(v as usize) by {
                    if stack0.contains(v as usize) {
                        let k = choose|k: int| 0 <= k < stack0.len() && stack0[k] == v as usize;
                        if k < stack@.len() {
                            assert(stack@[k] == v as usize);
                        }
                    } else {
                        let k = choose|k: int| 0 <= k < members0.len() && members0[k] == v as usize;
                        assert(members@[k] == v as usize);
                    }
                }
            }
            let succ = self.successors(u);
            let pred = self.predecessors(u);
            let ghost marks_at_pop = marks@;
            let mut side: usize = 0;
            while side < 2
                invariant
                    0 <= side <= 2,
                    n == self.len(),
                    u < n,
                    self.wf(),
                    marks@.len() == n,
                    members@ == members0.push(u),
                    self.joined(start as int, u as int),
                    forall|k: int|
                        0 <= k < stack@.len() ==> self.joined(start as int, #[trigger] stack@[k] as int),
                    forall|s: usize| #[trigger]
                        succ@.contains(s) <==> self.has_edge(u as int, s as int),
                    forall|s: usize| #[trigger]
                        pred@.contains(s) <==> self.has_edge(s as int, u as int),
                    forall|j: int| 0 <= j < succ@.len() ==> #[trigger] succ@[j] < n,
                    forall|j: int| 0 <= j < pred@.len() ==> #[trigger] pred@[j] < n,
                    forall|v: int| 0 <= v < n && marks_at_pop[v] ==> #[trigger] marks@[v],
                    forall|v: int| 0 <= v < n && old(marks)@[v] ==> #[trigger] marks@[v],
                    forall|k: int|
                        0 <= k < stack@.len() ==> #[trigger] stack@[k] < n
                            && marks@[stack@[k] as int] && !old(marks)@[stack@[k] as int],
                    forall|v: int|
                        0 <= v < n && #[trigger] marks@[v] && !old(marks)@[v] ==> stack@.contains(
                            v as usize,
                        ) || members@.contains(v as usize),
                    stack@.contains(start) || members@.contains(start),
                    side >= 1 ==> forall|j: int| 0 <= j < succ@.len() ==> marks@[#[trigger] succ@[j] as int],
                    side >= 2 ==> forall|j: int| 0 <= j < pred@.len() ==> marks@[#[trigger] pred@[j] as int],
                    2 * (n - count_true(marks@)) + stack@.len() + 1 <= 2 * (n - count_true(
                        marks_at_pop,
                    )) + stack0.len(),
                    count_true(marks@) <= n,
                decreases 2 - side,
            {
                let list = if side == 0 {
                    &succ
                } else {
                    &pred
                };
                proof {
                    assert forall|t: int| 0 <= t < list@.len() implies self.adjacent(
                        u as int,
                        #[trigger] list@[t] as int,
                    ) by {
                        assert(list@.contains(list@[t]));
                    }
                }
                let mut j: usize = 0;
                while j < list.len()
                    invariant
                        0 <= j <= list@.len(),
                        n == self.len(),
                        marks@.len() == n,
                        self.joined(start as int, u as int),
                        forall|t: int|
                            0 <= t < list@.len() ==> self.adjacent(u as int, #[trigger] list@[t] as int),
                        forall|k: int|
                            0 <= k < stack@.len() ==> self.joined(
                                start as int,
                                #[trigger] stack@[k] as int,
                            ),
                        forall|t: int| 0 <= t < list@.len() ==> #[trigger] list@[t] < n,
                        forall|v: int| 0 <= v < n && marks_at_pop[v] ==> #[trigger] marks@[v],
                        forall|v: int| 0 <= v < n && old(marks)@[v] ==> #[trigger] marks@[v],
                        forall|k: int|
                            0 <= k < stack@.len() ==> #[trigger] stack@[k] < n
                                && marks@[stack@[k] as int] && !old(marks)@[stack@[k] as int],
                        forall|v: int|
                            0 <= v < n && #[trigger] marks@[v] && !old(marks)@[v]
                                ==> stack@.contains(v as usize) || members@.contains(v as usize),
                        stack@.contains(start) || members@.contains(start),
                        forall|t: int| 0 <= t < j ==> marks@[#[trigger] list@[t] as int],
                        side >= 1 ==> forall|t: int|
                            0 <= t < succ@.len() ==> marks@[#[trigger] succ@[t] as int],
                        forall|t: int| 0 <= t < succ@.len() ==> #[trigger] succ@[t] < n,
                        2 * (n - count_true(marks@)) + stack@.len() + 1 <= 2 * (n - count_true(
                            marks_at_pop,
                        )) + stack0.len(),
                        count_true(marks@) <= n,
                    decreases list@.len() - j,
                {
                    let w = list[j];
                    if !marks[w] {
                        let ghost marks1 = marks@;
                        let ghost stack1 = stack@;
                        proof {
                            lemma_count_true_set(marks@, w as int);
                            assert(!old(marks)@[w as int]);
                        }
                        marks.set(w, true);
                        stack.push(w);
                        proof {
                            lemma_count_true_bound(marks@);
                            assert(stack@[stack@.len() - 1] == w);
                            assert(self.adjacent(u as int, list@[j as int] as int));
                            self.lemma_joined_step(start as int, u as int, w as int);
                            assert forall|k: int| 0 <= k < stack@.len() implies self.joined(
                                start as int,
                                #[trigger] stack@[k] as int,
                            ) by {
                                if k < stack1.len() {
                                    assert(stack@[k] == stack1[k]);
                                }
                            }
                            assert forall|k: int| 0 <= k < stack@.len() implies #[trigger] stack@[k]
                                < n && marks@[stack@[k] as int] && !old(marks)@[stack@[k] as int] by {
                                if k < stack1.len() {
                                    assert(stack@[k] == stack1[k]);
                                }
                            }
                            assert forall|v: int|
                                0 <= v < n && #[trigger] marks@[v] && !old(marks)@[v] implies stack@.contains(v as usize) || members@.contains(
                                v as usize,
                            ) by {
                                if v != w {
                                    assert(marks1[v]);
                                    if stack1.contains(v as usize) {
                                        let k = choose|k: int|
                                            0 <= k < stack1.len() && stack1[k] == v as usize;
                                        assert(stack@[k] == v as usize);
                                    }
                                }
                            }
                            if stack1.contains(start) {
                                let k = choose|k: int| 0 <= k < stack1.len() && stack1[k] == start;
                                assert(stack@[k] == start);
                            }
                        }
                    }
                    j += 1;
                }
                side += 1;
            }
            proof {
                assert forall|k: int, w: int|
                    0 <= k < members@.len() && #[trigger] self.adjacent(
                        #[trigger] members@[k] as int,
                        w,
                    ) implies marks@[w] by {
                    if k < members0.len() {
                        assert(members@[k] == members0[k]);
                        assert(self.adjacent(members0[k] as int, w));
                        if self.has_edge(members0[k] as int, w) {
                            self.lemma_edge_grows(members0[k] as int, w);
                        } else {
                            self.lemma_edge_grows(w, members0[k] as int);
                        }
                        assert(marks_at_pop[w]);
                    } else {
                        if self.has_edge(u as int, w) {
                            self.lemma_edge_grows(u as int, w);
                            assert(succ@.contains(w as usize));
                            let j = choose|j: int| 0 <= j < succ@.len() && succ@[j] == w as usize;
                            assert(marks@[succ@[j] as int]);
                        } else {
                            self.lemma_edge_grows(w, u as int);
                            assert(pred@.contains(w as usize));
                            let j = choose|j: int| 0 <= j < pred@.len() && pred@[j] == w as usize;
                            assert(marks@[pred@[j] as int]);
                        }
                    }
                }
                assert forall|k: int| 0 <= k < members@.len() implies #[trigger] members@[k] < n
                    && marks@[members@[k] as int] && !old(marks)@[members@[k] as int] by {
                    if k < members0.len() {
                        assert(members@[k] == members0[k]);
                    }
                }
            }
        }
        proof {
            assert forall|v: int| 0 <= v < n implies (#[trigger] marks@[v] <==> old(marks)@[v]
                || members@.contains(v as usize)) by {
                if members@.contains(v as usize) {
                    let k = choose|k: int| 0 <= k < members@.len() && members@[k] == v as usize;
                    assert(marks@[members@[k] as int]);
                }
                if marks@[v] && !old(marks)@[v] {
                    assert(!stack@.contains(v as usize));
                }
            }
            assert forall|u: int, w: int| #[trigger] self.has_edge(u, w) implies marks@[u]
                == marks@[w] && (members@.contains(u as usize) <==> members@.contains(
                w as usize,
            )) by {
                self.lemma_edge_grows(u, w);
                assert(old(marks)@[u] == old(marks)@[w]);
                if members@.contains(u as usize) {
                    let k = choose|k: int| 0 <= k < members@.len() && members@[k] == u as usize;
                    assert(self.adjacent(members@[k] as int, w));
                    assert(marks@[w]);
                }
                if members@.contains(w as usize) {
                    let k = choose|k: int| 0 <= k < members@.len() && members@[k] == w as usize;
                    assert(self.adjacent(members@[k] as int, u));
                    assert(marks@[u]);
                }
            }
            assert(!stack@.contains(start));
            assert forall|v: int| 0 <= v < self.len() implies (members@.contains(v as usize)
                <==> #[trigger] self.joined(start as int, v)) by {
                if members@.contains(v as usize) {
                    let k = choose|k: int| 0 <= k < members@.len() && members@[k] == v as usize;
                    assert(self.joined(start as int, members@[k] as int));
                }
                if self.joined(start as int, v) {
                    let p = choose|p: Seq<int>| #[trigger]
                        self.is_walk(p) && p.first() == start as int && p.last() == v;
                    self.lemma_closed_holds_joined(members@, p);
                }
            }
        }
        members
    }
}

/// The number of marks that are set.
pub open spec fn count_true(marks: Seq<bool>) -> nat
    decreases marks.len(),
{
    if marks.len() == 0 {
        0
    } else {
        count_true(marks.drop_last()) + if marks.last() {
            1nat
        } else {
            0nat
        }
    }
}

/// No more marks are set than there are marks.
pub proof fn lemma_count_true_bound(marks: Seq<bool>)
    ensures
        count_true(marks) <= marks.len(),
    decreases marks.len(),
{
    if marks.len() > 0 {
        lemma_count_true_bound(marks.drop_last());
    }
}

/// Setting a mark that was not set makes one more.
pub proof fn lemma_count_true_set(marks: Seq<bool>, i: int)
    requires
        0 <= i < marks.len(),
        !marks[i],
    ensures
        count_true(marks.update(i, true)) == count_true(marks) + 1,
    decreases marks.len(),
{
    let after = marks.update(i, true);
    if i == marks.len() - 1 {
        assert(after.drop_last() =~= marks.drop_last());
    } else {
        lemma_count_true_set(marks.drop_last(), i);
        assert(after.drop_last() =~= marks.drop_last().update(i, true));
    }
}

/// A list of `n` times `false`.
pub fn false_vec(n: usize) -> (v: Vec<bool>)
    ensures
        v@.len() == n,
        forall|i: int| 0 <= i < n ==> !#[trigger] v@[i],
{
    let mut v: Vec<bool> = Vec::new();
    let mut i: usize = 0;
    while i < n
        invariant
            0 <= i <= n,
            v@.len() == i,
            forall|j: int| 0 <= j < i ==> !#[trigger] v@[j],
        decreases n - i,
    {
        v.push(false);
        i += 1;
    }
    v
}

} // verus!
