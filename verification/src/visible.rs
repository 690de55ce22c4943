//! The visible graph: the shown nodes of the raw graph, joined wherever a
//! path leads from one to another through hidden nodes only.

use vstd::prelude::*;
use roaring::RoaringBitmap;
use crate::bitmap::{bitmap_insert, bitmap_new, bitmap_to_vec, bitmap_union_with, bitmap_values};
use crate::dag::{false_vec, Dag};
use crate::idx::RawNodeIndex;
use crate::matching_loop::MIN_MATCHING_LOOP_LENGTH;
use crate::raw::RawGraph;

verus! {

impl RawGraph {
    /// Whether node `i` is shown: visible and not disabled.
    pub open spec fn shown_at(&self, i: int) -> bool {
        self.nodes()[i].shown()
    }

    /// A path of at least one edge whose inner nodes are all hidden.
    pub open spec fn is_hidden_path(&self, p: Seq<int>) -> bool {
        &&& self.dag().is_path(p)
        &&& p.len() >= 2
        &&& forall|k: int| 1 <= k < p.len() - 1 ==> !self.shown_at(#[trigger] p[k])
    }

    /// A path of at least one edge leads from `u` to `x` through hidden
    /// nodes only.
    pub open spec fn links(&self, u: int, x: int) -> bool {
        exists|p: Seq<int>| #[trigger] self.is_hidden_path(p) && p.first() == u && p.last() == x
    }

    /// An edge links its ends.
    pub proof fn lemma_links_direct(&self, u: int, x: int)
        requires
            self.wf(),
            self.has_edge(u, x),
        ensures
            self.links(u, x),
    {
        self.dag().lemma_edge_grows(u, x);
        let p = seq![u, x];
        assert forall|k: int| 0 <= k < p.len() - 1 implies self.dag().has_edge(
            #[trigger] p[k],
            p[k + 1],
        ) by {
        }
        assert(self.is_hidden_path(p));
        assert(p.first() == u && p.last() == x);
    }

    /// A node is linked with what a hidden node behind one of its edges is
    /// linked with.
    pub proof fn lemma_links_through(&self, u: int, s: int, x: int)
        requires
            self.wf(),
            self.has_edge(u, s),
            !self.shown_at(s),
            self.links(s, x),
        ensures
            self.links(u, x),
    {
        self.dag().lemma_edge_grows(u, s);
        let q = choose|q: Seq<int>| #[trigger] self.is_hidden_path(q) && q.first() == s && q.last() == x;
        let p = seq![u] + q;
        assert forall|k: int| 0 <= k < p.len() - 1 implies self.dag().has_edge(
            #[trigger] p[k],
            p[k + 1],
        ) by {
            if k > 0 {
                assert(self.dag().has_edge(q[k - 1], q[k - 1 + 1]));
            }
        }
        assert forall|k: int| 1 <= k < p.len() - 1 implies !self.shown_at(#[trigger] p[k]) by {
            if k > 1 {
                assert(!self.shown_at(q[k - 1]));
            }
        }
        assert(self.is_hidden_path(p));
        assert(p.first() == u && p.last() == x);
    }

    /// A node is linked with another only by an edge to it, or through a
    /// hidden node behind one of its edges.
    pub proof fn lemma_links_split(&self, u: int, x: int)
        requires
            self.wf(),
            self.links(u, x),
        ensures
            exists|s: int| #[trigger]
                self.has_edge(u, s) && (s == x || (!self.shown_at(s) && self.links(s, x))),
    {
        let p = choose|p: Seq<int>| #[trigger] self.is_hidden_path(p) && p.first() == u && p.last() == x;
        assert(self.dag().has_edge(p[0int], p[0int + 1]));
        let s = p[1];
        if p.len() > 2 {
            let q = p.drop_first();
            self.dag().lemma_edge_grows(u, s);
            assert forall|k: int| 0 <= k < q.len() - 1 implies self.dag().has_edge(
                #[trigger] q[k],
                q[k + 1],
            ) by {
                assert(self.dag().has_edge(p[k + 1], p[k + 1 + 1]));
            }
            assert forall|k: int| 1 <= k < q.len() - 1 implies !self.shown_at(#[trigger] q[k]) by {
                assert(!self.shown_at(p[k + 1]));
            }
            assert(self.is_hidden_path(q));
            assert(q.first() == s && q.last() == x);
            assert(!self.shown_at(p[1]));
            assert(self.has_edge(u, s) && (!self.shown_at(s) && self.links(s, x)));
        } else {
            assert(self.has_edge(u, s) && s == x);
        }
    }

    /// What a node is linked with has a greater number.
    pub proof fn lemma_links_grows(&self, u: int, x: int)
        requires
            self.wf(),
            self.links(u, x),
        ensures
            0 <= u < x < self.nodes().len(),
    {
        let p = choose|p: Seq<int>| #[trigger] self.is_hidden_path(p) && p.first() == u && p.last() == x;
        self.dag().lemma_path_grows(p);
    }

    /// `s` is `x`, or `s` is hidden and linked with `x`.
    pub open spec fn via(&self, s: int, x: int) -> bool {
        s == x || (!self.shown_at(s) && self.links(s, x))
    }

    /// One of the first `k` nodes of `succ` is `x` or leads to it.
    pub open spec fn via_upto(&self, succ: Seq<usize>, k: int, x: int) -> bool {
        exists|j: int| 0 <= j < k && j < succ.len() && #[trigger] self.via(succ[j] as int, x)
    }

    /// The shown nodes that node `w` is linked with.
    pub open spec fn next_shown_of(&self, w: int) -> Set<u32> {
        Set::new(|x: u32| x < self.nodes().len() && self.shown_at(x as int) && self.links(w, x as int))
    }

    /// For every node the shown nodes that it is linked with.
    pub fn next_shown(&self) -> (r: Vec<RoaringBitmap>)
        requires
            self.wf(),
        ensures
            r@.len() == self.nodes().len(),
            forall|w: int|
                0 <= w < r@.len() ==> bitmap_values(#[trigger] r@[w]) == self.next_shown_of(w),
    {
        let n = self.node_count();
        let mut r: Vec<RoaringBitmap> = Vec::new();
        let mut i: usize = 0;
        while i < n
            invariant
                0 <= i <= n,
                r@.len() == i,
            decreases n - i,
        {
            r.push(bitmap_new());
            i += 1;
        }
        let mut w: usize = n;
        while w > 0
            invariant
                0 <= w <= n,
                n == self.nodes().len(),
                self.wf(),
                r@.len() == n,
                forall|v: int| w <= v < n ==> bitmap_values(#[trigger] r@[v]) == self.next_shown_of(v),
            decreases w,
        {
            w -= 1;
            let succ = self.topology().successors(w);
            let mut cur = bitmap_new();
            let mut k: usize = 0;
            while k < succ.len()
                invariant
                    0 <= k <= succ@.len(),
                    0 <= w < n,
                    n == self.nodes().len(),
                    n <= u32::MAX,
                    self.wf(),
                    r@.len() == n,
                    forall|j: int| 0 <= j < succ@.len() ==> w < #[trigger] succ@[j] < n,
                    forall|v: int|
                        w < v < n ==> bitmap_values(#[trigger] r@[v]) == self.next_shown_of(v),
                    forall|x: u32| #[trigger]
                        bitmap_values(cur).contains(x) <==> x < n && self.shown_at(x as int)
                            && self.via_upto(succ@, k as int, x as int),
                decreases succ@.len() - k,
            {
                let s = succ[k];
                let ghost before = bitmap_values(cur);
                if self.node(RawNodeIndex(s)).is_shown() {
                    bitmap_insert(&mut cur, s as u32);
                } else {
                    bitmap_union_with(&mut cur, &r[s]);
                }
                proof {
                    assert forall|x: u32| #[trigger]
                        bitmap_values(cur).contains(x) <==> x < n && self.shown_at(x as int)
                            && self.via_upto(succ@, k as int + 1, x as int) by {
                        let old_hit = x < n && self.shown_at(x as int) && self.via_upto(
                            succ@,
                            k as int,
                            x as int,
                        );
                        let here = x < n && self.shown_at(x as int) && self.via(s as int, x as int);
                        assert(before.contains(x) == old_hit);
                        if self.via_upto(succ@, k as int, x as int) {
                            let j = choose|j: int|
                                0 <= j < k && j < succ@.len() && #[trigger] self.via(
                                    succ@[j] as int,
                                    x as int,
                                );
                            assert(self.via_upto(succ@, k as int + 1, x as int));
                        }
                        if self.via(s as int, x as int) {
                            assert(self.via(succ@[k as int] as int, x as int));
                            assert(self.via_upto(succ@, k as int + 1, x as int));
                        }
                        if self.via_upto(succ@, k as int + 1, x as int) {
                            let j = choose|j: int|
                                0 <= j < k + 1 && j < succ@.len() && #[trigger] self.via(
                                    succ@[j] as int,
                                    x as int,
                                );
                            if j < k {
                                assert(self.via_upto(succ@, k as int, x as int));
                            }
                        }
                        if self.shown_at(s as int) {
                            assert(bitmap_values(cur).contains(x) == (before.contains(x) || x
                                == s as u32));
                            assert(here == (x == s as u32));
                        } else {
                            assert(bitmap_values(r@[s as int]) == self.next_shown_of(s as int));
                            assert(bitmap_values(cur).contains(x) == (before.contains(x)
                                || self.next_shown_of(s as int).contains(x)));
                            if self.links(s as int, x as int) {
                                self.lemma_links_grows(s as int, x as int);
                            }
                            assert(here == self.next_shown_of(s as int).contains(x));
                        }
                    }
                }
                k += 1;
            }
            proof {
                assert forall|x: u32|
                    bitmap_values(cur).contains(x) == self.next_shown_of(w as int).contains(x) by {
                    if bitmap_values(cur).contains(x) {
                        let j = choose|j: int|
                            0 <= j < succ@.len() && j < succ@.len() && #[trigger] self.via(
                                succ@[j] as int,
                                x as int,
                            );
                        assert(succ@.contains(succ@[j]));
                        if succ@[j] == x {
                            self.lemma_links_direct(w as int, x as int);
                        } else {
                            self.lemma_links_through(w as int, succ@[j] as int, x as int);
                        }
                    }
                    if self.next_shown_of(w as int).contains(x) {
                        self.lemma_links_split(w as int, x as int);
                        let s = choose|s: int| #[trigger]
                            self.has_edge(w as int, s) && (s == x || (!self.shown_at(s)
                                && self.links(s, x as int)));
                        self.dag().lemma_edge_grows(w as int, s);
                        assert(succ@.contains(s as usize));
                        let j = choose|j: int| 0 <= j < succ@.len() && succ@[j] == s as usize;
                        assert(self.via(succ@[j] as int, x as int));
                        assert(self.via_upto(succ@, succ@.len() as int, x as int));
                    }
                }
                assert(bitmap_values(cur) =~= self.next_shown_of(w as int));
            }
            r.set(w, cur);
        }
        r
    }
}

/// A node of the visible graph: a shown node of the raw graph, and the
/// greatest number of edges on a path of the visible graph that ends in it.
#[derive(Clone, Copy, Debug)]
pub struct VisibleNode {
    pub idx: RawNodeIndex,
    pub max_depth: u32,
}

/// The visible graph. Its nodes stand in the order of the raw nodes that
/// they show.
pub struct VisibleGraph {
    dag: Dag,
    nodes: Vec<VisibleNode>,
}

impl VisibleGraph {
    /// The nodes.
    pub closed spec fn nodes(&self) -> Seq<VisibleNode> {
        self.nodes@
    }

    /// The nodes and edges without what the nodes hold.
    pub closed spec fn dag(&self) -> Dag {
        self.dag
    }

    /// Whether an edge leads from `a` to `b`.
    pub open spec fn has_edge(&self, a: int, b: int) -> bool {
        self.dag().has_edge(a, b)
    }

    /// The raw node that node `a` shows.
    pub open spec fn raw_of(&self, a: int) -> int {
        self.nodes()[a].idx.0 as int
    }

    /// The nodes stand in the order of the raw nodes that they show, and
    /// every edge leads to a later node.
    pub open spec fn wf(&self) -> bool {
        &&& self.dag().wf()
        &&& self.dag().len() == self.nodes().len()
        &&& self.nodes().len() <= u32::MAX
        &&& forall|a: int, b: int|
            0 <= a < b < self.nodes().len() ==> #[trigger] self.raw_of(a) < #[trigger] self.raw_of(
                b,
            )
    }

    /// The nodes are the shown nodes of `raw`, each once.
    pub open spec fn shows_nodes_of(&self, raw: &RawGraph) -> bool {
        &&& forall|a: int|
            0 <= a < self.nodes().len() ==> #[trigger] self.raw_of(a) < raw.nodes().len()
                && raw.shown_at(self.raw_of(a))
        &&& forall|i: int|
            0 <= i < raw.nodes().len() && #[trigger] raw.shown_at(i) ==> exists|a: int|
                0 <= a < self.nodes().len() && #[trigger] self.raw_of(a) == i
    }

    /// An edge joins two nodes exactly where a path of `raw` leads from the
    /// one to the other through hidden nodes only.
    pub open spec fn shows_edges_of(&self, raw: &RawGraph) -> bool {
        forall|a: int, b: int| #[trigger]
            self.has_edge(a, b) <==> 0 <= a < self.nodes().len() && 0 <= b < self.nodes().len()
                && raw.links(self.raw_of(a), self.raw_of(b))
    }

    /// The depth of a node.
    pub open spec fn depth(&self, a: int) -> int {
        self.nodes()[a].max_depth as int
    }

    /// Node `b` has the depth that its edges ask for: one more than the
    /// greatest depth before an edge into it, and zero where no edge enters.
    pub open spec fn depth_ok(&self, b: int) -> bool {
        &&& forall|a: int| #[trigger] self.has_edge(a, b) ==> self.depth(a) < self.depth(b)
        &&& self.depth(b) == 0 || exists|a: int| #[trigger]
            self.has_edge(a, b) && self.depth(b) == self.depth(a) + 1
    }

    /// Every node has the depth that its edges ask for.
    pub open spec fn depths_ok(&self) -> bool {
        forall|b: int| 0 <= b < self.nodes().len() ==> #[trigger] self.depth_ok(b)
    }

    /// The graph is the visible graph of `raw`. No edge occurs twice in it,
    /// however many paths of `raw` lead from the one node to the other.
    pub open spec fn is_visible_graph_of(&self, raw: &RawGraph) -> bool {
        &&& self.wf()
        &&& self.dag().edges_once()
        &&& self.shows_nodes_of(raw)
        &&& self.shows_edges_of(raw)
        &&& self.depths_ok()
    }

    pub fn node_count(&self) -> (n: usize)
        ensures
            n == self.nodes().len(),
    {
        self.nodes.len()
    }

    /// The node with the given number.
    pub fn node(&self, a: usize) -> (r: VisibleNode)
        requires
            a < self.nodes().len(),
        ensures
            r == self.nodes()[a as int],
    {
        self.nodes[a]
    }

    /// The graph without what its nodes hold.
    pub fn topology(&self) -> (r: &Dag)
        ensures
            *r == self.dag(),
    {
        &self.dag
    }

    /// The nodes that the edges from `a` lead to (or, where `outgoing` is
    /// false, that the edges to `a` come from).
    pub fn neighbors_directed(&self, a: usize, outgoing: bool) -> (r: Vec<usize>)
        requires
            self.wf(),
        ensures
            forall|s: usize| #[trigger]
                r@.contains(s) <==> if outgoing {
                    self.has_edge(a as int, s as int)
                } else {
                    self.has_edge(s as int, a as int)
                },
            forall|k: int| 0 <= k < r@.len() ==> #[trigger] r@[k] < self.nodes().len(),
    {
        if outgoing {
            self.dag.successors(a)
        } else {
            self.dag.predecessors(a)
        }
    }

    fn set_depth(&mut self, b: usize, depth: u32)
        requires
            b < old(self).nodes().len(),
        ensures
            final(self).dag() == old(self).dag(),
            final(self).nodes().len() == old(self).nodes().len(),
            final(self).nodes()[b as int] == (VisibleNode {
                idx: old(self).nodes()[b as int].idx,
                max_depth: depth,
            }),
            forall|a: int|
                0 <= a < final(self).nodes().len() && a != b ==> #[trigger] final(self).nodes()[a]
                    == old(self).nodes()[a],
    {
        let idx = self.nodes[b].idx;
        self.nodes.set(b, VisibleNode { idx, max_depth: depth });
    }

    /// Gives every node its depth: the greatest number of edges on a path
    /// that ends in it.
    pub fn compute_longest_distances_from_roots(&mut self)
        requires
            old(self).wf(),
        ensures
            final(self).wf(),
            final(self).dag() == old(self).dag(),
            final(self).nodes().len() == old(self).nodes().len(),
            forall|a: int|
                0 <= a < final(self).nodes().len() ==> #[trigger] final(self).raw_of(a) == old(self).raw_of(a),
            final(self).depths_ok(),
    {
        let n = self.nodes.len();
        let mut b: usize = 0;
        while b < n
            invariant
                0 <= b <= n,
                n == self.nodes().len(),
                self.wf(),
                self.dag() == old(self).dag(),
                forall|a: int| 0 <= a < n ==> #[trigger] self.raw_of(a) == old(self).raw_of(a),
                forall|c: int| 0 <= c < b ==> #[trigger] self.depth_ok(c),
                forall|c: int| 0 <= c < b ==> #[trigger] self.depth(c) <= c,
            decreases n - b,
        {
            let pred = self.dag.predecessors(b);
            let mut best: u32 = 0;
            let mut k: usize = 0;
            while k < pred.len()
                invariant
                    0 <= k <= pred@.len(),
                    0 <= b < n,
                    n == self.nodes().len(),
                    n <= u32::MAX,
                    forall|j: int| 0 <= j < pred@.len() ==> #[trigger] pred@[j] < b,
                    forall|c: int| 0 <= c < b ==> #[trigger] self.depth(c) <= c,
                    best <= b,
                    forall|j: int| 0 <= j < k ==> self.depth(#[trigger] pred@[j] as int) < best,
                    best == 0 || exists|j: int|
                        0 <= j < k && best == self.depth(#[trigger] pred@[j] as int) + 1,
                decreases pred@.len() - k,
            {
                let d = self.nodes[pred[k]].max_depth;
                assert(self.depth(pred@[k as int] as int) <= pred@[k as int]);
                if d + 1 > best {
                    best = d + 1;
                }
                k += 1;
            }
            let ghost prev = *self;
            self.set_depth(b, best);
            proof {
                assert forall|x: int, y: int|
                    0 <= x < y < self.nodes().len() implies #[trigger] self.raw_of(x)
                    < #[trigger] self.raw_of(y) by {
                    assert(prev.raw_of(x) < prev.raw_of(y));
                }
                assert forall|a: int| 0 <= a < n implies #[trigger] self.raw_of(a) == old(self).raw_of(a) by {
                    assert(prev.raw_of(a) == old(self).raw_of(a));
                }
                assert forall|c: int| 0 <= c < b + 1 implies #[trigger] self.depth(c) <= c by {
                    if c < b {
                        assert(prev.depth(c) <= c);
                    }
                }
                assert forall|c: int| 0 <= c < b + 1 implies #[trigger] self.depth_ok(c) by {
                    if c < b {
                        assert(prev.depth_ok(c));
                        assert forall|a: int| #[trigger] self.has_edge(a, c) implies self.depth(a)
                            < self.depth(c) by {
                            self.dag().lemma_edge_grows(a, c);
                            assert(prev.has_edge(a, c));
                        }
                        if prev.depth(c) != 0 {
                            let a = choose|a: int| #[trigger]
                                prev.has_edge(a, c) && prev.depth(c) == prev.depth(a) + 1;
                            self.dag().lemma_edge_grows(a, c);
                            assert(self.has_edge(a, c) && self.depth(c) == self.depth(a) + 1);
                        }
                    } else {
                        assert forall|a: int| #[trigger] self.has_edge(a, c) implies self.depth(a)
                            < self.depth(c) by {
                            self.dag().lemma_edge_grows(a, c);
                            assert(pred@.contains(a as usize));
                            let j = choose|j: int| 0 <= j < pred@.len() && pred@[j] == a as usize;
                            assert(prev.depth(pred@[j] as int) < best);
                        }
                        if best != 0 {
                            let j = choose|j: int|
                                0 <= j < pred@.len() && best == prev.depth(
                                    #[trigger] pred@[j] as int,
                                ) + 1;
                            assert(pred@.contains(pred@[j]));
                            assert(self.has_edge(pred@[j] as int, c) && self.depth(c) == self.depth(
                                pred@[j] as int,
                            ) + 1);
                        }
                    }
                }
            }
            b += 1;
        }
    }
}

/// One of the first `t` targets is `x`.
pub open spec fn target_upto(targets: Seq<u32>, t: int, x: int) -> bool {
    exists|j: int| 0 <= j < t && j < targets.len() && #[trigger] targets[j] == x
}

impl RawGraph {
    /// Builds the visible graph: a node for every shown node, an edge
    /// wherever a path leads from one shown node to another through hidden
    /// nodes only, and the depth of every node.
    pub fn to_visible(&self) -> (vg: VisibleGraph)
        requires
            self.wf(),
        ensures
            vg.is_visible_graph_of(self),
    {
        let n = self.node_count();
        let next = self.next_shown();
        let mut vg = VisibleGraph { dag: Dag::new(), nodes: Vec::new() };
        let mut index_of: Vec<Option<usize>> = Vec::new();
        let mut i: usize = 0;
        while i < n
            invariant
                0 <= i <= n,
                n == self.nodes().len(),
                n <= u32::MAX,
                vg.dag.wf(),
                vg.dag.len() == vg.nodes@.len(),
                vg.nodes@.len() <= i,
                vg.dag.edges() == Seq::<(usize, usize)>::empty(),
                index_of@.len() == i,
                forall|a: int|
                    0 <= a < vg.nodes@.len() ==> #[trigger] vg.raw_of(a) < i && self.shown_at(
                        vg.raw_of(a),
                    ) && index_of@[vg.raw_of(a)] == Some(a as usize),
                forall|j: int|
                    0 <= j < i ==> match #[trigger] index_of@[j] {
                        Some(a) => a < vg.nodes@.len() && vg.raw_of(a as int) == j,
                        None => !self.shown_at(j),
                    },
                forall|a: int, b: int|
                    0 <= a < b < vg.nodes@.len() ==> #[trigger] vg.raw_of(a) < #[trigger] vg.raw_of(
                        b,
                    ),
            decreases n - i,
        {
            let ghost prev = vg;
            if self.node(RawNodeIndex(i)).is_shown() {
                let a = vg.dag.add_node();
                vg.nodes.push(VisibleNode { idx: RawNodeIndex(i), max_depth: 0 });
                index_of.push(Some(a));
                proof {
                    assert forall|c: int| 0 <= c < vg.nodes@.len() implies #[trigger] vg.raw_of(c)
                        < i + 1 && self.shown_at(vg.raw_of(c)) && index_of@[vg.raw_of(c)] == Some(
                        c as usize,
                    ) by {
                        if c < prev.nodes@.len() {
                            assert(vg.raw_of(c) == prev.raw_of(c));
                        }
                    }
                    assert forall|x: int, y: int|
                        0 <= x < y < vg.nodes@.len() implies #[trigger] vg.raw_of(x)
                        < #[trigger] vg.raw_of(y) by {
                        assert(vg.raw_of(x) == prev.raw_of(x));
                        if y < prev.nodes@.len() {
                            assert(vg.raw_of(y) == prev.raw_of(y));
                        }
                    }
                    assert forall|j: int| 0 <= j < i + 1 implies match #[trigger] index_of@[j] {
                        Some(c) => c < vg.nodes@.len() && vg.raw_of(c as int) == j,
                        None => !self.shown_at(j),
                    } by {
                        if j < i {
                            match index_of@[j] {
                                Some(c) => {
                                    assert(vg.raw_of(c as int) == prev.raw_of(c as int));
                                },
                                None => {},
                            }
                        }
                    }
                }
            } else {
                index_of.push(None);
            }
            i += 1;
        }
        let count = vg.nodes.len();
        let mut a: usize = 0;
        while a < count
            invariant
                0 <= a <= count,
                count == vg.nodes@.len(),
                n == self.nodes().len(),
                n <= u32::MAX,
                self.wf(),
                vg.wf(),
                vg.dag.edges_once(),
                next@.len() == n,
                forall|w: int|
                    0 <= w < n ==> bitmap_values(#[trigger] next@[w]) == self.next_shown_of(w),
                index_of@.len() == n,
                forall|c: int|
                    0 <= c < count ==> #[trigger] vg.raw_of(c) < n && self.shown_at(vg.raw_of(c))
                        && index_of@[vg.raw_of(c)] == Some(c as usize),
                forall|j: int|
                    0 <= j < n ==> match #[trigger] index_of@[j] {
                        Some(c) => c < count && vg.raw_of(c as int) == j,
                        None => !self.shown_at(j),
                    },
                forall|x: int, y: int| #[trigger]
                    vg.has_edge(x, y) <==> 0 <= x < a && 0 <= y < count && self.links(
                        vg.raw_of(x),
                        vg.raw_of(y),
                    ),
            decreases count - a,
        {
            let u = vg.nodes[a].idx.0;
            assert(vg.raw_of(a as int) == u);
            let targets = bitmap_to_vec(&next[u]);
            let mut t: usize = 0;
            while t < targets.len()
                invariant
                    0 <= t <= targets@.len(),
                    0 <= a < count,
                    count == vg.nodes@.len(),
                    n == self.nodes().len(),
                    n <= u32::MAX,
                    self.wf(),
                    vg.wf(),
                    vg.dag.edges_once(),
                    u == vg.raw_of(a as int),
                    u < n,
                    index_of@.len() == n,
                    forall|v: u32| targets@.contains(v) <==> self.next_shown_of(u as int).contains(v),
                    forall|c: int|
                        0 <= c < count ==> #[trigger] vg.raw_of(c) < n && self.shown_at(
                            vg.raw_of(c),
                        ) && index_of@[vg.raw_of(c)] == Some(c as usize),
                    forall|j: int|
                        0 <= j < n ==> match #[trigger] index_of@[j] {
                            Some(c) => c < count && vg.raw_of(c as int) == j,
                            None => !self.shown_at(j),
                        },
                    forall|x: int, y: int| #[trigger]
                        vg.has_edge(x, y) <==> (0 <= x < a && 0 <= y < count && self.links(
                            vg.raw_of(x),
                            vg.raw_of(y),
                        )) || (x == a && 0 <= y < count && target_upto(
                            targets@,
                            t as int,
                            vg.raw_of(y),
                        )),
                decreases targets@.len() - t,
            {
                let x = targets[t] as usize;
                proof {
                    assert(targets@.contains(targets@[t as int]));
                    assert(self.next_shown_of(u as int).contains(targets@[t as int]));
                    self.lemma_links_grows(u as int, x as int);
                }
                let ghost prev = vg;
                match index_of[x] {
                    Some(b) => {
                        proof {
                            assert(vg.raw_of(b as int) == x);
                            if b <= a {
                                if b < a {
                                    assert(vg.raw_of(b as int) < vg.raw_of(a as int));
                                }
                            }
                        }
                        vg.dag.update_edge(a, b);
                        proof {
                            assert forall|c: int| 0 <= c < count implies vg.raw_of(c)
                                == prev.raw_of(c) by {
                            }
                            assert forall|p: int, q: int| #[trigger]
                                vg.has_edge(p, q) <==> (0 <= p < a && 0 <= q < count && self.links(
                                    vg.raw_of(p),
                                    vg.raw_of(q),
                                )) || (p == a && 0 <= q < count && target_upto(
                                    targets@,
                                    t as int + 1,
                                    vg.raw_of(q),
                                )) by {
                                assert(vg.has_edge(p, q) <==> prev.has_edge(p, q) || (p == a && q
                                    == b));
                                if p == a && 0 <= q < count {
                                    if target_upto(targets@, t as int, vg.raw_of(q)) {
                                        let j = choose|j: int|
                                            0 <= j < t && j < targets@.len()
                                                && #[trigger] targets@[j] == vg.raw_of(q);
                                        assert(target_upto(targets@, t as int + 1, vg.raw_of(q)));
                                    }
                                    if q == b {
                                        assert(targets@[t as int] == vg.raw_of(q));
                                        assert(target_upto(targets@, t as int + 1, vg.raw_of(q)));
                                    }
                                    if target_upto(targets@, t as int + 1, vg.raw_of(q)) {
                                        let j = choose|j: int|
                                            0 <= j < t + 1 && j < targets@.len()
                                                && #[trigger] targets@[j] == vg.raw_of(q);
                                        if j < t {
                                            assert(target_upto(targets@, t as int, vg.raw_of(q)));
                                        } else {
                                            assert(vg.raw_of(q) == x);
                                            assert(index_of@[vg.raw_of(q)] == Some(q as usize));
                                            assert(q == b);
                                        }
                                    }
                                }
                            }
                        }
                    },
                    None => {
                        assert(false);
                    },
                }
                t += 1;
            }
            proof {
                assert forall|x: int, y: int| #[trigger]
                    vg.has_edge(x, y) <==> 0 <= x < a + 1 && 0 <= y < count && self.links(
                        vg.raw_of(x),
                        vg.raw_of(y),
                    ) by {
                    if x == a && 0 <= y < count {
                        let ry = vg.raw_of(y);
                        if target_upto(targets@, targets@.len() as int, ry) {
                            let j = choose|j: int|
                                0 <= j < targets@.len() && j < targets@.len()
                                    && #[trigger] targets@[j] == ry;
                            assert(targets@.contains(targets@[j]));
                            assert(self.next_shown_of(u as int).contains(targets@[j]));
                        }
                        if self.links(u as int, ry) {
                            assert(self.next_shown_of(u as int).contains(ry as u32));
                            assert(targets@.contains(ry as u32));
                            let j = choose|j: int| 0 <= j < targets@.len() && targets@[j] == ry as u32;
                            assert(targets@[j] == ry);
                            assert(target_upto(targets@, targets@.len() as int, ry));
                        }
                    }
                }
            }
            a += 1;
        }
        let ghost before = vg;
        vg.compute_longest_distances_from_roots();
        proof {
            assert forall|x: int, y: int| #[trigger]
                vg.has_edge(x, y) <==> 0 <= x < vg.nodes().len() && 0 <= y < vg.nodes().len()
                    && self.links(vg.raw_of(x), vg.raw_of(y)) by {
                assert(vg.has_edge(x, y) == before.has_edge(x, y));
                if 0 <= x < vg.nodes().len() && 0 <= y < vg.nodes().len() {
                    assert(vg.raw_of(x) == before.raw_of(x));
                    assert(vg.raw_of(y) == before.raw_of(y));
                }
            }
            assert forall|c: int| 0 <= c < vg.nodes().len() implies #[trigger] vg.raw_of(c)
                < self.nodes().len() && self.shown_at(vg.raw_of(c)) by {
                assert(vg.raw_of(c) == before.raw_of(c));
            }
            assert forall|j: int| 0 <= j < self.nodes().len() && #[trigger] self.shown_at(
                j,
            ) implies exists|c: int| 0 <= c < vg.nodes().len() && #[trigger] vg.raw_of(c) == j by {
                match index_of@[j] {
                    Some(c) => {
                        assert(before.raw_of(c as int) == j);
                        assert(vg.raw_of(c as int) == j);
                    },
                    None => {},
                }
            }
        }
        vg
    }
}

impl VisibleGraph {
    /// Node `e` ends a path that is long enough for a matching loop: no edge
    /// leaves it, and a path of at least `MIN_MATCHING_LOOP_LENGTH` nodes
    /// ends in it.
    pub open spec fn is_loop_end(&self, e: int) -> bool {
        &&& 0 <= e < self.nodes().len()
        &&& self.depth(e) + 1 >= MIN_MATCHING_LOOP_LENGTH
        &&& forall|s: int| !#[trigger] self.has_edge(e, s)
    }

    /// One of the first `upto` nodes shows the raw node `x`.
    pub open spec fn shows_raw_upto(&self, x: RawNodeIndex, upto: int) -> bool {
        exists|a: int| 0 <= a < upto && a < self.nodes().len() && #[trigger] self.raw_of(a) == x.0
    }

    /// Node `a` lies on a path to the end of a long enough path.
    pub open spec fn on_loop(&self, a: int) -> bool {
        exists|e: int| #[trigger] self.is_loop_end(e) && self.dag().reaches(a, e)
    }

    /// Marks the nodes that lie on a path to the end of a long enough path.
    pub fn loop_marks(&self) -> (r: Vec<bool>)
        requires
            self.wf(),
        ensures
            r@.len() == self.nodes().len(),
            forall|a: int| 0 <= a < r@.len() ==> #[trigger] r@[a] == self.on_loop(a),
    {
        let n = self.nodes.len();
        let mut r = crate::dag::false_vec(n);
        let mut a: usize = n;
        while a > 0
            invariant
                0 <= a <= n,
                n == self.nodes().len(),
                self.wf(),
                r@.len() == n,
                forall|c: int| a <= c < n ==> #[trigger] r@[c] == self.on_loop(c),
            decreases a,
        {
            a -= 1;
            let succ = self.dag.successors(a);
            let ends = succ.len() == 0 && self.nodes[a].max_depth as u64 + 1
                >= MIN_MATCHING_LOOP_LENGTH as u64;
            proof {
                if succ@.len() == 0 {
                    assert forall|s: int| !#[trigger] self.has_edge(a as int, s) by {
                        if self.has_edge(a as int, s) {
                            self.dag().lemma_edge_grows(a as int, s);
                            assert(succ@.contains(s as usize));
                        }
                    }
                } else {
                    assert(succ@.contains(succ@[0]));
                    assert(self.has_edge(a as int, succ@[0] as int));
                }
                assert(ends == self.is_loop_end(a as int));
            }
            let mut hit = ends;
            let mut k: usize = 0;
            while k < succ.len()
                invariant
                    0 <= k <= succ@.len(),
                    0 <= a < n,
                    r@.len() == n,
                    forall|j: int| 0 <= j < succ@.len() ==> a < #[trigger] succ@[j] < n,
                    hit <==> (ends || exists|j: int| 0 <= j < k && r@[#[trigger] succ@[j] as int]),
                decreases succ@.len() - k,
            {
                if r[succ[k]] {
                    hit = true;
                }
                k += 1;
            }
            proof {
                if hit {
                    if ends {
                        self.dag().lemma_reaches_self(a as int);
                        assert(self.is_loop_end(a as int) && self.dag().reaches(a as int, a as int));
                    } else {
                        let j = choose|j: int| 0 <= j < succ@.len() && r@[#[trigger] succ@[j] as int];
                        assert(succ@.contains(succ@[j]));
                        assert(self.on_loop(succ@[j] as int));
                        let e = choose|e: int| #[trigger]
                            self.is_loop_end(e) && self.dag().reaches(succ@[j] as int, e);
                        self.dag().lemma_reaches_first(a as int, succ@[j] as int, e);
                        assert(self.is_loop_end(e) && self.dag().reaches(a as int, e));
                    }
                }
                if self.on_loop(a as int) {
                    let e = choose|e: int| #[trigger]
                        self.is_loop_end(e) && self.dag().reaches(a as int, e);
                    if e != a {
                        self.dag().lemma_reaches_split_first(a as int, e);
                        let s = choose|s: int| #[trigger]
                            self.dag().has_edge(a as int, s) && self.dag().reaches(s, e);
                        self.dag().lemma_edge_grows(a as int, s);
                        assert(self.is_loop_end(e) && self.dag().reaches(s, e));
                        assert(self.on_loop(s));
                        assert(succ@.contains(s as usize));
                        let j = choose|j: int| 0 <= j < succ@.len() && succ@[j] == s as usize;
                        assert(r@[succ@[j] as int]);
                    }
                }
            }
            r.set(a, hit);
        }
        r
    }

    /// The raw nodes of the nodes that lie on a path to the end of a path of
    /// at least `MIN_MATCHING_LOOP_LENGTH` nodes, in ascending order.
    pub fn find_end_nodes_of_longest_paths(&self) -> (r: Vec<RawNodeIndex>)
        requires
            self.wf(),
        ensures
            forall|a: int|
                0 <= a < self.nodes().len() ==> (r@.contains(#[trigger] self.nodes()[a].idx)
                    <==> self.on_loop(a)),
            forall|k: int| 0 <= k < r@.len() ==> self.shows_raw_upto(#[trigger] r@[k], self.nodes().len() as int),
    {
        let marks = self.loop_marks();
        let mut r: Vec<RawNodeIndex> = Vec::new();
        let mut a: usize = 0;
        while a < self.nodes.len()
            invariant
                0 <= a <= self.nodes@.len(),
                self.wf(),
                marks@.len() == self.nodes@.len(),
                forall|c: int| 0 <= c < marks@.len() ==> #[trigger] marks@[c] == self.on_loop(c),
                forall|c: int|
                    0 <= c < a ==> (r@.contains(#[trigger] self.nodes()[c].idx) <==> self.on_loop(
                        c,
                    )),
                forall|k: int| 0 <= k < r@.len() ==> self.shows_raw_upto(#[trigger] r@[k], a as int),
            decreases self.nodes@.len() - a,
        {
            let ghost before = r@;
            if marks[a] {
                r.push(self.nodes[a].idx);
                proof {
                    assert(r@[r@.len() - 1] == self.nodes()[a as int].idx);
                    assert forall|c: int| 0 <= c < a + 1 implies (r@.contains(
                        #[trigger] self.nodes()[c].idx,
                    ) <==> self.on_loop(c)) by {
                        let x = self.nodes()[c].idx;
                        if before.contains(x) {
                            let k = choose|k: int| 0 <= k < before.len() && before[k] == x;
                            assert(r@[k] == x);
                        }
                        if r@.contains(x) && c < a {
                            let k = choose|k: int| 0 <= k < r@.len() && r@[k] == x;
                            if k == r@.len() - 1 {
                                assert(self.raw_of(c) < self.raw_of(a as int));
                                assert(false);
                            } else {
                                assert(before[k] == x);
                            }
                        }
                    }
                    assert forall|k: int| 0 <= k < r@.len() implies self.shows_raw_upto(
                        #[trigger] r@[k],
                        a as int + 1,
                    ) by {
                        if k < before.len() {
                            assert(before[k] == r@[k]);
                            assert(self.shows_raw_upto(before[k], a as int));
                            let c = choose|c: int|
                                0 <= c < a && c < self.nodes().len() && #[trigger] self.raw_of(c)
                                    == before[k].0;
                            assert(self.raw_of(c) == r@[k].0);
                        } else {
                            assert(self.raw_of(a as int) == r@[k].0);
                        }
                    }
                }
            } else {
                proof {
                    let x = self.nodes()[a as int].idx;
                    if r@.contains(x) {
                        let k = choose|k: int| 0 <= k < r@.len() && r@[k] == x;
                        assert(self.shows_raw_upto(r@[k], a as int));
                        let c = choose|c: int|
                            0 <= c < a && c < self.nodes().len() && #[trigger] self.raw_of(c)
                                == r@[k].0;
                        assert(self.raw_of(c) < self.raw_of(a as int));
                    }
                }
            }
            a += 1;
        }
        r
    }
}

impl VisibleGraph {
    /// No edge leaves node `e`.
    pub open spec fn is_end(&self, e: int) -> bool {
        &&& 0 <= e < self.nodes().len()
        &&& forall|s: int| !#[trigger] self.has_edge(e, s)
    }

    /// Node `a` ranks before node `b`: it is deeper, or as deep and earlier.
    pub open spec fn ranks_before(&self, a: int, b: int) -> bool {
        self.depth(a) > self.depth(b) || (self.depth(a) == self.depth(b) && a < b)
    }

    /// Marks the nodes that no edge leaves.
    pub fn end_marks(&self) -> (r: Vec<bool>)
        requires
            self.wf(),
        ensures
            r@.len() == self.nodes().len(),
            forall|a: int| 0 <= a < r@.len() ==> #[trigger] r@[a] == self.is_end(a),
    {
        let n = self.nodes.len();
        let mut r: Vec<bool> = Vec::new();
        let mut a: usize = 0;
        while a < n
            invariant
                0 <= a <= n,
                n == self.nodes().len(),
                self.wf(),
                r@.len() == a,
                forall|c: int| 0 <= c < a ==> #[trigger] r@[c] == self.is_end(c),
            decreases n - a,
        {
            let succ = self.dag.successors(a);
            proof {
                if succ@.len() == 0 {
                    assert forall|s: int| !#[trigger] self.has_edge(a as int, s) by {
                        if self.has_edge(a as int, s) {
                            self.dag().lemma_edge_grows(a as int, s);
                            assert(succ@.contains(s as usize));
                        }
                    }
                } else {
                    assert(succ@.contains(succ@[0]));
                    assert(self.has_edge(a as int, succ@[0] as int));
                }
            }
            r.push(succ.len() == 0);
            a += 1;
        }
        r
    }

    /// The nodes that no edge leaves, the deepest first, and the earlier
    /// first among equally deep ones.
    pub fn end_nodes_ranked(&self) -> (r: Vec<usize>)
        requires
            self.wf(),
        ensures
            forall|k: int| 0 <= k < r@.len() ==> self.is_end(#[trigger] r@[k] as int),
            forall|e: int| #[trigger] self.is_end(e) ==> r@.contains(e as usize),
            forall|i: int, j: int|
                0 <= i < j < r@.len() ==> self.ranks_before(
                    #[trigger] r@[i] as int,
                    #[trigger] r@[j] as int,
                ),
    {
        let n = self.nodes.len();
        let ends = self.end_marks();
        let mut deepest: u64 = 0;
        let mut a: usize = 0;
        while a < n
            invariant
                0 <= a <= n,
                n == self.nodes().len(),
                forall|c: int| 0 <= c < a ==> #[trigger] self.depth(c) <= deepest,
                deepest <= u32::MAX,
            decreases n - a,
        {
            if self.nodes[a].max_depth as u64 > deepest {
                deepest = self.nodes[a].max_depth as u64;
            }
            a += 1;
        }
        let mut r: Vec<usize> = Vec::new();
        let mut d: u64 = deepest + 1;
        while d > 0
            invariant
                0 <= d <= deepest + 1,
                deepest <= u32::MAX,
                n == self.nodes().len(),
                ends@.len() == n,
                forall|c: int| 0 <= c < n ==> #[trigger] ends@[c] == self.is_end(c),
                forall|c: int| 0 <= c < n ==> #[trigger] self.depth(c) <= deepest,
                forall|k: int|
                    0 <= k < r@.len() ==> self.is_end(#[trigger] r@[k] as int) && self.depth(
                        r@[k] as int,
                    ) >= d,
                forall|e: int| #[trigger]
                    self.is_end(e) && self.depth(e) >= d ==> r@.contains(e as usize),
                forall|i: int, j: int|
                    0 <= i < j < r@.len() ==> self.ranks_before(
                        #[trigger] r@[i] as int,
                        #[trigger] r@[j] as int,
                    ),
            decreases d,
        {
            let ghost above = d;
            d -= 1;
            let mut a: usize = 0;
            while a < n
                invariant
                    0 <= a <= n,
                    d + 1 == above,
                    n == self.nodes().len(),
                    ends@.len() == n,
                    forall|c: int| 0 <= c < n ==> #[trigger] ends@[c] == self.is_end(c),
                    forall|k: int|
                        0 <= k < r@.len() ==> self.is_end(#[trigger] r@[k] as int) && (self.depth(
                            r@[k] as int,
                        ) >= above || (self.depth(r@[k] as int) == d && r@[k] < a)),
                    forall|e: int| #[trigger]
                        self.is_end(e) && (self.depth(e) >= above || (self.depth(e) == d && e < a))
                            ==> r@.contains(e as usize),
                    forall|i: int, j: int|
                        0 <= i < j < r@.len() ==> self.ranks_before(
                            #[trigger] r@[i] as int,
                            #[trigger] r@[j] as int,
                        ),
                decreases n - a,
            {
                let ghost before = r@;
                if ends[a] && self.nodes[a].max_depth as u64 == d {
                    r.push(a);
                    proof {
                        assert(r@[r@.len() - 1] == a);
                        assert forall|e: int| #[trigger]
                            self.is_end(e) && (self.depth(e) >= above || (self.depth(e) == d && e
                                < a + 1)) implies r@.contains(e as usize) by {
                            if e == a {
                            } else {
                                assert(before.contains(e as usize));
                                let w = choose|w: int| 0 <= w < before.len() && before[w] == e as usize;
                                assert(r@[w] == e as usize);
                            }
                        }
                        assert forall|i: int, j: int| 0 <= i < j < r@.len() implies self.ranks_before(
                            #[trigger] r@[i] as int,
                            #[trigger] r@[j] as int,
                        ) by {
                            assert(r@[i] == before[i]);
                            if j < before.len() {
                                assert(r@[j] == before[j]);
                            }
                        }
                    }
                } else {
                    proof {
                        assert forall|e: int| #[trigger]
                            self.is_end(e) && (self.depth(e) >= above || (self.depth(e) == d && e
                                < a + 1)) implies r@.contains(e as usize) by {
                            if e == a {
                                assert(ends@[a as int] == self.is_end(a as int));
                            }
                        }
                    }
                }
                a += 1;
            }
            proof {
                assert forall|e: int| #[trigger] self.is_end(e) && self.depth(e) >= d implies r@.contains(
                    e as usize,
                ) by {
                }
            }
        }
        r
    }
}

impl VisibleGraph {
    /// `heights` gives node `a` the height that its edges ask for: one more
    /// than the greatest height behind an edge from it, and zero where no
    /// edge leaves.
    pub open spec fn height_ok(&self, heights: Seq<u32>, a: int) -> bool {
        &&& forall|b: int| #[trigger] self.has_edge(a, b) ==> heights[b] < heights[a]
        &&& heights[a] == 0 || exists|b: int| #[trigger]
            self.has_edge(a, b) && heights[a] == heights[b] + 1
    }

    /// For every node the greatest number of edges on a path that starts in
    /// it.
    pub fn heights(&self) -> (r: Vec<u32>)
        requires
            self.wf(),
        ensures
            r@.len() == self.nodes().len(),
            forall|a: int| 0 <= a < r@.len() ==> #[trigger] self.height_ok(r@, a),
    {
        let n = self.nodes.len();
        let mut r: Vec<u32> = Vec::new();
        let mut i: usize = 0;
        while i < n
            invariant
                0 <= i <= n,
                r@.len() == i,
            decreases n - i,
        {
            r.push(0);
            i += 1;
        }
        let mut a: usize = n;
        while a > 0
            invariant
                0 <= a <= n,
                n == self.nodes().len(),
                n <= u32::MAX,
                self.wf(),
                r@.len() == n,
                forall|c: int| a <= c < n ==> #[trigger] self.height_ok(r@, c),
                forall|c: int| a <= c < n ==> #[trigger] r@[c] < n - c,
            decreases a,
        {
            a -= 1;
            let succ = self.dag.successors(a);
            let mut best: u32 = 0;
            let mut k: usize = 0;
            while k < succ.len()
                invariant
                    0 <= k <= succ@.len(),
                    0 <= a < n,
                    n == self.nodes().len(),
                    n <= u32::MAX,
                    r@.len() == n,
                    forall|j: int| 0 <= j < succ@.len() ==> a < #[trigger] succ@[j] < n,
                    forall|c: int| a < c < n ==> #[trigger] r@[c] < n - c,
                    best < n - a,
                    forall|j: int| 0 <= j < k ==> r@[#[trigger] succ@[j] as int] < best,
                    best == 0 || exists|j: int|
                        0 <= j < k && best == r@[#[trigger] succ@[j] as int] + 1,
                decreases succ@.len() - k,
            {
                let h = r[succ[k]];
                assert(r@[succ@[k as int] as int] < n - succ@[k as int]);
                if h + 1 > best {
                    best = h + 1;
                }
                k += 1;
            }
            let ghost prev = r@;
            r.set(a, best);
            proof {
                assert forall|c: int| a <= c < n implies #[trigger] r@[c] < n - c by {
                    if c > a {
                        assert(prev[c] < n - c);
                    }
                }
                assert forall|c: int| a <= c < n implies #[trigger] self.height_ok(r@, c) by {
                    if c > a {
                        assert(self.height_ok(prev, c));
                        assert forall|b: int| #[trigger] self.has_edge(c, b) implies r@[b]
                            < r@[c] by {
                            self.dag().lemma_edge_grows(c, b);
                        }
                        if prev[c] != 0 {
                            let b = choose|b: int| #[trigger]
                                self.has_edge(c, b) && prev[c] == prev[b] + 1;
                            self.dag().lemma_edge_grows(c, b);
                            assert(self.has_edge(c, b) && r@[c] == r@[b] + 1);
                        }
                    } else {
                        assert forall|b: int| #[trigger] self.has_edge(c, b) implies r@[b]
                            < r@[c] by {
                            self.dag().lemma_edge_grows(c, b);
                            assert(succ@.contains(b as usize));
                            let j = choose|j: int| 0 <= j < succ@.len() && succ@[j] == b as usize;
                            assert(prev[succ@[j] as int] < best);
                        }
                        if best != 0 {
                            let j = choose|j: int|
                                0 <= j < succ@.len() && best == prev[#[trigger] succ@[j] as int] + 1;
                            assert(succ@.contains(succ@[j]));
                            assert(self.has_edge(c, succ@[j] as int) && r@[c] == r@[succ@[j] as int]
                                + 1);
                        }
                    }
                }
            }
        }
        r
    }

    /// `p` is a path through node `a` that is as long as a path through `a`
    /// can be: a longest path that ends in `a`, and then a longest path that
    /// starts in `a`. Up to `a` every step takes the path one deeper, from
    /// depth zero; from `a` on every step takes it one less high, down to
    /// height zero.
    pub open spec fn is_longest_through(&self, heights: Seq<u32>, a: int, p: Seq<usize>) -> bool {
        &&& p.len() == self.depth(a) + heights[a] + 1
        &&& p[self.depth(a)] == a
        &&& forall|k: int| 0 <= k < p.len() ==> #[trigger] p[k] < self.nodes().len()
        &&& forall|k: int| 0 <= k <= self.depth(a) ==> self.depth(#[trigger] p[k] as int) == k
        &&& forall|k: int|
            self.depth(a) <= k < p.len() ==> heights[#[trigger] p[k] as int] == p.len() - 1 - k
        &&& forall|k: int| 0 <= k < p.len() - 1 ==> self.has_edge(#[trigger] p[k] as int, p[k + 1] as int)
        &&& forall|k: int|
            0 <= k < self.depth(a) ==> self.earliest_before(p[k + 1] as int, #[trigger] p[k] as int)
        &&& forall|k: int|
            self.depth(a) <= k < p.len() - 1 ==> self.earliest_behind(
                heights,
                #[trigger] p[k] as int,
                p[k + 1] as int,
            )
    }

    /// Node `r` is the earliest node before an edge into `b` that is one
    /// less deep than `b`.
    pub open spec fn earliest_before(&self, b: int, r: int) -> bool {
        &&& self.has_edge(r, b)
        &&& self.depth(r) + 1 == self.depth(b)
        &&& forall|c: int| #[trigger]
            self.has_edge(c, b) && self.depth(c) + 1 == self.depth(b) ==> r <= c
    }

    /// Node `r` is the earliest node behind an edge from `a` that is one
    /// less high than `a`.
    pub open spec fn earliest_behind(&self, heights: Seq<u32>, a: int, r: int) -> bool {
        &&& self.has_edge(a, r)
        &&& heights[r] + 1 == heights[a]
        &&& forall|c: int| #[trigger] self.has_edge(a, c) && heights[c] + 1 == heights[a] ==> r <= c
    }

    /// The earliest node before an edge into `b` that is one less deep.
    fn deepest_before(&self, b: usize) -> (r: usize)
        requires
            self.wf(),
            self.depths_ok(),
            b < self.nodes().len(),
            self.depth(b as int) > 0,
        ensures
            self.earliest_before(b as int, r as int),
    {
        assert(self.depth_ok(b as int));
        let pred = self.dag.predecessors(b);
        let want = self.nodes[b].max_depth - 1;
        let mut best: Option<usize> = None;
        let mut k: usize = 0;
        while k < pred.len()
            invariant
                0 <= k <= pred@.len(),
                b < self.nodes().len(),
                want + 1 == self.depth(b as int),
                forall|j: int| 0 <= j < pred@.len() ==> #[trigger] pred@[j] < b,
                match best {
                    Some(r) => pred@.contains(r) && self.depth(r as int) == want && forall|j: int|
                        0 <= j < k && self.depth(#[trigger] pred@[j] as int) == want ==> r
                            <= pred@[j],
                    None => forall|j: int| 0 <= j < k ==> self.depth(#[trigger] pred@[j] as int) != want,
                },
            decreases pred@.len() - k,
        {
            let c = pred[k];
            assert(pred@.contains(pred@[k as int]));
            if self.nodes[c].max_depth == want {
                match best {
                    Some(r) => {
                        if c < r {
                            best = Some(c);
                        }
                    },
                    None => {
                        best = Some(c);
                    },
                }
            }
            k += 1;
        }
        proof {
            let w = choose|w: int| #[trigger]
                self.has_edge(w, b as int) && self.depth(b as int) == self.depth(w) + 1;
            self.dag().lemma_edge_grows(w, b as int);
            assert(pred@.contains(w as usize));
            let j = choose|j: int| 0 <= j < pred@.len() && pred@[j] == w as usize;
            assert(self.depth(pred@[j] as int) == want);
        }
        match best {
            Some(r) => {
                proof {
                    assert forall|c: int| #[trigger]
                        self.has_edge(c, b as int) && self.depth(c) + 1 == self.depth(
                            b as int,
                        ) implies r <= c by {
                        self.dag().lemma_edge_grows(c, b as int);
                        assert(pred@.contains(c as usize));
                        let j = choose|j: int| 0 <= j < pred@.len() && pred@[j] == c as usize;
                        assert(self.depth(pred@[j] as int) == want);
                    }
                }
                r
            },
            None => {
                assert(false);
                b
            },
        }
    }

    /// The earliest node behind an edge from `a` that is one less high.
    fn highest_behind(&self, heights: &Vec<u32>, a: usize) -> (r: usize)
        requires
            self.wf(),
            heights@.len() == self.nodes().len(),
            a < self.nodes().len(),
            self.height_ok(heights@, a as int),
            heights@[a as int] > 0,
        ensures
            r < self.nodes().len(),
            self.earliest_behind(heights@, a as int, r as int),
    {
        let succ = self.dag.successors(a);
        let want = heights[a] - 1;
        let mut best: Option<usize> = None;
        let mut k: usize = 0;
        while k < succ.len()
            invariant
                0 <= k <= succ@.len(),
                a < self.nodes().len(),
                heights@.len() == self.nodes().len(),
                want + 1 == heights@[a as int],
                forall|j: int| 0 <= j < succ@.len() ==> a < #[trigger] succ@[j] < self.nodes().len(),
                match best {
                    Some(r) => succ@.contains(r) && heights@[r as int] == want && forall|j: int|
                        0 <= j < k && heights@[#[trigger] succ@[j] as int] == want ==> r
                            <= succ@[j],
                    None => forall|j: int| 0 <= j < k ==> heights@[#[trigger] succ@[j] as int] != want,
                },
            decreases succ@.len() - k,
        {
            let c = succ[k];
            assert(succ@.contains(succ@[k as int]));
            if heights[c] == want {
                match best {
                    Some(r) => {
                        if c < r {
                            best = Some(c);
                        }
                    },
                    None => {
                        best = Some(c);
                    },
                }
            }
            k += 1;
        }
        proof {
            let w = choose|w: int| #[trigger]
                self.has_edge(a as int, w) && heights@[a as int] == heights@[w] + 1;
            self.dag().lemma_edge_grows(a as int, w);
            assert(succ@.contains(w as usize));
            let j = choose|j: int| 0 <= j < succ@.len() && succ@[j] == w as usize;
            assert(heights@[succ@[j] as int] == want);
        }
        match best {
            Some(r) => {
                proof {
                    assert forall|c: int| #[trigger]
                        self.has_edge(a as int, c) && heights@[c] + 1
                            == heights@[a as int] implies r <= c by {
                        self.dag().lemma_edge_grows(a as int, c);
                        assert(succ@.contains(c as usize));
                        let j = choose|j: int| 0 <= j < succ@.len() && succ@[j] == c as usize;
                        assert(heights@[succ@[j] as int] == want);
                    }
                    let j = choose|j: int| 0 <= j < succ@.len() && succ@[j] == r;
                    assert(succ@[j] < self.nodes().len());
                }
                r
            },
            None => {
                assert(false);
                a
            },
        }
    }

    /// A longest path through node `a`. Going back from `a` it takes, at
    /// every step, the earliest node that is one less deep; going on from
    /// `a` it takes the earliest node that is one less high.
    pub fn longest_path_through(&self, a: usize) -> (p: Vec<usize>)
        requires
            self.wf(),
            self.depths_ok(),
            a < self.nodes().len(),
        ensures
            exists|heights: Seq<u32>|
                #![auto]
                heights.len() == self.nodes().len() && (forall|c: int|
                    0 <= c < heights.len() ==> #[trigger] self.height_ok(heights, c))
                    && self.is_longest_through(heights, a as int, p@),
    {
        let heights = self.heights();
        let depth = self.nodes[a].max_depth as usize;
        let mut back: Vec<usize> = Vec::new();
        let mut cur = a;
        while self.nodes[cur].max_depth > 0
            invariant
                self.wf(),
                self.depths_ok(),
                cur < self.nodes().len(),
                a < self.nodes().len(),
                depth == self.depth(a as int),
                back@.len() + self.depth(cur as int) == depth,
                forall|k: int|
                    0 <= k < back@.len() ==> #[trigger] back@[k] < self.nodes().len() && self.depth(
                        back@[k] as int,
                    ) == depth - k,
                back@.len() > 0 ==> back@[0] == a && self.earliest_before(
                    back@.last() as int,
                    cur as int,
                ),
                back@.len() == 0 ==> cur == a,
                forall|k: int|
                    0 <= k < back@.len() - 1 ==> self.earliest_before(
                        back@[k] as int,
                        #[trigger] back@[k + 1] as int,
                    ),
            decreases self.depth(cur as int),
        {
            let before = self.deepest_before(cur);
            proof {
                self.dag().lemma_edge_grows(before as int, cur as int);
            }
            let ghost old_back = back@;
            back.push(cur);
            proof {
                assert forall|k: int| 0 <= k < back@.len() implies #[trigger] back@[k]
                    < self.nodes().len() && self.depth(back@[k] as int) == depth - k by {
                    if k < old_back.len() {
                        assert(back@[k] == old_back[k]);
                    }
                }
                assert forall|k: int| 0 <= k < back@.len() - 1 implies self.earliest_before(
                    back@[k] as int,
                    #[trigger] back@[k + 1] as int,
                ) by {
                    if k < old_back.len() - 1 {
                        assert(back@[k + 1] == old_back[k + 1]);
                        assert(back@[k] == old_back[k]);
                    } else {
                        assert(back@[k] == old_back.last());
                    }
                }
            }
            cur = before;
        }
        // `cur` is the first node of the path; `back` holds the rest of the
        // way to `a`, the last node first.
        let mut p: Vec<usize> = Vec::new();
        p.push(cur);
        let mut k: usize = back.len();
        while k > 0
            invariant
                0 <= k <= back@.len(),
                self.wf(),
                a < self.nodes().len(),
                depth == self.depth(a as int),
                back@.len() == depth || (back@.len() == 0 && depth == 0),
                back@.len() + self.depth(cur as int) == depth,
                self.depth(cur as int) == 0,
                cur < self.nodes().len(),
                forall|j: int|
                    0 <= j < back@.len() ==> #[trigger] back@[j] < self.nodes().len() && self.depth(
                        back@[j] as int,
                    ) == depth - j,
                back@.len() > 0 ==> back@[0] == a && self.earliest_before(
                    back@.last() as int,
                    cur as int,
                ),
                back@.len() == 0 ==> cur == a,
                forall|j: int|
                    0 <= j < back@.len() - 1 ==> self.earliest_before(
                        back@[j] as int,
                        #[trigger] back@[j + 1] as int,
                    ),
                p@.len() == back@.len() - k + 1,
                p@[0] == cur,
                forall|j: int| 1 <= j < p@.len() ==> #[trigger] p@[j] == back@[back@.len() - j],
            decreases k,
        {
            k -= 1;
            let ghost old_p = p@;
            p.push(back[k]);
            proof {
                assert forall|j: int| 1 <= j < p@.len() implies #[trigger] p@[j] == back@[back@.len()
                    - j] by {
                    if j < old_p.len() {
                        assert(p@[j] == old_p[j]);
                    }
                }
                assert(p@[0] == old_p[0]);
            }
        }
        proof {
            assert(p@.len() == depth + 1);
            assert(p@[depth as int] == a);
            assert forall|j: int| 0 <= j < p@.len() implies #[trigger] p@[j] < self.nodes().len()
                && self.depth(p@[j] as int) == j by {
                if j >= 1 {
                    assert(p@[j] == back@[back@.len() - j]);
                }
            }
            assert forall|j: int| 0 <= j < p@.len() - 1 implies self.earliest_before(
                p@[j + 1] as int,
                #[trigger] p@[j] as int,
            ) by {
                assert(p@[j + 1] == back@[back@.len() - (j + 1)]);
                if j >= 1 {
                    assert(p@[j] == back@[back@.len() - j]);
                    assert(self.earliest_before(
                        back@[back@.len() - j - 1] as int,
                        back@[(back@.len() - j - 1) + 1] as int,
                    ));
                }
            }
        }
        let mut cur = a;
        while heights[cur] > 0
            invariant
                self.wf(),
                cur < self.nodes().len(),
                a < self.nodes().len(),
                heights@.len() == self.nodes().len(),
                forall|c: int| 0 <= c < heights@.len() ==> #[trigger] self.height_ok(heights@, c),
                depth == self.depth(a as int),
                p@.len() >= depth + 1,
                p@[depth as int] == a,
                p@.last() == cur,
                heights@[cur as int] + (p@.len() - 1 - depth) == heights@[a as int],
                forall|j: int| 0 <= j < p@.len() ==> #[trigger] p@[j] < self.nodes().len(),
                forall|j: int| 0 <= j <= depth ==> self.depth(#[trigger] p@[j] as int) == j,
                forall|j: int|
                    depth <= j < p@.len() ==> self.depth(#[trigger] p@[j] as int) >= 0
                        && heights@[p@[j] as int] == heights@[a as int] - (j - depth),
                forall|j: int|
                    0 <= j < depth ==> self.earliest_before(p@[j + 1] as int, #[trigger] p@[j] as int),
                forall|j: int|
                    depth <= j < p@.len() - 1 ==> self.earliest_behind(
                        heights@,
                        #[trigger] p@[j] as int,
                        p@[j + 1] as int,
                    ),
            decreases heights@[cur as int],
        {
            assert(self.height_ok(heights@, cur as int));
            let next = self.highest_behind(&heights, cur);
            let ghost old_p = p@;
            p.push(next);
            proof {
                assert forall|j: int| 0 <= j < p@.len() implies #[trigger] p@[j]
                    < self.nodes().len() by {
                    if j < old_p.len() {
                        assert(p@[j] == old_p[j]);
                    }
                }
                assert forall|j: int| 0 <= j <= depth implies self.depth(#[trigger] p@[j] as int)
                    == j by {
                    assert(p@[j] == old_p[j]);
                }
                assert forall|j: int| depth <= j < p@.len() implies self.depth(
                    #[trigger] p@[j] as int,
                ) >= 0 && heights@[p@[j] as int] == heights@[a as int] - (j - depth) by {
                    if j < old_p.len() {
                        assert(p@[j] == old_p[j]);
                    }
                }
                assert forall|j: int| 0 <= j < depth implies self.earliest_before(
                    p@[j + 1] as int,
                    #[trigger] p@[j] as int,
                ) by {
                    assert(p@[j] == old_p[j]);
                    assert(p@[j + 1] == old_p[j + 1]);
                }
                assert forall|j: int| depth <= j < p@.len() - 1 implies self.earliest_behind(
                    heights@,
                    #[trigger] p@[j] as int,
                    p@[j + 1] as int,
                ) by {
                    assert(p@[j] == old_p[j]);
                    if j + 1 < old_p.len() {
                        assert(p@[j + 1] == old_p[j + 1]);
                    }
                }
                assert(p@[depth as int] == old_p[depth as int]);
            }
            cur = next;
        }
        proof {
            assert(self.is_longest_through(heights@, a as int, p@));
        }
        p
    }
}

/// Two raw graphs have the same edges and show the same nodes.
pub open spec fn same_view(a: &RawGraph, b: &RawGraph) -> bool {
    &&& a.dag() == b.dag()
    &&& a.nodes().len() == b.nodes().len()
    &&& forall|i: int|
        0 <= i < a.nodes().len() ==> (#[trigger] a.nodes()[i]).disabled == b.nodes()[i].disabled
            && a.nodes()[i].visible == b.nodes()[i].visible
}

/// A path through hidden nodes of a raw graph is one of every raw graph
/// with the same edges that shows the same nodes.
pub proof fn lemma_hidden_path_alike(a: &RawGraph, b: &RawGraph, p: Seq<int>)
    requires
        a.wf(),
        same_view(a, b),
        a.is_hidden_path(p),
    ensures
        b.is_hidden_path(p),
{
    assert forall|k: int| 1 <= k < p.len() - 1 implies !b.shown_at(#[trigger] p[k]) by {
        let q = p.subrange(0, k + 1);
        assert forall|j: int| 0 <= j < q.len() - 1 implies a.dag().has_edge(#[trigger] q[j], q[j + 1]) by {
            assert(a.dag().has_edge(p[j], p[j + 1]));
        }
        a.dag().lemma_path_grows(q);
        assert(!a.shown_at(p[k]));
    }
}

/// Raw graphs with the same edges that show the same nodes link the same
/// nodes.
pub proof fn lemma_links_alike(a: &RawGraph, b: &RawGraph, x: int, y: int)
    requires
        a.wf(),
        b.wf(),
        same_view(a, b),
    ensures
        a.links(x, y) == b.links(x, y),
{
    if a.links(x, y) {
        let p = choose|p: Seq<int>| #[trigger] a.is_hidden_path(p) && p.first() == x && p.last() == y;
        lemma_hidden_path_alike(a, b, p);
    }
    if b.links(x, y) {
        let p = choose|p: Seq<int>| #[trigger] b.is_hidden_path(p) && p.first() == x && p.last() == y;
        assert(same_view(b, a));
        lemma_hidden_path_alike(b, a, p);
    }
}

impl VisibleGraph {
    /// Two visible graphs of raw graphs with the same edges that show the
    /// same nodes have the same nodes, up to any position.
    pub proof fn lemma_nodes_unique(&self, raw: &RawGraph, other: &VisibleGraph, other_raw: &RawGraph, k: int)
        requires
            raw.wf(),
            other_raw.wf(),
            same_view(raw, other_raw),
            self.is_visible_graph_of(raw),
            other.is_visible_graph_of(other_raw),
            0 <= k < self.nodes().len(),
        ensures
            k < other.nodes().len(),
            self.raw_of(k) == other.raw_of(k),
        decreases k,
    {
        if k > 0 {
            self.lemma_nodes_unique(raw, other, other_raw, k - 1);
        }
        let v = self.raw_of(k);
        assert(raw.shown_at(v));
        assert(other_raw.shown_at(v));
        let j = choose|j: int| 0 <= j < other.nodes().len() && #[trigger] other.raw_of(j) == v;
        if j < k {
            self.lemma_nodes_unique(raw, other, other_raw, j);
            assert(self.raw_of(j) < self.raw_of(k));
        }
        assert(k < other.nodes().len());
        let w = other.raw_of(k);
        assert(other_raw.shown_at(w));
        assert(raw.shown_at(w));
        let i = choose|i: int| 0 <= i < self.nodes().len() && #[trigger] self.raw_of(i) == w;
        if i < k {
            self.lemma_nodes_unique(raw, other, other_raw, i);
            assert(other.raw_of(i) < other.raw_of(k));
        }
        if j > k {
            assert(other.raw_of(k) < other.raw_of(j));
            if i > k {
                assert(self.raw_of(k) < self.raw_of(i));
            }
        }
    }

    /// Two visible graphs of raw graphs with the same edges that show the
    /// same nodes have equally many nodes and the same edges.
    pub proof fn lemma_shape_unique(&self, raw: &RawGraph, other: &VisibleGraph, other_raw: &RawGraph)
        requires
            raw.wf(),
            other_raw.wf(),
            same_view(raw, other_raw),
            self.is_visible_graph_of(raw),
            other.is_visible_graph_of(other_raw),
        ensures
            self.nodes().len() == other.nodes().len(),
            forall|a: int| 0 <= a < self.nodes().len() ==> #[trigger] self.raw_of(a) == other.raw_of(a),
            forall|a: int, b: int| #[trigger] self.has_edge(a, b) == other.has_edge(a, b),
    {
        assert(same_view(other_raw, raw));
        if self.nodes().len() > 0 {
            self.lemma_nodes_unique(raw, other, other_raw, self.nodes().len() - 1);
        }
        if other.nodes().len() > 0 {
            other.lemma_nodes_unique(other_raw, self, raw, other.nodes().len() - 1);
        }
        assert forall|a: int| 0 <= a < self.nodes().len() implies #[trigger] self.raw_of(a)
            == other.raw_of(a) by {
            self.lemma_nodes_unique(raw, other, other_raw, a);
        }
        assert forall|a: int, b: int| #[trigger] self.has_edge(a, b) == other.has_edge(a, b) by {
            if 0 <= a < self.nodes().len() && 0 <= b < self.nodes().len() {
                lemma_links_alike(raw, other_raw, self.raw_of(a), self.raw_of(b));
            }
            assert(other.has_edge(a, b) <==> 0 <= a < other.nodes().len() && 0 <= b
                < other.nodes().len() && other_raw.links(other.raw_of(a), other.raw_of(b)));
        }
    }

    /// Two visible graphs of raw graphs with the same edges that show the
    /// same nodes give every node equally many children.
    pub proof fn lemma_children_unique(&self, raw: &RawGraph, other: &VisibleGraph, other_raw: &RawGraph, a: int)
        requires
            raw.wf(),
            other_raw.wf(),
            same_view(raw, other_raw),
            self.is_visible_graph_of(raw),
            other.is_visible_graph_of(other_raw),
            0 <= a < self.nodes().len(),
        ensures
            crate::digraph::neighbours_of(self.dag().edges(), a as usize, true).len()
                == crate::digraph::neighbours_of(other.dag().edges(), a as usize, true).len(),
    {
        self.lemma_shape_unique(raw, other, other_raw);
        assert forall|u: int, v: int| #[trigger]
            crate::dag::edge_in(self.dag().edges(), u, v) == crate::dag::edge_in(
                other.dag().edges(),
                u,
                v,
            ) by {
            assert(self.has_edge(u, v) == other.has_edge(u, v));
        }
        crate::dag::lemma_neighbours_count(self.dag().edges(), other.dag().edges(), a as usize, true);
    }

    /// Two graphs with the same edges whose nodes have the depths that the
    /// edges ask for give every node the same depth.
    pub proof fn lemma_depth_unique(&self, other: &VisibleGraph, b: int)
        requires
            self.wf(),
            other.wf(),
            self.depths_ok(),
            other.depths_ok(),
            self.nodes().len() == other.nodes().len(),
            forall|x: int, y: int| #[trigger] self.has_edge(x, y) == other.has_edge(x, y),
            0 <= b < self.nodes().len(),
        ensures
            self.depth(b) == other.depth(b),
        decreases b,
    {
        assert(self.depth_ok(b));
        assert(other.depth_ok(b));
        if self.depth(b) != 0 {
            let a = choose|a: int| #[trigger] self.has_edge(a, b) && self.depth(b) == self.depth(a) + 1;
            self.dag().lemma_edge_grows(a, b);
            self.lemma_depth_unique(other, a);
            assert(other.has_edge(a, b));
        }
        if other.depth(b) != 0 {
            let a = choose|a: int| #[trigger]
                other.has_edge(a, b) && other.depth(b) == other.depth(a) + 1;
            other.dag().lemma_edge_grows(a, b);
            self.lemma_depth_unique(other, a);
            assert(self.has_edge(a, b));
        }
    }

    /// What a node reaches is decided by the edges.
    pub proof fn lemma_reaches_alike(&self, other: &VisibleGraph, a: int, e: int)
        requires
            self.nodes().len() == other.nodes().len(),
            self.wf(),
            other.wf(),
            forall|x: int, y: int| #[trigger] self.has_edge(x, y) == other.has_edge(x, y),
            self.dag().reaches(a, e),
        ensures
            other.dag().reaches(a, e),
    {
        let p = choose|p: Seq<int>| #[trigger] self.dag().is_path(p) && p.first() == a && p.last() == e;
        assert forall|k: int| 0 <= k < p.len() - 1 implies other.dag().has_edge(
            #[trigger] p[k],
            p[k + 1],
        ) by {
            assert(self.has_edge(p[k], p[k + 1]));
            assert(other.has_edge(p[k], p[k + 1]));
        }
        assert(other.dag().is_path(p));
    }

    /// Two visible graphs of raw graphs with the same edges that show the
    /// same nodes have the same nodes on their loops.
    pub proof fn lemma_on_loop_unique(&self, raw: &RawGraph, other: &VisibleGraph, other_raw: &RawGraph, a: int)
        requires
            raw.wf(),
            other_raw.wf(),
            same_view(raw, other_raw),
            self.is_visible_graph_of(raw),
            other.is_visible_graph_of(other_raw),
            0 <= a < self.nodes().len(),
            self.on_loop(a),
        ensures
            a < other.nodes().len(),
            other.raw_of(a) == self.raw_of(a),
            other.on_loop(a),
    {
        self.lemma_shape_unique(raw, other, other_raw);
        let e = choose|e: int| #[trigger] self.is_loop_end(e) && self.dag().reaches(a, e);
        self.lemma_depth_unique(other, e);
        assert(other.is_loop_end(e)) by {
            assert forall|s: int| !#[trigger] other.has_edge(e, s) by {
                assert(self.has_edge(e, s) == other.has_edge(e, s));
            }
        }
        self.lemma_reaches_alike(other, a, e);
    }
}

/// How an edge of the visible graph comes about: by an edge of the raw
/// graph, or by a path through hidden nodes, of which it names the first.
#[derive(Clone, Copy, Debug, PartialEq, Eq, Structural)]
pub enum VisibleEdgeKind {
    Direct,
    Indirect(RawNodeIndex),
}

impl RawGraph {
    /// `kind` tells how node `u` is linked with node `x`: not at all; by an
    /// edge; or, where no edge joins them, through the hidden node that it
    /// names, which stands behind an edge from `u` and is linked with `x`.
    pub open spec fn is_link_kind(&self, u: int, x: int, kind: Option<VisibleEdgeKind>) -> bool {
        match kind {
            None => !self.links(u, x),
            Some(VisibleEdgeKind::Direct) => self.has_edge(u, x),
            Some(VisibleEdgeKind::Indirect(w)) => !self.has_edge(u, x) && self.has_edge(
                u,
                w.0 as int,
            ) && !self.shown_at(w.0 as int) && self.links(w.0 as int, x),
        }
    }

    /// Marks the nodes that are linked with node `x`.
    pub fn linked_with(&self, x: usize) -> (r: Vec<bool>)
        requires
            self.wf(),
            x < self.nodes().len(),
        ensures
            r@.len() == self.nodes().len(),
            forall|w: int| 0 <= w < r@.len() ==> #[trigger] r@[w] == self.links(w, x as int),
    {
        let n = self.node_count();
        let mut r = false_vec(n);
        let mut w: usize = n;
        while w > 0
            invariant
                0 <= w <= n,
                n == self.nodes().len(),
                x < n,
                self.wf(),
                r@.len() == n,
                forall|v: int| w <= v < n ==> #[trigger] r@[v] == self.links(v, x as int),
            decreases w,
        {
            w -= 1;
            let succ = self.topology().successors(w);
            let mut hit = false;
            let mut k: usize = 0;
            while k < succ.len()
                invariant
                    0 <= k <= succ@.len(),
                    0 <= w < n,
                    n == self.nodes().len(),
                    r@.len() == n,
                    forall|j: int| 0 <= j < succ@.len() ==> w < #[trigger] succ@[j] < n,
                    forall|v: int| w < v < n ==> #[trigger] r@[v] == self.links(v, x as int),
                    hit <==> self.via_upto(succ@, k as int, x as int),
                decreases succ@.len() - k,
            {
                let s = succ[k];
                let here = s == x || (!self.node(RawNodeIndex(s)).is_shown() && r[s]);
                proof {
                    assert(here == self.via(succ@[k as int] as int, x as int));
                    if self.via_upto(succ@, k as int, x as int) {
                        let j = choose|j: int|
                            0 <= j < k && j < succ@.len() && #[trigger] self.via(
                                succ@[j] as int,
                                x as int,
                            );
                        assert(self.via_upto(succ@, k as int + 1, x as int));
                    }
                    if here {
                        assert(self.via_upto(succ@, k as int + 1, x as int));
                    }
                    if self.via_upto(succ@, k as int + 1, x as int) {
                        let j = choose|j: int|
                            0 <= j < k + 1 && j < succ@.len() && #[trigger] self.via(
                                succ@[j] as int,
                                x as int,
                            );
                        if j < k {
                            assert(self.via_upto(succ@, k as int, x as int));
                        }
                    }
                }
                if here {
                    hit = true;
                }
                k += 1;
            }
            proof {
                if hit {
                    let j = choose|j: int|
                        0 <= j < succ@.len() && j < succ@.len() && #[trigger] self.via(
                            succ@[j] as int,
                            x as int,
                        );
                    assert(succ@.contains(succ@[j]));
                    if succ@[j] == x {
                        self.lemma_links_direct(w as int, x as int);
                    } else {
                        self.lemma_links_through(w as int, succ@[j] as int, x as int);
                    }
                }
                if self.links(w as int, x as int) {
                    self.lemma_links_split(w as int, x as int);
                    let s = choose|s: int| #[trigger]
                        self.has_edge(w as int, s) && (s == x || (!self.shown_at(s) && self.links(
                            s,
                            x as int,
                        )));
                    self.dag().lemma_edge_grows(w as int, s);
                    assert(succ@.contains(s as usize));
                    let j = choose|j: int| 0 <= j < succ@.len() && succ@[j] == s as usize;
                    assert(self.via(succ@[j] as int, x as int));
                    assert(self.via_upto(succ@, succ@.len() as int, x as int));
                }
            }
            r.set(w, hit);
        }
        r
    }

    /// How node `u` is linked with node `x`, which is what stands behind an
    /// edge of the visible graph between two shown nodes.
    pub fn link_kind(&self, u: RawNodeIndex, x: RawNodeIndex) -> (kind: Option<VisibleEdgeKind>)
        requires
            self.wf(),
            u.0 < self.nodes().len(),
            x.0 < self.nodes().len(),
        ensures
            self.is_link_kind(u.0 as int, x.0 as int, kind),
    {
        let marks = self.linked_with(x.0);
        if !marks[u.0] {
            return None;
        }
        let succ = self.topology().successors(u.0);
        let mut through: Option<usize> = None;
        let mut k: usize = 0;
        while k < succ.len()
            invariant
                0 <= k <= succ@.len(),
                self.wf(),
                u.0 < self.nodes().len(),
                x.0 < self.nodes().len(),
                marks@.len() == self.nodes().len(),
                forall|w: int| 0 <= w < marks@.len() ==> #[trigger] marks@[w] == self.links(w, x.0 as int),
                forall|s: usize| #[trigger]
                    succ@.contains(s) <==> self.has_edge(u.0 as int, s as int),
                forall|j: int| 0 <= j < succ@.len() ==> u.0 < #[trigger] succ@[j] < self.nodes().len(),
                forall|j: int| 0 <= j < k ==> #[trigger] succ@[j] != x.0,
                match through {
                    Some(w) => succ@.contains(w) && !self.shown_at(w as int) && self.links(
                        w as int,
                        x.0 as int,
                    ),
                    None => forall|j: int|
                        0 <= j < k ==> !self.via(#[trigger] succ@[j] as int, x.0 as int),
                },
            decreases succ@.len() - k,
        {
            let s = succ[k];
            assert(succ@.contains(succ@[k as int]));
            if s == x.0 {
                return Some(VisibleEdgeKind::Direct);
            }
            if through.is_none() && !self.node(RawNodeIndex(s)).is_shown() && marks[s] {
                through = Some(s);
            }
            k += 1;
        }
        proof {
            if self.has_edge(u.0 as int, x.0 as int) {
                self.dag().lemma_edge_grows(u.0 as int, x.0 as int);
                assert(succ@.contains(x.0));
                let j = choose|j: int| 0 <= j < succ@.len() && succ@[j] == x.0;
                assert(succ@[j] != x.0);
            }
        }
        match through {
            Some(w) => Some(VisibleEdgeKind::Indirect(RawNodeIndex(w))),
            None => {
                proof {
                    self.lemma_links_split(u.0 as int, x.0 as int);
                    let s = choose|s: int| #[trigger]
                        self.has_edge(u.0 as int, s) && (s == x.0 || (!self.shown_at(s)
                            && self.links(s, x.0 as int)));
                    self.dag().lemma_edge_grows(u.0 as int, s);
                    assert(succ@.contains(s as usize));
                    let j = choose|j: int| 0 <= j < succ@.len() && succ@[j] == s as usize;
                    assert(self.via(succ@[j] as int, x.0 as int));
                    assert(false);
                }
                None
            },
        }
    }
}

} // verus!
