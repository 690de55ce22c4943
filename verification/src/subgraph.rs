//! The components of the raw graph, each with its nodes in topological
//! order and with what every node reaches.

use vstd::prelude::*;
use roaring::RoaringBitmap;
use crate::bitmap::{
    bitmap_contains, bitmap_insert, bitmap_new, bitmap_to_vec, bitmap_union_with, bitmap_values,
};
use crate::dag::{false_vec, Dag};
use crate::error::Error;
use crate::idx::RawNodeIndex;
use crate::raw::RawGraph;

verus! {

/// For every node of a component the positions of the nodes that it
/// reaches, or that reach it.
pub struct TransitiveClosure(Vec<RoaringBitmap>);

impl TransitiveClosure {
    /// The rows: for every position a set of positions.
    pub closed spec fn rows(&self) -> Seq<Set<u32>> {
        Seq::new(self.0@.len(), |i: int| bitmap_values(self.0@[i]))
    }

    /// Whether the row of `from` holds `to`.
    pub fn in_transitive_closure(&self, from: u32, to: u32) -> (r: bool)
        requires
            from < self.rows().len(),
        ensures
            r == self.rows()[from as int].contains(to),
    {
        bitmap_contains(&self.0[from as usize], to)
    }

    /// The positions in the row of `from`, in ascending order.
    pub fn reachable_from(&self, from: u32) -> (r: Vec<u32>)
        requires
            from < self.rows().len(),
        ensures
            forall|v: u32| r@.contains(v) <==> self.rows()[from as int].contains(v),
            forall|i: int, j: int| 0 <= i < j < r@.len() ==> r@[i] < r@[j],
    {
        bitmap_to_vec(&self.0[from as usize])
    }

    /// The positions in the rows of all the listed positions.
    pub fn reachable_from_many(&self, from: &Vec<u32>) -> (r: RoaringBitmap)
        requires
            forall|k: int| 0 <= k < from@.len() ==> #[trigger] from@[k] < self.rows().len(),
        ensures
            forall|v: u32| #[trigger]
                bitmap_values(r).contains(v) <==> self.any_row_upto(from@, from@.len() as int, v),
    {
        let mut reachable = bitmap_new();
        let mut k: usize = 0;
        while k < from.len()
            invariant
                0 <= k <= from@.len(),
                forall|j: int| 0 <= j < from@.len() ==> #[trigger] from@[j] < self.rows().len(),
                forall|v: u32| #[trigger]
                    bitmap_values(reachable).contains(v) <==> self.any_row_upto(
                        from@,
                        k as int,
                        v,
                    ),
            decreases from@.len() - k,
        {
            let ghost before = bitmap_values(reachable);
            bitmap_union_with(&mut reachable, &self.0[from[k] as usize]);
            proof {
                assert forall|v: u32| #[trigger]
                    bitmap_values(reachable).contains(v) <==> self.any_row_upto(
                        from@,
                        k as int + 1,
                        v,
                    ) by {
                    assert(before.contains(v) <==> self.any_row_upto(from@, k as int, v));
                    let here = self.rows()[from@[k as int] as int].contains(v);
                    if self.any_row_upto(from@, k as int, v) {
                        let j = choose|j: int|
                            0 <= j < k && j < from@.len() && #[trigger] self.rows()[from@[j] as int].contains(
                                v,
                            );
                        assert(self.any_row_upto(from@, k as int + 1, v));
                    }
                    if here {
                        assert(self.any_row_upto(from@, k as int + 1, v));
                    }
                    if self.any_row_upto(from@, k as int + 1, v) {
                        let j = choose|j: int|
                            0 <= j < k + 1 && j < from@.len()
                                && #[trigger] self.rows()[from@[j] as int].contains(v);
                        if j < k {
                            assert(self.any_row_upto(from@, k as int, v));
                        }
                    }
                }
            }
            k += 1;
        }
        reachable
    }

    /// The row of one of the first `upto` listed positions holds `v`.
    pub open spec fn any_row_upto(&self, from: Seq<u32>, upto: int, v: u32) -> bool {
        exists|j: int|
            0 <= j < upto && j < from.len() && #[trigger] self.rows()[from[j] as int].contains(v)
    }
}

/// The marks of the nodes that a component has been found for.
pub struct VisitBox {
    pub dfs: Vec<bool>,
}

/// One component of the raw graph.
pub struct Subgraph {
    pub nodes: Vec<RawNodeIndex>,
    /// `reach_fwd[idx]` gives the positions of the nodes that can be reached
    /// from `idx`.
    pub reach_fwd: TransitiveClosure,
    /// `reach_bwd[idx]` gives the positions of the nodes that can reach
    /// `idx`.
    pub reach_bwd: TransitiveClosure,
}

/// One of the first `k` nodes of `from` reaches node `v`.
pub open spec fn reached_from_upto(dag: Dag, from: Seq<usize>, k: int, v: int) -> bool {
    exists|t: int| 0 <= t < k && t < from.len() && #[trigger] dag.reaches(from[t] as int, v)
}

/// Node `v` reaches one of the first `k` nodes of `to`.
pub open spec fn reaches_upto(dag: Dag, to: Seq<usize>, k: int, v: int) -> bool {
    exists|t: int| 0 <= t < k && t < to.len() && #[trigger] dag.reaches(v, to[t] as int)
}

impl Subgraph {
    /// The nodes of the component, by position.
    pub open spec fn nodes(&self) -> Seq<RawNodeIndex> {
        self.nodes@
    }

    /// The raw node at position `i`.
    pub open spec fn raw_of(&self, i: int) -> int {
        at(self.nodes(), i)
    }

    /// Whether the component has the raw node `v`.
    pub open spec fn has_node(&self, v: int) -> bool {
        lists(self.nodes(), v)
    }

    /// The nodes stand in ascending order.
    pub open spec fn ordered(&self) -> bool {
        ascending(self.nodes())
    }

    /// The rows of the closures say what the nodes reach: the forward row of
    /// a position holds the positions of the nodes that its node reaches, the
    /// backward row those of the nodes that reach it.
    pub open spec fn closes(&self, dag: Dag) -> bool {
        &&& self.reach_fwd.rows().len() == self.nodes().len()
        &&& self.reach_bwd.rows().len() == self.nodes().len()
        &&& self.nodes().len() <= u32::MAX
        &&& forall|i: int, j: u32|
            0 <= i < self.nodes().len() ==> (#[trigger] self.reach_fwd.rows()[i].contains(j) <==> j
                < self.nodes().len() && dag.reaches(self.raw_of(i), self.raw_of(j as int)))
        &&& forall|i: int, j: u32|
            0 <= i < self.nodes().len() ==> (#[trigger] self.reach_bwd.rows()[i].contains(j) <==> j
                < self.nodes().len() && dag.reaches(self.raw_of(j as int), self.raw_of(i)))
    }

    /// Every node reaches itself, forward and backward.
    pub proof fn lemma_reach_reflexive(&self, dag: Dag, i: u32)
        requires
            dag.wf(),
            self.closes(dag),
            i < self.nodes().len(),
            self.raw_of(i as int) < dag.len(),
        ensures
            self.reach_fwd.rows()[i as int].contains(i),
            self.reach_bwd.rows()[i as int].contains(i),
    {
        dag.lemma_reaches_self(self.raw_of(i as int));
    }

    /// A node reaches another forward exactly if that one reaches it
    /// backward.
    pub proof fn lemma_reach_symmetric(&self, dag: Dag, i: u32, j: u32)
        requires
            self.closes(dag),
            i < self.nodes().len(),
            j < self.nodes().len(),
        ensures
            self.reach_fwd.rows()[i as int].contains(j) <==> self.reach_bwd.rows()[j as int].contains(
                i,
            ),
    {
    }
}

/// The raw node at position `i` of a list of nodes.
pub open spec fn at(nodes: Seq<RawNodeIndex>, i: int) -> int {
    nodes[i].0 as int
}

/// The nodes stand in ascending order.
pub open spec fn ascending(nodes: Seq<RawNodeIndex>) -> bool {
    forall|i: int, j: int|
        0 <= i < j < nodes.len() ==> #[trigger] at(nodes, i) < #[trigger] at(nodes, j)
}

/// Whether the list has the raw node `v`.
pub open spec fn lists(nodes: Seq<RawNodeIndex>, v: int) -> bool {
    exists|i: int| 0 <= i < nodes.len() && #[trigger] at(nodes, i) == v
}

/// Every listed node knows its component and its position in the list.
pub open spec fn positions_recorded(graph: &RawGraph, nodes: Seq<RawNodeIndex>, id: u32) -> bool {
    forall|i: int|
        0 <= i < nodes.len() ==> at(nodes, i) < graph.nodes().len() && #[trigger] graph.subgraph_at(
            at(nodes, i),
        ) == Some((id, i as u32))
}

/// Every edge joins two listed nodes or two nodes that are not listed.
pub open spec fn closed_list(dag: Dag, nodes: Seq<RawNodeIndex>) -> bool {
    forall|u: int, w: int| #[trigger] dag.has_edge(u, w) ==> (lists(nodes, u) <==> lists(nodes, w))
}

/// In an ascending list no node stands before its own number.
proof fn lemma_ascending_bound(nodes: Seq<RawNodeIndex>, i: int)
    requires
        ascending(nodes),
        0 <= i < nodes.len(),
    ensures
        at(nodes, i) >= i,
    decreases i,
{
    if i > 0 {
        lemma_ascending_bound(nodes, i - 1);
        assert(at(nodes, i - 1) < at(nodes, i));
    }
}

/// The listed numbers in ascending order, each once.
fn sorted_members(members: &Vec<usize>) -> (r: Vec<u32>)
    requires
        forall|k: int| 0 <= k < members@.len() ==> #[trigger] members@[k] <= u32::MAX,
    ensures
        forall|v: u32| r@.contains(v) <==> members@.contains(v as usize),
        forall|i: int, j: int| 0 <= i < j < r@.len() ==> r@[i] < r@[j],
{
    let mut bm = bitmap_new();
    let mut k: usize = 0;
    while k < members.len()
        invariant
            0 <= k <= members@.len(),
            forall|t: int| 0 <= t < members@.len() ==> #[trigger] members@[t] <= u32::MAX,
            forall|v: u32|
                bitmap_values(bm).contains(v) <==> members@.subrange(0, k as int).contains(
                    v as usize,
                ),
        decreases members@.len() - k,
    {
        let ghost before = members@.subrange(0, k as int);
        let ghost after = members@.subrange(0, k as int + 1);
        let ghost held = bitmap_values(bm);
        bitmap_insert(&mut bm, members[k] as u32);
        proof {
            assert(after =~= before.push(members@[k as int]));
            assert forall|v: u32| bitmap_values(bm).contains(v) <==> after.contains(v as usize) by {
                assert(held.contains(v) <==> before.contains(v as usize));
                if before.contains(v as usize) {
                    let t = choose|t: int| 0 <= t < before.len() && before[t] == v as usize;
                    assert(after[t] == v as usize);
                }
                if after.contains(v as usize) {
                    let t = choose|t: int| 0 <= t < after.len() && after[t] == v as usize;
                    if t < before.len() {
                        assert(before[t] == v as usize);
                    }
                }
                assert(after[k as int] == members@[k as int]);
            }
        }
        k += 1;
    }
    assert(members@.subrange(0, members@.len() as int) =~= members@);
    bitmap_to_vec(&bm)
}

/// For every listed node the positions of the listed nodes that it reaches.
fn closure_fwd(graph: &RawGraph, nodes: &Vec<RawNodeIndex>, id: u32) -> (r: TransitiveClosure)
    requires
        graph.wf(),
        ascending(nodes@),
        positions_recorded(graph, nodes@, id),
        closed_list(graph.dag(), nodes@),
    ensures
        r.rows().len() == nodes@.len(),
        forall|i: int, j: u32|
            0 <= i < nodes@.len() ==> (#[trigger] r.rows()[i].contains(j) <==> j < nodes@.len()
                && graph.dag().reaches(at(nodes@, i), at(nodes@, j as int))),
{
    let len = nodes.len();
    let mut rows: Vec<RoaringBitmap> = Vec::new();
    let mut f: usize = 0;
    while f < len
        invariant
            0 <= f <= len,
            rows@.len() == f,
        decreases len - f,
    {
        rows.push(bitmap_new());
        f += 1;
    }
    proof {
        if len > 0 {
            lemma_ascending_bound(nodes@, len - 1);
            assert(graph.subgraph_at(at(nodes@, len - 1)) == Some((id, (len - 1) as u32)));
        }
    }
    let mut i: usize = len;
    while i > 0
        invariant
            0 <= i <= len,
            len == nodes@.len(),
            len <= u32::MAX,
            graph.wf(),
            ascending(nodes@),
            positions_recorded(graph, nodes@, id),
            closed_list(graph.dag(), nodes@),
            rows@.len() == len,
            forall|c: int, j: u32|
                i <= c < len ==> (#[trigger] bitmap_values(rows@[c]).contains(j) <==> j < len
                    && graph.dag().reaches(at(nodes@, c), at(nodes@, j as int))),
        decreases i,
    {
        i -= 1;
        let u = nodes[i].0;
        assert(at(nodes@, i as int) == u);
        assert(graph.subgraph_at(at(nodes@, i as int)) == Some((id, i as u32)));
        let succ = graph.topology().successors(u);
        let mut cur = bitmap_new();
        bitmap_insert(&mut cur, i as u32);
        let mut k: usize = 0;
        while k < succ.len()
            invariant
                0 <= k <= succ@.len(),
                0 <= i < len,
                len == nodes@.len(),
                len <= u32::MAX,
                u == at(nodes@, i as int),
                graph.wf(),
                ascending(nodes@),
                positions_recorded(graph, nodes@, id),
                closed_list(graph.dag(), nodes@),
                rows@.len() == len,
                forall|s: usize| #[trigger]
                    succ@.contains(s) <==> graph.dag().has_edge(u as int, s as int),
                forall|t: int| 0 <= t < succ@.len() ==> u < #[trigger] succ@[t] < graph.dag().len(),
                forall|c: int, j: u32|
                    i < c < len ==> (#[trigger] bitmap_values(rows@[c]).contains(j) <==> j < len
                        && graph.dag().reaches(at(nodes@, c), at(nodes@, j as int))),
                forall|j: u32| #[trigger]
                    bitmap_values(cur).contains(j) <==> j < len && (j == i || reached_from_upto(
                        graph.dag(),
                        succ@,
                        k as int,
                        at(nodes@, j as int),
                    )),
            decreases succ@.len() - k,
        {
            let s = succ[k];
            let ghost held = bitmap_values(cur);
            proof {
                assert(succ@.contains(succ@[k as int]));
                assert(graph.dag().has_edge(u as int, s as int));
                assert(lists(nodes@, u as int));
                assert(lists(nodes@, s as int));
            }
            let ghost c = choose|c: int| 0 <= c < nodes@.len() && #[trigger] at(nodes@, c) == s;
            proof {
                assert(graph.subgraph_at(at(nodes@, c)) == Some((id, c as u32)));
                if c <= i {
                    if c < i {
                        assert(at(nodes@, c) < at(nodes@, i as int));
                    }
                    assert(false);
                }
            }
            match graph.node(RawNodeIndex(s)).subgraph {
                Some((_, pos)) => {
                    assert(pos == c);
                    bitmap_union_with(&mut cur, &rows[pos as usize]);
                },
                None => {
                    assert(false);
                },
            }
            proof {
                assert forall|j: u32| #[trigger]
                    bitmap_values(cur).contains(j) <==> j < len && (j == i || reached_from_upto(
                        graph.dag(),
                        succ@,
                        k as int + 1,
                        at(nodes@, j as int),
                    )) by {
                    let here = j < len && graph.dag().reaches(s as int, at(nodes@, j as int));
                    assert(bitmap_values(rows@[c]).contains(j) == here);
                    assert(bitmap_values(cur).contains(j) == (held.contains(j) || here));
                    if j < len {
                        let v = at(nodes@, j as int);
                        if reached_from_upto(graph.dag(), succ@, k as int, v) {
                            let t = choose|t: int|
                                0 <= t < k && t < succ@.len() && #[trigger] graph.dag().reaches(
                                    succ@[t] as int,
                                    v,
                                );
                            assert(reached_from_upto(graph.dag(), succ@, k as int + 1, v));
                        }
                        if here {
                            assert(graph.dag().reaches(succ@[k as int] as int, v));
                            assert(reached_from_upto(graph.dag(), succ@, k as int + 1, v));
                        }
                        if reached_from_upto(graph.dag(), succ@, k as int + 1, v) {
                            let t = choose|t: int|
                                0 <= t < k + 1 && t < succ@.len() && #[trigger] graph.dag().reaches(
                                    succ@[t] as int,
                                    v,
                                );
                            if t < k {
                                assert(reached_from_upto(graph.dag(), succ@, k as int, v));
                            }
                        }
                    }
                }
            }
            k += 1;
        }
        proof {
            assert forall|j: u32| #[trigger]
                bitmap_values(cur).contains(j) <==> j < len && graph.dag().reaches(
                    at(nodes@, i as int),
                    at(nodes@, j as int),
                ) by {
                if j < len {
                    let v = at(nodes@, j as int);
                    if j == i {
                        graph.dag().lemma_reaches_self(u as int);
                    }
                    if reached_from_upto(graph.dag(), succ@, succ@.len() as int, v) {
                        let t = choose|t: int|
                            0 <= t < succ@.len() && t < succ@.len() && #[trigger] graph.dag().reaches(
                                succ@[t] as int,
                                v,
                            );
                        assert(succ@.contains(succ@[t]));
                        graph.dag().lemma_reaches_first(u as int, succ@[t] as int, v);
                    }
                    if graph.dag().reaches(u as int, v) && j != i {
                        if j < i {
                            assert(at(nodes@, j as int) < at(nodes@, i as int));
                        } else {
                            assert(at(nodes@, i as int) < at(nodes@, j as int));
                        }
                        graph.dag().lemma_reaches_split_first(u as int, v);
                        let s = choose|s: int| #[trigger]
                            graph.dag().has_edge(u as int, s) && graph.dag().reaches(s, v);
                        graph.dag().lemma_edge_grows(u as int, s);
                        assert(succ@.contains(s as usize));
                        let t = choose|t: int| 0 <= t < succ@.len() && succ@[t] == s as usize;
                        assert(graph.dag().reaches(succ@[t] as int, v));
                        assert(reached_from_upto(graph.dag(), succ@, succ@.len() as int, v));
                    }
                }
            }
        }
        let ghost rows0 = rows@;
        rows.set(i, cur);
        proof {
            assert forall|c: int, j: u32| i <= c < len implies (#[trigger] bitmap_values(
                rows@[c],
            ).contains(j) <==> j < len && graph.dag().reaches(at(nodes@, c), at(nodes@, j as int))) by {
                if c > i {
                    assert(rows@[c] == rows0[c]);
                }
            }
        }
    }
    let r = TransitiveClosure(rows);
    proof {
        assert forall|c: int, j: u32| 0 <= c < nodes@.len() implies (#[trigger] r.rows()[c].contains(
            j,
        ) <==> j < nodes@.len() && graph.dag().reaches(at(nodes@, c), at(nodes@, j as int))) by {
            assert(r.rows()[c] == bitmap_values(rows@[c]));
        }
    }
    r
}

/// For every listed node the positions of the listed nodes that reach it.
fn closure_bwd(graph: &RawGraph, nodes: &Vec<RawNodeIndex>, id: u32) -> (r: TransitiveClosure)
    requires
        graph.wf(),
        ascending(nodes@),
        positions_recorded(graph, nodes@, id),
        closed_list(graph.dag(), nodes@),
    ensures
        r.rows().len() == nodes@.len(),
        forall|i: int, j: u32|
            0 <= i < nodes@.len() ==> (#[trigger] r.rows()[i].contains(j) <==> j < nodes@.len()
                && graph.dag().reaches(at(nodes@, j as int), at(nodes@, i))),
{
    let len = nodes.len();
    let mut rows: Vec<RoaringBitmap> = Vec::new();
    proof {
        if len > 0 {
            lemma_ascending_bound(nodes@, len - 1);
            assert(graph.subgraph_at(at(nodes@, len - 1)) == Some((id, (len - 1) as u32)));
        }
    }
    let mut i: usize = 0;
    while i < len
        invariant
            0 <= i <= len,
            len == nodes@.len(),
            len <= u32::MAX,
            graph.wf(),
            ascending(nodes@),
            positions_recorded(graph, nodes@, id),
            closed_list(graph.dag(), nodes@),
            rows@.len() == i,
            forall|c: int, j: u32|
                0 <= c < i ==> (#[trigger] bitmap_values(rows@[c]).contains(j) <==> j < len
                    && graph.dag().reaches(at(nodes@, j as int), at(nodes@, c))),
        decreases len - i,
    {
        let u = nodes[i].0;
        assert(at(nodes@, i as int) == u);
        assert(graph.subgraph_at(at(nodes@, i as int)) == Some((id, i as u32)));
        let pred = graph.topology().predecessors(u);
        let mut cur = bitmap_new();
        bitmap_insert(&mut cur, i as u32);
        let mut k: usize = 0;
        while k < pred.len()
            invariant
                0 <= k <= pred@.len(),
                0 <= i < len,
                len == nodes@.len(),
                len <= u32::MAX,
                u == at(nodes@, i as int),
                graph.wf(),
                ascending(nodes@),
                positions_recorded(graph, nodes@, id),
                closed_list(graph.dag(), nodes@),
                rows@.len() == i,
                forall|s: usize| #[trigger]
                    pred@.contains(s) <==> graph.dag().has_edge(s as int, u as int),
                forall|t: int| 0 <= t < pred@.len() ==> #[trigger] pred@[t] < u,
                forall|c: int, j: u32|
                    0 <= c < i ==> (#[trigger] bitmap_values(rows@[c]).contains(j) <==> j < len
                        && graph.dag().reaches(at(nodes@, j as int), at(nodes@, c))),
                forall|j: u32| #[trigger]
                    bitmap_values(cur).contains(j) <==> j < len && (j == i || reaches_upto(
                        graph.dag(),
                        pred@,
                        k as int,
                        at(nodes@, j as int),
                    )),
            decreases pred@.len() - k,
        {
            let s = pred[k];
            let ghost held = bitmap_values(cur);
            proof {
                assert(pred@.contains(pred@[k as int]));
                assert(graph.dag().has_edge(s as int, u as int));
                assert(lists(nodes@, u as int));
                assert(lists(nodes@, s as int));
            }
            let ghost c = choose|c: int| 0 <= c < nodes@.len() && #[trigger] at(nodes@, c) == s;
            proof {
                assert(graph.subgraph_at(at(nodes@, c)) == Some((id, c as u32)));
                if c >= i {
                    if c > i {
                        assert(at(nodes@, i as int) < at(nodes@, c));
                    }
                    assert(false);
                }
            }
            match graph.node(RawNodeIndex(s)).subgraph {
                Some((_, pos)) => {
                    assert(pos == c);
                    bitmap_union_with(&mut cur, &rows[pos as usize]);
                },
                None => {
                    assert(false);
                },
            }
            proof {
                assert forall|j: u32| #[trigger]
                    bitmap_values(cur).contains(j) <==> j < len && (j == i || reaches_upto(
                        graph.dag(),
                        pred@,
                        k as int + 1,
                        at(nodes@, j as int),
                    )) by {
                    let here = j < len && graph.dag().reaches(at(nodes@, j as int), s as int);
                    assert(bitmap_values(rows@[c]).contains(j) == here);
                    assert(bitmap_values(cur).contains(j) == (held.contains(j) || here));
                    if j < len {
                        let v = at(nodes@, j as int);
                        if reaches_upto(graph.dag(), pred@, k as int, v) {
                            let t = choose|t: int|
                                0 <= t < k && t < pred@.len() && #[trigger] graph.dag().reaches(
                                    v,
                                    pred@[t] as int,
                                );
                            assert(reaches_upto(graph.dag(), pred@, k as int + 1, v));
                        }
                        if here {
                            assert(graph.dag().reaches(v, pred@[k as int] as int));
                            assert(reaches_upto(graph.dag(), pred@, k as int + 1, v));
                        }
                        if reaches_upto(graph.dag(), pred@, k as int + 1, v) {
                            let t = choose|t: int|
                                0 <= t < k + 1 && t < pred@.len() && #[trigger] graph.dag().reaches(
                                    v,
                                    pred@[t] as int,
                                );
                            if t < k {
                                assert(reaches_upto(graph.dag(), pred@, k as int, v));
                            }
                        }
                    }
                }
            }
            k += 1;
        }
        proof {
            assert forall|j: u32| #[trigger]
                bitmap_values(cur).contains(j) <==> j < len && graph.dag().reaches(
                    at(nodes@, j as int),
                    at(nodes@, i as int),
                ) by {
                if j < len {
                    let v = at(nodes@, j as int);
                    if j == i {
                        graph.dag().lemma_reaches_self(u as int);
                    }
                    if reaches_upto(graph.dag(), pred@, pred@.len() as int, v) {
                        let t = choose|t: int|
                            0 <= t < pred@.len() && t < pred@.len() && #[trigger] graph.dag().reaches(
                                v,
                                pred@[t] as int,
                            );
                        assert(pred@.contains(pred@[t]));
                        graph.dag().lemma_reaches_last(v, pred@[t] as int, u as int);
                    }
                    if graph.dag().reaches(v, u as int) && j != i {
                        if j < i {
                            assert(at(nodes@, j as int) < at(nodes@, i as int));
                        } else {
                            assert(at(nodes@, i as int) < at(nodes@, j as int));
                        }
                        graph.dag().lemma_reaches_split_last(v, u as int);
                        let s = choose|s: int| #[trigger]
                            graph.dag().has_edge(s, u as int) && graph.dag().reaches(v, s);
                        graph.dag().lemma_edge_grows(s, u as int);
                        assert(pred@.contains(s as usize));
                        let t = choose|t: int| 0 <= t < pred@.len() && pred@[t] == s as usize;
                        assert(graph.dag().reaches(v, pred@[t] as int));
                        assert(reaches_upto(graph.dag(), pred@, pred@.len() as int, v));
                    }
                }
            }
        }
        let ghost rows0 = rows@;
        rows.push(cur);
        proof {
            assert forall|c: int, j: u32| 0 <= c < i + 1 implies (#[trigger] bitmap_values(
                rows@[c],
            ).contains(j) <==> j < len && graph.dag().reaches(at(nodes@, j as int), at(nodes@, c))) by {
                if c < i {
                    assert(rows@[c] == rows0[c]);
                }
            }
        }
        i += 1;
    }
    let r = TransitiveClosure(rows);
    proof {
        assert forall|c: int, j: u32| 0 <= c < nodes@.len() implies (#[trigger] r.rows()[c].contains(
            j,
        ) <==> j < nodes@.len() && graph.dag().reaches(at(nodes@, j as int), at(nodes@, c))) by {
            assert(r.rows()[c] == bitmap_values(rows@[c]));
        }
    }
    r
}

impl Subgraph {
    /// The component of `node`: its nodes in ascending order, which is a
    /// topological order, and what each of them reaches. Every node of the
    /// component is marked in `visit` and learns its component and its
    /// position. From a node that `visit` marks already nothing is reached:
    /// the component has no node, and graph and marks stay as they are.
    /// Where memory runs out nothing is changed.
    pub fn new(node: RawNodeIndex, graph: &mut RawGraph, visit: VisitBox, id: u32) -> (r: Result<
        (Subgraph, VisitBox),
        Error,
    >)
        requires
            old(graph).wf(),
            node.0 < old(graph).nodes().len(),
            old(graph).dag().closed_marks(visit.dfs@),
        ensures
            match r {
                Ok((sub, marks)) => {
                    &&& final(graph).wf()
                    &&& final(graph).same_but_subgraphs(old(graph))
                    &&& final(graph).dag().closed_marks(marks.dfs@)
                    &&& forall|v: int|
                        0 <= v < old(graph).nodes().len() ==> (#[trigger] marks.dfs@[v]
                            <==> visit.dfs@[v] || sub.has_node(v))
                    &&& sub.ordered()
                    &&& sub.has_node(node.0 as int) <==> !visit.dfs@[node.0 as int]
                    &&& forall|v: int|
                        0 <= v < old(graph).nodes().len() ==> (sub.has_node(v)
                            <==> !visit.dfs@[node.0 as int] && #[trigger] old(graph).dag().joined(
                            node.0 as int,
                            v,
                        ))
                    &&& visit.dfs@[node.0 as int] ==> sub.nodes().len() == 0 && marks == visit
                        && *final(graph) == *old(graph)
                    &&& forall|i: int|
                        0 <= i < sub.nodes().len() ==> #[trigger] sub.raw_of(i) < old(graph).nodes().len() && !visit.dfs@[sub.raw_of(i)] && final(graph).subgraph_at(
                            sub.raw_of(i),
                        ) == Some((id, i as u32))
                    &&& forall|v: int|
                        0 <= v < old(graph).nodes().len() && !sub.has_node(v) ==> #[trigger] final(graph).subgraph_at(v) == old(graph).subgraph_at(v)
                    &&& forall|u: int, w: int| #[trigger]
                        old(graph).has_edge(u, w) ==> (sub.has_node(u) <==> sub.has_node(w))
                    &&& sub.closes(final(graph).dag())
                },
                Err(e) => e == Error::Alloc && *final(graph) == *old(graph)
                    && !visit.dfs@[node.0 as int],
            },
    {
        let ghost marks0 = visit.dfs@;
        let mut seen = VisitBox { dfs: visit.dfs };
        let members = graph.topology().component_of(node.0, &mut seen.dfs);
        let sorted = sorted_members(&members);
        proof {
            if marks0[node.0 as int] && sorted@.len() > 0 {
                assert(sorted@.contains(sorted@[0]));
                assert(members@.contains(sorted@[0] as usize));
            }
        }
        let n = graph.node_count();
        let mut nodes: Vec<RawNodeIndex> = Vec::new();
        let mut k: usize = 0;
        while k < sorted.len()
            invariant
                0 <= k <= sorted@.len(),
                marks0 == visit.dfs@,
                node.0 < marks0.len(),
                marks0[node.0 as int] ==> sorted@.len() == 0,
                *graph == *old(graph),
                nodes@.len() == k,
                forall|i: int| 0 <= i < k ==> #[trigger] at(nodes@, i) == sorted@[i],
            decreases sorted@.len() - k,
        {
            if nodes.try_reserve(1).is_err() {
                return Err(Error::Alloc);
            }
            let ghost before = nodes@;
            nodes.push(RawNodeIndex(sorted[k] as usize));
            proof {
                assert forall|i: int| 0 <= i < k + 1 implies #[trigger] at(nodes@, i)
                    == sorted@[i] by {
                    if i < k {
                        assert(nodes@[i] == before[i]);
                        assert(at(before, i) == sorted@[i]);
                    }
                }
            }
            k += 1;
        }
        proof {
            assert forall|v: int| lists(nodes@, v) <==> 0 <= v < n && members@.contains(
                v as usize,
            ) by {
                if lists(nodes@, v) {
                    let i = choose|i: int| 0 <= i < nodes@.len() && #[trigger] at(nodes@, i) == v;
                    assert(sorted@.contains(sorted@[i]));
                    assert(members@.contains(sorted@[i] as usize));
                    let t = choose|t: int|
                        0 <= t < members@.len() && members@[t] == sorted@[i] as usize;
                    assert(members@[t] < n);
                }
                if 0 <= v < n && members@.contains(v as usize) {
                    let x = v as u32;
                    assert(x as usize == v as usize);
                    assert(sorted@.contains(x));
                    let i = choose|i: int| 0 <= i < sorted@.len() && sorted@[i] == x;
                    assert(at(nodes@, i) == sorted@[i]);
                }
            }
            assert forall|c: int| 0 <= c < nodes@.len() implies #[trigger] at(nodes@, c) < n by {
                assert(lists(nodes@, at(nodes@, c)));
            }
            assert forall|i: int, j: int| 0 <= i < j < nodes@.len() implies #[trigger] at(nodes@, i)
                < #[trigger] at(nodes@, j) by {
                assert(sorted@[i] < sorted@[j]);
            }
        }
        let len = nodes.len();
        let mut i: usize = 0;
        while i < len
            invariant
                0 <= i <= len,
                len == nodes@.len(),
                n == graph.nodes().len(),
                n <= u32::MAX,
                graph.wf(),
                graph.same_but_subgraphs(old(graph)),
                i == 0 ==> *graph == *old(graph),
                ascending(nodes@),
                forall|c: int| 0 <= c < len ==> #[trigger] at(nodes@, c) < n,
                forall|c: int|
                    0 <= c < i ==> #[trigger] graph.subgraph_at(at(nodes@, c)) == Some(
                        (id, c as u32),
                    ),
                forall|v: int|
                    0 <= v < n && !lists(nodes@, v) ==> #[trigger] graph.subgraph_at(v) == old(graph).subgraph_at(v),
            decreases len - i,
        {
            let ghost prev = *graph;
            proof {
                lemma_ascending_bound(nodes@, i as int);
                assert(at(nodes@, i as int) < n);
            }
            graph.set_subgraph(nodes[i].0, id, i as u32);
            proof {
                assert forall|c: int| 0 <= c < n implies (#[trigger] graph.nodes()[c]).same_but_subgraph(
                    &old(graph).nodes()[c],
                ) by {
                    assert(prev.nodes()[c].same_but_subgraph(&old(graph).nodes()[c]));
                }
                assert forall|c: int| 0 <= c < i + 1 implies #[trigger] graph.subgraph_at(
                    at(nodes@, c),
                ) == Some((id, c as u32)) by {
                    if c < i {
                        assert(at(nodes@, c) < at(nodes@, i as int));
                        assert(prev.subgraph_at(at(nodes@, c)) == Some((id, c as u32)));
                    }
                }
                assert forall|v: int| 0 <= v < n && !lists(nodes@, v) implies #[trigger] graph.subgraph_at(
                    v,
                ) == old(graph).subgraph_at(v) by {
                    assert(at(nodes@, i as int) != v);
                    assert(prev.subgraph_at(v) == old(graph).subgraph_at(v));
                }
            }
            i += 1;
        }
        proof {
            assert forall|u: int, w: int| #[trigger] graph.dag().has_edge(u, w) implies (lists(
                nodes@,
                u,
            ) <==> lists(nodes@, w)) by {
                graph.dag().lemma_edge_grows(u, w);
            }
        }
        let reach_fwd = closure_fwd(graph, &nodes, id);
        let reach_bwd = closure_bwd(graph, &nodes, id);
        let sub = Subgraph { nodes, reach_fwd, reach_bwd };
        proof {
            assert forall|c: int| 0 <= c < sub.nodes().len() implies #[trigger] sub.raw_of(c) < n
                && !marks0[sub.raw_of(c)] && graph.subgraph_at(sub.raw_of(c)) == Some(
                (id, c as u32),
            ) by {
                assert(at(sub.nodes(), c) == sub.raw_of(c));
                assert(lists(sub.nodes(), sub.raw_of(c)));
                let t = choose|t: int|
                    0 <= t < members@.len() && members@[t] == sub.raw_of(c) as usize;
                assert(!marks0[members@[t] as int]);
            }
            if len > 0 {
                lemma_ascending_bound(sub.nodes(), len - 1);
                assert(at(sub.nodes(), len - 1) < n);
            }
            assert forall|u: int, w: int| #[trigger] old(graph).has_edge(u, w) implies (
            sub.has_node(u) <==> sub.has_node(w)) by {
                assert(graph.dag().has_edge(u, w));
            }
            assert forall|v: int| 0 <= v < n implies (sub.has_node(v) <==> !marks0[node.0 as int]
                && #[trigger] old(graph).dag().joined(node.0 as int, v)) by {
                assert(members@.contains(v as usize) <==> !marks0[node.0 as int]
                    && graph.dag().joined(node.0 as int, v));
            }
            assert(sub.has_node(node.0 as int) <==> members@.contains(node.0));
            if marks0[node.0 as int] {
                if sorted@.len() > 0 {
                    assert(sorted@.contains(sorted@[0]));
                    assert(members@.contains(sorted@[0] as usize));
                }
                assert(sub.nodes().len() == 0);
                assert(seen.dfs == visit.dfs);
                assert(*graph == *old(graph));
            }
        }
        Ok((sub, seen))
    }
}

/// Node `v` stands at position `i` of component `c`, and knows it.
pub open spec fn placed(graph: &RawGraph, subs: Seq<Subgraph>, v: int, c: int, i: int) -> bool {
    &&& 0 <= c < subs.len()
    &&& 0 <= i < subs[c].nodes().len()
    &&& subs[c].raw_of(i) == v
    &&& graph.subgraph_at(v) == Some((c as u32, i as u32))
}

/// Node `v` stands in one of the components, and knows where.
pub open spec fn placed_somewhere(graph: &RawGraph, subs: Seq<Subgraph>, v: int) -> bool {
    exists|c: int, i: int| #[trigger] placed(graph, subs, v, c, i)
}

/// Component `c` is sound: its nodes stand in ascending order, each knows
/// its place, no edge leaves the component, and its closures say what its
/// nodes reach.
pub open spec fn component_ok(graph: &RawGraph, subs: Seq<Subgraph>, c: int) -> bool {
    &&& subs[c].ordered()
    &&& subs[c].closes(graph.dag())
    &&& forall|i: int|
        0 <= i < subs[c].nodes().len() ==> #[trigger] placed(graph, subs, subs[c].raw_of(i), c, i)
    &&& forall|u: int, w: int| #[trigger]
        graph.has_edge(u, w) ==> (subs[c].has_node(u) <==> subs[c].has_node(w))
    &&& spans(graph.dag(), subs[c])
}

/// The component holds exactly the nodes that edges join with one of its
/// nodes, whatever the directions of the edges.
pub open spec fn spans(dag: Dag, sub: Subgraph) -> bool {
    exists|s: int| #[trigger]
        sub.has_node(s) && forall|v: int|
            0 <= v < dag.len() ==> (sub.has_node(v) <==> #[trigger] dag.joined(s, v))
}

/// The components part the graph: every node stands in one of them and
/// knows where, and every component is sound. A node knows one place only,
/// so it stands in one component only.
pub open spec fn parts(graph: &RawGraph, subs: Seq<Subgraph>) -> bool {
    &&& subs.len() <= u32::MAX
    &&& forall|v: int| 0 <= v < graph.nodes().len() ==> #[trigger] placed_somewhere(graph, subs, v)
    &&& forall|c: int| 0 <= c < subs.len() ==> #[trigger] component_ok(graph, subs, c)
}

impl RawGraph {
    /// Parts the graph into its components: the sets of nodes that edges
    /// join, whatever their directions. Where memory runs out, the graph is
    /// left as it was. A graph without nodes has no component, and needs no
    /// memory.
    pub fn partition(&mut self) -> (r: Result<Vec<Subgraph>, Error>)
        requires
            old(self).wf(),
        ensures
            final(self).wf(),
            final(self).same_but_subgraphs(old(self)),
            match r {
                Ok(subs) => parts(final(self), subs@),
                Err(e) => e == Error::Alloc && final(self).same_graph(old(self)) && old(
                    self,
                ).nodes().len() > 0,
            },
    {
        let n = self.node_count();
        let mut saved: Vec<Option<(u32, u32)>> = Vec::new();
        let mut s: usize = 0;
        while s < n
            invariant
                0 <= s <= n,
                *self == *old(self),
                n == self.nodes().len(),
                saved@.len() == s,
                forall|i: int| 0 <= i < s ==> #[trigger] saved@[i] == self.subgraph_at(i),
            decreases n - s,
        {
            saved.push(self.node(RawNodeIndex(s)).subgraph);
            s += 1;
        }
        let mut marks = false_vec(n);
        let mut subs: Vec<Subgraph> = Vec::new();
        let mut v: usize = 0;
        proof {
            assert forall|a: int, b: int| #[trigger] self.dag().has_edge(a, b) implies marks@[a]
                == marks@[b] by {
                self.dag().lemma_edge_grows(a, b);
            }
        }
        while v < n
            invariant
                0 <= v <= n,
                n == self.nodes().len(),
                n <= u32::MAX,
                self.wf(),
                self.same_but_subgraphs(old(self)),
                self.dag().closed_marks(marks@),
                saved@.len() == n,
                forall|i: int| 0 <= i < n ==> #[trigger] saved@[i] == old(self).subgraph_at(i),
                subs@.len() <= v,
                forall|w: int| 0 <= w < v ==> #[trigger] marks@[w],
                forall|w: int| 0 <= w < n && #[trigger] marks@[w] ==> placed_somewhere(self, subs@, w),
                forall|c: int, i: int|
                    0 <= c < subs@.len() && 0 <= i < subs@[c].nodes().len() ==> #[trigger] subs@[c].raw_of(
                        i,
                    ) < n && marks@[subs@[c].raw_of(i)],
                forall|c: int| 0 <= c < subs@.len() ==> #[trigger] component_ok(self, subs@, c),
            decreases n - v,
        {
            if !marks[v] {
                let id = subs.len() as u32;
                let ghost prev = *self;
                let ghost subs0 = subs@;
                let ghost marks0 = marks@;
                match Subgraph::new(RawNodeIndex(v), self, VisitBox { dfs: marks }, id) {
                    Ok((sub, visit)) => {
                        marks = visit.dfs;
                        subs.push(sub);
                        proof {
                            let c_new = subs0.len() as int;
                            assert(subs@[c_new] == sub);
                            assert forall|j: int| 0 <= j < n implies (
                            #[trigger] self.nodes()[j]).same_but_subgraph(&old(self).nodes()[j]) by {
                                assert(self.nodes()[j].same_but_subgraph(&prev.nodes()[j]));
                                assert(prev.nodes()[j].same_but_subgraph(&old(self).nodes()[j]));
                            }
                            assert forall|c: int, i: int|
                                0 <= c < subs0.len() && 0 <= i < subs0[c].nodes().len() implies placed(
                                self,
                                subs@,
                                subs0[c].raw_of(i),
                                c,
                                i,
                            ) by {
                                assert(component_ok(&prev, subs0, c));
                                assert(placed(&prev, subs0, subs0[c].raw_of(i), c, i));
                                assert(subs0[c].raw_of(i) < n && marks0[subs0[c].raw_of(i)]);
                                assert(subs@[c] == subs0[c]);
                                let w = subs0[c].raw_of(i);
                                if sub.has_node(w) {
                                    let t = choose|t: int|
                                        0 <= t < sub.nodes().len() && #[trigger] crate::subgraph::at(
                                            sub.nodes(),
                                            t,
                                        ) == w;
                                    assert(!marks0[sub.raw_of(t)]);
                                }
                                assert(w < n);
                            }
                            assert forall|c: int| 0 <= c < subs@.len() implies #[trigger] component_ok(
                                self,
                                subs@,
                                c,
                            ) by {
                                if c < subs0.len() {
                                    assert(component_ok(&prev, subs0, c));
                                    assert(subs@[c] == subs0[c]);
                                    assert forall|i: int|
                                        0 <= i < subs@[c].nodes().len() implies #[trigger] placed(
                                        self,
                                        subs@,
                                        subs@[c].raw_of(i),
                                        c,
                                        i,
                                    ) by {
                                    }
                                    assert forall|a: int, b: int| #[trigger]
                                        self.has_edge(a, b) implies (subs@[c].has_node(a)
                                        <==> subs@[c].has_node(b)) by {
                                        assert(prev.has_edge(a, b));
                                    }
                                } else {
                                    assert forall|a: int, b: int| #[trigger]
                                        self.has_edge(a, b) implies (subs@[c].has_node(a)
                                        <==> subs@[c].has_node(b)) by {
                                        assert(prev.has_edge(a, b));
                                    }
                                    assert forall|i: int|
                                        0 <= i < subs@[c].nodes().len() implies #[trigger] placed(
                                        self,
                                        subs@,
                                        subs@[c].raw_of(i),
                                        c,
                                        i,
                                    ) by {
                                        assert(sub.raw_of(i) < n);
                                    }
                                }
                            }
                            assert forall|w: int|
                                0 <= w < n && #[trigger] marks@[w] implies placed_somewhere(
                                self,
                                subs@,
                                w,
                            ) by {
                                if marks0[w] {
                                    assert(placed_somewhere(&prev, subs0, w));
                                    let (c, i) = choose|c: int, i: int| #[trigger]
                                        placed(&prev, subs0, w, c, i);
                                    assert(placed(self, subs@, subs0[c].raw_of(i), c, i));
                                } else {
                                    assert(sub.has_node(w));
                                    let t = choose|t: int|
                                        0 <= t < sub.nodes().len() && #[trigger] crate::subgraph::at(
                                            sub.nodes(),
                                            t,
                                        ) == w;
                                    assert(sub.raw_of(t) == w);
                                    assert(placed(self, subs@, w, c_new, t));
                                }
                            }
                            assert forall|c: int, i: int|
                                0 <= c < subs@.len() && 0 <= i < subs@[c].nodes().len() implies #[trigger] subs@[c].raw_of(
                                i,
                            ) < n && marks@[subs@[c].raw_of(i)] by {
                                if c < subs0.len() {
                                    assert(subs@[c] == subs0[c]);
                                    assert(subs0[c].raw_of(i) < n && marks0[subs0[c].raw_of(i)]);
                                } else {
                                    assert(sub.raw_of(i) < n);
                                    assert(crate::subgraph::at(sub.nodes(), i) == sub.raw_of(i));
                                    assert(sub.has_node(sub.raw_of(i)));
                                }
                            }
                            assert(sub.has_node(v as int));
                            assert(spans(self.dag(), sub)) by {
                                assert(sub.has_node(v as int) && forall|w: int|
                                    0 <= w < self.dag().len() ==> (sub.has_node(w)
                                        <==> #[trigger] self.dag().joined(v as int, w)));
                            }
                        }
                    },
                    Err(e) => {
                        let mut w: usize = 0;
                        while w < n
                            invariant
                                0 <= w <= n,
                                n == self.nodes().len(),
                                self.wf(),
                                self.same_but_subgraphs(old(self)),
                                saved@.len() == n,
                                forall|i: int|
                                    0 <= i < n ==> #[trigger] saved@[i] == old(self).subgraph_at(i),
                                forall|i: int|
                                    0 <= i < w ==> (#[trigger] self.nodes()[i]).subgraph == old(
                                        self,
                                    ).subgraph_at(i),
                            decreases n - w,
                        {
                            let ghost before = *self;
                            self.put_subgraph(w, saved[w]);
                            proof {
                                assert forall|i: int| 0 <= i < n implies (
                                #[trigger] self.nodes()[i]).same_but_subgraph(
                                    &old(self).nodes()[i],
                                ) by {
                                    assert(before.nodes()[i].same_but_subgraph(&old(self).nodes()[i]));
                                }
                            }
                            w += 1;
                        }
                        assert(self.nodes() =~= old(self).nodes()) by {
                            assert forall|i: int| 0 <= i < n implies self.nodes()[i] == old(
                                self,
                            ).nodes()[i] by {
                                assert(self.nodes()[i].same_but_subgraph(&old(self).nodes()[i]));
                            }
                        }
                        return Err(e);
                    },
                }
            }
            v += 1;
        }
        proof {
            assert forall|w: int| 0 <= w < self.nodes().len() implies #[trigger] placed_somewhere(
                self,
                subs@,
                w,
            ) by {
                assert(marks@[w]);
            }
        }
        Ok(subs)
    }
}

} // verus!
