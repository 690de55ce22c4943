//! Filters: declarative changes of which nodes are visible.

use vstd::prelude::*;
use vstd::string::StringExecFns;
use petgraph::Direction;
use crate::bitmap::bitmap_contains;
use crate::dataflow::Slot;
use crate::idx::{InstIdx, QuantIdx, RawNodeIndex, TermIdx};
use crate::inst_graph::InstGraph;
use crate::ml_graph::enode_terms_upto;
use crate::model::{NodeKind, Z3Parser};
use crate::raw::RawGraph;
use crate::visible::VisibleGraph;

verus! {

/// A change of which instantiations are visible.
#[derive(Debug, Clone, PartialEq, Hash)]
pub enum Filter {
    MaxNodeIdx(usize),
    IgnoreTheorySolving,
    IgnoreQuantifier(Option<QuantIdx>),
    IgnoreAllButQuantifier(Option<QuantIdx>),
    MaxInsts(usize),
    MaxBranching(usize),
    ShowNeighbours(InstIdx, Direction),
    VisitSourceTree(InstIdx, bool),
    VisitSubTreeWithRoot(InstIdx, bool),
    MaxDepth(usize),
    ShowLongestPath(InstIdx),
    ShowNamedQuantifier(String),
    SelectNthMatchingLoop(usize),
    ShowMatchingLoopSubgraph,
}

/// What a filter hands back besides the change.
pub enum FilterOutput {
    /// The instantiations on the longest path through an instantiation.
    LongestPath(Vec<InstIdx>),
    /// The generalised terms of a matching loop.
    MatchingLoopGeneralizedTerms(Vec<TermIdx>),
    /// Nothing besides the change.
    NoOutput,
}

impl RawGraph {
    /// The node of an instantiation.
    pub open spec fn node_of_inst(&self, i: InstIdx) -> Option<int> {
        self.spec_index_of(NodeKind::Instantiation(i))
    }
}

impl Filter {
    /// Whether the filter decides of every node by itself. The two filters
    /// that keep the best of the visible instantiations do not.
    pub open spec fn per_node(&self) -> bool {
        !(*self is MaxInsts) && !(*self is MaxBranching)
    }

    /// Whether node `v` is visible after a filter that decides of every node
    /// by itself, given whether it was visible before.
    pub open spec fn visible_after(&self, g: &RawGraph, parser: &Z3Parser, was: bool, v: int) -> bool {
        match *self {
            Filter::MaxNodeIdx(k) => was && !(match g.inst_at(v) {
                Some(i) => i.0 > k,
                None => false,
            }),
            Filter::IgnoreTheorySolving => was && !(match g.inst_at(v) {
                Some(i) => parser.spec_is_theory(i),
                None => false,
            }),
            Filter::IgnoreQuantifier(q) => was && !(match g.inst_at(v) {
                Some(i) => parser.spec_quant_of(i) == q,
                None => false,
            }),
            Filter::IgnoreAllButQuantifier(q) => was && !(match g.inst_at(v) {
                Some(i) => parser.spec_quant_of(i) != q,
                None => false,
            }),
            Filter::MaxInsts(_) => was,
            Filter::MaxBranching(_) => was,
            Filter::ShowNeighbours(i, dir) => was || (match g.node_of_inst(i) {
                Some(c) => match dir {
                    Direction::Outgoing => g.slot_at(c, Slot::InstChildren).contains(v as u32),
                    Direction::Incoming => g.slot_at(c, Slot::InstParents).contains(v as u32),
                },
                None => false,
            }),
            Filter::VisitSourceTree(i, keep) => match g.node_of_inst(i) {
                Some(c) => was && (keep == g.dag().reaches(v, c)),
                None => was,
            },
            Filter::VisitSubTreeWithRoot(i, keep) => match g.node_of_inst(i) {
                Some(c) => was && (keep == g.dag().reaches(c, v)),
                None => was,
            },
            Filter::MaxDepth(d) => was && !(g.min_depth_at(v) > d),
            Filter::ShowLongestPath(_) => was,
            Filter::ShowNamedQuantifier(name) => was || (match g.inst_at(v) {
                Some(i) => match parser.spec_quant_of(i) {
                    Some(q) => q.0 < parser.quants@.len() && parser.quants@[q.0 as int].name@
                        == name@,
                    None => false,
                },
                None => false,
            }),
            Filter::SelectNthMatchingLoop(n) => was && g.in_loop(v, n),
            Filter::ShowMatchingLoopSubgraph => was && g.nodes()[v].part_of_ml@.len() > 0,
        }
    }
}

/// What a filter prepares before it decides of the nodes: the node that it
/// names, and the nodes that lead to that node or that it leads to.
struct Prepared {
    target: Option<usize>,
    marks: Vec<bool>,
}

fn same_quant(a: Option<QuantIdx>, b: Option<QuantIdx>) -> (r: bool)
    ensures
        r == (a == b),
{
    match (a, b) {
        (Some(x), Some(y)) => x == y,
        (None, None) => true,
        _ => false,
    }
}

impl Filter {
    spec fn prepared_for(&self, g: &RawGraph, p: &Prepared) -> bool {
        match *self {
            Filter::ShowNeighbours(i, _) => g.node_of_inst(i) == (match p.target {
                Some(c) => Some(c as int),
                None => None,
            }) && (p.target matches Some(c) ==> c < g.nodes().len()),
            Filter::VisitSourceTree(i, _) => g.node_of_inst(i) == (match p.target {
                Some(c) => Some(c as int),
                None => None,
            }) && (p.target matches Some(c) ==> c < g.nodes().len() && p.marks@.len()
                == g.nodes().len() && forall|v: int|
                0 <= v < g.nodes().len() ==> #[trigger] p.marks@[v] == g.dag().reaches(v, c as int)),
            Filter::VisitSubTreeWithRoot(i, _) => g.node_of_inst(i) == (match p.target {
                Some(c) => Some(c as int),
                None => None,
            }) && (p.target matches Some(c) ==> c < g.nodes().len() && p.marks@.len()
                == g.nodes().len() && forall|v: int|
                0 <= v < g.nodes().len() ==> #[trigger] p.marks@[v] == g.dag().reaches(c as int, v)),
            _ => true,
        }
    }

    fn prepare(&self, g: &RawGraph) -> (p: Prepared)
        requires
            g.wf(),
        ensures
            self.prepared_for(g, &p),
    {
        match self {
            Filter::ShowNeighbours(i, _) => Prepared {
                target: g.index_of(NodeKind::Instantiation(*i)),
                marks: Vec::new(),
            },
            Filter::VisitSourceTree(i, _) => {
                let target = g.index_of(NodeKind::Instantiation(*i));
                let marks = match target {
                    Some(c) => g.topology().reaching(c),
                    None => Vec::new(),
                };
                Prepared { target, marks }
            },
            Filter::VisitSubTreeWithRoot(i, _) => {
                let target = g.index_of(NodeKind::Instantiation(*i));
                let marks = match target {
                    Some(c) => g.topology().reachable_from(c),
                    None => Vec::new(),
                };
                Prepared { target, marks }
            },
            _ => Prepared { target: None, marks: Vec::new() },
        }
    }

    fn decide(&self, g: &RawGraph, parser: &Z3Parser, p: &Prepared, v: usize, was: bool) -> (r: bool)
        requires
            g.wf(),
            v < g.nodes().len(),
            self.prepared_for(g, p),
        ensures
            r == self.visible_after(g, parser, was, v as int),
    {
        let node = g.node(RawNodeIndex(v));
        let inst = node.kind.inst();
        match self {
            Filter::MaxNodeIdx(k) => was && !(match inst {
                Some(i) => i.0 > *k,
                None => false,
            }),
            Filter::IgnoreTheorySolving => was && !(match inst {
                Some(i) => parser.is_theory(i),
                None => false,
            }),
            Filter::IgnoreQuantifier(q) => was && !(match inst {
                Some(i) => same_quant(parser.quant_of(i), *q),
                None => false,
            }),
            Filter::IgnoreAllButQuantifier(q) => was && !(match inst {
                Some(i) => !same_quant(parser.quant_of(i), *q),
                None => false,
            }),
            Filter::MaxInsts(_) => was,
            Filter::MaxBranching(_) => was,
            Filter::ShowNeighbours(_, dir) => was || (match p.target {
                Some(c) => match dir {
                    Direction::Outgoing => bitmap_contains(
                        &g.node(RawNodeIndex(c)).inst_children.nodes,
                        v as u32,
                    ),
                    Direction::Incoming => bitmap_contains(
                        &g.node(RawNodeIndex(c)).inst_parents.nodes,
                        v as u32,
                    ),
                },
                None => false,
            }),
            Filter::VisitSourceTree(_, keep) => match p.target {
                Some(_) => was && (*keep == p.marks[v]),
                None => was,
            },
            Filter::VisitSubTreeWithRoot(_, keep) => match p.target {
                Some(_) => was && (*keep == p.marks[v]),
                None => was,
            },
            Filter::MaxDepth(d) => {
                let depth = match node.min_depth {
                    Some(m) => m as usize,
                    None => 0,
                };
                was && !(depth > *d)
            },
            Filter::ShowLongestPath(_) => was,
            Filter::ShowNamedQuantifier(name) => was || (match inst {
                Some(i) => match parser.quant_of(i) {
                    Some(q) => q.0 < parser.quants.len() && parser.quants[q.0].name == *name,
                    None => false,
                },
                None => false,
            }),
            Filter::SelectNthMatchingLoop(n) => was && g.node_in_loop(v, *n),
            Filter::ShowMatchingLoopSubgraph => was && node.part_of_ml.len() > 0,
        }
    }

    /// The visibility of every node after a filter that decides of every
    /// node by itself.
    pub fn visible_mask(&self, g: &RawGraph, parser: &Z3Parser) -> (mask: Vec<bool>)
        requires
            g.wf(),
        ensures
            mask@.len() == g.nodes().len(),
            forall|v: int|
                0 <= v < mask@.len() ==> #[trigger] mask@[v] == self.visible_after(
                    g,
                    parser,
                    g.visible_at(v),
                    v,
                ),
    {
        let prepared = self.prepare(g);
        let n = g.node_count();
        let mut mask: Vec<bool> = Vec::new();
        let mut v: usize = 0;
        while v < n
            invariant
                0 <= v <= n,
                n == g.nodes().len(),
                g.wf(),
                self.prepared_for(g, &prepared),
                mask@.len() == v,
                forall|c: int|
                    0 <= c < v ==> #[trigger] mask@[c] == self.visible_after(
                        g,
                        parser,
                        g.visible_at(c),
                        c,
                    ),
            decreases n - v,
        {
            let was = g.node(RawNodeIndex(v)).visible;
            let now = self.decide(g, parser, &prepared, v, was);
            mask.push(now);
            v += 1;
        }
        mask
    }
}

/// Node `a` is better than node `b`: it costs more, or as much and comes
/// earlier.
pub open spec fn better(costs: Seq<u64>, a: int, b: int) -> bool {
    costs[a] > costs[b] || (costs[a] == costs[b] && a < b)
}

/// `picks` lists the `n` best candidates, the best first; all of them where
/// there are fewer than `n`.
pub open spec fn is_n_best(costs: Seq<u64>, cand: Seq<bool>, n: int, picks: Seq<usize>) -> bool {
    &&& picks.len() <= n
    &&& forall|k: int| 0 <= k < picks.len() ==> #[trigger] picks[k] < cand.len() && cand[picks[k] as int]
    &&& forall|i: int, j: int|
        0 <= i < j < picks.len() ==> better(costs, #[trigger] picks[i] as int, #[trigger] picks[j] as int)
    &&& forall|v: int|
        0 <= v < cand.len() && #[trigger] cand[v] && !picks.contains(v as usize) ==> picks.len() == n
            && (n > 0 ==> better(costs, picks.last() as int, v))
}

/// The `n` best candidates, the best first.
pub fn n_best(costs: &Vec<u64>, cand: &Vec<bool>, n: usize) -> (picks: Vec<usize>)
    requires
        costs@.len() == cand@.len(),
    ensures
        is_n_best(costs@, cand@, n as int, picks@),
{
    let len = cand.len();
    let mut picks: Vec<usize> = Vec::new();
    let mut done = false;
    while picks.len() < n && !done
        invariant
            len == cand@.len(),
            costs@.len() == len,
            picks@.len() <= n,
            forall|k: int| 0 <= k < picks@.len() ==> #[trigger] picks@[k] < len && cand@[picks@[k] as int],
            forall|i: int, j: int|
                0 <= i < j < picks@.len() ==> better(
                    costs@,
                    #[trigger] picks@[i] as int,
                    #[trigger] picks@[j] as int,
                ),
            forall|v: int|
                0 <= v < len && #[trigger] cand@[v] && picks@.len() > 0 && (v == picks@.last()
                    || better(costs@, v, picks@.last() as int)) ==> picks@.contains(v as usize),
            done ==> forall|v: int| 0 <= v < len && #[trigger] cand@[v] ==> picks@.contains(v as usize),
        decreases n - picks@.len() + if done { 0int } else { 1int },
    {
        let mut best: Option<usize> = None;
        let mut v: usize = 0;
        while v < len
            invariant
                0 <= v <= len,
                len == cand@.len(),
                costs@.len() == len,
                forall|k: int| 0 <= k < picks@.len() ==> #[trigger] picks@[k] < len,
                match best {
                    Some(b) => b < v && cand@[b as int] && (picks@.len() > 0 ==> better(
                        costs@,
                        picks@.last() as int,
                        b as int,
                    )) && forall|c: int|
                        0 <= c < v && #[trigger] cand@[c] && (picks@.len() > 0 ==> better(
                            costs@,
                            picks@.last() as int,
                            c,
                        )) ==> c == b || better(costs@, b as int, c),
                    None => forall|c: int|
                        0 <= c < v && #[trigger] cand@[c] ==> picks@.len() > 0 && !better(
                            costs@,
                            picks@.last() as int,
                            c,
                        ),
                },
            decreases len - v,
        {
            let eligible = cand[v] && (picks.len() == 0 || {
                let last = picks[picks.len() - 1];
                costs[last] > costs[v] || (costs[last] == costs[v] && last < v)
            });
            if eligible {
                match best {
                    Some(b) => {
                        if costs[v] > costs[b] {
                            best = Some(v);
                        }
                    },
                    None => {
                        best = Some(v);
                    },
                }
            }
            v += 1;
        }
        match best {
            Some(b) => {
                let ghost before = picks@;
                picks.push(b);
                proof {
                    assert(picks@[picks@.len() - 1] == b);
                    assert forall|i: int, j: int| 0 <= i < j < picks@.len() implies better(
                        costs@,
                        #[trigger] picks@[i] as int,
                        #[trigger] picks@[j] as int,
                    ) by {
                        assert(picks@[i] == before[i]);
                        if j < before.len() {
                            assert(picks@[j] == before[j]);
                        } else {
                            if i < before.len() - 1 {
                                assert(better(costs@, before[i] as int, before.last() as int));
                            }
                        }
                    }
                    assert forall|c: int|
                        0 <= c < len && #[trigger] cand@[c] && picks@.len() > 0 && (c
                            == picks@.last() || better(
                            costs@,
                            c,
                            picks@.last() as int,
                        )) implies picks@.contains(c as usize) by {
                        if c != b {
                            if before.len() > 0 && !better(costs@, before.last() as int, c) {
                                assert(before.contains(c as usize));
                                let w = choose|w: int| 0 <= w < before.len() && before[w] == c as usize;
                                assert(picks@[w] == c as usize);
                            }
                        }
                    }
                    assert forall|k: int| 0 <= k < picks@.len() implies #[trigger] picks@[k] < len
                        && cand@[picks@[k] as int] by {
                        if k < before.len() {
                            assert(picks@[k] == before[k]);
                        }
                    }
                }
            },
            None => {
                done = true;
                proof {
                    assert forall|c: int| 0 <= c < len && #[trigger] cand@[c] implies picks@.contains(
                        c as usize,
                    ) by {
                        assert(picks@.len() > 0 && !better(costs@, picks@.last() as int, c));
                    }
                }
            },
        }
    }
    proof {
        assert forall|v: int|
            0 <= v < cand@.len() && #[trigger] cand@[v] && !picks@.contains(
                v as usize,
            ) implies picks@.len() == n && (n > 0 ==> better(costs@, picks@.last() as int, v)) by {
        }
    }
    picks
}

impl RawGraph {
    /// Whether node `v` is a visible instantiation.
    pub open spec fn visible_inst(&self, v: int) -> bool {
        self.visible_at(v) && self.inst_at(v) is Some
    }

    /// The visible instantiations, by node.
    pub open spec fn visible_insts(&self) -> Seq<bool> {
        Seq::new(self.nodes().len(), |v: int| self.visible_inst(v))
    }

    /// `after` shows what `before` shows, but of the instantiations only the
    /// `n` that cost most.
    pub open spec fn kept_best(before: &RawGraph, after: &RawGraph, costs: Seq<u64>, n: int) -> bool {
        exists|picks: Seq<usize>|
            #![auto]
            is_n_best(costs, before.visible_insts(), n, picks) && forall|v: int|
                0 <= v < after.nodes().len() ==> #[trigger] after.visible_at(v) == (
                before.visible_at(v) && (before.inst_at(v) is None || picks.contains(v as usize)))
    }

    /// Hides all visible instantiations but the `n` that cost most.
    pub fn keep_best(&mut self, costs: &Vec<u64>, n: usize)
        requires
            old(self).wf(),
            costs@.len() == old(self).nodes().len(),
        ensures
            final(self).wf(),
            final(self).same_but_masks(old(self)),
            forall|v: int|
                0 <= v < final(self).nodes().len() ==> #[trigger] final(self).disabled_at(v) == old(
                    self,
                ).disabled_at(v),
            RawGraph::kept_best(old(self), final(self), costs@, n as int),
    {
        let len = self.node_count();
        let mut cand: Vec<bool> = Vec::new();
        let mut v: usize = 0;
        while v < len
            invariant
                0 <= v <= len,
                len == self.nodes().len(),
                cand@.len() == v,
                forall|c: int| 0 <= c < v ==> #[trigger] cand@[c] == self.visible_inst(c),
            decreases len - v,
        {
            let node = self.node(RawNodeIndex(v));
            cand.push(node.visible && node.kind.inst().is_some());
            v += 1;
        }
        assert(cand@ =~= self.visible_insts());
        let picks = n_best(costs, &cand, n);
        let mut mask: Vec<bool> = Vec::new();
        let mut v: usize = 0;
        while v < len
            invariant
                0 <= v <= len,
                len == self.nodes().len(),
                mask@.len() == v,
                forall|c: int|
                    0 <= c < v ==> #[trigger] mask@[c] == (self.visible_at(c) && (self.inst_at(c)
                        is None || picks@.contains(c as usize))),
            decreases len - v,
        {
            let node = self.node(RawNodeIndex(v));
            let mut picked = false;
            let mut k: usize = 0;
            while k < picks.len()
                invariant
                    0 <= k <= picks@.len(),
                    picked <==> exists|j: int| 0 <= j < k && picks@[j] == v,
                decreases picks@.len() - k,
            {
                if picks[k] == v {
                    picked = true;
                }
                k += 1;
            }
            proof {
                if picks@.contains(v) {
                    let j = choose|j: int| 0 <= j < picks@.len() && picks@[j] == v;
                }
            }
            mask.push(node.visible && (node.kind.inst().is_none() || picked));
            v += 1;
        }
        self.set_visible_mask(&mask);
    }
}

impl RawGraph {
    /// What an instantiation costs: the number of e-nodes that it yielded.
    pub open spec fn yield_costs(&self, parser: &Z3Parser) -> Seq<u64> {
        Seq::new(
            self.nodes().len(),
            |v: int|
                match self.inst_at(v) {
                    Some(i) => if i.0 < parser.insts@.len() {
                        parser.insts@[i.0 as int].yields_terms@.len() as u64
                    } else {
                        0
                    },
                    None => 0,
                },
        )
    }
}

impl InstGraph {
    /// Hides all visible instantiations but the `n` that yielded most
    /// e-nodes; among those that yielded equally many the earlier ones stay.
    pub fn keep_n_most_costly(&mut self, parser: &Z3Parser, n: usize)
        requires
            old(self).raw.wf(),
        ensures
            final(self).raw.wf(),
            final(self).analysis == old(self).analysis,
            final(self).subgraphs == old(self).subgraphs,
            final(self).raw.same_but_masks(&old(self).raw),
            forall|v: int|
                0 <= v < final(self).raw.nodes().len() ==> #[trigger] final(self).raw.disabled_at(v)
                    == old(self).raw.disabled_at(v),
            RawGraph::kept_best(
                &old(self).raw,
                &final(self).raw,
                old(self).raw.yield_costs(parser),
                n as int,
            ),
    {
        let len = self.raw.node_count();
        let mut costs: Vec<u64> = Vec::new();
        let mut v: usize = 0;
        while v < len
            invariant
                0 <= v <= len,
                len == self.raw.nodes().len(),
                *self == *old(self),
                costs@.len() == v,
                forall|c: int| 0 <= c < v ==> #[trigger] costs@[c] == self.raw.yield_costs(parser)[c],
            decreases len - v,
        {
            let cost = match self.raw.node(RawNodeIndex(v)).kind.inst() {
                Some(i) => if i.0 < parser.insts.len() {
                    parser.insts[i.0].yields_terms.len() as u64
                } else {
                    0
                },
                None => 0,
            };
            costs.push(cost);
            v += 1;
        }
        assert(costs@ =~= self.raw.yield_costs(parser));
        self.raw.keep_best(&costs, n);
    }

    /// `costs` gives every shown node the number of edges that leave its
    /// node in `vg`, and every other node nothing.
    pub open spec fn branching_costs(raw: &RawGraph, vg: &VisibleGraph, costs: Seq<u64>) -> bool {
        &&& costs.len() == raw.nodes().len()
        &&& forall|a: int|
            0 <= a < vg.nodes().len() ==> #[trigger] costs[vg.raw_of(a)] == vg.child_count(a)
        &&& forall|v: int|
            0 <= v < raw.nodes().len() && !raw.shown_at(v) ==> #[trigger] costs[v] == 0
    }

    /// Hides all visible instantiations but the `n` with most children in
    /// the visible graph; among those with equally many the earlier ones
    /// stay.
    pub fn keep_n_most_branching(&mut self, n: usize)
        requires
            old(self).raw.wf(),
        ensures
            final(self).raw.wf(),
            final(self).analysis == old(self).analysis,
            final(self).subgraphs == old(self).subgraphs,
            final(self).raw.same_but_masks(&old(self).raw),
            forall|v: int|
                0 <= v < final(self).raw.nodes().len() ==> #[trigger] final(self).raw.disabled_at(v)
                    == old(self).raw.disabled_at(v),
            exists|vg: VisibleGraph, costs: Seq<u64>|
                #![auto]
                vg.is_visible_graph_of(&old(self).raw) && InstGraph::branching_costs(
                    &old(self).raw,
                    &vg,
                    costs,
                ) && RawGraph::kept_best(&old(self).raw, &final(self).raw, costs, n as int),
    {
        let len = self.raw.node_count();
        let vg = self.raw.to_visible();
        let mut costs: Vec<u64> = Vec::new();
        let mut v: usize = 0;
        while v < len
            invariant
                0 <= v <= len,
                costs@.len() == v,
                forall|c: int| 0 <= c < v ==> #[trigger] costs@[c] == 0,
            decreases len - v,
        {
            costs.push(0);
            v += 1;
        }
        let count = vg.node_count();
        let mut a: usize = 0;
        while a < count
            invariant
                0 <= a <= count,
                count == vg.nodes().len(),
                len == self.raw.nodes().len(),
                *self == *old(self),
                vg.is_visible_graph_of(&self.raw),
                costs@.len() == len,
                forall|c: int| 0 <= c < a ==> #[trigger] costs@[vg.raw_of(c)] == vg.child_count(c),
                forall|w: int|
                    0 <= w < len && (!self.raw.shown_at(w) || (a < count && w >= vg.raw_of(a as int)))
                        ==> #[trigger] costs@[w] == 0,
            decreases count - a,
        {
            let children = vg.count_children(a);
            let at = vg.node(a).idx.0;
            let ghost before = costs@;
            assert(vg.raw_of(a as int) == at);
            assert(vg.raw_of(a as int) < len && self.raw.shown_at(vg.raw_of(a as int)));
            costs.set(at, children);
            proof {
                assert forall|c: int| 0 <= c < a + 1 implies #[trigger] costs@[vg.raw_of(c)]
                    == vg.child_count(c) by {
                    if c < a {
                        assert(vg.raw_of(c) < vg.raw_of(a as int));
                        assert(before[vg.raw_of(c)] == vg.child_count(c));
                    }
                }
                assert forall|w: int|
                    0 <= w < len && (!self.raw.shown_at(w) || (a + 1 < count && w >= vg.raw_of(
                        a as int + 1,
                    ))) implies #[trigger] costs@[w] == 0 by {
                    if a + 1 < count {
                        assert(vg.raw_of(a as int) < vg.raw_of(a as int + 1));
                    }
                    assert(before[w] == 0);
                }
            }
            a += 1;
        }
        self.raw.keep_best(&costs, n);
        proof {
            assert(InstGraph::branching_costs(&old(self).raw, &vg, costs@));
        }
    }
}

impl VisibleGraph {
    /// The number of edges that leave node `a`.
    pub open spec fn child_count(&self, a: int) -> u64 {
        crate::digraph::neighbours_of(self.dag().edges(), a as usize, true).len() as u64
    }

    /// The number of edges that leave node `a`.
    pub fn count_children(&self, a: usize) -> (r: u64)
        requires
            self.wf(),
        ensures
            r == self.child_count(a as int),
    {
        self.topology().successors(a).len() as u64
    }
}

/// The instantiations among the first `upto` nodes of a path of the visible
/// graph.
pub open spec fn insts_along(raw: &RawGraph, vg: &VisibleGraph, path: Seq<usize>, upto: int) -> Seq<InstIdx>
    decreases upto,
{
    if upto <= 0 || upto > path.len() {
        Seq::empty()
    } else {
        let rest = insts_along(raw, vg, path, upto - 1);
        match raw.inst_at(vg.raw_of(path[upto - 1] as int)) {
            Some(i) => rest.push(i),
            None => rest,
        }
    }
}

impl InstGraph {
    /// `list` holds the instantiations on a longest path of the visible
    /// graph through the node of the instantiation `i`; nothing where `i`
    /// has no node or its node is not shown.
    pub open spec fn is_longest_path_of(&self, i: InstIdx, list: Seq<InstIdx>) -> bool {
        match self.raw.node_of_inst(i) {
            Some(c) => if self.raw.shown_at(c) {
                exists|vg: VisibleGraph, heights: Seq<u32>, a: int, path: Seq<usize>|
                    #![auto]
                    vg.is_visible_graph_of(&self.raw) && 0 <= a < vg.nodes().len() && vg.raw_of(a)
                        == c && heights.len() == vg.nodes().len() && (forall|b: int|
                        0 <= b < heights.len() ==> #[trigger] vg.height_ok(heights, b))
                        && vg.is_longest_through(heights, a, path) && list == insts_along(
                        &self.raw,
                        &vg,
                        path,
                        path.len() as int,
                    )
            } else {
                list.len() == 0
            },
            None => list.len() == 0,
        }
    }

    /// The instantiations on a longest path of the visible graph through
    /// the node of an instantiation.
    pub fn show_longest_path_through(&self, i: InstIdx) -> (list: Vec<InstIdx>)
        requires
            self.raw.wf(),
        ensures
            self.is_longest_path_of(i, list@),
    {
        let mut list: Vec<InstIdx> = Vec::new();
        let c = match self.raw.index_of(NodeKind::Instantiation(i)) {
            Some(c) => c,
            None => {
                return list;
            },
        };
        if !self.raw.node(RawNodeIndex(c)).is_shown() {
            return list;
        }
        let vg = self.raw.to_visible();
        let count = vg.node_count();
        let mut a: usize = 0;
        while a < count
            invariant
                0 <= a <= count,
                count == vg.nodes().len(),
                forall|b: int| 0 <= b < a ==> #[trigger] vg.raw_of(b) != c,
            ensures
                a <= count,
                a < count ==> vg.raw_of(a as int) == c,
                a >= count ==> forall|b: int| 0 <= b < count ==> #[trigger] vg.raw_of(b) != c,
            decreases count - a,
        {
            if vg.node(a).idx.0 == c {
                break ;
            }
            a += 1;
        }
        if a >= count {
            proof {
                assert(self.raw.shown_at(c as int));
                let w = choose|w: int| 0 <= w < vg.nodes().len() && #[trigger] vg.raw_of(w) == c;
                assert(vg.raw_of(w) != c);
                assert(false);
            }
            return list;
        }
        let path = vg.longest_path_through(a);
        let ghost heights = choose|heights: Seq<u32>|
            #![auto]
            heights.len() == vg.nodes().len() && (forall|b: int|
                0 <= b < heights.len() ==> #[trigger] vg.height_ok(heights, b))
                && vg.is_longest_through(heights, a as int, path@);
        let mut k: usize = 0;
        while k < path.len()
            invariant
                0 <= k <= path@.len(),
                vg.is_visible_graph_of(&self.raw),
                forall|j: int| 0 <= j < path@.len() ==> #[trigger] path@[j] < vg.nodes().len(),
                list@ == insts_along(&self.raw, &vg, path@, k as int),
            decreases path@.len() - k,
        {
            let node = vg.node(path[k]).idx;
            assert(vg.raw_of(path@[k as int] as int) < self.raw.nodes().len());
            match self.raw.node(node).kind.inst() {
                Some(inst) => {
                    list.push(inst);
                },
                None => {},
            }
            k += 1;
        }
        list
    }

    /// The generalised terms of the matching loop of rank `n`; nothing
    /// where the last search found no such loop.
    pub open spec fn loop_terms(&self, n: usize) -> Seq<TermIdx> {
        if n < self.analysis.matching_loop_graphs@.len() {
            enode_terms_upto(
                self.analysis.matching_loop_graphs@[n as int].labels(),
                self.analysis.matching_loop_graphs@[n as int].labels().len() as int,
            )
        } else {
            Seq::empty()
        }
    }
}

/// One filter takes the graph from `before` to `after`: a filter that
/// decides of every node by itself shows what it decides; a filter that
/// keeps the best of the visible instantiations shows the best.
pub open spec fn filter_step(f: &Filter, before: &RawGraph, after: &RawGraph, parser: &Z3Parser) -> bool {
    &&& after.same_but_masks(before)
    &&& forall|v: int|
        0 <= v < after.nodes().len() ==> #[trigger] after.disabled_at(v) == before.disabled_at(v)
    &&& match *f {
        Filter::MaxInsts(n) => RawGraph::kept_best(
            before,
            after,
            before.yield_costs(parser),
            n as int,
        ),
        Filter::MaxBranching(n) => exists|vg: VisibleGraph, costs: Seq<u64>|
            #![auto]
            vg.is_visible_graph_of(before) && InstGraph::branching_costs(before, &vg, costs)
                && RawGraph::kept_best(before, after, costs, n as int),
        _ => forall|v: int|
            0 <= v < after.nodes().len() ==> #[trigger] after.visible_at(v) == f.visible_after(
                before,
                parser,
                before.visible_at(v),
                v,
            ),
    }
}

/// The first `upto` filters of a list take the graph from `reset` to `end`,
/// one after the other.
pub open spec fn filters_lead(filters: Seq<Filter>, upto: int, reset: &RawGraph, end: &RawGraph, parser: &Z3Parser) -> bool
    decreases upto,
{
    if upto <= 0 || upto > filters.len() {
        *end == *reset
    } else {
        exists|mid: RawGraph|
            filters_lead(filters, upto - 1, reset, &mid, parser) && #[trigger] filter_step(
                &filters[upto - 1],
                &mid,
                end,
                parser,
            )
    }
}

/// `reset` is `raw` with every node enabled and visible.
pub open spec fn is_reset_of(reset: &RawGraph, raw: &RawGraph) -> bool {
    &&& reset.same_but_masks(raw)
    &&& forall|v: int|
        0 <= v < reset.nodes().len() ==> !#[trigger] reset.disabled_at(v) && reset.visible_at(v)
}

/// The list of filters was applied to `before` and left `after`: the graph
/// is the same but for the masks, and the filters led there, one after the
/// other, from `before` with every node enabled and visible.
pub open spec fn filters_applied(filters: Seq<Filter>, before: &RawGraph, after: &RawGraph, parser: &Z3Parser) -> bool {
    &&& after.same_but_masks(before)
    &&& exists|reset: RawGraph|
        #![auto]
        is_reset_of(&reset, before) && filters_lead(
            filters,
            filters.len() as int,
            &reset,
            after,
            parser,
        )
}

/// Whether node `v` is visible after the first `upto` filters of a list of
/// filters that decide of every node by itself, applied to a graph with all
/// nodes visible.
pub open spec fn filtered_visible(g: &RawGraph, parser: &Z3Parser, filters: Seq<Filter>, upto: int, v: int) -> bool
    decreases upto,
{
    if upto <= 0 || upto > filters.len() {
        true
    } else {
        filters[upto - 1].visible_after(
            g,
            parser,
            filtered_visible(g, parser, filters, upto - 1, v),
            v,
        )
    }
}

/// Every filter of the list decides of every node by itself.
pub open spec fn all_per_node(filters: Seq<Filter>) -> bool {
    forall|k: int| 0 <= k < filters.len() ==> (#[trigger] filters[k]).per_node()
}

/// What a filter decides of a node does not depend on which nodes are
/// visible or disabled.
pub proof fn lemma_visible_after_same(f: &Filter, a: &RawGraph, b: &RawGraph, parser: &Z3Parser, was: bool, v: int)
    requires
        b.same_but_masks(a),
        0 <= v < a.nodes().len(),
    ensures
        f.visible_after(b, parser, was, v) == f.visible_after(a, parser, was, v),
{
    let ka = Seq::new(a.nodes().len(), |i: int| a.nodes()[i].kind);
    let kb = Seq::new(b.nodes().len(), |i: int| b.nodes()[i].kind);
    assert forall|i: int| 0 <= i < a.nodes().len() implies ka[i] == kb[i] by {
        assert(b.nodes()[i].same_but_masks(&a.nodes()[i]));
    }
    assert(ka =~= kb);
    assert(b.nodes()[v].same_but_masks(&a.nodes()[v]));
    match *f {
        Filter::ShowNeighbours(i, _) => {
            match a.node_of_inst(i) {
                Some(c) => {
                    crate::raw::lemma_first_pos(ka, NodeKind::Instantiation(i), ka.len() as int);
                    assert(b.nodes()[c].same_but_masks(&a.nodes()[c]));
                },
                None => {},
            }
        },
        _ => {},
    }
}

/// What a list of filters that decide of every node by itself shows does
/// not depend on what was visible or disabled before.
pub proof fn lemma_filtered_visible_alike(
    before: &RawGraph,
    after: &RawGraph,
    parser: &Z3Parser,
    filters: Seq<Filter>,
    upto: int,
    v: int,
)
    requires
        after.same_but_masks(before),
        0 <= v < before.nodes().len(),
    ensures
        filtered_visible(after, parser, filters, upto, v) == filtered_visible(
            before,
            parser,
            filters,
            upto,
            v,
        ),
    decreases upto,
{
    if 0 < upto <= filters.len() {
        lemma_filtered_visible_alike(before, after, parser, filters, upto - 1, v);
        lemma_visible_after_same(
            &filters[upto - 1],
            before,
            after,
            parser,
            filtered_visible(before, parser, filters, upto - 1, v),
            v,
        );
    }
}

impl Filter {
    /// Applies the filter to the graph, and hands back what it found. A
    /// filter by depth is for a graph whose depths were computed.
    pub fn apply(&self, graph: &mut InstGraph, parser: &mut Z3Parser) -> (out: FilterOutput)
        requires
            old(graph).raw.wf(),
            *self is MaxDepth ==> old(graph).raw.has_depths(),
        ensures
            final(graph).raw.wf(),
            final(graph).analysis == old(graph).analysis,
            final(graph).subgraphs == old(graph).subgraphs,
            final(graph).raw.same_but_masks(&old(graph).raw),
            *final(parser) == *old(parser),
            forall|v: int|
                0 <= v < final(graph).raw.nodes().len() ==> #[trigger] final(graph).raw.disabled_at(
                    v,
                ) == old(graph).raw.disabled_at(v),
            filter_step(self, &old(graph).raw, &final(graph).raw, old(parser)),
            match *self {
                Filter::ShowLongestPath(i) => out matches FilterOutput::LongestPath(list)
                    && old(graph).is_longest_path_of(i, list@),
                Filter::SelectNthMatchingLoop(n) => out matches FilterOutput::MatchingLoopGeneralizedTerms(
                    terms,
                ) && terms@ == old(graph).loop_terms(n),
                _ => out is NoOutput,
            },
    {
        match self {
            Filter::MaxInsts(n) => {
                graph.keep_n_most_costly(parser, *n);
                FilterOutput::NoOutput
            },
            Filter::MaxBranching(n) => {
                graph.keep_n_most_branching(*n);
                FilterOutput::NoOutput
            },
            Filter::ShowLongestPath(i) => {
                let list = graph.show_longest_path_through(*i);
                proof {
                    assert forall|v: int| 0 <= v < graph.raw.nodes().len() implies (
                    #[trigger] graph.raw.nodes()[v]).same_but_masks(&graph.raw.nodes()[v]) by {
                    }
                }
                FilterOutput::LongestPath(list)
            },
            Filter::SelectNthMatchingLoop(n) => {
                let terms = if *n < graph.analysis.matching_loop_graphs.len() {
                    graph.analysis.matching_loop_graphs[*n].enode_terms()
                } else {
                    Vec::new()
                };
                let mask = self.visible_mask(&graph.raw, parser);
                graph.raw.set_visible_mask(&mask);
                FilterOutput::MatchingLoopGeneralizedTerms(terms)
            },
            _ => {
                let mask = self.visible_mask(&graph.raw, parser);
                graph.raw.set_visible_mask(&mask);
                FilterOutput::NoOutput
            },
        }
    }
}

impl InstGraph {
    /// Makes every node enabled and visible, and applies the filters in
    /// their order. The result holds what each filter handed back. A list
    /// with a filter by depth is for a graph whose depths were computed.
    pub fn apply_filters(&mut self, parser: &mut Z3Parser, filters: &Vec<Filter>) -> (out: Vec<
        FilterOutput,
    >)
        requires
            old(self).raw.wf(),
            forall|k: int|
                0 <= k < filters@.len() && #[trigger] filters@[k] is MaxDepth ==> old(
                    self,
                ).raw.has_depths(),
        ensures
            final(self).raw.wf(),
            final(self).analysis == old(self).analysis,
            final(self).subgraphs == old(self).subgraphs,
            final(self).raw.same_but_masks(&old(self).raw),
            *final(parser) == *old(parser),
            out@.len() == filters@.len(),
            forall|v: int|
                0 <= v < final(self).raw.nodes().len() ==> !#[trigger] final(self).raw.disabled_at(v),
            all_per_node(filters@) ==> forall|v: int|
                0 <= v < final(self).raw.nodes().len() ==> #[trigger] final(self).raw.visible_at(v)
                    == filtered_visible(
                    &old(self).raw,
                    old(parser),
                    filters@,
                    filters@.len() as int,
                    v,
                ),
            filters_applied(filters@, &old(self).raw, &final(self).raw, old(parser)),
    {
        let n = self.raw.node_count();
        let enabled = crate::dag::false_vec(n);
        self.raw.set_disabled_mask(&enabled);
        let ghost enabled_graph = self.raw;
        self.raw.reset_visibility_to(true);
        proof {
            assert forall|v: int| 0 <= v < n implies (#[trigger] self.raw.nodes()[v]).same_but_masks(
                &old(self).raw.nodes()[v],
            ) by {
                assert(self.raw.nodes()[v].same_but_masks(&enabled_graph.nodes()[v]));
                assert(enabled_graph.nodes()[v].same_but_masks(&old(self).raw.nodes()[v]));
            }
            assert forall|v: int| 0 <= v < n implies !#[trigger] self.raw.disabled_at(v) by {
                assert(!enabled_graph.disabled_at(v));
            }
        }
        let ghost reset = self.raw;
        let mut out: Vec<FilterOutput> = Vec::new();
        let mut k: usize = 0;
        while k < filters.len()
            invariant
                0 <= k <= filters@.len(),
                is_reset_of(&reset, &old(self).raw),
                forall|j: int|
                    0 <= j < filters@.len() && #[trigger] filters@[j] is MaxDepth ==> old(
                        self,
                    ).raw.has_depths(),
                filters_lead(filters@, k as int, &reset, &self.raw, parser),
                n == self.raw.nodes().len(),
                self.raw.wf(),
                self.analysis == old(self).analysis,
                self.subgraphs == old(self).subgraphs,
                self.raw.same_but_masks(&old(self).raw),
                *parser == *old(parser),
                out@.len() == k,
                forall|v: int| 0 <= v < n ==> !#[trigger] self.raw.disabled_at(v),
                all_per_node(filters@) ==> forall|v: int|
                    0 <= v < n ==> #[trigger] self.raw.visible_at(v) == filtered_visible(
                        &old(self).raw,
                        parser,
                        filters@,
                        k as int,
                        v,
                    ),
            decreases filters@.len() - k,
        {
            let ghost prev = self.raw;
            proof {
                if filters@[k as int] is MaxDepth {
                    assert forall|v: int| 0 <= v < n implies (
                    #[trigger] self.raw.nodes()[v]).min_depth is Some by {
                        assert(self.raw.nodes()[v].same_but_masks(&old(self).raw.nodes()[v]));
                    }
                }
            }
            let o = filters[k].apply(self, parser);
            out.push(o);
            proof {
                assert(filters_lead(filters@, k as int + 1 - 1, &reset, &prev, parser) && filter_step(
                    &filters@[k as int + 1 - 1],
                    &prev,
                    &self.raw,
                    parser,
                ));
                assert(filters_lead(filters@, k as int + 1, &reset, &self.raw, parser));
                assert forall|v: int| 0 <= v < n implies (
                #[trigger] self.raw.nodes()[v]).same_but_masks(&old(self).raw.nodes()[v]) by {
                    assert(self.raw.nodes()[v].same_but_masks(&prev.nodes()[v]));
                    assert(prev.nodes()[v].same_but_masks(&old(self).raw.nodes()[v]));
                }
                assert forall|v: int| 0 <= v < n implies !#[trigger] self.raw.disabled_at(v) by {
                    assert(!prev.disabled_at(v));
                }
                if all_per_node(filters@) {
                    assert(filters@[k as int].per_node());
                    assert forall|v: int| 0 <= v < n implies #[trigger] self.raw.visible_at(v)
                        == filtered_visible(&old(self).raw, parser, filters@, k as int + 1, v) by {
                        assert(prev.visible_at(v) == filtered_visible(
                            &old(self).raw,
                            parser,
                            filters@,
                            k as int,
                            v,
                        ));
                        lemma_visible_after_same(
                            &filters@[k as int],
                            &old(self).raw,
                            &prev,
                            parser,
                            prev.visible_at(v),
                            v,
                        );
                    }
                }
            }
            k += 1;
        }
        out
    }
}

/// The number of instantiations that are shown of a model that was just
/// loaded.
pub const DEFAULT_NODE_COUNT: usize = 125;

/// An instantiation that the user selected.
#[derive(Debug, Clone, Copy, PartialEq, Eq, Structural)]
pub struct InstInfo {
    pub inst_idx: InstIdx,
    pub node_index: RawNodeIndex,
}

/// What the user entered for the filters that take a number, and the
/// instantiations that are selected.
pub struct GraphFilters {
    pub max_node_idx: usize,
    pub max_instantiations: usize,
    pub max_branching: usize,
    pub max_depth: usize,
    pub selected_insts: Vec<InstInfo>,
}

/// A change of what the user entered.
pub enum Msg {
    SetMaxNodeIdx(usize),
    SetMaxInsts(usize),
    SetMaxBranching(usize),
    SetMaxDepth(usize),
    SelectedInstsUpdated(Vec<InstInfo>),
}

impl GraphFilters {
    /// The state before the user entered anything: no bound but that on the
    /// number of instantiations.
    pub fn create(selected_insts: Vec<InstInfo>) -> (r: GraphFilters)
        ensures
            r.max_node_idx == usize::MAX,
            r.max_instantiations == DEFAULT_NODE_COUNT,
            r.max_branching == usize::MAX,
            r.max_depth == usize::MAX,
            r.selected_insts == selected_insts,
    {
        GraphFilters {
            max_node_idx: usize::MAX,
            max_instantiations: DEFAULT_NODE_COUNT,
            max_branching: usize::MAX,
            max_depth: usize::MAX,
            selected_insts,
        }
    }

    /// Takes a change in. The result tells that the view has to be drawn
    /// again, which it always has.
    pub fn update(&mut self, msg: Msg) -> (redraw: bool)
        ensures
            redraw,
            match msg {
                Msg::SetMaxNodeIdx(to) => *final(self) == (GraphFilters {
                    max_node_idx: to,
                    ..*old(self)
                }),
                Msg::SetMaxInsts(to) => *final(self) == (GraphFilters {
                    max_instantiations: to,
                    ..*old(self)
                }),
                Msg::SetMaxBranching(to) => *final(self) == (GraphFilters {
                    max_branching: to,
                    ..*old(self)
                }),
                Msg::SetMaxDepth(to) => *final(self) == (GraphFilters { max_depth: to, ..*old(self) }),
                Msg::SelectedInstsUpdated(list) => *final(self) == (GraphFilters {
                    selected_insts: list,
                    ..*old(self)
                }),
            },
    {
        match msg {
            Msg::SetMaxNodeIdx(to) => {
                self.max_node_idx = to;
                true
            },
            Msg::SetMaxInsts(to) => {
                self.max_instantiations = to;
                true
            },
            Msg::SetMaxBranching(to) => {
                self.max_branching = to;
                true
            },
            Msg::SetMaxDepth(to) => {
                self.max_depth = to;
                true
            },
            Msg::SelectedInstsUpdated(selected_insts) => {
                self.selected_insts = selected_insts;
                true
            },
        }
    }

    /// The filter that the button for the greatest node index adds.
    pub fn max_node_idx_filter(&self) -> (f: Filter)
        ensures
            f == Filter::MaxNodeIdx(self.max_node_idx),
    {
        Filter::MaxNodeIdx(self.max_node_idx)
    }

    /// The filter that the button for the most expensive instantiations
    /// adds.
    pub fn max_insts_filter(&self) -> (f: Filter)
        ensures
            f == Filter::MaxInsts(self.max_instantiations),
    {
        Filter::MaxInsts(self.max_instantiations)
    }

    /// The filter that the button for the instantiations with most children
    /// adds.
    pub fn max_branching_filter(&self) -> (f: Filter)
        ensures
            f == Filter::MaxBranching(self.max_branching),
    {
        Filter::MaxBranching(self.max_branching)
    }

    /// The filter that the button for the greatest depth adds.
    pub fn max_depth_filter(&self) -> (f: Filter)
        ensures
            f == Filter::MaxDepth(self.max_depth),
    {
        Filter::MaxDepth(self.max_depth)
    }
}

/// The character of a decimal digit.
pub open spec fn digit_char(d: int) -> char {
    if d == 0 {
        '0'
    } else if d == 1 {
        '1'
    } else if d == 2 {
        '2'
    } else if d == 3 {
        '3'
    } else if d == 4 {
        '4'
    } else if d == 5 {
        '5'
    } else if d == 6 {
        '6'
    } else if d == 7 {
        '7'
    } else if d == 8 {
        '8'
    } else {
        '9'
    }
}

/// A number in decimal digits.
pub open spec fn decimal(n: nat) -> Seq<char>
    decreases n,
{
    if n < 10 {
        seq![digit_char(n as int)]
    } else {
        decimal(n / 10).push(digit_char((n % 10) as int))
    }
}

fn digit_text(d: u8) -> (r: &'static str)
    requires
        d < 10,
    ensures
        r@ == seq![digit_char(d as int)],
{
    proof {
        reveal_strlit("0");
        reveal_strlit("1");
        reveal_strlit("2");
        reveal_strlit("3");
        reveal_strlit("4");
        reveal_strlit("5");
        reveal_strlit("6");
        reveal_strlit("7");
        reveal_strlit("8");
        reveal_strlit("9");
    }
    let r = if d == 0 {
        "0"
    } else if d == 1 {
        "1"
    } else if d == 2 {
        "2"
    } else if d == 3 {
        "3"
    } else if d == 4 {
        "4"
    } else if d == 5 {
        "5"
    } else if d == 6 {
        "6"
    } else if d == 7 {
        "7"
    } else if d == 8 {
        "8"
    } else {
        "9"
    };
    assert(r@ =~= seq![digit_char(d as int)]);
    r
}

/// Appends a number in decimal digits.
pub fn push_decimal(out: &mut String, n: u128)
    ensures
        final(out)@ == old(out)@ + decimal(n as nat),
    decreases n,
{
    if n >= 10 {
        push_decimal(out, n / 10);
    }
    let ghost before = out@;
    out.append(digit_text((n % 10) as u8));
    proof {
        if n >= 10 {
            assert(out@ =~= old(out)@ + decimal((n / 10) as nat).push(digit_char((n % 10) as int)));
        } else {
            assert(out@ =~= old(out)@ + seq![digit_char(n as int)]);
        }
    }
}

impl Filter {
    /// The text of the filter for the user.
    pub open spec fn text(&self) -> Seq<char> {
        match *self {
            Filter::MaxNodeIdx(k) => "Only show nodes up to index "@ + decimal(k as nat),
            Filter::IgnoreTheorySolving => "Hide theory solving"@,
            Filter::IgnoreQuantifier(None) => "Ignore instantiations without quantifier"@,
            Filter::IgnoreQuantifier(Some(q)) => "Ignore instantiations of quantifier "@ + decimal(
                q.0 as nat,
            ),
            Filter::IgnoreAllButQuantifier(None) => "Ignore all instantiations without quantifier"@,
            Filter::IgnoreAllButQuantifier(Some(q)) => "Only show instantiations of quantifier "@
                + decimal(q.0 as nat),
            Filter::MaxInsts(n) => "Show the "@ + decimal(n as nat)
                + " most expensive instantiations"@,
            Filter::MaxBranching(n) => "Show the "@ + decimal(n as nat)
                + " instantiations with the most children"@,
            Filter::VisitSubTreeWithRoot(i, retain) => (if retain {
                "Show node "@
            } else {
                "Hide node "@
            }) + decimal(i.0 as nat) + " and its descendants"@,
            Filter::VisitSourceTree(i, retain) => (if retain {
                "Show node "@
            } else {
                "Hide node "@
            }) + decimal(i.0 as nat) + " and its ancestors"@,
            Filter::ShowNeighbours(i, dir) => (match dir {
                Direction::Incoming => "Show the parents of node "@,
                Direction::Outgoing => "Show the children of node "@,
            }) + decimal(i.0 as nat),
            Filter::MaxDepth(d) => "Show nodes up to depth "@ + decimal(d as nat),
            Filter::ShowLongestPath(i) => "Showing longest path through node "@ + decimal(
                i.0 as nat,
            ),
            Filter::ShowNamedQuantifier(name) => "Show instantiations of quantifier \""@ + name@
                + "\""@,
            Filter::SelectNthMatchingLoop(n) => "Showing "@ + (if n == 0 {
                Seq::<char>::empty()
            } else if n == 1 {
                "2nd"@
            } else if n == 2 {
                "3rd"@
            } else {
                decimal((n + 1) as nat) + "th"@
            }) + " longest matching loop"@,
            Filter::ShowMatchingLoopSubgraph => "Showing all potential matching loops"@,
        }
    }

    /// The text of the filter for the user.
    pub fn description(&self) -> (r: String)
        ensures
            r@ == self.text(),
    {
        match self {
            Filter::MaxNodeIdx(k) => {
                let mut r = String::from_str("Only show nodes up to index ");
                push_decimal(&mut r, *k as u128);
                r
            },
            Filter::IgnoreTheorySolving => String::from_str("Hide theory solving"),
            Filter::IgnoreQuantifier(None) => String::from_str(
                "Ignore instantiations without quantifier",
            ),
            Filter::IgnoreQuantifier(Some(q)) => {
                let mut r = String::from_str("Ignore instantiations of quantifier ");
                push_decimal(&mut r, q.0 as u128);
                r
            },
            Filter::IgnoreAllButQuantifier(None) => String::from_str(
                "Ignore all instantiations without quantifier",
            ),
            Filter::IgnoreAllButQuantifier(Some(q)) => {
                let mut r = String::from_str("Only show instantiations of quantifier ");
                push_decimal(&mut r, q.0 as u128);
                r
            },
            Filter::MaxInsts(n) => {
                let mut r = String::from_str("Show the ");
                push_decimal(&mut r, *n as u128);
                r.append(" most expensive instantiations");
                r
            },
            Filter::MaxBranching(n) => {
                let mut r = String::from_str("Show the ");
                push_decimal(&mut r, *n as u128);
                r.append(" instantiations with the most children");
                r
            },
            Filter::VisitSubTreeWithRoot(i, retain) => {
                let mut r = if *retain {
                    String::from_str("Show node ")
                } else {
                    String::from_str("Hide node ")
                };
                push_decimal(&mut r, i.0 as u128);
                r.append(" and its descendants");
                r
            },
            Filter::VisitSourceTree(i, retain) => {
                let mut r = if *retain {
                    String::from_str("Show node ")
                } else {
                    String::from_str("Hide node ")
                };
                push_decimal(&mut r, i.0 as u128);
                r.append(" and its ancestors");
                r
            },
            Filter::ShowNeighbours(i, dir) => {
                let mut r = match dir {
                    Direction::Incoming => String::from_str("Show the parents of node "),
                    Direction::Outgoing => String::from_str("Show the children of node "),
                };
                push_decimal(&mut r, i.0 as u128);
                r
            },
            Filter::MaxDepth(d) => {
                let mut r = String::from_str("Show nodes up to depth ");
                push_decimal(&mut r, *d as u128);
                r
            },
            Filter::ShowLongestPath(i) => {
                let mut r = String::from_str("Showing longest path through node ");
                push_decimal(&mut r, i.0 as u128);
                r
            },
            Filter::ShowNamedQuantifier(name) => {
                let mut r = String::from_str("Show instantiations of quantifier \"");
                r.append(name.as_str());
                r.append("\"");
                r
            },
            Filter::SelectNthMatchingLoop(n) => {
                let mut r = String::from_str("Showing ");
                if *n == 0 {
                    assert(r@ + Seq::<char>::empty() =~= r@);
                } else if *n == 1 {
                    r.append("2nd");
                } else if *n == 2 {
                    r.append("3rd");
                } else {
                    let ghost before = r@;
                    push_decimal(&mut r, *n as u128 + 1);
                    r.append("th");
                    assert(r@ =~= before + (decimal((*n + 1) as nat) + "th"@));
                }
                r.append(" longest matching loop");
                r
            },
            Filter::ShowMatchingLoopSubgraph => String::from_str(
                "Showing all potential matching loops",
            ),
        }
    }

}

/// Two lists of the `n` best candidates are the same list up to any
/// position.
pub proof fn lemma_n_best_prefix(costs: Seq<u64>, cand: Seq<bool>, n: int, one: Seq<usize>, other: Seq<usize>, k: int)
    requires
        costs.len() == cand.len(),
        is_n_best(costs, cand, n, one),
        is_n_best(costs, cand, n, other),
        0 <= k < one.len(),
        k < other.len(),
    ensures
        one[k] == other[k],
    decreases k,
{
    assert forall|j: int| 0 <= j < k implies #[trigger] one[j] == other[j] by {
        lemma_n_best_prefix(costs, cand, n, one, other, j);
    }
    if one[k] != other[k] {
        let (p, q) = if better(costs, one[k] as int, other[k] as int) {
            (one, other)
        } else {
            (other, one)
        };
        // `p[k]` is better than `q[k]`, so `q` cannot hold it, and cannot
        // lack it.
        assert(better(costs, p[k] as int, q[k] as int));
        assert(cand[p[k] as int]);
        if q.contains(p[k]) {
            let j = choose|j: int| 0 <= j < q.len() && q[j] == p[k];
            if j < k {
                assert(p[j] == q[j]);
                assert(better(costs, p[j] as int, p[k] as int));
            } else {
                assert(better(costs, q[k] as int, q[j] as int));
            }
        } else {
            assert(better(costs, q.last() as int, p[k] as int));
            if k < q.len() - 1 {
                assert(better(costs, q[k] as int, q[q.len() - 1] as int));
            }
        }
    }
}

/// The list of the `n` best candidates is one list only.
pub proof fn lemma_n_best_unique(costs: Seq<u64>, cand: Seq<bool>, n: int, one: Seq<usize>, other: Seq<usize>)
    requires
        costs.len() == cand.len(),
        is_n_best(costs, cand, n, one),
        is_n_best(costs, cand, n, other),
    ensures
        one == other,
{
    if one.len() != other.len() {
        let (p, q) = if one.len() < other.len() {
            (one, other)
        } else {
            (other, one)
        };
        let x = q[p.len() as int];
        assert(cand[x as int]);
        if p.contains(x) {
            let j = choose|j: int| 0 <= j < p.len() && p[j] == x;
            lemma_n_best_prefix(costs, cand, n, one, other, j);
            assert(better(costs, q[j] as int, q[p.len() as int] as int));
        }
        assert(false);
    }
    assert forall|k: int| 0 <= k < one.len() implies one[k] == other[k] by {
        lemma_n_best_prefix(costs, cand, n, one, other, k);
    }
    assert(one =~= other);
}

/// Two graphs have the same nodes and edges, and show and disable the same
/// nodes.
pub open spec fn same_masks(a: &RawGraph, b: &RawGraph) -> bool {
    &&& a.same_but_masks(b)
    &&& forall|v: int|
        0 <= v < a.nodes().len() ==> #[trigger] a.visible_at(v) == b.visible_at(v) && a.disabled_at(
            v,
        ) == b.disabled_at(v)
}

/// Two graphs that show and disable the same nodes, each with a graph that
/// shows and disables what it does but for the visible nodes.
pub open spec fn frames(before: &RawGraph, after: &RawGraph, other_before: &RawGraph, other_after: &RawGraph) -> bool {
    &&& same_masks(before, other_before)
    &&& after.same_but_masks(before)
    &&& other_after.same_but_masks(other_before)
    &&& forall|v: int|
        0 <= v < after.nodes().len() ==> #[trigger] after.disabled_at(v) == before.disabled_at(v)
    &&& forall|v: int|
        0 <= v < other_after.nodes().len() ==> #[trigger] other_after.disabled_at(v)
            == other_before.disabled_at(v)
}

/// Graphs that come from graphs with the same masks, and that show the same
/// nodes, have the same masks.
pub proof fn lemma_same_masks_after(before: &RawGraph, after: &RawGraph, other_before: &RawGraph, other_after: &RawGraph)
    requires
        frames(before, after, other_before, other_after),
        forall|v: int|
            0 <= v < after.nodes().len() ==> #[trigger] after.visible_at(v)
                == other_after.visible_at(v),
    ensures
        same_masks(after, other_after),
{
    let n = before.nodes().len() as int;
    assert forall|v: int| 0 <= v < n implies (#[trigger] after.nodes()[v]).same_but_masks(
        &other_after.nodes()[v],
    ) by {
        assert(after.nodes()[v].same_but_masks(&before.nodes()[v]));
        assert(before.nodes()[v].same_but_masks(&other_before.nodes()[v]));
        assert(other_after.nodes()[v].same_but_masks(&other_before.nodes()[v]));
    }
    assert forall|v: int| 0 <= v < n implies #[trigger] after.visible_at(v)
        == other_after.visible_at(v) && after.disabled_at(v) == other_after.disabled_at(v) by {
        assert(after.disabled_at(v) == before.disabled_at(v));
        assert(other_after.disabled_at(v) == other_before.disabled_at(v));
        assert(before.visible_at(v) == other_before.visible_at(v));
    }
}

/// What a filter that decides of every node by itself shows is decided by
/// what was shown before it.
pub proof fn lemma_per_node_step_unique(
    f: &Filter,
    before: &RawGraph,
    after: &RawGraph,
    other_before: &RawGraph,
    other_after: &RawGraph,
    parser: &Z3Parser,
)
    requires
        f.per_node(),
        same_masks(before, other_before),
        filter_step(f, before, after, parser),
        filter_step(f, other_before, other_after, parser),
    ensures
        same_masks(after, other_after),
{
    assert forall|v: int| 0 <= v < after.nodes().len() implies #[trigger] after.visible_at(v)
        == other_after.visible_at(v) by {
        assert(before.visible_at(v) == other_before.visible_at(v));
        lemma_visible_after_same(f, other_before, before, parser, before.visible_at(v), v);
        assert(after.visible_at(v) == f.visible_after(before, parser, before.visible_at(v), v));
        assert(other_after.visible_at(v) == f.visible_after(
            other_before,
            parser,
            other_before.visible_at(v),
            v,
        ));
    }
    lemma_same_masks_after(before, after, other_before, other_after);
}

/// Which instantiations stay as the best ones is decided by their costs and
/// by what was shown before.
pub proof fn lemma_kept_best_unique(
    before: &RawGraph,
    after: &RawGraph,
    other_before: &RawGraph,
    other_after: &RawGraph,
    costs: Seq<u64>,
    count: int,
)
    requires
        frames(before, after, other_before, other_after),
        costs.len() == before.nodes().len(),
        RawGraph::kept_best(before, after, costs, count),
        RawGraph::kept_best(other_before, other_after, costs, count),
    ensures
        same_masks(after, other_after),
{
    let n = before.nodes().len() as int;
    assert forall|v: int| 0 <= v < n implies before.inst_at(v) == other_before.inst_at(v)
        && before.visible_inst(v) == other_before.visible_inst(v) by {
        assert(before.nodes()[v].same_but_masks(&other_before.nodes()[v]));
        assert(before.visible_at(v) == other_before.visible_at(v));
    }
    assert(before.visible_insts() =~= other_before.visible_insts());
    let one = choose|picks: Seq<usize>|
        #![auto]
        is_n_best(costs, before.visible_insts(), count, picks) && forall|v: int|
            0 <= v < after.nodes().len() ==> #[trigger] after.visible_at(v) == (before.visible_at(v)
                && (before.inst_at(v) is None || picks.contains(v as usize)));
    let other = choose|picks: Seq<usize>|
        #![auto]
        is_n_best(costs, other_before.visible_insts(), count, picks) && forall|v: int|
            0 <= v < other_after.nodes().len() ==> #[trigger] other_after.visible_at(v) == (
            other_before.visible_at(v) && (other_before.inst_at(v) is None || picks.contains(
                v as usize,
            )));
    lemma_n_best_unique(costs, before.visible_insts(), count, one, other);
    assert forall|v: int| 0 <= v < after.nodes().len() implies #[trigger] after.visible_at(v)
        == other_after.visible_at(v) by {
        assert(before.visible_at(v) == other_before.visible_at(v));
        assert(before.inst_at(v) == other_before.inst_at(v));
        assert(other_after.visible_at(v) == (other_before.visible_at(v) && (other_before.inst_at(v)
            is None || other.contains(v as usize))));
    }
    lemma_same_masks_after(before, after, other_before, other_after);
}

/// Graphs with the same nodes and edges that show and disable the same
/// nodes give every node the same cost by what it yields.
pub proof fn lemma_yield_costs_unique(before: &RawGraph, other_before: &RawGraph, parser: &Z3Parser)
    requires
        same_masks(before, other_before),
    ensures
        before.yield_costs(parser) == other_before.yield_costs(parser),
{
    let n = before.nodes().len() as int;
    assert forall|v: int| 0 <= v < n implies before.inst_at(v) == other_before.inst_at(v) by {
        assert(before.nodes()[v].same_but_masks(&other_before.nodes()[v]));
    }
    assert(before.yield_costs(parser) =~= other_before.yield_costs(parser));
}

/// Graphs with the same nodes and edges that show and disable the same
/// nodes give every node the same cost by its children in the visible graph.
pub proof fn lemma_branching_costs_unique(
    before: &RawGraph,
    vg: &VisibleGraph,
    costs: Seq<u64>,
    other_before: &RawGraph,
    other_vg: &VisibleGraph,
    other_costs: Seq<u64>,
)
    requires
        before.wf(),
        other_before.wf(),
        same_masks(before, other_before),
        vg.is_visible_graph_of(before),
        other_vg.is_visible_graph_of(other_before),
        InstGraph::branching_costs(before, vg, costs),
        InstGraph::branching_costs(other_before, other_vg, other_costs),
    ensures
        costs == other_costs,
{
    let n = before.nodes().len() as int;
    assert(crate::visible::same_view(before, other_before)) by {
        assert forall|i: int| 0 <= i < n implies (#[trigger] before.nodes()[i]).disabled
            == other_before.nodes()[i].disabled && before.nodes()[i].visible
            == other_before.nodes()[i].visible by {
            assert(before.visible_at(i) == other_before.visible_at(i));
            assert(before.disabled_at(i) == other_before.disabled_at(i));
        }
    }
    vg.lemma_shape_unique(before, other_vg, other_before);
    assert forall|v: int| 0 <= v < n implies costs[v] == other_costs[v] by {
        assert(before.visible_at(v) == other_before.visible_at(v));
        assert(before.disabled_at(v) == other_before.disabled_at(v));
        if before.shown_at(v) {
            let a = choose|a: int| 0 <= a < vg.nodes().len() && #[trigger] vg.raw_of(a) == v;
            assert(other_vg.raw_of(a) == v);
            vg.lemma_children_unique(before, other_vg, other_before, a);
            assert(costs[vg.raw_of(a)] == vg.child_count(a));
            assert(other_costs[other_vg.raw_of(a)] == other_vg.child_count(a));
        } else {
            assert(!other_before.shown_at(v));
        }
    }
    assert(costs =~= other_costs);
}

/// What a filter shows is decided by what was shown before it.
pub proof fn lemma_filter_step_unique(
    f: &Filter,
    before: &RawGraph,
    after: &RawGraph,
    other_before: &RawGraph,
    other_after: &RawGraph,
    parser: &Z3Parser,
)
    requires
        before.wf(),
        other_before.wf(),
        same_masks(before, other_before),
        filter_step(f, before, after, parser),
        filter_step(f, other_before, other_after, parser),
    ensures
        same_masks(after, other_after),
        after.wf(),
        other_after.wf(),
{
    match *f {
        Filter::MaxInsts(n) => {
            lemma_yield_costs_unique(before, other_before, parser);
            lemma_kept_best_unique(
                before,
                after,
                other_before,
                other_after,
                before.yield_costs(parser),
                n as int,
            );
        },
        Filter::MaxBranching(n) => {
            let (vg, costs) = choose|vg: VisibleGraph, costs: Seq<u64>|
                #![auto]
                vg.is_visible_graph_of(before) && InstGraph::branching_costs(before, &vg, costs)
                    && RawGraph::kept_best(before, after, costs, n as int);
            let (other_vg, other_costs) = choose|vg: VisibleGraph, costs: Seq<u64>|
                #![auto]
                vg.is_visible_graph_of(other_before) && InstGraph::branching_costs(
                    other_before,
                    &vg,
                    costs,
                ) && RawGraph::kept_best(other_before, other_after, costs, n as int);
            lemma_branching_costs_unique(before, &vg, costs, other_before, &other_vg, other_costs);
            lemma_kept_best_unique(before, after, other_before, other_after, costs, n as int);
        },
        _ => {
            lemma_per_node_step_unique(f, before, after, other_before, other_after, parser);
        },
    }
}

/// Applying a list of filters yields the same mask however often it is
/// applied: the filters start from a graph with every node enabled and
/// visible, and what each filter shows is decided by what was shown before
/// it.
pub proof fn lemma_filters_lead_unique(
    filters: Seq<Filter>,
    upto: int,
    reset: &RawGraph,
    end: &RawGraph,
    other_reset: &RawGraph,
    other_end: &RawGraph,
    parser: &Z3Parser,
)
    requires
        reset.wf(),
        other_reset.wf(),
        same_masks(reset, other_reset),
        filters_lead(filters, upto, reset, end, parser),
        filters_lead(filters, upto, other_reset, other_end, parser),
    ensures
        same_masks(end, other_end),
        end.wf(),
        other_end.wf(),
    decreases upto,
{
    if 0 < upto <= filters.len() {
        let mid = choose|mid: RawGraph|
            filters_lead(filters, upto - 1, reset, &mid, parser) && #[trigger] filter_step(
                &filters[upto - 1],
                &mid,
                end,
                parser,
            );
        let other_mid = choose|mid: RawGraph|
            filters_lead(filters, upto - 1, other_reset, &mid, parser) && #[trigger] filter_step(
                &filters[upto - 1],
                &mid,
                other_end,
                parser,
            );
        lemma_filters_lead_unique(filters, upto - 1, reset, &mid, other_reset, &other_mid, parser);
        lemma_filter_step_unique(&filters[upto - 1], &mid, end, &other_mid, other_end, parser);
    }
}

/// Applying a list of filters again shows and disables the same nodes,
/// whatever filters the list holds: every application starts from the graph
/// with every node enabled and visible, and what each filter shows is
/// decided by what was shown before it.
pub proof fn lemma_filters_idempotent(
    filters: Seq<Filter>,
    start: &RawGraph,
    once: &RawGraph,
    twice: &RawGraph,
    parser: &Z3Parser,
)
    requires
        start.wf(),
        filters_applied(filters, start, once, parser),
        filters_applied(filters, once, twice, parser),
    ensures
        same_masks(once, twice),
{
    let first = choose|reset: RawGraph|
        #![auto]
        is_reset_of(&reset, start) && filters_lead(
            filters,
            filters.len() as int,
            &reset,
            once,
            parser,
        );
    let second = choose|reset: RawGraph|
        #![auto]
        is_reset_of(&reset, once) && filters_lead(
            filters,
            filters.len() as int,
            &reset,
            twice,
            parser,
        );
    let n = start.nodes().len() as int;
    assert(same_masks(&first, &second)) by {
        assert forall|v: int| 0 <= v < n implies (#[trigger] first.nodes()[v]).same_but_masks(
            &second.nodes()[v],
        ) by {
            assert(first.nodes()[v].same_but_masks(&start.nodes()[v]));
            assert(once.nodes()[v].same_but_masks(&start.nodes()[v]));
            assert(second.nodes()[v].same_but_masks(&once.nodes()[v]));
        }
        assert forall|v: int| 0 <= v < n implies #[trigger] first.visible_at(v)
            == second.visible_at(v) && first.disabled_at(v) == second.disabled_at(v) by {
            assert(!first.disabled_at(v) && first.visible_at(v));
            assert(!second.disabled_at(v) && second.visible_at(v));
        }
    }
    assert(first.wf());
    assert(second.wf());
    lemma_filters_lead_unique(filters, filters.len() as int, &first, once, &second, twice, parser);
}

} // verus!
