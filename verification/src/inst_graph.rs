//! The instantiation graph of a trace: the raw graph, and what the search
//! for matching loops found in it.

use vstd::prelude::*;
use crate::dag::false_vec;
use crate::error::Error;
use crate::idx::{InstIdx, QuantIdx, RawNodeIndex, TermIdx};
use crate::matching_loop::{fold_matching_loop, is_loop_graph};
use crate::ml_graph::{MLGraphNode, MlGraph};
use crate::model::{EqualityExpl, NodeKind, Z3Parser};
use crate::raw::RawGraph;
use crate::subgraph::{parts, Subgraph};
use crate::dataflow::{handed, Slot};
use crate::next_enabled::{DefaultNextEnabled, NextEnabledInitialiser};
use crate::next_insts::{DefaultNextInsts, NextInstsInitialiser};
use crate::terms::extends;
use crate::visible::{same_view, VisibleGraph};

verus! {

/// What the search for matching loops found.
pub struct Analysis {
    /// The last node of every matching loop, by rank; nothing before the
    /// first search.
    pub matching_loop_end_nodes: Option<Vec<RawNodeIndex>>,
    /// The graph of every matching loop, by rank.
    pub matching_loop_graphs: Vec<MlGraph>,
}

/// The instantiation graph.
pub struct InstGraph {
    pub raw: RawGraph,
    /// The components of the raw graph; none before the graph was parted.
    pub subgraphs: Vec<Subgraph>,
    pub analysis: Analysis,
}

/// The error of a load that no one gave up: the memory error where the
/// events are too many to number; else the error of the first event that
/// cannot take its place; else, for a model with events, the memory error.
pub open spec fn load_failed(parser: &Z3Parser, e: Error) -> bool {
    if parser.events@.len() > u32::MAX {
        e == Error::Alloc
    } else if !parser.causal() {
        exists|i: int| #[trigger]
            parser.first_bad(i) && e == if parser.event_known(parser.events@[i]) {
                Error::MissingBlame
            } else {
                Error::UnknownId
            }
    } else {
        e == Error::Alloc && parser.events@.len() > 0
    }
}

/// The graph is the graph of a matching loop of `insts`, folded at some
/// moment between two states of the model: the term table had grown from
/// `first`, and grew on to `last`.
pub open spec fn is_loop_graph_within(g: &MlGraph, first: &Z3Parser, last: &Z3Parser, insts: Seq<InstIdx>) -> bool {
    exists|before: Z3Parser, after: Z3Parser| #[trigger]
        folded_between(g, first, last, insts, before, after)
}

/// The graph was folded from `insts` while the model went from `before` to
/// `after`, two states between `first` and `last`.
pub open spec fn folded_between(
    g: &MlGraph,
    first: &Z3Parser,
    last: &Z3Parser,
    insts: Seq<InstIdx>,
    before: Z3Parser,
    after: Z3Parser,
) -> bool {
    &&& before.same_records(first)
    &&& before.terms.wf()
    &&& after.terms.wf()
    &&& extends(first.terms.rows(), before.terms.rows())
    &&& extends(before.terms.rows(), after.terms.rows())
    &&& extends(after.terms.rows(), last.terms.rows())
    &&& is_loop_graph(g, &before, &after, insts)
}

impl RawGraph {
    /// The instantiations among the first `upto` nodes that are part of the
    /// matching loop of rank `n`, in the order of the nodes.
    pub open spec fn loop_insts_upto(&self, n: usize, upto: int) -> Seq<InstIdx>
        decreases upto,
    {
        if upto <= 0 || upto > self.nodes().len() {
            Seq::empty()
        } else {
            let rest = self.loop_insts_upto(n, upto - 1);
            match self.inst_at(upto - 1) {
                Some(inst) => if self.in_loop(upto - 1, n) {
                    rest.push(inst)
                } else {
                    rest
                },
                None => rest,
            }
        }
    }

    /// The instantiations that are part of the matching loop of rank `n`.
    pub open spec fn loop_insts(&self, n: usize) -> Seq<InstIdx> {
        self.loop_insts_upto(n, self.nodes().len() as int)
    }

    /// The masks of the nodes do not matter to the instantiations of a
    /// matching loop.
    pub proof fn lemma_loop_insts_same(&self, other: &RawGraph, n: usize, upto: int)
        requires
            self.same_but_masks(other),
        ensures
            self.loop_insts_upto(n, upto) == other.loop_insts_upto(n, upto),
        decreases upto,
    {
        if 0 < upto <= self.nodes().len() {
            self.lemma_loop_insts_same(other, n, upto - 1);
            assert(self.nodes()[upto - 1].same_but_masks(&other.nodes()[upto - 1]));
        }
    }

    /// Whether `n` is among the loops of a node.
    pub fn node_in_loop(&self, v: usize, n: usize) -> (r: bool)
        requires
            v < self.nodes().len(),
        ensures
            r == self.in_loop(v as int, n),
    {
        let list = &self.node(RawNodeIndex(v)).part_of_ml;
        let mut k: usize = 0;
        while k < list.len()
            invariant
                0 <= k <= list@.len(),
                list@ == self.nodes()[v as int].part_of_ml@,
                forall|j: int| 0 <= j < k ==> list@[j] != n,
            decreases list@.len() - k,
        {
            if list[k] == n {
                assert(list@.contains(list@[k as int]));
                return true;
            }
            k += 1;
        }
        false
    }

    /// The instantiations that are part of the matching loop of rank `n`.
    pub fn collect_loop_insts(&self, n: usize) -> (r: Vec<InstIdx>)
        ensures
            r@ == self.loop_insts(n),
    {
        let mut r: Vec<InstIdx> = Vec::new();
        let count = self.node_count();
        let mut v: usize = 0;
        while v < count
            invariant
                0 <= v <= count,
                count == self.nodes().len(),
                r@ == self.loop_insts_upto(n, v as int),
            decreases count - v,
        {
            match self.node(RawNodeIndex(v)).kind.inst() {
                Some(inst) => {
                    if self.node_in_loop(v, n) {
                        r.push(inst);
                    }
                },
                None => {},
            }
            v += 1;
        }
        r
    }
}

impl InstGraph {
    /// The raw graph is well formed, and so is the graph of every loop.
    pub open spec fn wf(&self) -> bool {
        &&& self.raw.wf()
        &&& forall|i: int|
            0 <= i < self.analysis.matching_loop_graphs@.len() ==> (
            #[trigger] self.analysis.matching_loop_graphs@[i]).wf()
    }

    /// The number of matching loops that the last search found.
    pub open spec fn spec_found(&self) -> Option<usize> {
        match self.analysis.matching_loop_end_nodes {
            Some(v) => Some(v@.len() as usize),
            None => None,
        }
    }

    /// Builds the instantiation graph of a model. No search has been made
    /// in it.
    pub fn new(parser: &Z3Parser) -> (r: Result<InstGraph, Error>)
        ensures
            match r {
                Ok(g) => g.wf() && g.raw.built_from(parser) && parser.causal()
                    && parser.events@.len() <= u32::MAX && g.spec_found() is None
                    && g.analysis.matching_loop_graphs@.len() == 0 && g.subgraphs@.len() == 0,
                Err(e) => if parser.events@.len() > u32::MAX {
                    e == Error::Alloc
                } else {
                    exists|i: int| #[trigger]
                        parser.first_bad(i) && e == if parser.event_known(parser.events@[i]) {
                            Error::MissingBlame
                        } else {
                            Error::UnknownId
                        }
                },
            },
    {
        match RawGraph::build(parser) {
            Ok(raw) => Ok(
                InstGraph {
                    raw,
                    subgraphs: Vec::new(),
                    analysis: Analysis {
                        matching_loop_end_nodes: None,
                        matching_loop_graphs: Vec::new(),
                    },
                },
            ),
            Err(e) => Err(e),
        }
    }

    /// The number of matching loops that the last search found; nothing
    /// before the first search.
    pub fn found_matching_loops(&self) -> (r: Option<usize>)
        ensures
            r == self.spec_found(),
    {
        match &self.analysis.matching_loop_end_nodes {
            Some(v) => Some(v.len()),
            None => None,
        }
    }

    /// The graph of the matching loop of rank `n`; the graph without nodes
    /// where the last search found no such loop.
    pub fn nth_matching_loop_graph(&self, n: usize) -> (g: MlGraph)
        ensures
            g.labels() == if n < self.analysis.matching_loop_graphs@.len() {
                self.analysis.matching_loop_graphs@[n as int].labels()
            } else {
                Seq::<MLGraphNode>::empty()
            },
            g.edges() == if n < self.analysis.matching_loop_graphs@.len() {
                self.analysis.matching_loop_graphs@[n as int].edges()
            } else {
                Seq::<(usize, usize)>::empty()
            },
    {
        if n < self.analysis.matching_loop_graphs.len() {
            self.analysis.matching_loop_graphs[n].duplicate()
        } else {
            MlGraph::new()
        }
    }

    /// Folds the matching loop of rank `n` into its graph of abstract
    /// instantiations: the instantiations of the nodes that are part of the
    /// loop are read in the order of the nodes. A loop without an
    /// instantiation, or whose instantiations contribute nothing, leaves the
    /// term table as it is.
    pub fn compute_nth_matching_loop_graph(&self, n: usize, parser: &mut Z3Parser) -> (g: MlGraph)
        requires
            old(parser).terms.wf(),
        ensures
            final(parser).terms.wf(),
            extends(old(parser).terms.rows(), final(parser).terms.rows()),
            final(parser).same_records(old(parser)),
            g.wf(),
            is_loop_graph(&g, old(parser), final(parser), self.raw.loop_insts(n)),
            self.raw.loop_insts(n).len() == 0 ==> final(parser).terms.rows() == old(parser).terms.rows(),
            old(parser).contributions(self.raw.loop_insts(n)).len() == 0 ==> final(parser).terms.rows() == old(parser).terms.rows(),
    {
        let insts = self.raw.collect_loop_insts(n);
        fold_matching_loop(&insts, parser)
    }

    /// `ml` is the graph of the matching loops, and the nodes are part of
    /// the loops as `ml` says: `ml` is the visible graph of the raw graph
    /// with the instantiations enabled and everything else disabled; `ends`
    /// lists the nodes of `ml` that no edge leaves, the deepest first and
    /// the earlier first among equally deep ones; and a node is part of the
    /// loop of rank `r` exactly if `ml` shows it and a path of `ml` leads
    /// from it to the end of that rank.
    pub open spec fn loops_are(&self, ml: &VisibleGraph, during: &RawGraph, ranked: Seq<usize>) -> bool {
        &&& during.same_but_loops(&self.raw)
        &&& forall|i: int|
            0 <= i < during.nodes().len() ==> #[trigger] during.visible_at(i)
                == self.raw.visible_at(i) && during.disabled_at(i) == (during.inst_at(i) is None)
        &&& ml.is_visible_graph_of(during)
        &&& forall|k: int| 0 <= k < ranked.len() ==> ml.is_end(#[trigger] ranked[k] as int)
        &&& forall|e: int| #[trigger] ml.is_end(e) ==> ranked.contains(e as usize)
        &&& forall|i: int, j: int|
            0 <= i < j < ranked.len() ==> ml.ranks_before(
                #[trigger] ranked[i] as int,
                #[trigger] ranked[j] as int,
            )
        &&& match self.analysis.matching_loop_end_nodes {
            Some(ends) => ends@.len() == ranked.len() && forall|r: int|
                0 <= r < ranked.len() ==> #[trigger] ends@[r] == ml.nodes()[ranked[r] as int].idx,
            None => false,
        }
        &&& forall|a: int, r: usize|
            0 <= a < ml.nodes().len() ==> (#[trigger] self.raw.in_loop(ml.raw_of(a), r) <==> r
                < ranked.len() && ml.dag().reaches(a, ranked[r as int] as int))
        &&& forall|v: int, r: usize|
            0 <= v < self.raw.nodes().len() && #[trigger] self.raw.in_loop(v, r)
                ==> ml.shows_raw_upto(RawNodeIndex(v as usize), ml.nodes().len() as int)
    }

    /// Searches the graph for matching loops, and returns their number.
    ///
    /// The search disables every node that is no instantiation. For each
    /// quantifier it shows the instantiations of that quantifier alone and
    /// takes the nodes that lie on a path to the end of a path of at least
    /// `MIN_MATCHING_LOOP_LENGTH` of them. The nodes taken for any
    /// quantifier are then the only visible ones, and their visible graph is
    /// the graph of the matching loops. Each node of it that no edge leaves
    /// ends one loop; the loops are ranked by the depth of their ends. Every
    /// node is made part of the loops whose end it leads to, and every loop
    /// is folded into its graph of abstract instantiations. In the end the
    /// nodes are disabled as they were before the search.
    pub fn search_matching_loops(&mut self, parser: &mut Z3Parser) -> (k: usize)
        requires
            old(self).raw.wf(),
            old(parser).terms.wf(),
        ensures
            searched(old(self), final(self), old(parser), final(parser), k),
    {
        let always = || -> (go: bool)
            ensures
                go,
            { true };
        match self.search_matching_loops_while(parser, always) {
            Ok(k) => k,
            Err(_) => {
                assert(false);
                0
            },
        }
    }

    /// Searches the graph for matching loops as long as `proceed` says so.
    /// `proceed` is asked before the search looks at the next quantifier.
    /// Where it says no, the search is given up: the nodes are visible and
    /// disabled as they were, and what an earlier search found stays.
    pub fn search_matching_loops_while<F: Fn() -> bool>(&mut self, parser: &mut Z3Parser, proceed: F) -> (r:
        Result<usize, Error>)
        requires
            old(self).raw.wf(),
            old(parser).terms.wf(),
            call_requires(proceed, ()),
        ensures
            match r {
                Ok(k) => searched(old(self), final(self), old(parser), final(parser), k),
                Err(e) => e == Error::AnalysisCancelled && *final(parser) == *old(parser)
                    && final(self).analysis == old(self).analysis && final(self).subgraphs == old(self).subgraphs && final(self).raw.wf() && crate::filters::same_masks(
                    &final(self).raw,
                    &old(self).raw,
                ) && call_ensures(proceed, (), false),
            },
            (forall|go: bool| call_ensures(proceed, (), go) ==> go) ==> r is Ok,
    {
        let saved = self.raw.disabled_mask();
        let shown = self.raw.visible_mask();
        let non_inst = self.raw.non_inst_mask();
        self.raw.set_disabled_mask(&non_inst);
        let ghost before_quants = self.raw;
        let quants = self.raw.quantifiers(parser);
        let n = self.raw.node_count();
        let mut taken = false_vec(n);
        let mut q: usize = 0;
        while q < quants.len()
            invariant
                0 <= q <= quants@.len(),
                n == self.raw.nodes().len(),
                self.raw.wf(),
                self.subgraphs == old(self).subgraphs,
                self.raw.same_but_masks(&old(self).raw),
                *parser == *old(parser),
                taken@.len() == n,
                saved@.len() == n,
                shown@.len() == n,
                call_requires(proceed, ()),
                self.analysis == old(self).analysis,
                forall|i: int| 0 <= i < n ==> #[trigger] saved@[i] == old(self).raw.disabled_at(i),
                forall|i: int| 0 <= i < n ==> #[trigger] shown@[i] == old(self).raw.visible_at(i),
                forall|i: int|
                    0 <= i < n ==> #[trigger] self.raw.disabled_at(i) == (self.raw.inst_at(i)
                        is None),
                forall|i: int|
                    0 <= i < n ==> #[trigger] taken@[i] == on_loop_upto(
                        &old(self).raw,
                        parser,
                        quants@,
                        q as int,
                        i,
                    ),
            decreases quants@.len() - q,
        {
            if !proceed() {
                self.raw.set_disabled_mask(&saved);
                self.raw.set_visible_mask(&shown);
                return Err(Error::AnalysisCancelled);
            }
            let ghost prev = self.raw;
            let ghost taken0 = taken@;
            self.raw.take_loops_of(parser, quants[q], &mut taken);
            proof {
                assert forall|i: int| 0 <= i < n implies (#[trigger] self.raw.nodes()[i]).same_but_masks(
                    &old(self).raw.nodes()[i],
                ) by {
                    assert(self.raw.nodes()[i].same_but_masks(&prev.nodes()[i]));
                    assert(prev.nodes()[i].same_but_masks(&old(self).raw.nodes()[i]));
                }
                assert forall|i: int| 0 <= i < n implies #[trigger] self.raw.disabled_at(i) == (
                self.raw.inst_at(i) is None) by {
                    assert(prev.disabled_at(i) == (prev.inst_at(i) is None));
                    assert(self.raw.nodes()[i].same_but_masks(&prev.nodes()[i]));
                }
                assert forall|i: int| 0 <= i < n implies #[trigger] taken@[i] == on_loop_upto(
                    &old(self).raw,
                    parser,
                    quants@,
                    q as int + 1,
                    i,
                ) by {
                    lemma_on_loop_for_alike(&prev, &old(self).raw, parser, quants@[q as int], i);
                    assert(taken0[i] == on_loop_upto(&old(self).raw, parser, quants@, q as int, i));
                    if on_loop_upto(&old(self).raw, parser, quants@, q as int, i) {
                        let j = choose|j: int|
                            0 <= j < q && j < quants@.len() && #[trigger] on_loop_for(
                                &old(self).raw,
                                parser,
                                quants@[j],
                                i,
                            );
                        assert(on_loop_upto(&old(self).raw, parser, quants@, q as int + 1, i));
                    }
                    if on_loop_for(&old(self).raw, parser, quants@[q as int], i) {
                        assert(on_loop_upto(&old(self).raw, parser, quants@, q as int + 1, i));
                    }
                    if on_loop_upto(&old(self).raw, parser, quants@, q as int + 1, i) {
                        let j = choose|j: int|
                            0 <= j < q + 1 && j < quants@.len() && #[trigger] on_loop_for(
                                &old(self).raw,
                                parser,
                                quants@[j],
                                i,
                            );
                        if j < q {
                            assert(on_loop_upto(&old(self).raw, parser, quants@, q as int, i));
                        }
                    }
                }
            }
            q += 1;
        }
        let ghost before_ml = self.raw;
        self.raw.set_visible_mask(&taken);
        let ghost with_masks = self.raw;
        proof {
            assert forall|i: int| 0 <= i < n implies (#[trigger] self.raw.nodes()[i]).same_but_masks(
                &old(self).raw.nodes()[i],
            ) by {
                assert(self.raw.nodes()[i].same_but_masks(&before_ml.nodes()[i]));
                assert(before_ml.nodes()[i].same_but_masks(&old(self).raw.nodes()[i]));
            }
        }
        let ml = self.raw.to_visible();
        let ranked = ml.end_nodes_ranked();
        self.raw.clear_loops();
        let ghost during = self.raw;
        proof {
            assert forall|i: int| 0 <= i < n implies #[trigger] during.visible_at(i) == taken@[i]
                && during.disabled_at(i) == (during.inst_at(i) is None) by {
                assert(with_masks.visible_at(i) == taken@[i]);
                assert(with_masks.disabled_at(i) == before_ml.disabled_at(i));
                assert(before_ml.disabled_at(i) == (before_ml.inst_at(i) is None));
                assert(with_masks.nodes()[i].same_but_masks(&before_ml.nodes()[i]));
                assert(during.nodes()[i].same_but_loops(&with_masks.nodes()[i]));
            }
            lemma_same_visible_graph(&ml, &with_masks, &during);
            assert forall|i: int| 0 <= i < n implies (#[trigger] during.nodes()[i]).same_but_loops(
                &old(self).raw.nodes()[i],
            ) by {
                assert(during.nodes()[i].same_but_loops(&with_masks.nodes()[i]));
                assert(with_masks.nodes()[i].same_but_masks(&old(self).raw.nodes()[i]));
            }
        }
        let mut ends: Vec<RawNodeIndex> = Vec::new();
        let count = ml.node_count();
        let mut i: usize = 0;
        while i < ranked.len()
            invariant
                0 <= i <= ranked@.len(),
                n == self.raw.nodes().len(),
                count == ml.nodes().len(),
                self.raw.wf(),
                self.subgraphs == old(self).subgraphs,
                self.raw.same_but_loops(&during),
                ml.is_visible_graph_of(&during),
                forall|v: int|
                    0 <= v < n ==> #[trigger] self.raw.visible_at(v) == during.visible_at(v)
                        && self.raw.disabled_at(v) == during.disabled_at(v),
                forall|k: int| 0 <= k < ranked@.len() ==> ml.is_end(#[trigger] ranked@[k] as int),
                ends@.len() == i,
                forall|r: int|
                    0 <= r < i ==> #[trigger] ends@[r] == ml.nodes()[ranked@[r] as int].idx,
                forall|a: int, r: usize|
                    0 <= a < count ==> (#[trigger] self.raw.in_loop(ml.raw_of(a), r) <==> r < i
                        && ml.dag().reaches(a, ranked@[r as int] as int)),
                forall|v: int, r: usize|
                    0 <= v < n && #[trigger] self.raw.in_loop(v, r) ==> ml.shows_raw_upto(
                        RawNodeIndex(v as usize),
                        count as int,
                    ),
            decreases ranked@.len() - i,
        {
            let e = ranked[i];
            assert(ml.is_end(ranked@[i as int] as int));
            let marks = ml.topology().reaching(e);
            let mut a: usize = 0;
            while a < count
                invariant
                    0 <= a <= count,
                    0 <= i < ranked@.len(),
                    e == ranked@[i as int],
                    n == self.raw.nodes().len(),
                    count == ml.nodes().len(),
                    marks@.len() == count,
                    forall|c: int|
                        0 <= c < count ==> #[trigger] marks@[c] == ml.dag().reaches(c, e as int),
                    self.raw.wf(),
                    self.subgraphs == old(self).subgraphs,
                self.subgraphs == old(self).subgraphs,
                    self.raw.same_but_loops(&during),
                    ml.is_visible_graph_of(&during),
                    forall|v: int|
                        0 <= v < n ==> #[trigger] self.raw.visible_at(v) == during.visible_at(v)
                            && self.raw.disabled_at(v) == during.disabled_at(v),
                    forall|c: int, r: usize|
                        0 <= c < count ==> (#[trigger] self.raw.in_loop(ml.raw_of(c), r) <==> (r < i
                            && ml.dag().reaches(c, ranked@[r as int] as int)) || (r == i && c < a
                            && ml.dag().reaches(c, e as int))),
                    forall|v: int, r: usize|
                        0 <= v < n && #[trigger] self.raw.in_loop(v, r) ==> ml.shows_raw_upto(
                            RawNodeIndex(v as usize),
                            count as int,
                        ),
                decreases count - a,
            {
                if marks[a] {
                    let v = ml.node(a).idx.0;
                    let ghost prev = self.raw;
                    assert(ml.raw_of(a as int) == v);
                    assert(ml.raw_of(a as int) < during.nodes().len());
                    self.raw.add_loop(v, i);
                    proof {
                        assert forall|j: int| 0 <= j < n implies (
                        #[trigger] self.raw.nodes()[j]).same_but_loops(&during.nodes()[j]) by {
                            assert(prev.nodes()[j].same_but_loops(&during.nodes()[j]));
                        }
                        assert forall|j: int| 0 <= j < n implies #[trigger] self.raw.visible_at(j)
                            == during.visible_at(j) && self.raw.disabled_at(j)
                            == during.disabled_at(j) by {
                            assert(prev.visible_at(j) == during.visible_at(j));
                        }
                        let before = prev.nodes()[v as int].part_of_ml@;
                        let after = self.raw.nodes()[v as int].part_of_ml@;
                        assert forall|r: usize| after.contains(r) <==> before.contains(r) || r
                            == i by {
                            if before.contains(r) {
                                let w = choose|w: int| 0 <= w < before.len() && before[w] == r;
                                assert(after[w] == r);
                            }
                            if after.contains(r) {
                                let w = choose|w: int| 0 <= w < after.len() && after[w] == r;
                                if w < before.len() {
                                    assert(before[w] == r);
                                }
                            }
                            assert(after[before.len() as int] == i);
                        }
                        assert forall|c: int, r: usize| 0 <= c < count implies (
                        #[trigger] self.raw.in_loop(ml.raw_of(c), r) <==> (r < i
                            && ml.dag().reaches(c, ranked@[r as int] as int)) || (r == i && c < a
                            + 1 && ml.dag().reaches(c, e as int))) by {
                            assert(prev.in_loop(ml.raw_of(c), r) <==> (r < i && ml.dag().reaches(
                                c,
                                ranked@[r as int] as int,
                            )) || (r == i && c < a && ml.dag().reaches(c, e as int)));
                            if c != a {
                                if c < a {
                                    assert(ml.raw_of(c) < ml.raw_of(a as int));
                                } else {
                                    assert(ml.raw_of(a as int) < ml.raw_of(c));
                                }
                                assert(self.raw.nodes()[ml.raw_of(c)] == prev.nodes()[ml.raw_of(c)]);
                            }
                        }
                        assert forall|w: int, r: usize|
                            0 <= w < n && #[trigger] self.raw.in_loop(w, r) implies ml.shows_raw_upto(
                            RawNodeIndex(w as usize),
                            count as int,
                        ) by {
                            if w == v {
                                assert(ml.raw_of(a as int) == w);
                            } else {
                                assert(self.raw.nodes()[w] == prev.nodes()[w]);
                                assert(prev.in_loop(w, r));
                            }
                        }
                    }
                }
                a += 1;
            }
            ends.push(ml.node(e).idx);
            i += 1;
        }
        let k = ends.len();
        self.analysis.matching_loop_end_nodes = Some(ends);
        let mut graphs: Vec<MlGraph> = Vec::new();
        let ghost first = *parser;
        let mut r: usize = 0;
        while r < k
            invariant
                0 <= r <= k,
                graphs@.len() == r,
                self.subgraphs == old(self).subgraphs,
                first == *old(parser),
                parser.terms.wf(),
                extends(first.terms.rows(), parser.terms.rows()),
                parser.same_records(&first),
                forall|j: int| 0 <= j < r ==> (#[trigger] graphs@[j]).wf(),
                forall|j: int|
                    0 <= j < r ==> is_loop_graph_within(
                        #[trigger] &graphs@[j],
                        &first,
                        parser,
                        self.raw.loop_insts(j as usize),
                    ),
            decreases k - r,
        {
            let ghost before = *parser;
            let ghost done = graphs@;
            let g = self.compute_nth_matching_loop_graph(r, parser);
            proof {
                assert forall|j: int| 0 <= j < r implies is_loop_graph_within(
                    #[trigger] &done[j],
                    &first,
                    parser,
                    self.raw.loop_insts(j as usize),
                ) by {
                    lemma_within_grows(
                        &done[j],
                        &first,
                        &before,
                        parser,
                        self.raw.loop_insts(j as usize),
                    );
                }
                assert(is_loop_graph(&g, &before, parser, self.raw.loop_insts(r)));
                assert(folded_between(
                    &g,
                    &first,
                    parser,
                    self.raw.loop_insts(r),
                    before,
                    *parser,
                ));
                assert(is_loop_graph_within(&g, &first, parser, self.raw.loop_insts(r)));
            }
            graphs.push(g);
            proof {
                assert forall|j: int| 0 <= j < r + 1 implies (#[trigger] graphs@[j]).wf()
                    && is_loop_graph_within(
                    &graphs@[j],
                    &first,
                    parser,
                    self.raw.loop_insts(j as usize),
                ) by {
                    if j < r {
                        assert(graphs@[j] == done[j]);
                    }
                }
            }
            r += 1;
        }
        self.analysis.matching_loop_graphs = graphs;
        let ghost marked = self.raw;
        self.raw.set_disabled_mask(&saved);
        proof {
            assert forall|j: int| 0 <= j < n implies (#[trigger] self.raw.nodes()[j]).same_but_loops(
                &old(self).raw.nodes()[j],
            ) by {
                assert(self.raw.nodes()[j].same_but_masks(&marked.nodes()[j]));
                assert(marked.nodes()[j].same_but_loops(&during.nodes()[j]));
                assert(during.nodes()[j].same_but_loops(&old(self).raw.nodes()[j]));
            }
            assert forall|j: int| 0 <= j < n implies (#[trigger] during.nodes()[j]).same_but_loops(
                &self.raw.nodes()[j],
            ) by {
                assert(self.raw.nodes()[j].same_but_masks(&marked.nodes()[j]));
                assert(marked.nodes()[j].same_but_loops(&during.nodes()[j]));
            }
            assert forall|j: int| 0 <= j < n implies #[trigger] during.visible_at(j)
                == self.raw.visible_at(j) && during.disabled_at(j) == (during.inst_at(j) is None) by {
                assert(marked.visible_at(j) == during.visible_at(j));
                assert(self.raw.visible_at(j) == marked.visible_at(j));
            }
            assert forall|a: int, r: usize| 0 <= a < ml.nodes().len() implies (
            #[trigger] self.raw.in_loop(ml.raw_of(a), r) <==> r < ranked@.len()
                && ml.dag().reaches(a, ranked@[r as int] as int)) by {
                assert(ml.raw_of(a) < n);
                assert(self.raw.nodes()[ml.raw_of(a)].same_but_masks(&marked.nodes()[ml.raw_of(a)]));
                assert(marked.in_loop(ml.raw_of(a), r) <==> r < ranked@.len() && ml.dag().reaches(
                    a,
                    ranked@[r as int] as int,
                ));
            }
            assert forall|v: int, r: usize|
                0 <= v < n && #[trigger] self.raw.in_loop(v, r) implies ml.shows_raw_upto(
                RawNodeIndex(v as usize),
                ml.nodes().len() as int,
            ) by {
                assert(self.raw.nodes()[v].same_but_masks(&marked.nodes()[v]));
                assert(marked.in_loop(v, r));
            }
            assert(self.loops_are(&ml, &during, ranked@));
            assert forall|j: int| 0 <= j < k implies is_loop_graph_within(
                #[trigger] &self.analysis.matching_loop_graphs@[j],
                old(parser),
                parser,
                self.raw.loop_insts(j as usize),
            ) by {
                self.raw.lemma_loop_insts_same(&marked, j as usize, n as int);
            }
            assert forall|j: int| 0 <= j < n implies #[trigger] self.raw.visible_at(j)
                == on_loop_of(&old(self).raw, old(parser), j) by {
                assert(self.raw.visible_at(j) == marked.visible_at(j));
                assert(marked.visible_at(j) == during.visible_at(j));
                assert(during.visible_at(j) == taken@[j]);
                assert(taken@[j] == on_loop_upto(
                    &old(self).raw,
                    old(parser),
                    quants@,
                    quants@.len() as int,
                    j,
                ));
                if on_loop_upto(&old(self).raw, old(parser), quants@, quants@.len() as int, j) {
                    let w = choose|w: int|
                        0 <= w < quants@.len() && w < quants@.len() && #[trigger] on_loop_for(
                            &old(self).raw,
                            old(parser),
                            quants@[w],
                            j,
                        );
                    assert(on_loop_for(&old(self).raw, old(parser), quants@[w], j));
                }
                if on_loop_of(&old(self).raw, old(parser), j) {
                    let qx = choose|qx: QuantIdx| #[trigger]
                        on_loop_for(&old(self).raw, old(parser), qx, j);
                    lemma_on_loop_names_quant(&old(self).raw, old(parser), qx, j);
                    assert(before_quants.nodes()[j].same_but_masks(&old(self).raw.nodes()[j]));
                    assert(before_quants.inst_at(j) == old(self).raw.inst_at(j));
                    assert(quants@.contains(qx));
                    let w = choose|w: int| 0 <= w < quants@.len() && quants@[w] == qx;
                    assert(on_loop_for(&old(self).raw, old(parser), quants@[w], j));
                    assert(on_loop_upto(
                        &old(self).raw,
                        old(parser),
                        quants@,
                        quants@.len() as int,
                        j,
                    ));
                }
            }
            assert forall|j: int| 0 <= j < n implies #[trigger] self.raw.disabled_at(j) == old(self).raw.disabled_at(j) by {
            }
        }
        Ok(k)
    }
}

/// The visible graph of a raw graph is that of every raw graph with the
/// same nodes, edges and masks.
pub proof fn lemma_same_visible_graph(vg: &VisibleGraph, a: &RawGraph, b: &RawGraph)
    requires
        a.wf(),
        b.wf(),
        vg.is_visible_graph_of(a),
        b.same_but_loops(a),
        forall|i: int|
            0 <= i < a.nodes().len() ==> (#[trigger] b.nodes()[i]).disabled == a.nodes()[i].disabled
                && b.nodes()[i].visible == a.nodes()[i].visible,
    ensures
        vg.is_visible_graph_of(b),
{
    assert(same_view(a, b)) by {
        assert forall|i: int| 0 <= i < a.nodes().len() implies (#[trigger] a.nodes()[i]).disabled
            == b.nodes()[i].disabled && a.nodes()[i].visible == b.nodes()[i].visible by {
            assert(b.nodes()[i].disabled == a.nodes()[i].disabled);
        }
    }
    assert forall|x: int, y: int| a.links(x, y) == b.links(x, y) by {
        crate::visible::lemma_links_alike(a, b, x, y);
    }
    assert forall|c: int| 0 <= c < vg.nodes().len() implies #[trigger] vg.raw_of(c)
        < b.nodes().len() && b.shown_at(vg.raw_of(c)) by {
        assert(a.shown_at(vg.raw_of(c)));
    }
    assert forall|i: int| 0 <= i < b.nodes().len() && #[trigger] b.shown_at(i) implies exists|c: int|
        0 <= c < vg.nodes().len() && #[trigger] vg.raw_of(c) == i by {
        assert(a.shown_at(i));
    }
}

/// A graph that was folded between two states of the model was folded
/// between the first of them and every later state.
pub proof fn lemma_within_grows(
    g: &MlGraph,
    first: &Z3Parser,
    last: &Z3Parser,
    later: &Z3Parser,
    insts: Seq<InstIdx>,
)
    requires
        is_loop_graph_within(g, first, last, insts),
        extends(last.terms.rows(), later.terms.rows()),
    ensures
        is_loop_graph_within(g, first, later, insts),
{
    let (before, after) = choose|before: Z3Parser, after: Z3Parser| #[trigger]
        folded_between(g, first, last, insts, before, after);
    assert(extends(after.terms.rows(), later.terms.rows()));
    assert(folded_between(g, first, later, insts, before, after));
}

impl InstGraph {
    /// Finds for every node the nearest instantiations before it and behind
    /// it: an instantiation hands itself on to its neighbours, every other
    /// node hands on what it got.
    pub fn initialise_inst_succs_and_preds(&mut self, parser: &Z3Parser)
        requires
            old(self).raw.wf(),
        ensures
            final(self).raw.wf(),
            final(self).analysis == old(self).analysis,
            final(self).subgraphs == old(self).subgraphs,
            final(self).raw.same_but_sets(&old(self).raw),
            forall|t: int|
                0 <= t < final(self).raw.nodes().len() ==> #[trigger] final(self).raw.slot_at(
                    t,
                    Slot::InstParents,
                ) == handed::<DefaultNextInsts<true>, true, 2>(
                    &final(self).raw,
                    t,
                    0,
                    final(self).raw.nodes().len() as int,
                ),
            forall|t: int|
                0 <= t < final(self).raw.nodes().len() ==> #[trigger] final(self).raw.slot_at(
                    t,
                    Slot::InstChildren,
                ) == handed::<DefaultNextInsts<false>, false, 2>(
                    &final(self).raw,
                    t,
                    0,
                    final(self).raw.nodes().len() as int,
                ),
    {
        let mut forward = DefaultNextInsts::<true>;
        self.raw.initialise_transfer::<DefaultNextInsts<true>, true, 2>(&mut forward, parser);
        let ghost mid = self.raw;
        let mut backward = DefaultNextInsts::<false>;
        self.raw.initialise_transfer::<DefaultNextInsts<false>, false, 2>(&mut backward, parser);
        proof {
            let n = self.raw.nodes().len() as int;
            assert forall|i: int| 0 <= i < n implies (#[trigger] self.raw.nodes()[i]).same_but_sets(
                &old(self).raw.nodes()[i],
            ) by {
                assert(self.raw.nodes()[i].same_but_slot(&mid.nodes()[i], Slot::InstChildren));
                assert(mid.nodes()[i].same_but_slot(&old(self).raw.nodes()[i], Slot::InstParents));
            }
            assert forall|t: int| 0 <= t < n implies #[trigger] self.raw.slot_at(
                t,
                Slot::InstParents,
            ) == handed::<DefaultNextInsts<true>, true, 2>(&self.raw, t, 0, n) by {
                assert(self.raw.nodes()[t].same_but_slot(&mid.nodes()[t], Slot::InstChildren));
                assert(mid.slot_at(t, Slot::InstParents) == handed::<DefaultNextInsts<true>, true, 2>(
                    &mid,
                    t,
                    0,
                    n,
                ));
                assert forall|p: int| 0 <= p < n implies #[trigger] <DefaultNextInsts<
                    true,
                > as crate::dataflow::TransferInitialiser<true, 2>>::hands_on(
                    &mid.nodes()[p],
                    RawNodeIndex(p as usize),
                ) == <DefaultNextInsts<true> as crate::dataflow::TransferInitialiser<true, 2>>::hands_on(
                    &self.raw.nodes()[p],
                    RawNodeIndex(p as usize),
                ) by {
                    assert(self.raw.nodes()[p].same_but_slot(&mid.nodes()[p], Slot::InstChildren));
                }
                crate::dataflow::lemma_handed_alike::<DefaultNextInsts<true>, true, 2>(
                    &mid,
                    &self.raw,
                    t,
                    0,
                    n,
                );
            }
        }
    }

    /// Finds for every node the nearest enabled nodes before it and behind
    /// it: an enabled node hands itself on to its neighbours, a disabled
    /// node hands on what it got.
    pub fn initialise_next_enabled(&mut self, parser: &Z3Parser)
        requires
            old(self).raw.wf(),
        ensures
            final(self).raw.wf(),
            final(self).analysis == old(self).analysis,
            final(self).subgraphs == old(self).subgraphs,
            final(self).raw.same_but_sets(&old(self).raw),
            forall|t: int|
                0 <= t < final(self).raw.nodes().len() ==> #[trigger] final(self).raw.slot_at(
                    t,
                    Slot::EnabledChildren,
                ) == handed::<DefaultNextEnabled<false>, false, 3>(
                    &final(self).raw,
                    t,
                    0,
                    final(self).raw.nodes().len() as int,
                ),
            forall|t: int|
                0 <= t < final(self).raw.nodes().len() ==> #[trigger] final(self).raw.slot_at(
                    t,
                    Slot::EnabledParents,
                ) == handed::<DefaultNextEnabled<true>, true, 3>(
                    &final(self).raw,
                    t,
                    0,
                    final(self).raw.nodes().len() as int,
                ),
            forall|i: int|
                0 <= i < final(self).raw.nodes().len() ==> (
                #[trigger] final(self).raw.nodes()[i]).same_but_slot_pair(&old(self).raw.nodes()[i]),
    {
        let mut forward = DefaultNextEnabled::<true>;
        self.raw.initialise_transfer::<DefaultNextEnabled<true>, true, 3>(&mut forward, parser);
        let ghost mid = self.raw;
        let mut backward = DefaultNextEnabled::<false>;
        self.raw.initialise_transfer::<DefaultNextEnabled<false>, false, 3>(&mut backward, parser);
        proof {
            assert forall|i: int| 0 <= i < self.raw.nodes().len() implies (
            #[trigger] self.raw.nodes()[i]).same_but_sets(&old(self).raw.nodes()[i]) by {
                assert(self.raw.nodes()[i].same_but_slot(&mid.nodes()[i], Slot::EnabledChildren));
                assert(mid.nodes()[i].same_but_slot(&old(self).raw.nodes()[i], Slot::EnabledParents));
            }
            let n = self.raw.nodes().len() as int;
            assert forall|i: int| 0 <= i < n implies (#[trigger] self.raw.nodes()[i]).same_but_slot_pair(
                &old(self).raw.nodes()[i],
            ) by {
                assert(self.raw.nodes()[i].same_but_slot(&mid.nodes()[i], Slot::EnabledChildren));
                assert(mid.nodes()[i].same_but_slot(&old(self).raw.nodes()[i], Slot::EnabledParents));
            }
            assert forall|t: int| 0 <= t < n implies #[trigger] self.raw.slot_at(
                t,
                Slot::EnabledParents,
            ) == handed::<DefaultNextEnabled<true>, true, 3>(&self.raw, t, 0, n) by {
                assert(self.raw.nodes()[t].same_but_slot(&mid.nodes()[t], Slot::EnabledChildren));
                assert(mid.slot_at(t, Slot::EnabledParents) == handed::<
                    DefaultNextEnabled<true>,
                    true,
                    3,
                >(&mid, t, 0, n));
                assert forall|p: int| 0 <= p < n implies #[trigger] <DefaultNextEnabled<
                    true,
                > as crate::dataflow::TransferInitialiser<true, 3>>::hands_on(
                    &mid.nodes()[p],
                    RawNodeIndex(p as usize),
                ) == <DefaultNextEnabled<true> as crate::dataflow::TransferInitialiser<
                    true,
                    3,
                >>::hands_on(&self.raw.nodes()[p], RawNodeIndex(p as usize)) by {
                    assert(self.raw.nodes()[p].same_but_slot(&mid.nodes()[p], Slot::EnabledChildren));
                }
                crate::dataflow::lemma_handed_alike::<DefaultNextEnabled<true>, true, 3>(
                    &mid,
                    &self.raw,
                    t,
                    0,
                    n,
                );
            }
        }
    }
}

impl InstGraph {
    /// Parts the raw graph into its components, and keeps them. Where
    /// memory runs out, the graph and the components that it kept are left
    /// as they were.
    pub fn partition(&mut self) -> (r: Result<(), Error>)
        requires
            old(self).raw.wf(),
        ensures
            final(self).raw.wf(),
            final(self).analysis == old(self).analysis,
            final(self).raw.same_but_subgraphs(&old(self).raw),
            match r {
                Ok(_) => parts(&final(self).raw, final(self).subgraphs@),
                Err(e) => e == Error::Alloc && final(self).subgraphs == old(self).subgraphs
                    && final(self).raw.same_graph(&old(self).raw) && old(self).raw.nodes().len()
                    > 0,
            },
    {
        match self.raw.partition() {
            Ok(subs) => {
                self.subgraphs = subs;
                Ok(())
            },
            Err(e) => Err(e),
        }
    }

    /// The graph is the graph of the loaded model: a node for every event,
    /// enabled and visible, an edge wherever an event rests on another, the
    /// components, the depths, and the nearest instantiations and enabled
    /// nodes of every node. No search has been made in it.
    pub open spec fn loaded(&self, parser: &Z3Parser) -> bool {
        &&& self.wf()
        &&& parser.causal()
        &&& parser.events@.len() <= u32::MAX
        &&& self.raw.nodes().len() == parser.events@.len()
        &&& forall|i: int|
            0 <= i < self.raw.nodes().len() ==> #[trigger] self.raw.kind_at(i) == parser.events@[i]
                && !self.raw.disabled_at(i) && self.raw.visible_at(i)
        &&& forall|u: int, v: int| #[trigger] self.raw.has_edge(u, v) <==> parser.rests_on(u, v)
        &&& parts(&self.raw, self.subgraphs@)
        &&& self.spec_found() is None
        &&& forall|v: int| 0 <= v < self.raw.nodes().len() ==> #[trigger] self.raw.depths_ok(v)
        &&& self.sets_filled()
    }

    /// Loads a model: builds the raw graph of its events, parts it into its
    /// components, and gives every node its depths and its nearest
    /// instantiations and enabled nodes. An event that cannot take its place
    /// fails the load with the error of the build; only a model whose events
    /// all can may run out of memory, and a model without events never does.
    pub fn load(parser: &Z3Parser) -> (r: Result<InstGraph, Error>)
        ensures
            match r {
                Ok(g) => g.loaded(parser),
                Err(e) => load_failed(parser, e),
            },
    {
        let always = || -> (go: bool)
            ensures
                go,
            { true };
        InstGraph::load_while(parser, always)
    }

    /// Loads a model as long as `proceed` says so. `proceed` is asked before
    /// each pass over the graph that was built: the depths, the nearest
    /// instantiations, the nearest enabled nodes, the components. Where it
    /// says no, the load is given up and no graph is handed out.
    pub fn load_while<F: Fn() -> bool>(parser: &Z3Parser, proceed: F) -> (r: Result<InstGraph, Error>)
        requires
            call_requires(proceed, ()),
        ensures
            match r {
                Ok(g) => g.loaded(parser),
                Err(e) => if e == Error::AnalysisCancelled {
                    call_ensures(proceed, (), false) && parser.causal() && parser.events@.len()
                        <= u32::MAX
                } else {
                    load_failed(parser, e)
                },
            },
    {
        let mut g = match InstGraph::new(parser) {
            Ok(g) => g,
            Err(e) => {
                return Err(e);
            },
        };
        let ghost built = g.raw;
        if !proceed() {
            return Err(Error::AnalysisCancelled);
        }
        g.raw.compute_depths();
        let ghost deep = g.raw;
        if !proceed() {
            return Err(Error::AnalysisCancelled);
        }
        g.initialise_inst_succs_and_preds(parser);
        let ghost with_insts = g.raw;
        if !proceed() {
            return Err(Error::AnalysisCancelled);
        }
        g.initialise_next_enabled(parser);
        let ghost passed = g.raw;
        if !proceed() {
            return Err(Error::AnalysisCancelled);
        }
        match g.partition() {
            Ok(_) => {},
            Err(e) => {
                return Err(e);
            },
        }
        proof {
            let n = g.raw.nodes().len() as int;
            assert forall|i: int| 0 <= i < n implies #[trigger] g.raw.kind_at(i)
                == parser.events@[i] && !g.raw.disabled_at(i) && g.raw.visible_at(i) by {
                assert(built.nodes()[i].fresh(parser.events@[i]));
                assert(deep.nodes()[i].same_but_depths(&built.nodes()[i]));
                assert(with_insts.nodes()[i].same_but_sets(&deep.nodes()[i]));
                assert(passed.nodes()[i].same_but_sets(&with_insts.nodes()[i]));
                assert(g.raw.nodes()[i].same_but_subgraph(&passed.nodes()[i]));
            }
            assert forall|i: int| 0 <= i < n implies (#[trigger] g.raw.nodes()[i]).min_depth
                == deep.nodes()[i].min_depth && g.raw.nodes()[i].max_depth
                == deep.nodes()[i].max_depth by {
                assert(with_insts.nodes()[i].same_but_sets(&deep.nodes()[i]));
                assert(passed.nodes()[i].same_but_sets(&with_insts.nodes()[i]));
                assert(g.raw.nodes()[i].same_but_subgraph(&passed.nodes()[i]));
            }
            assert forall|v: int| 0 <= v < n implies #[trigger] g.raw.depths_ok(v) by {
                deep.lemma_depths_alike(&g.raw, v);
            }
            assert forall|i: int| 0 <= i < n implies (#[trigger] g.raw.nodes()[i]).kind
                == with_insts.nodes()[i].kind && g.raw.nodes()[i].inst_parents
                == with_insts.nodes()[i].inst_parents && g.raw.nodes()[i].inst_children
                == with_insts.nodes()[i].inst_children by {
                assert(passed.nodes()[i].same_but_slot_pair(&with_insts.nodes()[i]));
                assert(g.raw.nodes()[i].same_but_subgraph(&passed.nodes()[i]));
            }
            with_insts.lemma_insts_filled_alike(&g.raw);
            passed.lemma_enabled_filled_alike(&g.raw);
        }
        Ok(g)
    }
}

impl RawGraph {
    /// Every node holds its nearest instantiations, before it and behind it.
    pub open spec fn insts_filled(&self) -> bool {
        &&& forall|t: int|
            0 <= t < self.nodes().len() ==> #[trigger] self.slot_at(t, Slot::InstParents) == handed::<
                DefaultNextInsts<true>,
                true,
                2,
            >(self, t, 0, self.nodes().len() as int)
        &&& forall|t: int|
            0 <= t < self.nodes().len() ==> #[trigger] self.slot_at(t, Slot::InstChildren)
                == handed::<DefaultNextInsts<false>, false, 2>(self, t, 0, self.nodes().len() as int)
    }

    /// Every node holds its nearest enabled nodes, before it and behind it.
    pub open spec fn enabled_filled(&self) -> bool {
        &&& forall|t: int|
            0 <= t < self.nodes().len() ==> #[trigger] self.slot_at(t, Slot::EnabledParents)
                == handed::<DefaultNextEnabled<true>, true, 3>(self, t, 0, self.nodes().len() as int)
        &&& forall|t: int|
            0 <= t < self.nodes().len() ==> #[trigger] self.slot_at(t, Slot::EnabledChildren)
                == handed::<DefaultNextEnabled<false>, false, 3>(
                self,
                t,
                0,
                self.nodes().len() as int,
            )
    }

    /// The depths of a node are sound in every graph with the same edges
    /// and the same depths.
    pub proof fn lemma_depths_alike(&self, other: &RawGraph, v: int)
        requires
            self.dag() == other.dag(),
            self.nodes().len() == other.nodes().len(),
            0 <= v < self.nodes().len(),
            self.dag().wf(),
            self.dag().len() == self.nodes().len(),
            forall|i: int|
                0 <= i < self.nodes().len() ==> (#[trigger] other.nodes()[i]).min_depth
                    == self.nodes()[i].min_depth && other.nodes()[i].max_depth
                    == self.nodes()[i].max_depth,
            self.depths_ok(v),
        ensures
            other.depths_ok(v),
    {
        assert(other.nodes()[v].min_depth == self.nodes()[v].min_depth);
        assert forall|a: int| #[trigger] other.has_edge(a, v) implies other.min_depth_at(v)
            <= other.min_depth_at(a) + 1 && other.max_depth_at(a) + 1 <= other.max_depth_at(v) by {
            self.dag().lemma_edge_grows(a, v);
            assert(self.has_edge(a, v));
            assert(other.nodes()[a].min_depth == self.nodes()[a].min_depth);
        }
        if exists|a: int| other.has_edge(a, v) {
            let a0 = choose|a: int| other.has_edge(a, v);
            assert(self.has_edge(a0, v));
            let a1 = choose|a: int| #[trigger]
                self.has_edge(a, v) && self.min_depth_at(v) == self.min_depth_at(a) + 1;
            self.dag().lemma_edge_grows(a1, v);
            assert(other.nodes()[a1].min_depth == self.nodes()[a1].min_depth);
            assert(other.has_edge(a1, v) && other.min_depth_at(v) == other.min_depth_at(a1) + 1);
            let a2 = choose|a: int| #[trigger]
                self.has_edge(a, v) && self.max_depth_at(v) == self.max_depth_at(a) + 1;
            self.dag().lemma_edge_grows(a2, v);
            assert(other.nodes()[a2].max_depth == self.nodes()[a2].max_depth);
            assert(other.has_edge(a2, v) && other.max_depth_at(v) == other.max_depth_at(a2) + 1);
        } else {
            assert forall|a: int| !self.has_edge(a, v) by {
                assert(self.has_edge(a, v) == other.has_edge(a, v));
            }
        }
    }

    /// The nearest instantiations stay the nearest in every graph with the
    /// same edges, kinds and sets of instantiations.
    pub proof fn lemma_insts_filled_alike(&self, other: &RawGraph)
        requires
            self.insts_filled(),
            self.dag() == other.dag(),
            self.dag().wf(),
            self.nodes().len() == other.nodes().len(),
            forall|i: int|
                0 <= i < self.nodes().len() ==> (#[trigger] other.nodes()[i]).kind
                    == self.nodes()[i].kind && other.nodes()[i].inst_parents
                    == self.nodes()[i].inst_parents && other.nodes()[i].inst_children
                    == self.nodes()[i].inst_children,
        ensures
            other.insts_filled(),
    {
        let n = self.nodes().len() as int;
        assert forall|t: int| 0 <= t < n implies #[trigger] other.slot_at(t, Slot::InstParents)
            == handed::<DefaultNextInsts<true>, true, 2>(other, t, 0, n) by {
            assert(other.nodes()[t].kind == self.nodes()[t].kind);
            assert(self.slot_at(t, Slot::InstParents) == handed::<DefaultNextInsts<true>, true, 2>(
                self,
                t,
                0,
                n,
            ));
            assert forall|p: int| 0 <= p < n implies #[trigger] <DefaultNextInsts<
                true,
            > as crate::dataflow::TransferInitialiser<true, 2>>::hands_on(
                &self.nodes()[p],
                RawNodeIndex(p as usize),
            ) == <DefaultNextInsts<true> as crate::dataflow::TransferInitialiser<true, 2>>::hands_on(
                &other.nodes()[p],
                RawNodeIndex(p as usize),
            ) by {
                assert(other.nodes()[p].kind == self.nodes()[p].kind);
            }
            crate::dataflow::lemma_handed_alike::<DefaultNextInsts<true>, true, 2>(
                self,
                other,
                t,
                0,
                n,
            );
        }
        assert forall|t: int| 0 <= t < n implies #[trigger] other.slot_at(t, Slot::InstChildren)
            == handed::<DefaultNextInsts<false>, false, 2>(other, t, 0, n) by {
            assert(other.nodes()[t].kind == self.nodes()[t].kind);
            assert(self.slot_at(t, Slot::InstChildren) == handed::<
                DefaultNextInsts<false>,
                false,
                2,
            >(self, t, 0, n));
            assert forall|p: int| 0 <= p < n implies #[trigger] <DefaultNextInsts<
                false,
            > as crate::dataflow::TransferInitialiser<false, 2>>::hands_on(
                &self.nodes()[p],
                RawNodeIndex(p as usize),
            ) == <DefaultNextInsts<false> as crate::dataflow::TransferInitialiser<
                false,
                2,
            >>::hands_on(&other.nodes()[p], RawNodeIndex(p as usize)) by {
                assert(other.nodes()[p].kind == self.nodes()[p].kind);
            }
            crate::dataflow::lemma_handed_alike::<DefaultNextInsts<false>, false, 2>(
                self,
                other,
                t,
                0,
                n,
            );
        }
    }

    /// The nearest enabled nodes stay the nearest in every graph with the
    /// same edges, the same disabled nodes and the same sets of enabled
    /// nodes.
    pub proof fn lemma_enabled_filled_alike(&self, other: &RawGraph)
        requires
            self.enabled_filled(),
            self.dag() == other.dag(),
            self.dag().wf(),
            self.nodes().len() == other.nodes().len(),
            forall|i: int|
                0 <= i < self.nodes().len() ==> (#[trigger] other.nodes()[i]).disabled
                    == self.nodes()[i].disabled && other.nodes()[i].enabled_parents
                    == self.nodes()[i].enabled_parents && other.nodes()[i].enabled_children
                    == self.nodes()[i].enabled_children,
        ensures
            other.enabled_filled(),
    {
        let n = self.nodes().len() as int;
        assert forall|t: int| 0 <= t < n implies #[trigger] other.slot_at(t, Slot::EnabledParents)
            == handed::<DefaultNextEnabled<true>, true, 3>(other, t, 0, n) by {
            assert(other.nodes()[t].disabled == self.nodes()[t].disabled);
            assert(self.slot_at(t, Slot::EnabledParents) == handed::<
                DefaultNextEnabled<true>,
                true,
                3,
            >(self, t, 0, n));
            assert forall|p: int| 0 <= p < n implies #[trigger] <DefaultNextEnabled<
                true,
            > as crate::dataflow::TransferInitialiser<true, 3>>::hands_on(
                &self.nodes()[p],
                RawNodeIndex(p as usize),
            ) == <DefaultNextEnabled<true> as crate::dataflow::TransferInitialiser<true, 3>>::hands_on(
                &other.nodes()[p],
                RawNodeIndex(p as usize),
            ) by {
                assert(other.nodes()[p].disabled == self.nodes()[p].disabled);
            }
            crate::dataflow::lemma_handed_alike::<DefaultNextEnabled<true>, true, 3>(
                self,
                other,
                t,
                0,
                n,
            );
        }
        assert forall|t: int| 0 <= t < n implies #[trigger] other.slot_at(t, Slot::EnabledChildren)
            == handed::<DefaultNextEnabled<false>, false, 3>(other, t, 0, n) by {
            assert(other.nodes()[t].disabled == self.nodes()[t].disabled);
            assert(self.slot_at(t, Slot::EnabledChildren) == handed::<
                DefaultNextEnabled<false>,
                false,
                3,
            >(self, t, 0, n));
            assert forall|p: int| 0 <= p < n implies #[trigger] <DefaultNextEnabled<
                false,
            > as crate::dataflow::TransferInitialiser<false, 3>>::hands_on(
                &self.nodes()[p],
                RawNodeIndex(p as usize),
            ) == <DefaultNextEnabled<false> as crate::dataflow::TransferInitialiser<
                false,
                3,
            >>::hands_on(&other.nodes()[p], RawNodeIndex(p as usize)) by {
                assert(other.nodes()[p].disabled == self.nodes()[p].disabled);
            }
            crate::dataflow::lemma_handed_alike::<DefaultNextEnabled<false>, false, 3>(
                self,
                other,
                t,
                0,
                n,
            );
        }
    }
}

impl InstGraph {
    /// Every node holds its nearest instantiations and its nearest enabled
    /// nodes.
    pub open spec fn sets_filled(&self) -> bool {
        self.raw.insts_filled() && self.raw.enabled_filled()
    }
}

/// `view` is `raw` as the search looks at it for the quantifier `q`: with
/// everything but the instantiations disabled, and with the instantiations
/// of `q` as the only visible nodes.
pub open spec fn is_quant_view(raw: &RawGraph, parser: &Z3Parser, q: QuantIdx, view: &RawGraph) -> bool {
    &&& view.wf()
    &&& view.dag() == raw.dag()
    &&& view.nodes().len() == raw.nodes().len()
    &&& forall|i: int|
        0 <= i < raw.nodes().len() ==> #[trigger] view.disabled_at(i) == (raw.inst_at(i) is None)
            && view.visible_at(i) == match raw.inst_at(i) {
            Some(inst) => parser.spec_quant_of(inst) == Some(q),
            None => false,
        }
}

/// Node `v` lies on a loop of the quantifier `q`: among the instantiations
/// of `q` alone it lies on a path to the end of a path that is long enough
/// for a matching loop.
pub open spec fn on_loop_for(raw: &RawGraph, parser: &Z3Parser, q: QuantIdx, v: int) -> bool {
    exists|view: RawGraph, vg: VisibleGraph, a: int|
        #![auto]
        is_quant_view(raw, parser, q, &view) && vg.is_visible_graph_of(&view) && 0 <= a
            < vg.nodes().len() && vg.raw_of(a) == v && vg.on_loop(a)
}

/// Node `v` lies on a loop of one of the first `upto` quantifiers of a list.
pub open spec fn on_loop_upto(raw: &RawGraph, parser: &Z3Parser, quants: Seq<QuantIdx>, upto: int, v: int) -> bool {
    exists|j: int|
        0 <= j < upto && j < quants.len() && #[trigger] on_loop_for(raw, parser, quants[j], v)
}

/// Node `v` lies on a loop of some quantifier.
pub open spec fn on_loop_of(raw: &RawGraph, parser: &Z3Parser, v: int) -> bool {
    exists|q: QuantIdx| #[trigger] on_loop_for(raw, parser, q, v)
}

/// Which nodes lie on a loop of a quantifier does not depend on the masks
/// of the nodes.
pub proof fn lemma_on_loop_for_alike(a: &RawGraph, b: &RawGraph, parser: &Z3Parser, q: QuantIdx, v: int)
    requires
        a.same_but_masks(b),
    ensures
        on_loop_for(a, parser, q, v) == on_loop_for(b, parser, q, v),
{
    assert forall|view: RawGraph| is_quant_view(a, parser, q, &view) == is_quant_view(
        b,
        parser,
        q,
        &view,
    ) by {
        assert forall|i: int| 0 <= i < a.nodes().len() implies a.inst_at(i) == b.inst_at(i) by {
            assert(a.nodes()[i].same_but_masks(&b.nodes()[i]));
        }
    }
    if on_loop_for(a, parser, q, v) {
        let (view, vg, x) = choose|view: RawGraph, vg: VisibleGraph, x: int|
            #![auto]
            is_quant_view(a, parser, q, &view) && vg.is_visible_graph_of(&view) && 0 <= x
                < vg.nodes().len() && vg.raw_of(x) == v && vg.on_loop(x);
        assert(is_quant_view(b, parser, q, &view));
    }
    if on_loop_for(b, parser, q, v) {
        let (view, vg, x) = choose|view: RawGraph, vg: VisibleGraph, x: int|
            #![auto]
            is_quant_view(b, parser, q, &view) && vg.is_visible_graph_of(&view) && 0 <= x
                < vg.nodes().len() && vg.raw_of(x) == v && vg.on_loop(x);
        assert(is_quant_view(a, parser, q, &view));
    }
}

/// A node on a loop of a quantifier is an instantiation of that quantifier.
pub proof fn lemma_on_loop_names_quant(raw: &RawGraph, parser: &Z3Parser, q: QuantIdx, v: int)
    requires
        on_loop_for(raw, parser, q, v),
    ensures
        0 <= v < raw.nodes().len(),
        match raw.inst_at(v) {
            Some(inst) => parser.spec_quant_of(inst) == Some(q),
            None => false,
        },
{
    let (view, vg, x) = choose|view: RawGraph, vg: VisibleGraph, x: int|
        #![auto]
        is_quant_view(raw, parser, q, &view) && vg.is_visible_graph_of(&view) && 0 <= x
            < vg.nodes().len() && vg.raw_of(x) == v && vg.on_loop(x);
    assert(vg.raw_of(x) < view.nodes().len() && view.shown_at(vg.raw_of(x)));
    assert(view.visible_at(v));
    assert(view.disabled_at(v) == (raw.inst_at(v) is None));
}

impl RawGraph {
    /// Marks the nodes that lie on a loop of the quantifier `q`, besides
    /// those that are marked. Afterwards the instantiations of `q` are the
    /// only visible nodes.
    pub fn take_loops_of(&mut self, parser: &Z3Parser, q: QuantIdx, taken: &mut Vec<bool>)
        requires
            old(self).wf(),
            old(taken)@.len() == old(self).nodes().len(),
            forall|i: int|
                0 <= i < old(self).nodes().len() ==> #[trigger] old(self).disabled_at(i) == (old(self).inst_at(i) is None),
        ensures
            final(self).wf(),
            final(self).same_but_masks(old(self)),
            forall|i: int|
                0 <= i < final(self).nodes().len() ==> #[trigger] final(self).disabled_at(i) == old(self).disabled_at(i),
            final(taken)@.len() == old(taken)@.len(),
            forall|i: int|
                0 <= i < final(taken)@.len() ==> #[trigger] final(taken)@[i] == (old(taken)@[i]
                    || on_loop_for(old(self), parser, q, i)),
            is_quant_view(old(self), parser, q, final(self)),
    {
        let n = self.node_count();
        let mask = self.quant_mask(parser, q);
        self.set_visible_mask(&mask);
        let vg = self.to_visible();
        let marks = vg.loop_marks();
        proof {
            assert(is_quant_view(old(self), parser, q, self)) by {
                assert forall|i: int| 0 <= i < n implies #[trigger] self.disabled_at(i) == (old(self).inst_at(i) is None) && self.visible_at(i) == match old(self).inst_at(i) {
                    Some(inst) => parser.spec_quant_of(inst) == Some(q),
                    None => false,
                } by {
                    assert(self.nodes()[i].same_but_masks(&old(self).nodes()[i]));
                    assert(self.visible_at(i) == mask@[i]);
                    assert(self.disabled_at(i) == old(self).disabled_at(i));
                }
            }
        }
        let count = vg.node_count();
        let mut a: usize = 0;
        while a < count
            invariant
                0 <= a <= count,
                count == vg.nodes().len(),
                n == self.nodes().len(),
                vg.is_visible_graph_of(self),
                marks@.len() == count,
                forall|c: int| 0 <= c < count ==> #[trigger] marks@[c] == vg.on_loop(c),
                taken@.len() == n,
                forall|i: int|
                    0 <= i < n ==> #[trigger] taken@[i] == (old(taken)@[i] || exists|c: int|
                        0 <= c < a && #[trigger] vg.raw_of(c) == i && vg.on_loop(c)),
            decreases count - a,
        {
            let ghost before = taken@;
            let v = vg.node(a).idx.0;
            assert(vg.raw_of(a as int) == v);
            assert(vg.raw_of(a as int) < n);
            if marks[a] {
                taken.set(v, true);
            }
            proof {
                assert forall|i: int| 0 <= i < n implies #[trigger] taken@[i] == (old(taken)@[i]
                    || exists|c: int| 0 <= c < a + 1 && #[trigger] vg.raw_of(c) == i && vg.on_loop(c)) by {
                    let was = exists|c: int| 0 <= c < a && #[trigger] vg.raw_of(c) == i && vg.on_loop(c);
                    let now = exists|c: int|
                        0 <= c < a + 1 && #[trigger] vg.raw_of(c) == i && vg.on_loop(c);
                    assert(before[i] == (old(taken)@[i] || was));
                    if was {
                        let c = choose|c: int| 0 <= c < a && #[trigger] vg.raw_of(c) == i && vg.on_loop(c);
                        assert(0 <= c < a + 1 && vg.raw_of(c) == i && vg.on_loop(c));
                    }
                    if i == v && vg.on_loop(a as int) {
                        assert(0 <= a < a + 1 && vg.raw_of(a as int) == i && vg.on_loop(a as int));
                    }
                    if now {
                        let c = choose|c: int|
                            0 <= c < a + 1 && #[trigger] vg.raw_of(c) == i && vg.on_loop(c);
                        if c < a {
                            assert(was);
                        }
                    }
                }
            }
            a += 1;
        }
        proof {
            assert forall|i: int| 0 <= i < n implies #[trigger] taken@[i] == (old(taken)@[i]
                || on_loop_for(old(self), parser, q, i)) by {
                let found = exists|c: int| 0 <= c < count && #[trigger] vg.raw_of(c) == i && vg.on_loop(c);
                if found {
                    let c = choose|c: int| 0 <= c < count && #[trigger] vg.raw_of(c) == i && vg.on_loop(c);
                    assert(is_quant_view(old(self), parser, q, self) && vg.is_visible_graph_of(self)
                        && 0 <= c < vg.nodes().len() && vg.raw_of(c) == i && vg.on_loop(c));
                }
                if on_loop_for(old(self), parser, q, i) {
                    let (view, other, x) = choose|view: RawGraph, other: VisibleGraph, x: int|
                        #![auto]
                        is_quant_view(old(self), parser, q, &view) && other.is_visible_graph_of(&view)
                            && 0 <= x < other.nodes().len() && other.raw_of(x) == i && other.on_loop(
                            x,
                        );
                    assert(same_view(&view, self)) by {
                        assert forall|w: int| 0 <= w < view.nodes().len() implies (
                        #[trigger] view.nodes()[w]).disabled == self.nodes()[w].disabled
                            && view.nodes()[w].visible == self.nodes()[w].visible by {
                            assert(view.disabled_at(w) == (old(self).inst_at(w) is None));
                            assert(self.disabled_at(w) == (old(self).inst_at(w) is None));
                        }
                    }
                    other.lemma_on_loop_unique(&view, &vg, self, x);
                    assert(0 <= x < count && vg.raw_of(x) == i && vg.on_loop(x));
                }
            }
        }
    }
}

impl InstGraph {
    /// The term behind a node that an edge blames: the owner of an e-node,
    /// or of the literal of a given equality; nothing for other nodes.
    pub open spec fn spec_blame_term(&self, blamed: RawNodeIndex, parser: &Z3Parser) -> Option<TermIdx> {
        if blamed.0 < self.raw.nodes().len() {
            match self.raw.kind_at(blamed.0 as int) {
                NodeKind::ENode(e) => parser.spec_owner(e),
                NodeKind::GivenEquality(g) => if g.0 < parser.eq_given@.len() {
                    match parser.eq_given@[g.0 as int] {
                        EqualityExpl::Literal { eq, .. } => parser.spec_owner(eq),
                        _ => None,
                    }
                } else {
                    None
                },
                _ => None,
            }
        } else {
            None
        }
    }

    /// The term behind a node that an edge blames.
    pub fn _get_blame_term(&self, blamed: RawNodeIndex, parser: &Z3Parser) -> (r: Option<TermIdx>)
        ensures
            r == self.spec_blame_term(blamed, parser),
    {
        if blamed.0 >= self.raw.node_count() {
            return None;
        }
        match self.raw.node(blamed).kind {
            NodeKind::ENode(e) => parser.owner(e),
            NodeKind::GivenEquality(g) => {
                if g.0 < parser.eq_given.len() {
                    match &parser.eq_given[g.0] {
                        EqualityExpl::Literal { eq, .. } => parser.owner(*eq),
                        _ => None,
                    }
                } else {
                    None
                }
            },
            _ => None,
        }
    }

    /// The trigger of an instantiation of a quantifier; nothing where the
    /// instantiation has no quantifier or no trigger.
    pub fn _get_pattern(&self, iidx: InstIdx, parser: &Z3Parser) -> (r: Option<TermIdx>)
        ensures
            r == match parser.spec_quant_pattern(iidx) {
                Some(key) => Some(key.1),
                None => None,
            },
    {
        match parser.quant_pattern(iidx) {
            Some(key) => Some(key.1),
            None => None,
        }
    }
}

/// The search found `k` matching loops in `before` and left `after`: the
/// nodes are disabled as they were; the visible nodes are those on a loop of
/// some quantifier; their visible graph is the graph of the loops, by which
/// the nodes are part of the loops; and every loop is folded into its graph.
pub open spec fn searched(before: &InstGraph, after: &InstGraph, parser_before: &Z3Parser, parser_after: &Z3Parser, k: usize) -> bool {
    &&& after.wf()
    &&& after.subgraphs == before.subgraphs
    &&& after.raw.same_but_loops(&before.raw)
    &&& forall|i: int|
        0 <= i < after.raw.nodes().len() ==> #[trigger] after.raw.disabled_at(i)
            == before.raw.disabled_at(i)
    &&& forall|i: int|
        0 <= i < after.raw.nodes().len() ==> #[trigger] after.raw.visible_at(i)
            == on_loop_of(&before.raw, parser_before, i)
    &&& after.spec_found() == Some(k)
    &&& after.analysis.matching_loop_graphs@.len() == k
    &&& exists|ml: VisibleGraph, during: RawGraph, ranked: Seq<usize>|
        #![auto]
        after.loops_are(&ml, &during, ranked)
    &&& forall|r: int|
        0 <= r < k ==> is_loop_graph_within(
            #[trigger] &after.analysis.matching_loop_graphs@[r],
            parser_before,
            parser_after,
            after.raw.loop_insts(r as usize),
        )
    &&& parser_after.terms.wf()
    &&& extends(parser_before.terms.rows(), parser_after.terms.rows())
    &&& parser_after.same_records(parser_before)
}

} // verus!
