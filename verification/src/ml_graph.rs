//! The graph of abstract instantiations that one matching loop folds into.

use vstd::prelude::*;
use petgraph::graph::Graph;
use petgraph::Directed;
use crate::digraph::{
    topology_edges, topology_neighbours, topology_new, topology_nodes, topology_add_node,
    topology_update_edge, topology_edge_count, topology_clone, neighbours_of,
};
use crate::idx::{QuantIdx, TermIdx};
use crate::matching_loop::{AbstractInst, AbstractKey, MlEquality, MlMatchedTerm};
use crate::model::Z3Parser;
use crate::terms::{
    extends, lemma_pattern_row_stays, lemma_tree_of_extends, pattern_row, without_vars, Terms,
};

verus! {

/// A node of the graph of a matching loop.
#[derive(Debug, Clone, Copy, Eq, Hash, PartialEq, Structural)]
pub enum MLGraphNode {
    /// An abstract instantiation: its quantifier and its generalised trigger.
    QI(QuantIdx, TermIdx),
    /// A generalised term that a trigger matched.
    ENode(TermIdx),
    /// A generalised equality, from one term to another.
    Equality(TermIdx, TermIdx),
}

/// The terms of the e-node labels among the first `upto` labels.
pub open spec fn enode_terms_upto(labels: Seq<MLGraphNode>, upto: int) -> Seq<TermIdx>
    decreases upto,
{
    if upto <= 0 || upto > labels.len() {
        Seq::empty()
    } else {
        let rest = enode_terms_upto(labels, upto - 1);
        match labels[upto - 1] {
            MLGraphNode::ENode(t) => rest.push(t),
            _ => rest,
        }
    }
}

/// The graph while it is built: the labels of its nodes, its edges, and the
/// node of each abstract instantiation that has one.
pub struct MlGraphModel {
    pub labels: Seq<MLGraphNode>,
    pub edges: Seq<(usize, usize)>,
    pub qi: Seq<(AbstractKey, usize)>,
}

/// Position `i` is the first entry of `qi` for `key`.
pub open spec fn is_first_qi(qi: Seq<(AbstractKey, usize)>, key: AbstractKey, i: int) -> bool {
    &&& 0 <= i < qi.len()
    &&& qi[i].0 == key
    &&& forall|j: int| 0 <= j < i ==> (#[trigger] qi[j]).0 != key
}

/// Position `i` is the first node with the label.
pub open spec fn is_first_label(labels: Seq<MLGraphNode>, label: MLGraphNode, i: int) -> bool {
    &&& 0 <= i < labels.len()
    &&& labels[i] == label
    &&& forall|j: int| 0 <= j < i ==> #[trigger] labels[j] != label
}

/// The generalised trigger that `patterns` lists first for `key`; the trigger
/// itself where it lists none.
pub open spec fn pattern_of(patterns: Seq<(AbstractKey, TermIdx)>, key: AbstractKey) -> TermIdx {
    if exists|i: int| is_first_qi_pattern(patterns, key, i) {
        patterns[choose|i: int| is_first_qi_pattern(patterns, key, i)].1
    } else {
        key.1
    }
}

/// Position `i` is the first entry of `patterns` for `key`.
pub open spec fn is_first_qi_pattern(patterns: Seq<(AbstractKey, TermIdx)>, key: AbstractKey, i: int) -> bool {
    &&& 0 <= i < patterns.len()
    &&& patterns[i].0 == key
    &&& forall|j: int| 0 <= j < i ==> (#[trigger] patterns[j]).0 != key
}

impl MlGraphModel {
    /// Every edge and every listed node lies within the graph.
    pub open spec fn wf(self) -> bool {
        &&& forall|i: int|
            0 <= i < self.edges.len() ==> (#[trigger] self.edges[i]).0 < self.labels.len()
                && self.edges[i].1 < self.labels.len()
        &&& forall|i: int| 0 <= i < self.qi.len() ==> (#[trigger] self.qi[i]).1 < self.labels.len()
        &&& self.labels.len() <= usize::MAX
    }

    /// The graph with an edge from `a` to `b`; unchanged where it has one.
    pub open spec fn with_edge(self, a: usize, b: usize) -> MlGraphModel {
        if self.edges.contains((a, b)) {
            self
        } else {
            MlGraphModel { edges: self.edges.push((a, b)), ..self }
        }
    }

    /// The first node with the label, which is added at the end where no
    /// node has it.
    pub open spec fn with_label(self, label: MLGraphNode) -> (MlGraphModel, usize) {
        if exists|i: int| is_first_label(self.labels, label, i) {
            (self, (choose|i: int| is_first_label(self.labels, label, i)) as usize)
        } else {
            (MlGraphModel { labels: self.labels.push(label), ..self }, self.labels.len() as usize)
        }
    }

    /// The node of an abstract instantiation, which is added at the end, with
    /// its generalised trigger, where it has none yet.
    pub open spec fn with_qi(self, patterns: Seq<(AbstractKey, TermIdx)>, key: AbstractKey) -> (
        MlGraphModel,
        usize,
    ) {
        if exists|i: int| is_first_qi(self.qi, key, i) {
            (self, self.qi[choose|i: int| is_first_qi(self.qi, key, i)].1)
        } else {
            (
                MlGraphModel {
                    labels: self.labels.push(MLGraphNode::QI(key.0, pattern_of(patterns, key))),
                    edges: self.edges,
                    qi: self.qi.push((key, self.labels.len() as usize)),
                },
                self.labels.len() as usize,
            )
        }
    }

    /// The graph with a matched term of the abstract instantiation at node
    /// `ix`: the node of the term, an edge from it to `ix`, the node of its
    /// creator, and an edge from that to the term.
    pub open spec fn with_matched(
        self,
        patterns: Seq<(AbstractKey, TermIdx)>,
        ix: usize,
        m: MlMatchedTerm,
    ) -> MlGraphModel {
        let (g1, en) = self.with_label(MLGraphNode::ENode(m.matched));
        let g2 = g1.with_edge(en, ix);
        let (g3, cx) = g2.with_qi(patterns, m.creator);
        g3.with_edge(cx, en)
    }

    /// The graph with the first `upto` matched terms of a list.
    pub open spec fn with_matched_upto(
        self,
        patterns: Seq<(AbstractKey, TermIdx)>,
        ix: usize,
        list: Seq<(usize, MlMatchedTerm)>,
        upto: int,
    ) -> MlGraphModel
        decreases upto,
    {
        if upto <= 0 || upto > list.len() {
            self
        } else {
            self.with_matched_upto(patterns, ix, list, upto - 1).with_matched(
                patterns,
                ix,
                list[upto - 1].1,
            )
        }
    }

    /// The graph with an edge to node `qx` from the node of each of the first
    /// `upto` creators.
    pub open spec fn with_creators_upto(
        self,
        patterns: Seq<(AbstractKey, TermIdx)>,
        qx: usize,
        creators: Seq<AbstractKey>,
        upto: int,
    ) -> MlGraphModel
        decreases upto,
    {
        if upto <= 0 || upto > creators.len() {
            self
        } else {
            let g = self.with_creators_upto(patterns, qx, creators, upto - 1);
            let (g1, cx) = g.with_qi(patterns, creators[upto - 1]);
            g1.with_edge(cx, qx)
        }
    }

    /// The graph with an equality of the abstract instantiation at node `ix`:
    /// nothing for an equality of a term with itself; else the node of the
    /// equality, an edge from it to `ix`, and an edge to it from the node of
    /// each creator.
    pub open spec fn with_equality(
        self,
        patterns: Seq<(AbstractKey, TermIdx)>,
        ix: usize,
        e: MlEquality,
    ) -> MlGraphModel {
        if e.from == e.to {
            self
        } else {
            let (g1, qx) = self.with_label(MLGraphNode::Equality(e.from, e.to));
            let g2 = g1.with_edge(qx, ix);
            g2.with_creators_upto(patterns, qx, e.creators@, e.creators@.len() as int)
        }
    }

    /// The graph with the first `upto` equalities of a list.
    pub open spec fn with_equalities_upto(
        self,
        patterns: Seq<(AbstractKey, TermIdx)>,
        ix: usize,
        list: Seq<(usize, MlEquality)>,
        upto: int,
    ) -> MlGraphModel
        decreases upto,
    {
        if upto <= 0 || upto > list.len() {
            self
        } else {
            self.with_equalities_upto(patterns, ix, list, upto - 1).with_equality(
                patterns,
                ix,
                list[upto - 1].1,
            )
        }
    }

    /// The graph with one abstract instantiation: its node, then its matched
    /// terms, then its equalities.
    pub open spec fn with_abstract(self, patterns: Seq<(AbstractKey, TermIdx)>, a: AbstractInst) -> MlGraphModel {
        let (g1, ix) = self.with_qi(patterns, a.id);
        let g2 = g1.with_matched_upto(
            patterns,
            ix,
            a.matched_terms@,
            a.matched_terms@.len() as int,
        );
        g2.with_equalities_upto(patterns, ix, a.equalities@, a.equalities@.len() as int)
    }

    /// The graph with the first `upto` abstract instantiations of a list.
    pub open spec fn with_abstracts_upto(
        self,
        patterns: Seq<(AbstractKey, TermIdx)>,
        state: Seq<AbstractInst>,
        upto: int,
    ) -> MlGraphModel
        decreases upto,
    {
        if upto <= 0 || upto > state.len() {
            self
        } else {
            self.with_abstracts_upto(patterns, state, upto - 1).with_abstract(
                patterns,
                state[upto - 1],
            )
        }
    }
}

/// The graph without nodes.
pub open spec fn empty_ml_graph() -> MlGraphModel {
    MlGraphModel { labels: Seq::empty(), edges: Seq::empty(), qi: Seq::empty() }
}

/// The graph of a list of abstract instantiations.
pub open spec fn ml_graph_of(patterns: Seq<(AbstractKey, TermIdx)>, state: Seq<AbstractInst>) -> MlGraphModel {
    empty_ml_graph().with_abstracts_upto(patterns, state, state.len() as int)
}

/// A key that is listed is listed first somewhere before.
pub proof fn lemma_first_listed(patterns: Seq<(AbstractKey, TermIdx)>, key: AbstractKey, i: int)
    requires
        0 <= i < patterns.len(),
        patterns[i].0 == key,
    ensures
        exists|f: int| is_first_qi_pattern(patterns, key, f),
    decreases i,
{
    if exists|j: int| 0 <= j < i && (#[trigger] patterns[j]).0 == key {
        let j = choose|j: int| 0 <= j < i && (#[trigger] patterns[j]).0 == key;
        lemma_first_listed(patterns, key, j);
    } else {
        assert(is_first_qi_pattern(patterns, key, i));
    }
}

/// The generalised trigger of a listed key is the row that stands for its
/// trigger in the table after.
pub proof fn lemma_pattern_of_listed(
    patterns: Seq<(AbstractKey, TermIdx)>,
    before: &Terms,
    after: &Terms,
    key: AbstractKey,
)
    requires
        patterns_ok(patterns, before, after),
        pattern_listed(patterns, key),
    ensures
        key.1.0 < before.rows().len(),
        pattern_of(patterns, key).0 < after.rows().len(),
        pattern_of(patterns, key).0 == pattern_row(after.rows(), key.1.0 as int),
{
    let i = choose|i: int| 0 <= i < patterns.len() && (#[trigger] patterns[i]).0 == key;
    lemma_first_listed(patterns, key, i);
    let f = choose|f: int| is_first_qi_pattern(patterns, key, f);
    assert(patterns[f].0 == key);
}

/// Whether an abstract instantiation names a key can be read off its rows.
pub proof fn lemma_names_rows(a: AbstractInst, key: AbstractKey)
    ensures
        names_key(a, key) == crate::folded::names_rows(crate::folded::rows_of(a), key),
{
    let r = crate::folded::rows_of(a);
    if names_key(a, key) {
        if a.id == key {
        } else if exists|k: int|
            0 <= k < a.matched_terms@.len() && (#[trigger] a.matched_terms@[k]).1.creator == key {
            let k = choose|k: int|
                0 <= k < a.matched_terms@.len() && (#[trigger] a.matched_terms@[k]).1.creator == key;
            assert(r.matched[k].1.creator == key);
        } else {
            let (k, c) = choose|k: int, c: int|
                0 <= k < a.equalities@.len() && 0 <= c < a.equalities@[k].1.creators@.len() && (
                #[trigger] a.equalities@[k].1.creators@[c]) == key;
            assert(r.equalities[k].creators[c] == key);
        }
    }
    if crate::folded::names_rows(r, key) {
        if r.id == key {
        } else if exists|k: int|
            0 <= k < r.matched.len() && (#[trigger] r.matched[k]).1.creator == key {
            let k = choose|k: int|
                0 <= k < r.matched.len() && (#[trigger] r.matched[k]).1.creator == key;
            assert(a.matched_terms@[k].1.creator == key);
        } else {
            let (k, c) = choose|k: int, c: int|
                0 <= k < r.equalities.len() && 0 <= c < r.equalities[k].creators.len() && (
                #[trigger] r.equalities[k].creators[c]) == key;
            assert(a.equalities@[k].1.creators@[c] == key);
        }
    }
}

/// Whether two lists give a key the same generalised trigger.
pub open spec fn same_pattern(
    one: Seq<(AbstractKey, TermIdx)>,
    other: Seq<(AbstractKey, TermIdx)>,
    key: AbstractKey,
) -> bool {
    pattern_of(one, key) == pattern_of(other, key)
}

impl MlGraphModel {
    /// The graph with matched terms depends on the list of generalised
    /// triggers only by the triggers of the creators.
    pub proof fn lemma_matched_alike(
        self,
        one: Seq<(AbstractKey, TermIdx)>,
        other: Seq<(AbstractKey, TermIdx)>,
        ix: usize,
        list: Seq<(usize, MlMatchedTerm)>,
        upto: int,
    )
        requires
            forall|j: int|
                0 <= j < list.len() ==> same_pattern(one, other, (#[trigger] list[j]).1.creator),
        ensures
            self.with_matched_upto(one, ix, list, upto) == self.with_matched_upto(
                other,
                ix,
                list,
                upto,
            ),
        decreases upto,
    {
        if 0 < upto <= list.len() {
            self.lemma_matched_alike(one, other, ix, list, upto - 1);
            assert(same_pattern(one, other, list[upto - 1].1.creator));
        }
    }

    /// The graph with the creators of an equality depends on the list of
    /// generalised triggers only by the triggers of the creators.
    pub proof fn lemma_creators_alike(
        self,
        one: Seq<(AbstractKey, TermIdx)>,
        other: Seq<(AbstractKey, TermIdx)>,
        qx: usize,
        creators: Seq<AbstractKey>,
        upto: int,
    )
        requires
            forall|c: int|
                0 <= c < creators.len() ==> same_pattern(one, other, #[trigger] creators[c]),
        ensures
            self.with_creators_upto(one, qx, creators, upto) == self.with_creators_upto(
                other,
                qx,
                creators,
                upto,
            ),
        decreases upto,
    {
        if 0 < upto <= creators.len() {
            self.lemma_creators_alike(one, other, qx, creators, upto - 1);
            assert(same_pattern(one, other, creators[upto - 1]));
        }
    }

    /// The graph with equalities depends on the equalities only by their
    /// sides and creators.
    pub proof fn lemma_equalities_alike(
        self,
        one: Seq<(AbstractKey, TermIdx)>,
        other: Seq<(AbstractKey, TermIdx)>,
        ix: usize,
        list: Seq<(usize, MlEquality)>,
        others: Seq<(usize, MlEquality)>,
        upto: int,
    )
        requires
            list.len() == others.len(),
            forall|j: int|
                0 <= j < list.len() ==> (#[trigger] list[j]).1.from == others[j].1.from
                    && list[j].1.to == others[j].1.to && list[j].1.creators@
                    == others[j].1.creators@,
            forall|j: int, c: int|
                0 <= j < list.len() && 0 <= c < list[j].1.creators@.len() ==> same_pattern(
                    one,
                    other,
                    #[trigger] list[j].1.creators@[c],
                ),
        ensures
            self.with_equalities_upto(one, ix, list, upto) == self.with_equalities_upto(
                other,
                ix,
                others,
                upto,
            ),
        decreases upto,
    {
        if 0 < upto <= list.len() {
            self.lemma_equalities_alike(one, other, ix, list, others, upto - 1);
            let g = self.with_equalities_upto(one, ix, list, upto - 1);
            let e = list[upto - 1].1;
            let f = others[upto - 1].1;
            assert(e.from == f.from && e.to == f.to && e.creators@ == f.creators@);
            if e.from != e.to {
                let (g1, qx) = g.with_label(MLGraphNode::Equality(e.from, e.to));
                let g2 = g1.with_edge(qx, ix);
                assert forall|c: int| 0 <= c < e.creators@.len() implies same_pattern(
                    one,
                    other,
                    #[trigger] e.creators@[c],
                ) by {
                    assert(same_pattern(one, other, list[upto - 1].1.creators@[c]));
                }
                g2.lemma_creators_alike(one, other, qx, e.creators@, e.creators@.len() as int);
            }
        }
    }

    /// The graph with an abstract instantiation depends on it only by its
    /// rows, and on the list of generalised triggers only by the triggers of
    /// the keys that it names.
    pub proof fn lemma_abstract_alike(
        self,
        one: Seq<(AbstractKey, TermIdx)>,
        other: Seq<(AbstractKey, TermIdx)>,
        a: AbstractInst,
        b: AbstractInst,
    )
        requires
            crate::folded::rows_of(a) == crate::folded::rows_of(b),
            forall|key: AbstractKey| #[trigger] names_key(a, key) ==> same_pattern(one, other, key),
        ensures
            self.with_abstract(one, a) == self.with_abstract(other, b),
    {
        assert(names_key(a, a.id));
        let (g1, ix) = self.with_qi(one, a.id);
        let list = a.matched_terms@;
        assert forall|j: int| 0 <= j < list.len() implies same_pattern(
            one,
            other,
            (#[trigger] list[j]).1.creator,
        ) by {
            assert(names_key(a, list[j].1.creator));
        }
        g1.lemma_matched_alike(one, other, ix, list, list.len() as int);
        let g2 = g1.with_matched_upto(one, ix, list, list.len() as int);
        let ea = crate::folded::equality_rows(a);
        let eb = crate::folded::equality_rows(b);
        assert(ea.len() == eb.len());
        assert forall|j: int| 0 <= j < a.equalities@.len() implies (#[trigger] a.equalities@[j]).1.from
            == b.equalities@[j].1.from && a.equalities@[j].1.to == b.equalities@[j].1.to
            && a.equalities@[j].1.creators@ == b.equalities@[j].1.creators@ by {
            assert(ea[j] == eb[j]);
        }
        assert forall|j: int, c: int|
            0 <= j < a.equalities@.len() && 0 <= c
                < a.equalities@[j].1.creators@.len() implies same_pattern(
            one,
            other,
            #[trigger] a.equalities@[j].1.creators@[c],
        ) by {
            assert(names_key(a, a.equalities@[j].1.creators@[c]));
        }
        g2.lemma_equalities_alike(
            one,
            other,
            ix,
            a.equalities@,
            b.equalities@,
            a.equalities@.len() as int,
        );
    }

    /// The graph with a list of abstract instantiations depends on them only
    /// by their rows, and on the list of generalised triggers only by the
    /// triggers of the keys that they name.
    pub proof fn lemma_abstracts_alike(
        self,
        one: Seq<(AbstractKey, TermIdx)>,
        other: Seq<(AbstractKey, TermIdx)>,
        state: Seq<AbstractInst>,
        others: Seq<AbstractInst>,
        upto: int,
    )
        requires
            crate::folded::abstract_rows(state) == crate::folded::abstract_rows(others),
            forall|a: int, key: AbstractKey|
                0 <= a < state.len() && names_key(#[trigger] state[a], key) ==> #[trigger] same_pattern(
                    one,
                    other,
                    key,
                ),
        ensures
            self.with_abstracts_upto(one, state, upto) == self.with_abstracts_upto(
                other,
                others,
                upto,
            ),
        decreases upto,
    {
        assert(crate::folded::abstract_rows(state).len() == state.len());
        assert(crate::folded::abstract_rows(others).len() == others.len());
        assert(state.len() == others.len());
        if 0 < upto <= state.len() {
            self.lemma_abstracts_alike(one, other, state, others, upto - 1);
            let g = self.with_abstracts_upto(one, state, upto - 1);
            assert(crate::folded::abstract_rows(state)[upto - 1] == crate::folded::rows_of(
                state[upto - 1],
            ));
            assert(crate::folded::abstract_rows(others)[upto - 1] == crate::folded::rows_of(
                others[upto - 1],
            ));
            assert forall|key: AbstractKey| #[trigger]
                names_key(state[upto - 1], key) implies same_pattern(one, other, key) by {
            }
            g.lemma_abstract_alike(one, other, state[upto - 1], others[upto - 1]);
        }
    }
}

/// The graph of one matching loop: labelled nodes and directed edges.
pub struct MlGraph {
    labels: Vec<MLGraphNode>,
    topology: Graph<(), (), Directed, usize>,
}

impl MlGraph {
    /// The labels of the nodes, by node.
    pub closed spec fn labels(&self) -> Seq<MLGraphNode> {
        self.labels@
    }

    /// The edges, each as source and target, in the order of their addition.
    pub closed spec fn edges(&self) -> Seq<(usize, usize)> {
        topology_edges(self.topology)
    }

    /// Every edge lies within the graph.
    pub closed spec fn wf(&self) -> bool {
        &&& topology_nodes(self.topology) == self.labels@.len()
        &&& forall|i: int|
            0 <= i < self.edges().len() ==> (#[trigger] self.edges()[i]).0 < self.labels().len()
                && self.edges()[i].1 < self.labels().len()
    }

    /// The graph without nodes.
    pub fn new() -> (g: MlGraph)
        ensures
            g.wf(),
            g.labels() == Seq::<MLGraphNode>::empty(),
            g.edges() == Seq::<(usize, usize)>::empty(),
    {
        MlGraph { labels: Vec::new(), topology: topology_new() }
    }

    pub fn node_count(&self) -> (n: usize)
        ensures
            n == self.labels().len(),
    {
        self.labels.len()
    }

    /// A copy of the graph.
    pub fn duplicate(&self) -> (g: MlGraph)
        ensures
            g.labels() == self.labels(),
            g.edges() == self.edges(),
            self.wf() ==> g.wf(),
    {
        let mut labels: Vec<MLGraphNode> = Vec::new();
        let mut i: usize = 0;
        while i < self.labels.len()
            invariant
                0 <= i <= self.labels@.len(),
                labels@ == self.labels@.subrange(0, i as int),
            decreases self.labels@.len() - i,
        {
            labels.push(self.labels[i]);
            assert(labels@ =~= self.labels@.subrange(0, i as int + 1));
            i += 1;
        }
        assert(labels@ =~= self.labels@);
        MlGraph { labels, topology: topology_clone(&self.topology) }
    }

    /// The generalised terms of the graph: the terms of its e-node labels,
    /// in the order of the nodes.
    pub fn enode_terms(&self) -> (r: Vec<TermIdx>)
        ensures
            r@ == enode_terms_upto(self.labels(), self.labels().len() as int),
    {
        let mut r: Vec<TermIdx> = Vec::new();
        let mut i: usize = 0;
        while i < self.labels.len()
            invariant
                0 <= i <= self.labels@.len(),
                r@ == enode_terms_upto(self.labels@, i as int),
            decreases self.labels@.len() - i,
        {
            match self.labels[i] {
                MLGraphNode::ENode(t) => {
                    r.push(t);
                },
                _ => {},
            }
            i += 1;
        }
        r
    }

    /// Whether the graph has no node.
    pub fn is_empty(&self) -> (r: bool)
        ensures
            r == (self.labels().len() == 0),
    {
        self.labels.len() == 0
    }

    pub fn edge_count(&self) -> (n: usize)
        ensures
            n == self.edges().len(),
    {
        topology_edge_count(&self.topology)
    }

    /// The label of a node.
    pub fn node_weight(&self, ix: usize) -> (r: Option<MLGraphNode>)
        ensures
            r == if ix < self.labels().len() {
                Some(self.labels()[ix as int])
            } else {
                None
            },
    {
        if ix < self.labels.len() {
            Some(self.labels[ix])
        } else {
            None
        }
    }

    /// The nodes that the edges from `ix` lead to (or, where `outgoing` is
    /// false, that the edges to `ix` come from), newest edge first.
    pub fn neighbors_directed(&self, ix: usize, outgoing: bool) -> (r: Vec<usize>)
        ensures
            r@ == neighbours_of(self.edges(), ix, outgoing),
    {
        if outgoing {
            topology_neighbours(&self.topology, ix, petgraph::Direction::Outgoing)
        } else {
            topology_neighbours(&self.topology, ix, petgraph::Direction::Incoming)
        }
    }
}

/// A graph under construction.
struct MlGraphBuilder {
    graph: MlGraph,
    qi: Vec<(AbstractKey, usize)>,
}

fn same_key(a: &AbstractKey, b: &AbstractKey) -> (r: bool)
    ensures
        r == (*a == *b),
{
    a.0 == b.0 && a.1 == b.1
}

/// The generalised trigger that `patterns` lists first for `key`; the trigger
/// itself where it lists none.
fn lookup_pattern(patterns: &Vec<(AbstractKey, TermIdx)>, key: &AbstractKey) -> (r: TermIdx)
    ensures
        r == pattern_of(patterns@, *key),
{
    let mut i: usize = 0;
    while i < patterns.len()
        invariant
            0 <= i <= patterns@.len(),
            forall|j: int| 0 <= j < i ==> (#[trigger] patterns@[j]).0 != *key,
        decreases patterns@.len() - i,
    {
        if same_key(&patterns[i].0, key) {
            assert(is_first_qi_pattern(patterns@, *key, i as int));
            let ghost c = choose|c: int| is_first_qi_pattern(patterns@, *key, c);
            assert(c == i);
            return patterns[i].1;
        }
        i += 1;
    }
    assert(!exists|c: int| is_first_qi_pattern(patterns@, *key, c));
    key.1
}

impl MlGraphBuilder {
    spec fn model(&self) -> MlGraphModel {
        MlGraphModel { labels: self.graph.labels(), edges: self.graph.edges(), qi: self.qi@ }
    }

    spec fn wf(&self) -> bool {
        self.graph.wf() && self.model().wf()
    }

    fn new() -> (b: MlGraphBuilder)
        ensures
            b.wf(),
            b.model() == empty_ml_graph(),
    {
        MlGraphBuilder { graph: MlGraph::new(), qi: Vec::new() }
    }

    fn add_edge(&mut self, a: usize, b: usize)
        requires
            old(self).wf(),
            a < old(self).model().labels.len(),
            b < old(self).model().labels.len(),
        ensures
            final(self).wf(),
            final(self).model() == old(self).model().with_edge(a, b),
    {
        topology_update_edge(&mut self.graph.topology, a, b);
        proof {
            let before = old(self).graph.edges();
            let after = self.graph.edges();
            assert forall|i: int| 0 <= i < after.len() implies (#[trigger] after[i]).0
                < self.graph.labels().len() && after[i].1 < self.graph.labels().len() by {
                if i < before.len() {
                    assert(after[i] == before[i]);
                }
            }
            let m = self.model();
            assert forall|i: int| 0 <= i < m.qi.len() implies (#[trigger] m.qi[i]).1
                < m.labels.len() by {
                assert(m.qi[i] == old(self).model().qi[i]);
            }
        }
    }

    fn add_label(&mut self, label: MLGraphNode) -> (ix: usize)
        requires
            old(self).wf(),
        ensures
            final(self).wf(),
            (final(self).model(), ix) == old(self).model().with_label(label),
            ix < final(self).model().labels.len(),
    {
        let mut i: usize = 0;
        while i < self.graph.labels.len()
            invariant
                0 <= i <= self.graph.labels@.len(),
                *self == *old(self),
                self.wf(),
                forall|j: int| 0 <= j < i ==> #[trigger] self.graph.labels@[j] != label,
            decreases self.graph.labels@.len() - i,
        {
            if self.graph.labels[i] == label {
                assert(is_first_label(self.graph.labels@, label, i as int));
                let ghost c = choose|c: int| is_first_label(self.graph.labels@, label, c);
                assert(c == i);
                return i;
            }
            i += 1;
        }
        assert(!exists|c: int| is_first_label(self.graph.labels@, label, c));
        let ix = topology_add_node(&mut self.graph.topology);
        self.graph.labels.push(label);
        let count = self.graph.labels.len();
        proof {
            let m = self.model();
            assert forall|i: int| 0 <= i < m.edges.len() implies (#[trigger] m.edges[i]).0
                < m.labels.len() && m.edges[i].1 < m.labels.len() by {
                assert(m.edges[i] == old(self).model().edges[i]);
            }
            assert forall|i: int| 0 <= i < m.qi.len() implies (#[trigger] m.qi[i]).1
                < m.labels.len() by {
                assert(m.qi[i] == old(self).model().qi[i]);
            }
        }
        ix
    }

    fn add_qi(&mut self, patterns: &Vec<(AbstractKey, TermIdx)>, key: AbstractKey) -> (ix: usize)
        requires
            old(self).wf(),
        ensures
            final(self).wf(),
            (final(self).model(), ix) == old(self).model().with_qi(patterns@, key),
            ix < final(self).model().labels.len(),
            old(self).model().labels.len() <= final(self).model().labels.len(),
    {
        let mut i: usize = 0;
        while i < self.qi.len()
            invariant
                0 <= i <= self.qi@.len(),
                *self == *old(self),
                self.wf(),
                forall|j: int| 0 <= j < i ==> (#[trigger] self.qi@[j]).0 != key,
            decreases self.qi@.len() - i,
        {
            if same_key(&self.qi[i].0, &key) {
                assert(is_first_qi(self.qi@, key, i as int));
                let ghost c = choose|c: int| is_first_qi(self.qi@, key, c);
                assert(c == i);
                assert(self.model().qi[i as int].1 < self.model().labels.len());
                return self.qi[i].1;
            }
            i += 1;
        }
        assert(!exists|c: int| is_first_qi(self.qi@, key, c));
        let pattern = lookup_pattern(patterns, &key);
        let ix = topology_add_node(&mut self.graph.topology);
        self.graph.labels.push(MLGraphNode::QI(key.0, pattern));
        self.qi.push((key, ix));
        let count = self.graph.labels.len();
        proof {
            let m = self.model();
            assert forall|i: int| 0 <= i < m.edges.len() implies (#[trigger] m.edges[i]).0
                < m.labels.len() && m.edges[i].1 < m.labels.len() by {
                assert(m.edges[i] == old(self).model().edges[i]);
            }
            assert forall|i: int| 0 <= i < m.qi.len() implies (#[trigger] m.qi[i]).1
                < m.labels.len() by {
                if i < old(self).model().qi.len() {
                    assert(m.qi[i] == old(self).model().qi[i]);
                }
            }
        }
        ix
    }

    fn add_matched(&mut self, patterns: &Vec<(AbstractKey, TermIdx)>, ix: usize, m: &MlMatchedTerm)
        requires
            old(self).wf(),
            ix < old(self).model().labels.len(),
        ensures
            final(self).wf(),
            final(self).model() == old(self).model().with_matched(patterns@, ix, *m),
            old(self).model().labels.len() <= final(self).model().labels.len(),
    {
        let en = self.add_label(MLGraphNode::ENode(m.matched));
        self.add_edge(en, ix);
        let cx = self.add_qi(patterns, m.creator);
        self.add_edge(cx, en);
    }

    fn add_equality(&mut self, patterns: &Vec<(AbstractKey, TermIdx)>, ix: usize, e: &MlEquality)
        requires
            old(self).wf(),
            ix < old(self).model().labels.len(),
        ensures
            final(self).wf(),
            final(self).model() == old(self).model().with_equality(patterns@, ix, *e),
            old(self).model().labels.len() <= final(self).model().labels.len(),
    {
        if e.from == e.to {
            return ;
        }
        let qx = self.add_label(MLGraphNode::Equality(e.from, e.to));
        self.add_edge(qx, ix);
        let ghost start = self.model();
        let mut k: usize = 0;
        while k < e.creators.len()
            invariant
                0 <= k <= e.creators@.len(),
                self.wf(),
                qx < self.model().labels.len(),
                old(self).model().labels.len() <= self.model().labels.len(),
                self.model() == start.with_creators_upto(patterns@, qx, e.creators@, k as int),
            decreases e.creators@.len() - k,
        {
            let cx = self.add_qi(patterns, e.creators[k]);
            self.add_edge(cx, qx);
            k += 1;
        }
    }

    fn add_abstract(&mut self, patterns: &Vec<(AbstractKey, TermIdx)>, a: &AbstractInst)
        requires
            old(self).wf(),
        ensures
            final(self).wf(),
            final(self).model() == old(self).model().with_abstract(patterns@, *a),
    {
        let ix = self.add_qi(patterns, a.id);
        let ghost start = self.model();
        let mut k: usize = 0;
        while k < a.matched_terms.len()
            invariant
                0 <= k <= a.matched_terms@.len(),
                self.wf(),
                ix < self.model().labels.len(),
                self.model() == start.with_matched_upto(patterns@, ix, a.matched_terms@, k as int),
            decreases a.matched_terms@.len() - k,
        {
            self.add_matched(patterns, ix, &a.matched_terms[k].1);
            k += 1;
        }
        let ghost mid = self.model();
        let mut k: usize = 0;
        while k < a.equalities.len()
            invariant
                0 <= k <= a.equalities@.len(),
                self.wf(),
                ix < self.model().labels.len(),
                mid == start.with_matched_upto(
                    patterns@,
                    ix,
                    a.matched_terms@,
                    a.matched_terms@.len() as int,
                ),
                self.model() == mid.with_equalities_upto(patterns@, ix, a.equalities@, k as int),
            decreases a.equalities@.len() - k,
        {
            self.add_equality(patterns, ix, &a.equalities[k].1);
            k += 1;
        }
    }
}

/// Builds the graph of a list of abstract instantiations. `patterns` gives
/// the generalised trigger of each abstract instantiation.
pub fn build_ml_graph(state: &Vec<AbstractInst>, patterns: &Vec<(AbstractKey, TermIdx)>) -> (g:
    MlGraph)
    ensures
        g.wf(),
        g.labels() == ml_graph_of(patterns@, state@).labels,
        g.edges() == ml_graph_of(patterns@, state@).edges,
{
    let mut b = MlGraphBuilder::new();
    let mut k: usize = 0;
    while k < state.len()
        invariant
            0 <= k <= state@.len(),
            b.wf(),
            b.model() == empty_ml_graph().with_abstracts_upto(patterns@, state@, k as int),
        decreases state@.len() - k,
    {
        b.add_abstract(patterns, &state[k]);
        k += 1;
    }
    b.graph
}

/// Every listed trigger is in the table before, and its generalisation in
/// the table after is the trigger with a placeholder for every variable: the
/// row that `pattern_row` names.
pub open spec fn patterns_ok(patterns: Seq<(AbstractKey, TermIdx)>, before: &Terms, after: &Terms) -> bool {
    forall|i: int|
        0 <= i < patterns.len() ==> (#[trigger] patterns[i]).0.1.0 < before.rows().len()
            && patterns[i].1.0 < after.rows().len() && after.tree(patterns[i].1) == without_vars(
            before.tree(patterns[i].0.1),
        ) && patterns[i].1.0 == pattern_row(after.rows(), patterns[i].0.1.0 as int)
}

/// Whether `patterns` has an entry for `key`.
pub open spec fn pattern_listed(patterns: Seq<(AbstractKey, TermIdx)>, key: AbstractKey) -> bool {
    exists|i: int| 0 <= i < patterns.len() && (#[trigger] patterns[i]).0 == key
}

/// Whether the abstract instantiation `a` names `key`: as itself, as the
/// creator of a matched term, or as a creator of an equality.
pub open spec fn names_key(a: AbstractInst, key: AbstractKey) -> bool {
    ||| a.id == key
    ||| exists|k: int|
        0 <= k < a.matched_terms@.len() && (#[trigger] a.matched_terms@[k]).1.creator == key
    ||| exists|k: int, c: int|
        0 <= k < a.equalities@.len() && 0 <= c < a.equalities@[k].1.creators@.len() && (
        #[trigger] a.equalities@[k].1.creators@[c]) == key
}

/// Every key that the state names, and whose trigger the table has, is
/// listed.
pub open spec fn patterns_cover(patterns: Seq<(AbstractKey, TermIdx)>, state: Seq<AbstractInst>, terms: &Terms) -> bool {
    forall|a: int, key: AbstractKey|
        0 <= a < state.len() && names_key(#[trigger] state[a], key) && key.1.0
            < terms.rows().len() ==> #[trigger] pattern_listed(patterns, key)
}

/// Lists the generalised trigger of `key`, unless `key` is listed or the
/// table lacked its trigger when it had `n0` rows.
fn list_pattern(
    patterns: &mut Vec<(AbstractKey, TermIdx)>,
    key: AbstractKey,
    parser: &mut Z3Parser,
    n0: usize,
    Ghost(terms0): Ghost<Terms>,
)
    requires
        old(parser).terms.wf(),
        n0 == terms0.rows().len(),
        extends(terms0.rows(), old(parser).terms.rows()),
        patterns_ok(old(patterns)@, &terms0, &old(parser).terms),
    ensures
        final(parser).terms.wf(),
        extends(old(parser).terms.rows(), final(parser).terms.rows()),
        final(parser).same_records(old(parser)),
        patterns_ok(final(patterns)@, &terms0, &final(parser).terms),
        extends_list(old(patterns)@, final(patterns)@),
        key.1.0 < n0 ==> pattern_listed(final(patterns)@, key),
{
    let mut i: usize = 0;
    while i < patterns.len()
        invariant
            0 <= i <= patterns@.len(),
            *patterns == *old(patterns),
            *parser == *old(parser),
            parser.terms.wf(),
            patterns_ok(patterns@, &terms0, &parser.terms),
            forall|j: int| 0 <= j < i ==> (#[trigger] patterns@[j]).0 != key,
        decreases patterns@.len() - i,
    {
        if same_key(&patterns[i].0, &key) {
            return ;
        }
        i += 1;
    }
    if key.1.0 >= n0 {
        return ;
    }
    let ghost before = parser.terms;
    match parser.terms.generalise_pattern(key.1) {
        Some(t) => {
            proof {
                let after = parser.terms;
                assert forall|j: int| 0 <= j < patterns@.len() implies (#[trigger] patterns@[j]).1.0
                    < after.rows().len() && after.tree(patterns@[j].1) == without_vars(
                    terms0.tree(patterns@[j].0.1),
                ) && patterns@[j].1.0 == pattern_row(after.rows(), patterns@[j].0.1.0 as int) by {
                    lemma_tree_of_extends(before.rows(), after.rows(), patterns@[j].1.0 as int);
                    lemma_pattern_row_stays(
                        before.rows(),
                        after.rows(),
                        patterns@[j].0.1.0 as int,
                    );
                }
                lemma_tree_of_extends(terms0.rows(), before.rows(), key.1.0 as int);
            }
            patterns.push((key, t));
            assert(patterns@[patterns@.len() - 1].0 == key);
        },
        None => {},
    }
}

/// Whether every key that the first `upto` abstract instantiations name, and
/// whose trigger is among the first `n0` rows, is listed.
pub open spec fn patterns_cover_upto(
    patterns: Seq<(AbstractKey, TermIdx)>,
    state: Seq<AbstractInst>,
    upto: int,
    n0: nat,
) -> bool {
    forall|a: int, key: AbstractKey|
        0 <= a < upto && a < state.len() && names_key(#[trigger] state[a], key) && key.1.0 < n0
            ==> #[trigger] pattern_listed(patterns, key)
}

/// A key that is listed stays listed when the list grows.
proof fn lemma_listed_stays(
    shorter: Seq<(AbstractKey, TermIdx)>,
    longer: Seq<(AbstractKey, TermIdx)>,
    key: AbstractKey,
)
    requires
        extends_list(shorter, longer),
        pattern_listed(shorter, key),
    ensures
        pattern_listed(longer, key),
{
    let i = choose|i: int| 0 <= i < shorter.len() && (#[trigger] shorter[i]).0 == key;
    assert(longer[i].0 == key);
}

/// Lists the generalised trigger of every abstract instantiation that the
/// state names and whose trigger the table has.
pub fn generalise_patterns(state: &Vec<AbstractInst>, parser: &mut Z3Parser) -> (patterns: Vec<
    (AbstractKey, TermIdx),
>)
    requires
        old(parser).terms.wf(),
    ensures
        final(parser).terms.wf(),
        extends(old(parser).terms.rows(), final(parser).terms.rows()),
        final(parser).same_records(old(parser)),
        patterns_ok(patterns@, &old(parser).terms, &final(parser).terms),
        patterns_cover(patterns@, state@, &old(parser).terms),
{
    let n0 = parser.terms.len();
    let ghost terms0 = parser.terms;
    generalise_patterns_from(state, parser, n0, Ghost(terms0))
}

/// Lists the generalised trigger of every abstract instantiation that the
/// state names and whose trigger is among the first `n0` rows of the table.
pub(crate) fn generalise_patterns_from(
    state: &Vec<AbstractInst>,
    parser: &mut Z3Parser,
    n0: usize,
    Ghost(terms0): Ghost<Terms>,
) -> (patterns: Vec<(AbstractKey, TermIdx)>)
    requires
        old(parser).terms.wf(),
        n0 == terms0.rows().len(),
        extends(terms0.rows(), old(parser).terms.rows()),
    ensures
        final(parser).terms.wf(),
        extends(old(parser).terms.rows(), final(parser).terms.rows()),
        final(parser).same_records(old(parser)),
        patterns_ok(patterns@, &terms0, &final(parser).terms),
        patterns_cover(patterns@, state@, &terms0),
        state@.len() == 0 ==> patterns@.len() == 0 && final(parser).terms.rows() == old(parser).terms.rows(),
{
    let mut patterns: Vec<(AbstractKey, TermIdx)> = Vec::new();
    let ghost start = parser.terms;

    let mut a: usize = 0;
    while a < state.len()
        invariant
            0 <= a <= state@.len(),
            parser.terms.wf(),
            n0 == terms0.rows().len(),
            start == old(parser).terms,
            extends(terms0.rows(), parser.terms.rows()),
            extends(start.rows(), parser.terms.rows()),
            parser.same_records(old(parser)),
            patterns_ok(patterns@, &terms0, &parser.terms),
            patterns_cover_upto(patterns@, state@, a as int, n0 as nat),
            state@.len() == 0 ==> patterns@.len() == 0 && parser.terms.rows() == start.rows(),
        decreases state@.len() - a,
    {
        let ghost listed0 = patterns@;
        let inst = &state[a];
        list_pattern(&mut patterns, inst.id, parser, n0, Ghost(terms0));
        let ghost listed1 = patterns@;
        let mut k: usize = 0;
        while k < inst.matched_terms.len()
            invariant
                0 <= k <= inst.matched_terms@.len(),
                parser.terms.wf(),
                n0 == terms0.rows().len(),
                extends(terms0.rows(), parser.terms.rows()),
                extends(start.rows(), parser.terms.rows()),
                start == old(parser).terms,
                parser.same_records(old(parser)),
                patterns_ok(patterns@, &terms0, &parser.terms),
                extends_list(listed1, patterns@),
                forall|j: int|
                    0 <= j < k && (#[trigger] inst.matched_terms@[j]).1.creator.1.0 < n0
                        ==> pattern_listed(patterns@, inst.matched_terms@[j].1.creator),
            decreases inst.matched_terms@.len() - k,
        {
            let ghost prev = patterns@;
            list_pattern(&mut patterns, inst.matched_terms[k].1.creator, parser, n0, Ghost(terms0));
            proof {
                assert forall|j: int|
                    0 <= j < k && (#[trigger] inst.matched_terms@[j]).1.creator.1.0
                        < n0 implies pattern_listed(patterns@, inst.matched_terms@[j].1.creator) by {
                    lemma_listed_stays(prev, patterns@, inst.matched_terms@[j].1.creator);
                }
            }
            k += 1;
        }
        let ghost listed2 = patterns@;
        let mut k: usize = 0;
        while k < inst.equalities.len()
            invariant
                0 <= k <= inst.equalities@.len(),
                parser.terms.wf(),
                n0 == terms0.rows().len(),
                extends(terms0.rows(), parser.terms.rows()),
                extends(start.rows(), parser.terms.rows()),
                start == old(parser).terms,
                parser.same_records(old(parser)),
                patterns_ok(patterns@, &terms0, &parser.terms),
                extends_list(listed2, patterns@),
                forall|j: int, c: int|
                    0 <= j < k && 0 <= c < inst.equalities@[j].1.creators@.len() && (
                    #[trigger] inst.equalities@[j].1.creators@[c]).1.0 < n0 ==> pattern_listed(
                        patterns@,
                        inst.equalities@[j].1.creators@[c],
                    ),
            decreases inst.equalities@.len() - k,
        {
            let creators = &inst.equalities[k].1.creators;
            let ghost at_k = patterns@;
            let mut c: usize = 0;
            while c < creators.len()
                invariant
                    0 <= c <= creators@.len(),
                    parser.terms.wf(),
                    n0 == terms0.rows().len(),
                    extends(terms0.rows(), parser.terms.rows()),
                    extends(start.rows(), parser.terms.rows()),
                    start == old(parser).terms,
                    parser.same_records(old(parser)),
                    patterns_ok(patterns@, &terms0, &parser.terms),
                    extends_list(at_k, patterns@),
                    forall|d: int|
                        0 <= d < c && (#[trigger] creators@[d]).1.0 < n0 ==> pattern_listed(
                            patterns@,
                            creators@[d],
                        ),
                decreases creators@.len() - c,
            {
                let ghost prev = patterns@;
                list_pattern(&mut patterns, creators[c], parser, n0, Ghost(terms0));
                proof {
                    assert forall|d: int|
                        0 <= d < c && (#[trigger] creators@[d]).1.0 < n0 implies pattern_listed(
                        patterns@,
                        creators@[d],
                    ) by {
                        lemma_listed_stays(prev, patterns@, creators@[d]);
                    }
                }
                c += 1;
            }
            proof {
                assert forall|j: int, d: int|
                    0 <= j < k + 1 && 0 <= d < inst.equalities@[j].1.creators@.len() && (
                    #[trigger] inst.equalities@[j].1.creators@[d]).1.0 < n0 implies pattern_listed(
                    patterns@,
                    inst.equalities@[j].1.creators@[d],
                ) by {
                    if j < k {
                        lemma_listed_stays(at_k, patterns@, inst.equalities@[j].1.creators@[d]);
                    }
                }
            }
            k += 1;
        }
        proof {
            assert forall|b: int, key: AbstractKey|
                0 <= b < a + 1 && b < state@.len() && names_key(#[trigger] state@[b], key)
                    && key.1.0 < n0 implies #[trigger] pattern_listed(patterns@, key) by {
                if b < a {
                    assert(pattern_listed(listed0, key));
                    lemma_listed_stays(listed0, listed1, key);
                    lemma_listed_stays(listed1, listed2, key);
                    lemma_listed_stays(listed2, patterns@, key);
                } else {
                    if inst.id == key {
                        lemma_listed_stays(listed1, listed2, key);
                        lemma_listed_stays(listed2, patterns@, key);
                    } else if exists|k: int|
                        0 <= k < inst.matched_terms@.len() && (
                        #[trigger] inst.matched_terms@[k]).1.creator == key {
                        lemma_listed_stays(listed2, patterns@, key);
                    } else {
                    }
                }
            }
        }
        a += 1;
    }
    patterns
}

/// `longer` starts with the entries of `shorter`.
pub open spec fn extends_list(shorter: Seq<(AbstractKey, TermIdx)>, longer: Seq<(AbstractKey, TermIdx)>) -> bool {
    &&& shorter.len() <= longer.len()
    &&& forall|i: int| 0 <= i < shorter.len() ==> #[trigger] longer[i] == shorter[i]
}

impl MlGraphModel {
    /// A graph that lists a node for an abstract instantiation has a node.
    pub open spec fn inhabited(self) -> bool {
        self.qi.len() > 0 ==> self.labels.len() > 0
    }

    /// The graph loses no node to more matched terms.
    pub proof fn lemma_matched_keep_nodes(
        self,
        patterns: Seq<(AbstractKey, TermIdx)>,
        ix: usize,
        list: Seq<(usize, MlMatchedTerm)>,
        upto: int,
    )
        requires
            self.inhabited(),
        ensures
            self.labels.len() <= self.with_matched_upto(patterns, ix, list, upto).labels.len(),
            self.with_matched_upto(patterns, ix, list, upto).inhabited(),
        decreases upto,
    {
        if 0 < upto <= list.len() {
            self.lemma_matched_keep_nodes(patterns, ix, list, upto - 1);
        }
    }

    /// The graph loses no node to more creators.
    pub proof fn lemma_creators_keep_nodes(
        self,
        patterns: Seq<(AbstractKey, TermIdx)>,
        qx: usize,
        creators: Seq<AbstractKey>,
        upto: int,
    )
        requires
            self.inhabited(),
        ensures
            self.labels.len() <= self.with_creators_upto(patterns, qx, creators, upto).labels.len(),
            self.with_creators_upto(patterns, qx, creators, upto).inhabited(),
        decreases upto,
    {
        if 0 < upto <= creators.len() {
            self.lemma_creators_keep_nodes(patterns, qx, creators, upto - 1);
        }
    }

    /// The graph loses no node to more equalities.
    pub proof fn lemma_equalities_keep_nodes(
        self,
        patterns: Seq<(AbstractKey, TermIdx)>,
        ix: usize,
        list: Seq<(usize, MlEquality)>,
        upto: int,
    )
        requires
            self.inhabited(),
        ensures
            self.labels.len() <= self.with_equalities_upto(patterns, ix, list, upto).labels.len(),
            self.with_equalities_upto(patterns, ix, list, upto).inhabited(),
        decreases upto,
    {
        if 0 < upto <= list.len() {
            self.lemma_equalities_keep_nodes(patterns, ix, list, upto - 1);
            let g = self.with_equalities_upto(patterns, ix, list, upto - 1);
            let e = list[upto - 1].1;
            if e.from != e.to {
                let (g1, qx) = g.with_label(MLGraphNode::Equality(e.from, e.to));
                let g2 = g1.with_edge(qx, ix);
                g2.lemma_creators_keep_nodes(patterns, qx, e.creators@, e.creators@.len() as int);
            }
        }
    }

    /// The graph has a node after an abstract instantiation was added.
    pub proof fn lemma_abstract_adds_node(self, patterns: Seq<(AbstractKey, TermIdx)>, a: AbstractInst)
        requires
            self.inhabited(),
        ensures
            self.with_abstract(patterns, a).labels.len() > 0,
            self.with_abstract(patterns, a).inhabited(),
    {
        let (g1, ix) = self.with_qi(patterns, a.id);
        if exists|i: int| is_first_qi(self.qi, a.id, i) {
            let i = choose|i: int| is_first_qi(self.qi, a.id, i);
        }
        assert(g1.labels.len() > 0);
        g1.lemma_matched_keep_nodes(patterns, ix, a.matched_terms@, a.matched_terms@.len() as int);
        let g2 = g1.with_matched_upto(patterns, ix, a.matched_terms@, a.matched_terms@.len() as int);
        g2.lemma_equalities_keep_nodes(patterns, ix, a.equalities@, a.equalities@.len() as int);
    }

    /// Adding abstract instantiations keeps a graph inhabited.
    pub proof fn lemma_abstracts_inhabited(
        self,
        patterns: Seq<(AbstractKey, TermIdx)>,
        state: Seq<AbstractInst>,
        upto: int,
    )
        requires
            self.inhabited(),
        ensures
            self.with_abstracts_upto(patterns, state, upto).inhabited(),
        decreases upto,
    {
        if 0 < upto <= state.len() {
            self.lemma_abstracts_inhabited(patterns, state, upto - 1);
            self.with_abstracts_upto(patterns, state, upto - 1).lemma_abstract_adds_node(
                patterns,
                state[upto - 1],
            );
        }
    }
}

/// The graph of a matching loop has no node exactly if its instantiations
/// fold into no abstract instantiation.
pub proof fn lemma_ml_graph_empty(patterns: Seq<(AbstractKey, TermIdx)>, state: Seq<AbstractInst>)
    ensures
        ml_graph_of(patterns, state).labels.len() == 0 <==> state.len() == 0,
{
    if state.len() > 0 {
        empty_ml_graph().lemma_abstracts_inhabited(patterns, state, state.len() - 1);
        empty_ml_graph().with_abstracts_upto(patterns, state, state.len() - 1).lemma_abstract_adds_node(
            patterns,
            state[state.len() - 1],
        );
    }
}

} // verus!
