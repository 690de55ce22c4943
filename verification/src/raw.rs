//! The raw dependency graph: one node per event of the trace, and an edge
//! from each event to every later event that rests on it.

use vstd::prelude::*;
use roaring::RoaringBitmap;
use crate::bitmap::{bitmap_new, bitmap_values};
use crate::dag::{edge_in, lemma_edge_in_push, Dag};
use crate::error::Error;
use crate::idx::{InstIdx, QuantIdx, RawNodeIndex};
use crate::items::BlameKind;
use crate::model::{EqualityExpl, NodeKind, Z3Parser};

verus! {

/// Why one event rests on another.
#[derive(Clone, Copy, Debug, PartialEq, Eq, Structural)]
pub enum EdgeKind {
    /// The instantiation matched the e-node.
    TermBlame,
    /// The instantiation used the equality.
    EqualityBlame,
    /// The instantiation produced the e-node.
    YieldsENode,
    /// The equality is made of the other equality, or of the literal.
    EqualityComposition,
}

/// A set of raw nodes that a dataflow pass found for a node.
pub struct NextInsts {
    pub nodes: RoaringBitmap,
}

impl NextInsts {
    /// The nodes of the set.
    pub open spec fn values(&self) -> Set<u32> {
        bitmap_values(self.nodes)
    }

    /// The empty set.
    pub fn empty() -> (r: NextInsts)
        ensures
            r.values() == Set::<u32>::empty(),
    {
        NextInsts { nodes: bitmap_new() }
    }
}

/// A node of the raw graph.
pub struct Node {
    pub kind: NodeKind,
    /// A disabled node takes no part in an analysis.
    pub disabled: bool,
    /// A node that is not visible is left out of the visible graph.
    pub visible: bool,
    pub min_depth: Option<u32>,
    pub max_depth: Option<u32>,
    /// The component of the node and its position in it.
    pub subgraph: Option<(u32, u32)>,
    /// The matching loops that the node is part of, by rank.
    pub part_of_ml: Vec<usize>,
    pub inst_parents: NextInsts,
    pub inst_children: NextInsts,
    pub enabled_parents: NextInsts,
    pub enabled_children: NextInsts,
}

impl Node {
    /// A node that is enabled and visible and that no analysis has seen.
    pub fn new(kind: NodeKind) -> (r: Node)
        ensures
            r.kind == kind,
            !r.disabled,
            r.visible,
            r.min_depth is None,
            r.max_depth is None,
            r.subgraph is None,
            r.part_of_ml@.len() == 0,
            r.inst_parents.values() == Set::<u32>::empty(),
            r.inst_children.values() == Set::<u32>::empty(),
            r.enabled_parents.values() == Set::<u32>::empty(),
            r.enabled_children.values() == Set::<u32>::empty(),
    {
        Node {
            kind,
            disabled: false,
            visible: true,
            min_depth: None,
            max_depth: None,
            subgraph: None,
            part_of_ml: Vec::new(),
            inst_parents: NextInsts::empty(),
            inst_children: NextInsts::empty(),
            enabled_parents: NextInsts::empty(),
            enabled_children: NextInsts::empty(),
        }
    }

    /// Whether the node is as `new` makes it.
    pub open spec fn fresh(&self, kind: NodeKind) -> bool {
        &&& self.kind == kind
        &&& !self.disabled
        &&& self.visible
        &&& self.min_depth is None
        &&& self.max_depth is None
        &&& self.subgraph is None
        &&& self.part_of_ml@.len() == 0
        &&& self.inst_parents.values() == Set::<u32>::empty()
        &&& self.inst_children.values() == Set::<u32>::empty()
        &&& self.enabled_parents.values() == Set::<u32>::empty()
        &&& self.enabled_children.values() == Set::<u32>::empty()
    }

    /// Whether two nodes differ at most in being disabled or visible.
    pub open spec fn same_but_masks(&self, other: &Node) -> bool {
        &&& self.kind == other.kind
        &&& self.min_depth == other.min_depth
        &&& self.max_depth == other.max_depth
        &&& self.subgraph == other.subgraph
        &&& self.part_of_ml == other.part_of_ml
        &&& self.inst_parents == other.inst_parents
        &&& self.inst_children == other.inst_children
        &&& self.enabled_parents == other.enabled_parents
        &&& self.enabled_children == other.enabled_children
    }

    /// Whether two nodes differ at most in their masks and in the matching
    /// loops that they are part of.
    pub open spec fn same_but_loops(&self, other: &Node) -> bool {
        &&& self.kind == other.kind
        &&& self.min_depth == other.min_depth
        &&& self.max_depth == other.max_depth
        &&& self.subgraph == other.subgraph
        &&& self.inst_parents == other.inst_parents
        &&& self.inst_children == other.inst_children
        &&& self.enabled_parents == other.enabled_parents
        &&& self.enabled_children == other.enabled_children
    }

    /// Whether two nodes differ at most in their component and position.
    pub open spec fn same_but_subgraph(&self, other: &Node) -> bool {
        &&& self.kind == other.kind
        &&& self.disabled == other.disabled
        &&& self.visible == other.visible
        &&& self.min_depth == other.min_depth
        &&& self.max_depth == other.max_depth
        &&& self.part_of_ml == other.part_of_ml
        &&& self.inst_parents == other.inst_parents
        &&& self.inst_children == other.inst_children
        &&& self.enabled_parents == other.enabled_parents
        &&& self.enabled_children == other.enabled_children
    }

    /// Whether two nodes differ at most in their depths.
    pub open spec fn same_but_depths(&self, other: &Node) -> bool {
        &&& self.kind == other.kind
        &&& self.disabled == other.disabled
        &&& self.visible == other.visible
        &&& self.subgraph == other.subgraph
        &&& self.part_of_ml == other.part_of_ml
        &&& self.inst_parents == other.inst_parents
        &&& self.inst_children == other.inst_children
        &&& self.enabled_parents == other.enabled_parents
        &&& self.enabled_children == other.enabled_children
    }

    /// Whether the node is shown: visible and not disabled.
    pub open spec fn shown(&self) -> bool {
        self.visible && !self.disabled
    }

    pub fn kind(&self) -> (r: &NodeKind)
        ensures
            *r == self.kind,
    {
        &self.kind
    }

    pub fn disabled(&self) -> (r: bool)
        ensures
            r == self.disabled,
    {
        self.disabled
    }

    pub fn is_shown(&self) -> (r: bool)
        ensures
            r == self.shown(),
    {
        self.visible && !self.disabled
    }
}

/// The position of the first of the first `upto` events that is `kind`.
pub open spec fn first_pos(events: Seq<NodeKind>, kind: NodeKind, upto: int) -> Option<int>
    decreases upto,
{
    if upto <= 0 || upto > events.len() {
        None
    } else {
        match first_pos(events, kind, upto - 1) {
            Some(j) => Some(j),
            None => if events[upto - 1] == kind {
                Some(upto - 1)
            } else {
                None
            },
        }
    }
}

/// The first position lies below the bound and holds the event; where there
/// is none, no position below the bound holds it.
pub proof fn lemma_first_pos(events: Seq<NodeKind>, kind: NodeKind, upto: int)
    requires
        0 <= upto <= events.len(),
    ensures
        match first_pos(events, kind, upto) {
            Some(j) => 0 <= j < upto && events[j] == kind && forall|k: int|
                0 <= k < j ==> events[k] != kind,
            None => forall|k: int| 0 <= k < upto ==> events[k] != kind,
        },
    decreases upto,
{
    if upto > 0 {
        lemma_first_pos(events, kind, upto - 1);
    }
}

/// The event that a blame names.
pub open spec fn blame_event(b: BlameKind) -> NodeKind {
    match b {
        BlameKind::Term { term } => NodeKind::ENode(term),
        BlameKind::Equality { eq } => NodeKind::TransEquality(eq),
    }
}

impl Z3Parser {
    /// Whether the tables have the record of an event.
    pub open spec fn event_known(&self, kind: NodeKind) -> bool {
        match kind {
            NodeKind::ENode(e) => e.0 < self.enodes@.len(),
            NodeKind::GivenEquality(g) => g.0 < self.eq_given@.len(),
            NodeKind::TransEquality(t) => t.0 < self.eq_trans@.len(),
            NodeKind::Instantiation(i) => i.0 < self.insts@.len() && self.insts@[i.0 as int].match_.0
                < self.matches@.len(),
        }
    }

    /// The events that an event rests on: an e-node on the instantiation that
    /// produced it, an instantiation on what it is blamed on, a given
    /// equality on its literal or on the equalities of its arguments, a
    /// transitive equality on the given equalities of its chain.
    pub open spec fn event_deps(&self, kind: NodeKind) -> Seq<NodeKind> {
        if !self.event_known(kind) {
            Seq::empty()
        } else {
            match kind {
                NodeKind::ENode(e) => match self.enodes@[e.0 as int].created_by {
                    Some(ci) => seq![NodeKind::Instantiation(ci)],
                    None => Seq::empty(),
                },
                NodeKind::Instantiation(i) => {
                    let blamed = self.matches@[self.insts@[i.0 as int].match_.0 as int].blamed@;
                    Seq::new(blamed.len(), |k: int| blame_event(blamed[k]))
                },
                NodeKind::GivenEquality(g) => match self.eq_given@[g.0 as int] {
                    EqualityExpl::Literal { eq, .. } => seq![NodeKind::ENode(eq)],
                    EqualityExpl::Congruence { uses, .. } => Seq::new(
                        uses@.len(),
                        |k: int| NodeKind::TransEquality(uses@[k]),
                    ),
                    _ => Seq::empty(),
                },
                NodeKind::TransEquality(t) => {
                    let path = self.eq_trans@[t.0 as int].path@;
                    Seq::new(path.len(), |k: int| NodeKind::GivenEquality(path[k]))
                },
            }
        }
    }

    /// The kind of the edge that enters an event from one that it rests on.
    pub open spec fn spec_dep_kind(kind: NodeKind, dep: NodeKind) -> EdgeKind {
        match kind {
            NodeKind::ENode(_) => EdgeKind::YieldsENode,
            NodeKind::Instantiation(_) => match dep {
                NodeKind::ENode(_) => EdgeKind::TermBlame,
                _ => EdgeKind::EqualityBlame,
            },
            _ => EdgeKind::EqualityComposition,
        }
    }

    /// Whether event `i` can take its place in the graph: the tables have its
    /// record, and every event that it rests on was emitted before it.
    pub open spec fn event_ok(&self, i: int) -> bool {
        &&& self.event_known(self.events@[i])
        &&& forall|k: int|
            0 <= k < self.event_deps(self.events@[i]).len() ==> first_pos(
                self.events@,
                #[trigger] self.event_deps(self.events@[i])[k],
                i,
            ) is Some
    }

    /// Whether event `v` rests on event `u`: `u` is the first event of its
    /// kind, and `v` names that kind.
    pub open spec fn rests_on(&self, u: int, v: int) -> bool {
        &&& 0 <= v < self.events@.len()
        &&& exists|k: int|
            0 <= k < self.event_deps(self.events@[v]).len() && first_pos(
                self.events@,
                #[trigger] self.event_deps(self.events@[v])[k],
                v,
            ) == Some(u)
    }

    /// The same, for the first `upto` events that `v` names.
    pub open spec fn rests_on_upto(&self, u: int, v: int, upto: int) -> bool {
        &&& 0 <= v < self.events@.len()
        &&& exists|k: int|
            0 <= k < upto && k < self.event_deps(self.events@[v]).len() && first_pos(
                self.events@,
                #[trigger] self.event_deps(self.events@[v])[k],
                v,
            ) == Some(u)
    }

    /// Every event can take its place in the graph.
    pub open spec fn causal(&self) -> bool {
        forall|i: int| 0 <= i < self.events@.len() ==> self.event_ok(i)
    }

    /// Event `i` is the first that cannot take its place in the graph.
    pub open spec fn first_bad(&self, i: int) -> bool {
        &&& 0 <= i < self.events@.len()
        &&& !self.event_ok(i)
        &&& forall|j: int| 0 <= j < i ==> self.event_ok(j)
    }

    pub fn is_event_known(&self, kind: NodeKind) -> (r: bool)
        ensures
            r == self.event_known(kind),
    {
        match kind {
            NodeKind::ENode(e) => e.0 < self.enodes.len(),
            NodeKind::GivenEquality(g) => g.0 < self.eq_given.len(),
            NodeKind::TransEquality(t) => t.0 < self.eq_trans.len(),
            NodeKind::Instantiation(i) => i.0 < self.insts.len() && self.insts[i.0].match_.0
                < self.matches.len(),
        }
    }

    /// The events that an event rests on.
    pub fn deps_of(&self, kind: NodeKind) -> (r: Vec<NodeKind>)
        ensures
            r@ == self.event_deps(kind),
    {
        let mut out: Vec<NodeKind> = Vec::new();
        if !self.is_event_known(kind) {
            return out;
        }
        match kind {
            NodeKind::ENode(e) => {
                match self.enodes[e.0].created_by {
                    Some(ci) => {
                        out.push(NodeKind::Instantiation(ci));
                        assert(out@ =~= seq![NodeKind::Instantiation(ci)]);
                    },
                    None => {},
                }
            },
            NodeKind::Instantiation(i) => {
                let blamed = &self.matches[self.insts[i.0].match_.0].blamed;
                let mut k: usize = 0;
                while k < blamed.len()
                    invariant
                        0 <= k <= blamed@.len(),
                        out@.len() == k,
                        forall|j: int| 0 <= j < k ==> out@[j] == blame_event(blamed@[j]),
                    decreases blamed@.len() - k,
                {
                    let ev = match blamed[k] {
                        BlameKind::Term { term } => NodeKind::ENode(term),
                        BlameKind::Equality { eq } => NodeKind::TransEquality(eq),
                    };
                    out.push(ev);
                    k += 1;
                }
                assert(out@ =~= self.event_deps(kind));
            },
            NodeKind::GivenEquality(g) => {
                match &self.eq_given[g.0] {
                    EqualityExpl::Literal { eq, .. } => {
                        out.push(NodeKind::ENode(*eq));
                        assert(out@ =~= seq![NodeKind::ENode(*eq)]);
                    },
                    EqualityExpl::Congruence { uses, .. } => {
                        let mut k: usize = 0;
                        while k < uses.len()
                            invariant
                                0 <= k <= uses@.len(),
                                out@.len() == k,
                                forall|j: int|
                                    0 <= j < k ==> out@[j] == NodeKind::TransEquality(uses@[j]),
                            decreases uses@.len() - k,
                        {
                            out.push(NodeKind::TransEquality(uses[k]));
                            k += 1;
                        }
                        assert(out@ =~= self.event_deps(kind));
                    },
                    _ => {},
                }
            },
            NodeKind::TransEquality(t) => {
                let path = &self.eq_trans[t.0].path;
                let mut k: usize = 0;
                while k < path.len()
                    invariant
                        0 <= k <= path@.len(),
                        out@.len() == k,
                        forall|j: int| 0 <= j < k ==> out@[j] == NodeKind::GivenEquality(path@[j]),
                    decreases path@.len() - k,
                {
                    out.push(NodeKind::GivenEquality(path[k]));
                    k += 1;
                }
                assert(out@ =~= self.event_deps(kind));
            },
        }
        out
    }
}

fn dep_kind(kind: NodeKind, dep: NodeKind) -> (r: EdgeKind)
    ensures
        r == Z3Parser::spec_dep_kind(kind, dep),
{
    match kind {
        NodeKind::ENode(_) => EdgeKind::YieldsENode,
        NodeKind::Instantiation(_) => match dep {
            NodeKind::ENode(_) => EdgeKind::TermBlame,
            _ => EdgeKind::EqualityBlame,
        },
        _ => EdgeKind::EqualityComposition,
    }
}

/// The positions of the events that were seen, by event.
struct Seen {
    enodes: Vec<Option<usize>>,
    given: Vec<Option<usize>>,
    trans: Vec<Option<usize>>,
    insts: Vec<Option<usize>>,
}

fn none_vec(n: usize) -> (v: Vec<Option<usize>>)
    ensures
        v@.len() == n,
        forall|i: int| 0 <= i < n ==> v@[i] is None,
{
    let mut v: Vec<Option<usize>> = Vec::new();
    let mut i: usize = 0;
    while i < n
        invariant
            0 <= i <= n,
            v@.len() == i,
            forall|j: int| 0 <= j < i ==> v@[j] is None,
        decreases n - i,
    {
        v.push(None);
        i += 1;
    }
    v
}

impl Seen {
    spec fn lookup(&self, kind: NodeKind) -> Option<usize> {
        match kind {
            NodeKind::ENode(e) => if e.0 < self.enodes@.len() {
                self.enodes@[e.0 as int]
            } else {
                None
            },
            NodeKind::GivenEquality(g) => if g.0 < self.given@.len() {
                self.given@[g.0 as int]
            } else {
                None
            },
            NodeKind::TransEquality(t) => if t.0 < self.trans@.len() {
                self.trans@[t.0 as int]
            } else {
                None
            },
            NodeKind::Instantiation(i) => if i.0 < self.insts@.len() {
                self.insts@[i.0 as int]
            } else {
                None
            },
        }
    }

    spec fn sized(&self, parser: &Z3Parser) -> bool {
        &&& self.enodes@.len() == parser.enodes@.len()
        &&& self.given@.len() == parser.eq_given@.len()
        &&& self.trans@.len() == parser.eq_trans@.len()
        &&& self.insts@.len() == parser.insts@.len()
    }

    /// The table holds the first position of every event among the first
    /// `upto` events.
    spec fn tracks(&self, events: Seq<NodeKind>, upto: int) -> bool {
        forall|kind: NodeKind|
            match #[trigger] self.lookup(kind) {
                Some(j) => first_pos(events, kind, upto) == Some(j as int),
                None => first_pos(events, kind, upto) is None,
            }
    }

    fn new(parser: &Z3Parser) -> (r: Seen)
        ensures
            r.sized(parser),
            forall|kind: NodeKind| r.lookup(kind) is None,
    {
        Seen {
            enodes: none_vec(parser.enodes.len()),
            given: none_vec(parser.eq_given.len()),
            trans: none_vec(parser.eq_trans.len()),
            insts: none_vec(parser.insts.len()),
        }
    }

    fn get(&self, kind: NodeKind) -> (r: Option<usize>)
        ensures
            r == self.lookup(kind),
    {
        match kind {
            NodeKind::ENode(e) => if e.0 < self.enodes.len() {
                self.enodes[e.0]
            } else {
                None
            },
            NodeKind::GivenEquality(g) => if g.0 < self.given.len() {
                self.given[g.0]
            } else {
                None
            },
            NodeKind::TransEquality(t) => if t.0 < self.trans.len() {
                self.trans[t.0]
            } else {
                None
            },
            NodeKind::Instantiation(i) => if i.0 < self.insts.len() {
                self.insts[i.0]
            } else {
                None
            },
        }
    }

    fn set(&mut self, kind: NodeKind, at: usize, Ghost(parser): Ghost<&Z3Parser>)
        requires
            old(self).sized(parser),
            parser.event_known(kind),
        ensures
            final(self).sized(parser),
            final(self).lookup(kind) == Some(at),
            forall|other: NodeKind| other != kind ==> final(self).lookup(other) == old(self).lookup(other),
    {
        match kind {
            NodeKind::ENode(e) => {
                self.enodes.set(e.0, Some(at));
            },
            NodeKind::GivenEquality(g) => {
                self.given.set(g.0, Some(at));
            },
            NodeKind::TransEquality(t) => {
                self.trans.set(t.0, Some(at));
            },
            NodeKind::Instantiation(i) => {
                self.insts.set(i.0, Some(at));
            },
        }
    }
}

/// A node is visible after `set_visibility_when` as `f` decided of it: `f`
/// gave an answer for the node as it was, and the node got the new
/// visibility where the answer was yes, and kept its own where it was no.
pub open spec fn visibility_set_when<F: Fn(RawNodeIndex, &Node) -> bool>(
    f: F,
    visible: bool,
    ix: RawNodeIndex,
    before: Node,
    now_visible: bool,
) -> bool {
    exists|p: bool| #[trigger]
        call_ensures(f, (ix, &before), p) && now_visible == if p {
            visible
        } else {
            before.visible
        }
}

/// The raw graph. Its nodes are numbered in the order of the events, and
/// every edge leads from a node to a node with a greater number.
pub struct RawGraph {
    dag: Dag,
    nodes: Vec<Node>,
    edge_kinds: Vec<EdgeKind>,
}

impl RawGraph {
    /// The nodes.
    pub closed spec fn nodes(&self) -> Seq<Node> {
        self.nodes@
    }

    /// The nodes and edges without what the nodes hold.
    pub closed spec fn dag(&self) -> Dag {
        self.dag
    }

    /// The edges, each as source and target, in the order of their addition.
    pub open spec fn edges(&self) -> Seq<(usize, usize)> {
        self.dag().edges()
    }

    /// The kinds of the edges, by edge.
    pub closed spec fn edge_kinds(&self) -> Seq<EdgeKind> {
        self.edge_kinds@
    }

    /// Whether an edge leads from `u` to `v`.
    pub open spec fn has_edge(&self, u: int, v: int) -> bool {
        edge_in(self.edges(), u, v)
    }

    /// Every edge leads to a node with a greater number, and the numbers of
    /// the nodes fit 32 bits.
    pub open spec fn wf(&self) -> bool {
        &&& self.dag().wf()
        &&& self.dag().len() == self.nodes().len()
        &&& self.nodes().len() <= u32::MAX
        &&& self.edge_kinds().len() == self.edges().len()
    }

    /// The graph is the graph of the events of `parser`: a fresh node for
    /// each event, in order, and an edge into each event from every event
    /// that it rests on.
    pub open spec fn built_from(&self, parser: &Z3Parser) -> bool {
        &&& self.wf()
        &&& self.nodes().len() == parser.events@.len()
        &&& forall|i: int|
            0 <= i < self.nodes().len() ==> (#[trigger] self.nodes()[i]).fresh(parser.events@[i])
        &&& forall|u: int, v: int| #[trigger]
            edge_in(self.edges(), u, v) <==> parser.rests_on(u, v)
        &&& self.edge_kinds().len() == self.edges().len()
        &&& forall|k: int|
            0 <= k < self.edges().len() ==> #[trigger] self.edge_kinds()[k]
                == Z3Parser::spec_dep_kind(
                parser.events@[self.edges()[k].1 as int],
                parser.events@[self.edges()[k].0 as int],
            )
    }

    /// Builds the graph of the events of a model. The events are read in
    /// their order. The build fails on the first event whose record the
    /// tables lack, or that rests on an event that was not emitted before
    /// it; it fails at once where the events are too many to number.
    pub fn build(parser: &Z3Parser) -> (r: Result<RawGraph, Error>)
        ensures
            match r {
                Ok(g) => g.built_from(parser) && parser.causal() && parser.events@.len()
                    <= u32::MAX,
                Err(e) => if parser.events@.len() > u32::MAX {
                    e == Error::Alloc
                } else {
                    exists|i: int| #[trigger]
                        parser.first_bad(i) && e == if parser.event_known(parser.events@[i]) {
                            Error::MissingBlame
                        } else {
                            Error::UnknownId
                        }
                },
            },
    {
        let n = parser.events.len();
        if n > u32::MAX as usize {
            return Err(Error::Alloc);
        }
        let mut g = RawGraph { dag: Dag::new(), nodes: Vec::new(), edge_kinds: Vec::new() };
        let mut seen = Seen::new(parser);
        let ghost events = parser.events@;
        let mut i: usize = 0;
        assert(seen.tracks(events, 0));
        while i < n
            invariant
                0 <= i <= n,
                n == events.len(),
                n <= u32::MAX,
                events == parser.events@,
                g.wf(),
                g.nodes@.len() == i,
                seen.sized(parser),
                seen.tracks(events, i as int),
                forall|j: int| 0 <= j < i ==> parser.event_ok(j),
                forall|j: int| 0 <= j < i ==> (#[trigger] g.nodes@[j]).fresh(events[j]),
                forall|u: int, v: int| #[trigger]
                    edge_in(g.edges(), u, v) <==> v < i && parser.rests_on(u, v),
                forall|k: int|
                    0 <= k < g.edges().len() ==> #[trigger] g.edge_kinds@[k]
                        == Z3Parser::spec_dep_kind(
                        events[g.edges()[k].1 as int],
                        events[g.edges()[k].0 as int],
                    ),
            decreases n - i,
        {
            let kind = parser.events[i];
            if !parser.is_event_known(kind) {
                assert(parser.first_bad(i as int));
                return Err(Error::UnknownId);
            }
            let deps = parser.deps_of(kind);
            let ghost edges0 = g.edges();
            let ghost nodes0 = g.nodes@;
            let v = g.dag.add_node();
            g.nodes.push(Node::new(kind));
            let mut k: usize = 0;
            proof {
                assert forall|j: int| 0 <= j < i + 1 implies (#[trigger] g.nodes@[j]).fresh(
                    events[j],
                ) by {
                    if j < i {
                        assert(g.nodes@[j] == nodes0[j]);
                    }
                }
            }
            while k < deps.len()
                invariant
                    0 <= k <= deps@.len(),
                    0 <= i < n,
                    v == i,
                    n == events.len(),
                    n <= u32::MAX,
                    events == parser.events@,
                    kind == events[i as int],
                    parser.event_known(kind),
                    deps@ == parser.event_deps(kind),
                    g.dag.wf(),
                    g.dag.len() == g.nodes@.len(),
                    g.nodes@.len() == i + 1,
                    g.edge_kinds@.len() == g.edges().len(),
                    seen.sized(parser),
                    seen.tracks(events, i as int),
                    forall|j: int| 0 <= j < i ==> parser.event_ok(j),
                    forall|j: int| 0 <= j < i + 1 ==> (#[trigger] g.nodes@[j]).fresh(events[j]),
                    forall|j: int|
                        0 <= j < k ==> first_pos(events, #[trigger] deps@[j], i as int) is Some,
                    forall|a: int, b: int| #[trigger]
                        edge_in(g.edges(), a, b) <==> (b < i && parser.rests_on(a, b)) || (b == i
                            && parser.rests_on_upto(a, b, k as int)),
                    forall|e: int|
                        0 <= e < g.edges().len() ==> #[trigger] g.edge_kinds@[e]
                            == Z3Parser::spec_dep_kind(
                            events[g.edges()[e].1 as int],
                            events[g.edges()[e].0 as int],
                        ),
                decreases deps@.len() - k,
            {
                let dep = deps[k];
                proof {
                    lemma_first_pos(events, dep, i as int);
                    assert(seen.lookup(dep) is Some ==> first_pos(events, dep, i as int) == Some(
                        seen.lookup(dep)->0 as int,
                    ));
                }
                match seen.get(dep) {
                    None => {
                        assert(first_pos(events, deps@[k as int], i as int) is None);
                        assert(!parser.event_ok(i as int));
                        assert(parser.first_bad(i as int));
                        return Err(Error::MissingBlame);
                    },
                    Some(u) => {
                        let ghost before = g.edges();
                        let ghost kinds_before = g.edge_kinds@;
                        g.dag.add_edge(u, v);
                        g.edge_kinds.push(dep_kind(kind, dep));
                        proof {
                            lemma_edge_in_push(before, (u, v));
                            let after = g.edges();
                            assert forall|e: int| 0 <= e < after.len() implies #[trigger] g.edge_kinds@[e]
                                == Z3Parser::spec_dep_kind(
                                events[after[e].1 as int],
                                events[after[e].0 as int],
                            ) by {
                                if e < before.len() {
                                    assert(after[e] == before[e]);
                                    assert(g.edge_kinds@[e] == kinds_before[e]);
                                }
                            }
                            assert forall|a: int, b: int| #[trigger]
                                edge_in(after, a, b) <==> (b < i && parser.rests_on(a, b)) || (b == i
                                    && parser.rests_on_upto(a, b, k as int + 1)) by {
                                assert(edge_in(after, a, b) <==> edge_in(before, a, b) || (a == u
                                    && b == v));
                                assert(edge_in(before, a, b) <==> (b < i && parser.rests_on(a, b))
                                    || (b == i && parser.rests_on_upto(a, b, k as int)));
                                if b == i {
                                    if parser.rests_on_upto(a, b, k as int + 1) {
                                        let w = choose|w: int|
                                            0 <= w < k + 1 && w < parser.event_deps(
                                                events[b],
                                            ).len() && first_pos(
                                                events,
                                                #[trigger] parser.event_deps(events[b])[w],
                                                b,
                                            ) == Some(a);
                                        if w < k {
                                            assert(parser.rests_on_upto(a, b, k as int));
                                        } else {
                                            assert(a == u);
                                        }
                                    }
                                    if parser.rests_on_upto(a, b, k as int) {
                                        let w = choose|w: int|
                                            0 <= w < k && w < parser.event_deps(events[b]).len()
                                                && first_pos(
                                                events,
                                                #[trigger] parser.event_deps(events[b])[w],
                                                b,
                                            ) == Some(a);
                                        assert(parser.rests_on_upto(a, b, k as int + 1));
                                    }
                                    if a == u {
                                        assert(first_pos(
                                            events,
                                            parser.event_deps(events[b])[k as int],
                                            b,
                                        ) == Some(a));
                                        assert(parser.rests_on_upto(a, b, k as int + 1));
                                    }
                                }
                            }
                        }
                    },
                }
                k += 1;
            }
            proof {
                assert(parser.event_ok(i as int));
                assert forall|a: int, b: int| #[trigger]
                    edge_in(g.edges(), a, b) <==> b < i + 1 && parser.rests_on(a, b) by {
                    if b == i {
                        if parser.rests_on(a, b) {
                            let w = choose|w: int|
                                0 <= w < parser.event_deps(events[b]).len() && first_pos(
                                    events,
                                    #[trigger] parser.event_deps(events[b])[w],
                                    b,
                                ) == Some(a);
                            assert(parser.rests_on_upto(a, b, deps@.len() as int));
                        }
                        if parser.rests_on_upto(a, b, deps@.len() as int) {
                            let w = choose|w: int|
                                0 <= w < deps@.len() && w < parser.event_deps(events[b]).len()
                                    && first_pos(
                                    events,
                                    #[trigger] parser.event_deps(events[b])[w],
                                    b,
                                ) == Some(a);
                            assert(parser.rests_on(a, b));
                        }
                    }
                }
            }
            let ghost seen0 = seen;
            if seen.get(kind).is_none() {
                seen.set(kind, i, Ghost(parser));
            }
            proof {
                assert forall|other: NodeKind|
                    match #[trigger] seen.lookup(other) {
                        Some(j) => first_pos(events, other, i as int + 1) == Some(j as int),
                        None => first_pos(events, other, i as int + 1) is None,
                    } by {
                    let prev = seen0.lookup(other);
                    assert(match prev {
                        Some(j) => first_pos(events, other, i as int) == Some(j as int),
                        None => first_pos(events, other, i as int) is None,
                    });
                }
            }
            i += 1;
        }
        Ok(g)
    }

    /// The raw graph has no cycle: no path of at least one edge returns to
    /// its first node.
    pub proof fn lemma_acyclic(&self, p: Seq<int>)
        requires
            self.wf(),
            self.dag().is_path(p),
            p.len() >= 2,
        ensures
            p.first() != p.last(),
    {
        self.dag().lemma_acyclic(p);
    }

    /// The number of nodes.
    pub fn node_count(&self) -> (n: usize)
        ensures
            n == self.nodes().len(),
    {
        self.nodes.len()
    }

    /// The node with the given number.
    pub fn node(&self, ix: RawNodeIndex) -> (r: &Node)
        requires
            ix.0 < self.nodes().len(),
        ensures
            *r == self.nodes()[ix.0 as int],
    {
        &self.nodes[ix.0]
    }

    /// The nodes that the edges from `ix` lead to (or, where `outgoing` is
    /// false, that the edges to `ix` come from), newest edge first.
    pub fn neighbors_directed(&self, ix: RawNodeIndex, outgoing: bool) -> (r: Vec<usize>)
        requires
            self.wf(),
        ensures
            forall|s: usize| #[trigger]
                r@.contains(s) <==> if outgoing {
                    self.has_edge(ix.0 as int, s as int)
                } else {
                    self.has_edge(s as int, ix.0 as int)
                },
            forall|k: int| 0 <= k < r@.len() ==> #[trigger] r@[k] < self.nodes().len(),
    {
        if outgoing {
            self.dag.successors(ix.0)
        } else {
            self.dag.predecessors(ix.0)
        }
    }

    /// The graph without what its nodes hold.
    pub fn topology(&self) -> (r: &Dag)
        ensures
            *r == self.dag(),
    {
        &self.dag
    }

    /// Whether two graphs differ at most in which nodes are disabled or
    /// visible.
    pub open spec fn same_but_masks(&self, other: &RawGraph) -> bool {
        &&& self.dag() == other.dag()
        &&& self.edge_kinds() == other.edge_kinds()
        &&& self.nodes().len() == other.nodes().len()
        &&& forall|i: int|
            0 <= i < self.nodes().len() ==> (#[trigger] self.nodes()[i]).same_but_masks(
                &other.nodes()[i],
            )
    }

    /// Whether node `i` is disabled.
    pub open spec fn disabled_at(&self, i: int) -> bool {
        self.nodes()[i].disabled
    }

    /// Whether node `i` is visible.
    pub open spec fn visible_at(&self, i: int) -> bool {
        self.nodes()[i].visible
    }

    /// Which nodes are disabled, by node.
    pub fn disabled_mask(&self) -> (r: Vec<bool>)
        ensures
            r@.len() == self.nodes().len(),
            forall|i: int| 0 <= i < r@.len() ==> #[trigger] r@[i] == self.disabled_at(i),
    {
        let mut r: Vec<bool> = Vec::new();
        let mut i: usize = 0;
        while i < self.nodes.len()
            invariant
                0 <= i <= self.nodes@.len(),
                r@.len() == i,
                forall|j: int| 0 <= j < i ==> #[trigger] r@[j] == self.disabled_at(j),
            decreases self.nodes@.len() - i,
        {
            r.push(self.nodes[i].disabled);
            i += 1;
        }
        r
    }

    /// Which nodes are visible, by node.
    pub fn visible_mask(&self) -> (r: Vec<bool>)
        ensures
            r@.len() == self.nodes().len(),
            forall|i: int| 0 <= i < r@.len() ==> #[trigger] r@[i] == self.visible_at(i),
    {
        let mut r: Vec<bool> = Vec::new();
        let mut i: usize = 0;
        while i < self.nodes.len()
            invariant
                0 <= i <= self.nodes@.len(),
                r@.len() == i,
                forall|j: int| 0 <= j < i ==> #[trigger] r@[j] == self.visible_at(j),
            decreases self.nodes@.len() - i,
        {
            r.push(self.nodes[i].visible);
            i += 1;
        }
        r
    }

    /// The disabled nodes, in ascending order.
    pub fn disabled_nodes(&self) -> (r: Vec<RawNodeIndex>)
        ensures
            forall|i: int|
                0 <= i < self.nodes().len() ==> (#[trigger] r@.contains(RawNodeIndex(i as usize))
                    <==> self.disabled_at(i)),
            forall|k: int| 0 <= k < r@.len() ==> (#[trigger] r@[k]).0 < self.nodes().len(),
            forall|a: int, b: int| 0 <= a < b < r@.len() ==> r@[a].0 < r@[b].0,
    {
        let mut r: Vec<RawNodeIndex> = Vec::new();
        let mut i: usize = 0;
        while i < self.nodes.len()
            invariant
                0 <= i <= self.nodes@.len(),
                forall|j: int|
                    0 <= j < i ==> (#[trigger] r@.contains(RawNodeIndex(j as usize))
                        <==> self.disabled_at(j)),
                forall|k: int| 0 <= k < r@.len() ==> (#[trigger] r@[k]).0 < i,
                forall|a: int, b: int| 0 <= a < b < r@.len() ==> r@[a].0 < r@[b].0,
            decreases self.nodes@.len() - i,
        {
            let ghost before = r@;
            if self.nodes[i].disabled {
                r.push(RawNodeIndex(i));
                proof {
                    assert(r@[r@.len() - 1] == RawNodeIndex(i));
                    assert forall|j: int| 0 <= j < i + 1 implies (#[trigger] r@.contains(
                        RawNodeIndex(j as usize),
                    ) <==> self.disabled_at(j)) by {
                        if before.contains(RawNodeIndex(j as usize)) {
                            let k = choose|k: int|
                                0 <= k < before.len() && before[k] == RawNodeIndex(j as usize);
                            assert(r@[k] == before[k]);
                        }
                        if r@.contains(RawNodeIndex(j as usize)) && j < i {
                            let k = choose|k: int|
                                0 <= k < r@.len() && r@[k] == RawNodeIndex(j as usize);
                            assert(before[k] == r@[k]);
                        }
                    }
                }
            } else {
                proof {
                    if r@.contains(RawNodeIndex(i)) {
                        let k = choose|k: int| 0 <= k < r@.len() && r@[k] == RawNodeIndex(i);
                        assert(r@[k].0 < i);
                    }
                }
            }
            i += 1;
        }
        r
    }

    /// Whether the graphs are the same but for what node `i` is.
    pub open spec fn same_but_node(&self, other: &RawGraph, i: int) -> bool {
        &&& self.dag() == other.dag()
        &&& self.edge_kinds() == other.edge_kinds()
        &&& self.nodes().len() == other.nodes().len()
        &&& forall|j: int|
            0 <= j < self.nodes().len() && j != i ==> #[trigger] self.nodes()[j]
                == other.nodes()[j]
    }

    fn set_disabled(&mut self, i: usize, disabled: bool)
        requires
            i < old(self).nodes().len(),
        ensures
            final(self).same_but_node(old(self), i as int),
            final(self).nodes()[i as int].same_but_masks(&old(self).nodes()[i as int]),
            final(self).nodes()[i as int].disabled == disabled,
            final(self).nodes()[i as int].visible == old(self).nodes()[i as int].visible,
    {
        self.nodes[i].disabled = disabled;
    }

    fn set_visible(&mut self, i: usize, visible: bool)
        requires
            i < old(self).nodes().len(),
        ensures
            final(self).same_but_node(old(self), i as int),
            final(self).nodes()[i as int].same_but_masks(&old(self).nodes()[i as int]),
            final(self).nodes()[i as int].visible == visible,
            final(self).nodes()[i as int].disabled == old(self).nodes()[i as int].disabled,
    {
        self.nodes[i].visible = visible;
    }

    /// Disables exactly the nodes that `mask` marks.
    pub fn set_disabled_mask(&mut self, mask: &Vec<bool>)
        requires
            old(self).wf(),
            mask@.len() == old(self).nodes().len(),
        ensures
            final(self).wf(),
            final(self).same_but_masks(old(self)),
            forall|i: int|
                0 <= i < final(self).nodes().len() ==> #[trigger] final(self).disabled_at(i)
                    == mask@[i],
            forall|i: int|
                0 <= i < final(self).nodes().len() ==> #[trigger] final(self).visible_at(i) == old(self).visible_at(i),
    {
        let mut i: usize = 0;
        while i < self.nodes.len()
            invariant
                0 <= i <= self.nodes@.len(),
                mask@.len() == self.nodes@.len(),
                self.wf(),
                self.same_but_masks(old(self)),
                forall|j: int| 0 <= j < i ==> #[trigger] self.disabled_at(j) == mask@[j],
                forall|j: int|
                    0 <= j < self.nodes@.len() ==> #[trigger] self.visible_at(j) == old(self).visible_at(j),
            decreases self.nodes@.len() - i,
        {
            let ghost prev = *self;
            self.set_disabled(i, mask[i]);
            proof {
                assert forall|j: int| 0 <= j < self.nodes().len() implies (
                #[trigger] self.nodes()[j]).same_but_masks(&old(self).nodes()[j]) by {
                    assert(prev.nodes()[j].same_but_masks(&old(self).nodes()[j]));
                }
                assert forall|j: int| 0 <= j < i + 1 implies #[trigger] self.disabled_at(j)
                    == mask@[j] by {
                    if j < i {
                        assert(prev.disabled_at(j) == mask@[j]);
                    }
                }
                assert forall|j: int| 0 <= j < self.nodes@.len() implies #[trigger] self.visible_at(
                    j,
                ) == old(self).visible_at(j) by {
                    assert(prev.visible_at(j) == old(self).visible_at(j));
                }
            }
            i += 1;
        }
    }

    /// Disables exactly the nodes of which `f` says so. `f` is asked about
    /// every node of the graph as it was.
    pub fn reset_disabled_to<F: Fn(RawNodeIndex, &RawGraph) -> bool>(&mut self, f: F)
        requires
            old(self).wf(),
            forall|i: usize|
                i < old(self).nodes().len() ==> #[trigger] call_requires(
                    f,
                    (RawNodeIndex(i), old(self)),
                ),
        ensures
            final(self).wf(),
            final(self).same_but_masks(old(self)),
            forall|i: int|
                0 <= i < final(self).nodes().len() ==> call_ensures(
                    f,
                    (RawNodeIndex(i as usize), old(self)),
                    #[trigger] final(self).disabled_at(i),
                ),
            forall|i: int|
                0 <= i < final(self).nodes().len() ==> #[trigger] final(self).visible_at(i) == old(self).visible_at(i),
    {
        let mut mask: Vec<bool> = Vec::new();
        let mut i: usize = 0;
        while i < self.nodes.len()
            invariant
                0 <= i <= self.nodes@.len(),
                *self == *old(self),
                self.wf(),
                mask@.len() == i,
                forall|j: usize|
                    j < self.nodes().len() ==> #[trigger] call_requires(
                        f,
                        (RawNodeIndex(j), &*self),
                    ),
                forall|j: int|
                    0 <= j < i ==> call_ensures(
                        f,
                        (RawNodeIndex(j as usize), &*self),
                        #[trigger] mask@[j],
                    ),
            decreases self.nodes@.len() - i,
        {
            let d = f(RawNodeIndex(i), &*self);
            mask.push(d);
            i += 1;
        }
        self.set_disabled_mask(&mask);
    }

    /// Makes every node visible, or every node invisible.
    pub fn reset_visibility_to(&mut self, visible: bool)
        requires
            old(self).wf(),
        ensures
            final(self).wf(),
            final(self).same_but_masks(old(self)),
            forall|i: int|
                0 <= i < final(self).nodes().len() ==> #[trigger] final(self).visible_at(i)
                    == visible,
            forall|i: int|
                0 <= i < final(self).nodes().len() ==> #[trigger] final(self).disabled_at(i) == old(self).disabled_at(i),
    {
        let mut i: usize = 0;
        while i < self.nodes.len()
            invariant
                0 <= i <= self.nodes@.len(),
                self.wf(),
                self.same_but_masks(old(self)),
                forall|j: int| 0 <= j < i ==> #[trigger] self.visible_at(j) == visible,
                forall|j: int|
                    0 <= j < self.nodes@.len() ==> #[trigger] self.disabled_at(j) == old(self).disabled_at(j),
            decreases self.nodes@.len() - i,
        {
            let ghost prev = *self;
            self.set_visible(i, visible);
            proof {
                assert forall|j: int| 0 <= j < self.nodes().len() implies (
                #[trigger] self.nodes()[j]).same_but_masks(&old(self).nodes()[j]) by {
                    assert(prev.nodes()[j].same_but_masks(&old(self).nodes()[j]));
                }
                assert forall|j: int| 0 <= j < i + 1 implies #[trigger] self.visible_at(j)
                    == visible by {
                    if j < i {
                        assert(prev.visible_at(j) == visible);
                    }
                }
                assert forall|j: int|
                    0 <= j < self.nodes@.len() implies #[trigger] self.disabled_at(j) == old(self).disabled_at(j) by {
                    assert(prev.disabled_at(j) == old(self).disabled_at(j));
                }
            }
            i += 1;
        }
    }

    /// Sets the visibility of the nodes of which `f` says so, and leaves that
    /// of the others.
    pub fn set_visibility_when<F: Fn(RawNodeIndex, &Node) -> bool>(&mut self, visible: bool, f: F)
        requires
            old(self).wf(),
            forall|i: usize|
                i < old(self).nodes().len() ==> #[trigger] call_requires(
                    f,
                    (RawNodeIndex(i), &old(self).nodes()[i as int]),
                ),
        ensures
            final(self).wf(),
            final(self).same_but_masks(old(self)),
            forall|i: int|
                0 <= i < final(self).nodes().len() ==> #[trigger] visibility_set_when(
                    f,
                    visible,
                    RawNodeIndex(i as usize),
                    old(self).nodes()[i],
                    final(self).visible_at(i),
                ),
            forall|i: int|
                0 <= i < final(self).nodes().len() ==> #[trigger] final(self).disabled_at(i) == old(self).disabled_at(i),
    {
        let mut i: usize = 0;
        while i < self.nodes.len()
            invariant
                0 <= i <= self.nodes@.len(),
                self.wf(),
                self.same_but_masks(old(self)),
                forall|j: int|
                    i <= j < self.nodes@.len() ==> #[trigger] self.nodes@[j] == old(self).nodes@[j],
                forall|j: usize|
                    j < old(self).nodes().len() ==> #[trigger] call_requires(
                        f,
                        (RawNodeIndex(j), &old(self).nodes()[j as int]),
                    ),
                forall|j: int|
                    0 <= j < i ==> #[trigger] visibility_set_when(
                        f,
                        visible,
                        RawNodeIndex(j as usize),
                        old(self).nodes()[j],
                        self.visible_at(j),
                    ),
                forall|j: int|
                    0 <= j < self.nodes@.len() ==> #[trigger] self.disabled_at(j) == old(self).disabled_at(j),
            decreases self.nodes@.len() - i,
        {
            let ghost prev = *self;
            assert(self.nodes@[i as int] == old(self).nodes@[i as int]);
            let p = f(RawNodeIndex(i), &self.nodes[i]);
            if p {
                self.set_visible(i, visible);
            }
            proof {
                assert(call_ensures(f, (RawNodeIndex(i), &old(self).nodes()[i as int]), p));
                assert forall|j: int| 0 <= j < self.nodes().len() implies (
                #[trigger] self.nodes()[j]).same_but_masks(&old(self).nodes()[j]) by {
                    assert(prev.nodes()[j].same_but_masks(&old(self).nodes()[j]));
                }
                assert forall|j: int| i + 1 <= j < self.nodes@.len() implies #[trigger] self.nodes@[j]
                    == old(self).nodes@[j] by {
                    assert(prev.nodes@[j] == old(self).nodes@[j]);
                }
                assert forall|j: int| 0 <= j < i + 1 implies #[trigger] visibility_set_when(
                    f,
                    visible,
                    RawNodeIndex(j as usize),
                    old(self).nodes()[j],
                    self.visible_at(j),
                ) by {
                    if j < i {
                        assert(visibility_set_when(
                            f,
                            visible,
                            RawNodeIndex(j as usize),
                            old(self).nodes()[j],
                            prev.visible_at(j),
                        ));
                        assert(self.visible_at(j) == prev.visible_at(j));
                    }
                }
                assert forall|j: int|
                    0 <= j < self.nodes@.len() implies #[trigger] self.disabled_at(j) == old(self).disabled_at(j) by {
                    assert(prev.disabled_at(j) == old(self).disabled_at(j));
                }
            }
            i += 1;
        }
    }

    /// Sets the visibility of the listed nodes, and leaves that of the
    /// others. A listed number that is no node is passed over.
    pub fn set_visibility_many(&mut self, visible: bool, nodes: &Vec<RawNodeIndex>)
        requires
            old(self).wf(),
        ensures
            final(self).wf(),
            final(self).same_but_masks(old(self)),
            forall|i: int|
                0 <= i < final(self).nodes().len() ==> #[trigger] final(self).visible_at(i) == if nodes@.contains(
                    RawNodeIndex(i as usize),
                ) {
                    visible
                } else {
                    old(self).visible_at(i)
                },
            forall|i: int|
                0 <= i < final(self).nodes().len() ==> #[trigger] final(self).disabled_at(i) == old(self).disabled_at(i),
    {
        let mut k: usize = 0;
        while k < nodes.len()
            invariant
                0 <= k <= nodes@.len(),
                self.wf(),
                self.same_but_masks(old(self)),
                forall|i: int|
                    0 <= i < self.nodes@.len() ==> #[trigger] self.visible_at(i) == if nodes@.subrange(
                        0,
                        k as int,
                    ).contains(RawNodeIndex(i as usize)) {
                        visible
                    } else {
                        old(self).visible_at(i)
                    },
                forall|i: int|
                    0 <= i < self.nodes@.len() ==> #[trigger] self.disabled_at(i) == old(self).disabled_at(i),
            decreases nodes@.len() - k,
        {
            let ix = nodes[k].0;
            let ghost prev = *self;
            let ghost before = nodes@.subrange(0, k as int);
            let ghost after = nodes@.subrange(0, k as int + 1);
            proof {
                assert(after =~= before.push(nodes@[k as int]));
                assert forall|x: RawNodeIndex| after.contains(x) <==> before.contains(x) || x
                    == nodes@[k as int] by {
                    if before.contains(x) {
                        let j = choose|j: int| 0 <= j < before.len() && before[j] == x;
                        assert(after[j] == x);
                    }
                    if after.contains(x) {
                        let j = choose|j: int| 0 <= j < after.len() && after[j] == x;
                        if j < before.len() {
                            assert(before[j] == x);
                        }
                    }
                    assert(after[k as int] == nodes@[k as int]);
                }
            }
            if ix < self.nodes.len() {
                self.set_visible(ix, visible);
            }
            proof {
                assert forall|j: int| 0 <= j < self.nodes().len() implies (
                #[trigger] self.nodes()[j]).same_but_masks(&old(self).nodes()[j]) by {
                    assert(prev.nodes()[j].same_but_masks(&old(self).nodes()[j]));
                }
                assert forall|i: int| 0 <= i < self.nodes@.len() implies #[trigger] self.visible_at(
                    i,
                ) == if after.contains(RawNodeIndex(i as usize)) {
                    visible
                } else {
                    old(self).visible_at(i)
                } by {
                    assert(prev.visible_at(i) == if before.contains(RawNodeIndex(i as usize)) {
                        visible
                    } else {
                        old(self).visible_at(i)
                    });
                }
                assert forall|j: int|
                    0 <= j < self.nodes@.len() implies #[trigger] self.disabled_at(j) == old(self).disabled_at(j) by {
                    assert(prev.disabled_at(j) == old(self).disabled_at(j));
                }
            }
            k += 1;
        }
        assert(nodes@.subrange(0, nodes@.len() as int) =~= nodes@);
    }

    /// Makes visible exactly the nodes that `mask` marks.
    pub fn set_visible_mask(&mut self, mask: &Vec<bool>)
        requires
            old(self).wf(),
            mask@.len() == old(self).nodes().len(),
        ensures
            final(self).wf(),
            final(self).same_but_masks(old(self)),
            forall|i: int|
                0 <= i < final(self).nodes().len() ==> #[trigger] final(self).visible_at(i)
                    == mask@[i],
            forall|i: int|
                0 <= i < final(self).nodes().len() ==> #[trigger] final(self).disabled_at(i) == old(self).disabled_at(i),
    {
        let mut i: usize = 0;
        while i < self.nodes.len()
            invariant
                0 <= i <= self.nodes@.len(),
                mask@.len() == self.nodes@.len(),
                self.wf(),
                self.same_but_masks(old(self)),
                forall|j: int| 0 <= j < i ==> #[trigger] self.visible_at(j) == mask@[j],
                forall|j: int|
                    0 <= j < self.nodes@.len() ==> #[trigger] self.disabled_at(j) == old(self).disabled_at(j),
            decreases self.nodes@.len() - i,
        {
            let ghost prev = *self;
            self.set_visible(i, mask[i]);
            proof {
                assert forall|j: int| 0 <= j < self.nodes().len() implies (
                #[trigger] self.nodes()[j]).same_but_masks(&old(self).nodes()[j]) by {
                    assert(prev.nodes()[j].same_but_masks(&old(self).nodes()[j]));
                }
                assert forall|j: int| 0 <= j < i + 1 implies #[trigger] self.visible_at(j)
                    == mask@[j] by {
                    if j < i {
                        assert(prev.visible_at(j) == mask@[j]);
                    }
                }
                assert forall|j: int|
                    0 <= j < self.nodes@.len() implies #[trigger] self.disabled_at(j) == old(self).disabled_at(j) by {
                    assert(prev.disabled_at(j) == old(self).disabled_at(j));
                }
            }
            i += 1;
        }
    }

    /// The kind of node `i`.
    pub open spec fn kind_at(&self, i: int) -> NodeKind {
        self.nodes()[i].kind
    }

    /// The instantiation of node `i`, where it is one.
    pub open spec fn inst_at(&self, i: int) -> Option<InstIdx> {
        self.nodes()[i].kind.spec_inst()
    }

    /// Marks the nodes that are no instantiations.
    pub fn non_inst_mask(&self) -> (r: Vec<bool>)
        ensures
            r@.len() == self.nodes().len(),
            forall|i: int| 0 <= i < r@.len() ==> #[trigger] r@[i] == (self.inst_at(i) is None),
    {
        let mut r: Vec<bool> = Vec::new();
        let mut i: usize = 0;
        while i < self.nodes.len()
            invariant
                0 <= i <= self.nodes@.len(),
                r@.len() == i,
                forall|j: int| 0 <= j < i ==> #[trigger] r@[j] == (self.inst_at(j) is None),
            decreases self.nodes@.len() - i,
        {
            r.push(self.nodes[i].kind.inst().is_none());
            i += 1;
        }
        r
    }

    /// Marks the instantiations of the quantifier `q`.
    pub fn quant_mask(&self, parser: &Z3Parser, q: QuantIdx) -> (r: Vec<bool>)
        ensures
            r@.len() == self.nodes().len(),
            forall|i: int|
                0 <= i < r@.len() ==> #[trigger] r@[i] == match self.inst_at(i) {
                    Some(inst) => parser.spec_quant_of(inst) == Some(q),
                    None => false,
                },
    {
        let mut r: Vec<bool> = Vec::new();
        let mut i: usize = 0;
        while i < self.nodes.len()
            invariant
                0 <= i <= self.nodes@.len(),
                r@.len() == i,
                forall|j: int|
                    0 <= j < i ==> #[trigger] r@[j] == match self.inst_at(j) {
                        Some(inst) => parser.spec_quant_of(inst) == Some(q),
                        None => false,
                    },
            decreases self.nodes@.len() - i,
        {
            let m = match self.nodes[i].kind.inst() {
                Some(inst) => match parser.quant_of(inst) {
                    Some(found) => found == q,
                    None => false,
                },
                None => false,
            };
            r.push(m);
            i += 1;
        }
        r
    }

    /// Whether some node is an instantiation of the quantifier `q`.
    pub open spec fn names_quant(&self, parser: &Z3Parser, q: QuantIdx) -> bool {
        exists|v: int|
            0 <= v < self.nodes().len() && #[trigger] self.inst_at(v) is Some
                && parser.spec_quant_of(self.inst_at(v)->0) == Some(q)
    }

    /// The quantifiers of the instantiations of the graph, each once.
    pub fn quantifiers(&self, parser: &Z3Parser) -> (r: Vec<QuantIdx>)
        ensures
            forall|i: int|
                0 <= i < self.nodes().len() ==> match #[trigger] self.inst_at(i) {
                    Some(inst) => match parser.spec_quant_of(inst) {
                        Some(q) => r@.contains(q),
                        None => true,
                    },
                    None => true,
                },
            forall|a: int, b: int| 0 <= a < b < r@.len() ==> r@[a] != r@[b],
            forall|k: int| 0 <= k < r@.len() ==> self.names_quant(parser, #[trigger] r@[k]),
    {
        let mut r: Vec<QuantIdx> = Vec::new();
        let mut i: usize = 0;
        while i < self.nodes.len()
            invariant
                0 <= i <= self.nodes@.len(),
                forall|j: int|
                    0 <= j < i ==> match #[trigger] self.inst_at(j) {
                        Some(inst) => match parser.spec_quant_of(inst) {
                            Some(q) => r@.contains(q),
                            None => true,
                        },
                        None => true,
                    },
                forall|a: int, b: int| 0 <= a < b < r@.len() ==> r@[a] != r@[b],
                forall|k: int| 0 <= k < r@.len() ==> self.names_quant(parser, #[trigger] r@[k]),
            decreases self.nodes@.len() - i,
        {
            let ghost before = r@;
            let found = match self.nodes[i].kind.inst() {
                Some(inst) => parser.quant_of(inst),
                None => None,
            };
            match found {
                Some(q) => {
                    let mut k: usize = 0;
                    let mut known = false;
                    while k < r.len()
                        invariant
                            0 <= k <= r@.len(),
                            known <==> exists|j: int| 0 <= j < k && r@[j] == q,
                        decreases r@.len() - k,
                    {
                        if r[k] == q {
                            known = true;
                        }
                        k += 1;
                    }
                    if !known {
                        r.push(q);
                        assert(r@[r@.len() - 1] == q);
                        assert(self.names_quant(parser, q)) by {
                            assert(self.inst_at(i as int) is Some);
                        }
                        assert forall|k: int| 0 <= k < r@.len() implies self.names_quant(
                            parser,
                            #[trigger] r@[k],
                        ) by {
                            if k < before.len() {
                                assert(r@[k] == before[k]);
                            }
                        }
                    } else {
                        let ghost j = choose|j: int| 0 <= j < r@.len() && r@[j] == q;
                        assert(r@[j] == q);
                    }
                },
                None => {},
            }
            proof {
                assert forall|j: int| 0 <= j < i implies match #[trigger] self.inst_at(j) {
                    Some(inst) => match parser.spec_quant_of(inst) {
                        Some(q) => r@.contains(q),
                        None => true,
                    },
                    None => true,
                } by {
                    match self.inst_at(j) {
                        Some(inst) => match parser.spec_quant_of(inst) {
                            Some(q) => {
                                assert(before.contains(q));
                                let w = choose|w: int| 0 <= w < before.len() && before[w] == q;
                                assert(r@[w] == q);
                            },
                            None => {},
                        },
                        None => {},
                    }
                }
            }
            i += 1;
        }
        r
    }

    /// Whether node `v` is part of the matching loop of rank `i`.
    pub open spec fn in_loop(&self, v: int, i: usize) -> bool {
        self.nodes()[v].part_of_ml@.contains(i)
    }

    /// Whether two graphs differ at most in the masks and in which matching
    /// loops the nodes are part of.
    pub open spec fn same_but_loops(&self, other: &RawGraph) -> bool {
        &&& self.dag() == other.dag()
        &&& self.edge_kinds() == other.edge_kinds()
        &&& self.nodes().len() == other.nodes().len()
        &&& forall|i: int|
            0 <= i < self.nodes().len() ==> (#[trigger] self.nodes()[i]).same_but_loops(
                &other.nodes()[i],
            )
    }

    /// Takes every node out of every matching loop.
    pub fn clear_loops(&mut self)
        requires
            old(self).wf(),
        ensures
            final(self).wf(),
            final(self).same_but_loops(old(self)),
            forall|i: int|
                0 <= i < final(self).nodes().len() ==> (#[trigger] final(self).nodes()[i]).part_of_ml@.len()
                    == 0 && final(self).nodes()[i].disabled == old(self).nodes()[i].disabled
                    && final(self).nodes()[i].visible == old(self).nodes()[i].visible,
    {
        let mut i: usize = 0;
        while i < self.nodes.len()
            invariant
                0 <= i <= self.nodes@.len(),
                self.wf(),
                self.same_but_loops(old(self)),
                forall|j: int|
                    0 <= j < self.nodes@.len() ==> (#[trigger] self.nodes()[j]).disabled == old(self).nodes()[j].disabled && self.nodes()[j].visible == old(self).nodes()[j].visible,
                forall|j: int| 0 <= j < i ==> (#[trigger] self.nodes()[j]).part_of_ml@.len() == 0,
            decreases self.nodes@.len() - i,
        {
            let ghost prev = *self;
            self.nodes[i].part_of_ml = Vec::new();
            proof {
                assert forall|j: int| 0 <= j < self.nodes().len() implies (
                #[trigger] self.nodes()[j]).same_but_loops(&old(self).nodes()[j]) by {
                    assert(prev.nodes()[j].same_but_loops(&old(self).nodes()[j]));
                }
                assert forall|j: int| 0 <= j < self.nodes@.len() implies (
                #[trigger] self.nodes()[j]).disabled == old(self).nodes()[j].disabled
                    && self.nodes()[j].visible == old(self).nodes()[j].visible by {
                    assert(prev.nodes()[j].disabled == old(self).nodes()[j].disabled);
                }
                assert forall|j: int| 0 <= j < i + 1 implies (
                #[trigger] self.nodes()[j]).part_of_ml@.len() == 0 by {
                    if j < i {
                        assert(prev.nodes()[j].part_of_ml@.len() == 0);
                    }
                }
            }
            i += 1;
        }
    }

    /// Makes node `v` part of the matching loop of rank `i`.
    pub fn add_loop(&mut self, v: usize, i: usize)
        requires
            old(self).wf(),
            v < old(self).nodes().len(),
        ensures
            final(self).wf(),
            final(self).same_but_node(old(self), v as int),
            final(self).nodes()[v as int].same_but_loops(&old(self).nodes()[v as int]),
            final(self).nodes()[v as int].disabled == old(self).nodes()[v as int].disabled,
            final(self).nodes()[v as int].visible == old(self).nodes()[v as int].visible,
            final(self).nodes()[v as int].part_of_ml@ == old(self).nodes()[v as int].part_of_ml@.push(
                i,
            ),
    {
        self.nodes[v].part_of_ml.push(i);
    }

    /// The component and position of node `v`.
    pub open spec fn subgraph_at(&self, v: int) -> Option<(u32, u32)> {
        self.nodes()[v].subgraph
    }

    /// Whether two graphs differ at most in the components and positions of
    /// the nodes.
    pub open spec fn same_but_subgraphs(&self, other: &RawGraph) -> bool {
        &&& self.dag() == other.dag()
        &&& self.edge_kinds() == other.edge_kinds()
        &&& self.nodes().len() == other.nodes().len()
        &&& forall|i: int|
            0 <= i < self.nodes().len() ==> (#[trigger] self.nodes()[i]).same_but_subgraph(
                &other.nodes()[i],
            )
    }

    /// Records the component of node `v` and its position in it.
    pub fn set_subgraph(&mut self, v: usize, id: u32, pos: u32)
        requires
            old(self).wf(),
            v < old(self).nodes().len(),
        ensures
            final(self).wf(),
            final(self).same_but_node(old(self), v as int),
            final(self).nodes()[v as int].same_but_subgraph(&old(self).nodes()[v as int]),
            final(self).subgraph_at(v as int) == Some((id, pos)),
    {
        self.nodes[v].subgraph = Some((id, pos));
    }

    /// Gives node `v` the place that is handed in: a component and a
    /// position in it, or none.
    pub fn put_subgraph(&mut self, v: usize, place: Option<(u32, u32)>)
        requires
            old(self).wf(),
            v < old(self).nodes().len(),
        ensures
            final(self).wf(),
            final(self).same_but_node(old(self), v as int),
            final(self).nodes()[v as int].same_but_subgraph(&old(self).nodes()[v as int]),
            final(self).subgraph_at(v as int) == place,
    {
        self.nodes[v].subgraph = place;
    }

    /// Whether two graphs have the same nodes, edges and kinds of edges.
    pub open spec fn same_graph(&self, other: &RawGraph) -> bool {
        &&& self.dag() == other.dag()
        &&& self.edge_kinds() == other.edge_kinds()
        &&& self.nodes() == other.nodes()
    }

    /// Node `v`, to be changed in place.
    pub(crate) fn node_mut(&mut self, v: usize) -> (r: &mut Node)
        requires
            v < old(self).nodes().len(),
        ensures
            *r == old(self).nodes()[v as int],
            final(self).same_but_node(old(self), v as int),
            final(self).nodes()[v as int] == *final(r),
    {
        &mut self.nodes[v]
    }

    /// The first node of the given kind.
    pub open spec fn spec_index_of(&self, kind: NodeKind) -> Option<int> {
        first_pos(Seq::new(self.nodes().len(), |i: int| self.nodes()[i].kind), kind, self.nodes().len() as int)
    }

    /// The first node of the given kind.
    pub fn index_of(&self, kind: NodeKind) -> (r: Option<usize>)
        ensures
            match r {
                Some(v) => self.spec_index_of(kind) == Some(v as int) && v < self.nodes().len()
                    && self.kind_at(v as int) == kind,
                None => self.spec_index_of(kind) is None,
            },
    {
        let ghost kinds = Seq::new(self.nodes().len(), |i: int| self.nodes()[i].kind);
        let mut v: usize = 0;
        while v < self.nodes.len()
            invariant
                0 <= v <= self.nodes@.len(),
                kinds == Seq::new(self.nodes().len(), |i: int| self.nodes()[i].kind),
                first_pos(kinds, kind, v as int) is None,
            decreases self.nodes@.len() - v,
        {
            if self.nodes[v].kind == kind {
                proof {
                    assert(kinds[v as int] == kind);
                    assert(first_pos(kinds, kind, v as int + 1) == Some(v as int));
                    lemma_first_pos_stays(kinds, kind, v as int + 1, kinds.len() as int);
                }
                return Some(v);
            }
            v += 1;
        }
        None
    }

    /// Gives every node its depths: the least and the greatest number of
    /// edges on a path that ends in it.
    pub fn compute_depths(&mut self)
        requires
            old(self).wf(),
        ensures
            final(self).wf(),
            final(self).same_but_depths(old(self)),
            forall|v: int| 0 <= v < final(self).nodes().len() ==> #[trigger] final(self).depths_ok(v),
    {
        let n = self.nodes.len();
        let mut v: usize = 0;
        while v < n
            invariant
                0 <= v <= n,
                n == self.nodes().len(),
                self.wf(),
                self.same_but_depths(old(self)),
                forall|c: int| 0 <= c < v ==> #[trigger] self.depths_ok(c),
                forall|c: int| 0 <= c < v ==> #[trigger] self.max_depth_at(c) <= c,
            decreases n - v,
        {
            let pred = self.dag.predecessors(v);
            let mut least: u32 = 0;
            let mut most: u32 = 0;
            let mut k: usize = 0;
            while k < pred.len()
                invariant
                    0 <= k <= pred@.len(),
                    0 <= v < n,
                    n == self.nodes().len(),
                    n <= u32::MAX,
                    forall|j: int| 0 <= j < pred@.len() ==> #[trigger] pred@[j] < v,
                    forall|c: int| 0 <= c < v ==> #[trigger] self.depths_ok(c),
                    forall|c: int| 0 <= c < v ==> #[trigger] self.max_depth_at(c) <= c,
                    least <= most <= v,
                    forall|j: int|
                        0 <= j < k ==> self.min_depth_at(#[trigger] pred@[j] as int) + 1 >= least
                            && self.max_depth_at(pred@[j] as int) + 1 <= most,
                    k == 0 ==> least == 0 && most == 0,
                    k > 0 ==> exists|j: int|
                        0 <= j < k && least == self.min_depth_at(#[trigger] pred@[j] as int) + 1,
                    k > 0 ==> exists|j: int|
                        0 <= j < k && most == self.max_depth_at(#[trigger] pred@[j] as int) + 1,
                decreases pred@.len() - k,
            {
                let p = pred[k];
                assert(self.depths_ok(p as int));
                assert(self.max_depth_at(pred@[k as int] as int) <= pred@[k as int]);
                let lo = match self.nodes[p].min_depth {
                    Some(d) => d,
                    None => 0,
                };
                let hi = match self.nodes[p].max_depth {
                    Some(d) => d,
                    None => 0,
                };
                if k == 0 || lo + 1 < least {
                    least = lo + 1;
                }
                if hi + 1 > most {
                    most = hi + 1;
                }
                proof {
                    assert(self.min_depth_at(pred@[k as int] as int) == lo);
                    assert(self.max_depth_at(pred@[k as int] as int) == hi);
                }
                k += 1;
            }
            let ghost prev = *self;
            self.nodes[v].min_depth = Some(least);
            self.nodes[v].max_depth = Some(most);
            proof {
                assert forall|c: int| 0 <= c < n implies (#[trigger] self.nodes()[c]).same_but_depths(
                    &old(self).nodes()[c],
                ) by {
                    assert(prev.nodes()[c].same_but_depths(&old(self).nodes()[c]));
                }
                assert forall|c: int| 0 <= c < v + 1 implies #[trigger] self.max_depth_at(c) <= c by {
                    if c < v {
                        assert(prev.max_depth_at(c) <= c);
                    }
                }
                assert forall|c: int| 0 <= c < v + 1 implies #[trigger] self.depths_ok(c) by {
                    if c < v {
                        assert(prev.depths_ok(c));
                        assert forall|a: int| #[trigger] self.has_edge(a, c) implies self.min_depth_at(
                            c,
                        ) <= self.min_depth_at(a) + 1 && self.max_depth_at(a) + 1
                            <= self.max_depth_at(c) by {
                            self.dag().lemma_edge_grows(a, c);
                            assert(prev.has_edge(a, c));
                        }
                        if exists|a: int| self.has_edge(a, c) {
                            let a = choose|a: int| self.has_edge(a, c);
                            assert(prev.has_edge(a, c));
                            let a1 = choose|a1: int| #[trigger]
                                prev.has_edge(a1, c) && prev.min_depth_at(c) == prev.min_depth_at(a1)
                                    + 1;
                            prev.dag().lemma_edge_grows(a1, c);
                            assert(self.has_edge(a1, c) && self.min_depth_at(c) == self.min_depth_at(
                                a1,
                            ) + 1);
                            let a2 = choose|a2: int| #[trigger]
                                prev.has_edge(a2, c) && prev.max_depth_at(c) == prev.max_depth_at(a2)
                                    + 1;
                            prev.dag().lemma_edge_grows(a2, c);
                            assert(self.has_edge(a2, c) && self.max_depth_at(c) == self.max_depth_at(
                                a2,
                            ) + 1);
                        } else {
                            assert forall|a: int| !prev.has_edge(a, c) by {
                                assert(prev.has_edge(a, c) == self.has_edge(a, c));
                            }
                        }
                    } else {
                        assert forall|a: int| #[trigger] self.has_edge(a, c) implies self.min_depth_at(
                            c,
                        ) <= self.min_depth_at(a) + 1 && self.max_depth_at(a) + 1
                            <= self.max_depth_at(c) by {
                            self.dag().lemma_edge_grows(a, c);
                            assert(pred@.contains(a as usize));
                            let j = choose|j: int| 0 <= j < pred@.len() && pred@[j] == a as usize;
                            assert(prev.min_depth_at(pred@[j] as int) + 1 >= least);
                        }
                        if exists|a: int| self.has_edge(a, c) {
                            let a = choose|a: int| self.has_edge(a, c);
                            self.dag().lemma_edge_grows(a, c);
                            assert(pred@.contains(a as usize));
                            assert(pred@.len() > 0);
                            let j1 = choose|j: int|
                                0 <= j < pred@.len() && least == prev.min_depth_at(
                                    #[trigger] pred@[j] as int,
                                ) + 1;
                            assert(pred@.contains(pred@[j1]));
                            assert(self.has_edge(pred@[j1] as int, c) && self.min_depth_at(c)
                                == self.min_depth_at(pred@[j1] as int) + 1);
                            let j2 = choose|j: int|
                                0 <= j < pred@.len() && most == prev.max_depth_at(
                                    #[trigger] pred@[j] as int,
                                ) + 1;
                            assert(pred@.contains(pred@[j2]));
                            assert(self.has_edge(pred@[j2] as int, c) && self.max_depth_at(c)
                                == self.max_depth_at(pred@[j2] as int) + 1);
                        } else {
                            if pred@.len() > 0 {
                                assert(pred@.contains(pred@[0]));
                                assert(self.has_edge(pred@[0] as int, c));
                            }
                        }
                    }
                }
            }
            v += 1;
        }
    }

    /// Whether every node has its least depth.
    pub open spec fn has_depths(&self) -> bool {
        forall|v: int| 0 <= v < self.nodes().len() ==> (#[trigger] self.nodes()[v]).min_depth is Some
    }

    /// Tells whether every node has its least depth.
    pub fn depths_computed(&self) -> (r: bool)
        ensures
            r == self.has_depths(),
    {
        let n = self.nodes.len();
        let mut v: usize = 0;
        while v < n
            invariant
                0 <= v <= n,
                n == self.nodes().len(),
                forall|w: int| 0 <= w < v ==> (#[trigger] self.nodes()[w]).min_depth is Some,
            decreases n - v,
        {
            if self.nodes[v].min_depth.is_none() {
                return false;
            }
            v += 1;
        }
        true
    }

    /// The least depth of node `v`; zero where none was computed.
    pub open spec fn min_depth_at(&self, v: int) -> int {
        match self.nodes()[v].min_depth {
            Some(d) => d as int,
            None => 0,
        }
    }

    /// The greatest depth of node `v`; zero where none was computed.
    pub open spec fn max_depth_at(&self, v: int) -> int {
        match self.nodes()[v].max_depth {
            Some(d) => d as int,
            None => 0,
        }
    }

    /// Node `v` has the depths that its edges ask for. Both are computed;
    /// the least depth is no greater than the greatest; both are zero where
    /// no edge enters; else the least depth is one more than the least of
    /// the least depths before an edge into the node, and the greatest depth
    /// one more than the greatest of the greatest depths.
    pub open spec fn depths_ok(&self, v: int) -> bool {
        &&& self.nodes()[v].min_depth is Some
        &&& self.nodes()[v].max_depth is Some
        &&& self.min_depth_at(v) <= self.max_depth_at(v)
        &&& forall|a: int| #[trigger]
            self.has_edge(a, v) ==> self.min_depth_at(v) <= self.min_depth_at(a) + 1
                && self.max_depth_at(a) + 1 <= self.max_depth_at(v)
        &&& if exists|a: int| self.has_edge(a, v) {
            &&& exists|a: int| #[trigger]
                self.has_edge(a, v) && self.min_depth_at(v) == self.min_depth_at(a) + 1
            &&& exists|a: int| #[trigger]
                self.has_edge(a, v) && self.max_depth_at(v) == self.max_depth_at(a) + 1
        } else {
            self.min_depth_at(v) == 0 && self.max_depth_at(v) == 0
        }
    }

    /// Whether two graphs differ at most in the depths of their nodes.
    pub open spec fn same_but_depths(&self, other: &RawGraph) -> bool {
        &&& self.dag() == other.dag()
        &&& self.edge_kinds() == other.edge_kinds()
        &&& self.nodes().len() == other.nodes().len()
        &&& forall|i: int|
            0 <= i < self.nodes().len() ==> (#[trigger] self.nodes()[i]).same_but_depths(
                &other.nodes()[i],
            )
    }
}

/// The first position stays the first when more events are read.
pub proof fn lemma_first_pos_stays(events: Seq<NodeKind>, kind: NodeKind, upto: int, later: int)
    requires
        0 <= upto <= later <= events.len(),
        first_pos(events, kind, upto) is Some,
    ensures
        first_pos(events, kind, later) == first_pos(events, kind, upto),
    decreases later - upto,
{
    if later > upto {
        lemma_first_pos_stays(events, kind, upto, later - 1);
    }
}

} // verus!
