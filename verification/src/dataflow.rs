//! The propagation of sets of nodes along the edges of the raw graph, or
//! against them.

use vstd::prelude::*;
use petgraph::Direction;
use crate::bitmap::bitmap_union_with;
use crate::idx::RawNodeIndex;
use crate::model::Z3Parser;
use crate::raw::{NextInsts, Node, RawGraph};

verus! {

/// The sets of nodes that a node holds.
#[derive(Clone, Copy, Debug, PartialEq, Eq, Structural)]
pub enum Slot {
    InstParents,
    InstChildren,
    EnabledParents,
    EnabledChildren,
}

impl Node {
    /// The nodes in one of the sets of the node.
    pub open spec fn slot_values(&self, slot: Slot) -> Set<u32> {
        match slot {
            Slot::InstParents => self.inst_parents.values(),
            Slot::InstChildren => self.inst_children.values(),
            Slot::EnabledParents => self.enabled_parents.values(),
            Slot::EnabledChildren => self.enabled_children.values(),
        }
    }

    /// Whether two nodes differ at most in one of their sets.
    pub open spec fn same_but_slot(&self, other: &Node, slot: Slot) -> bool {
        &&& self.kind == other.kind
        &&& self.disabled == other.disabled
        &&& self.visible == other.visible
        &&& self.min_depth == other.min_depth
        &&& self.max_depth == other.max_depth
        &&& self.subgraph == other.subgraph
        &&& self.part_of_ml == other.part_of_ml
        &&& slot != Slot::InstParents ==> self.inst_parents == other.inst_parents
        &&& slot != Slot::InstChildren ==> self.inst_children == other.inst_children
        &&& slot != Slot::EnabledParents ==> self.enabled_parents == other.enabled_parents
        &&& slot != Slot::EnabledChildren ==> self.enabled_children == other.enabled_children
    }

    /// Whether two nodes differ at most in their sets.
    pub open spec fn same_but_sets(&self, other: &Node) -> bool {
        &&& self.kind == other.kind
        &&& self.disabled == other.disabled
        &&& self.visible == other.visible
        &&& self.min_depth == other.min_depth
        &&& self.max_depth == other.max_depth
        &&& self.subgraph == other.subgraph
        &&& self.part_of_ml == other.part_of_ml
    }

    /// Whether two nodes differ at most in their sets of enabled nodes.
    pub open spec fn same_but_slot_pair(&self, other: &Node) -> bool {
        &&& self.same_but_sets(other)
        &&& self.inst_parents == other.inst_parents
        &&& self.inst_children == other.inst_children
    }

    /// Puts a set in place of one of the sets of the node.
    pub fn assign_slot(&mut self, slot: Slot, value: NextInsts)
        ensures
            final(self).slot_values(slot) == value.values(),
            final(self).same_but_slot(old(self), slot),
    {
        match slot {
            Slot::InstParents => {
                self.inst_parents = value;
            },
            Slot::InstChildren => {
                self.inst_children = value;
            },
            Slot::EnabledParents => {
                self.enabled_parents = value;
            },
            Slot::EnabledChildren => {
                self.enabled_children = value;
            },
        }
    }

    /// Adds a set to one of the sets of the node.
    pub fn add_slot(&mut self, slot: Slot, value: &NextInsts)
        ensures
            final(self).slot_values(slot) == old(self).slot_values(slot).union(value.values()),
            final(self).same_but_slot(old(self), slot),
    {
        match slot {
            Slot::InstParents => {
                bitmap_union_with(&mut self.inst_parents.nodes, &value.nodes);
            },
            Slot::InstChildren => {
                bitmap_union_with(&mut self.inst_children.nodes, &value.nodes);
            },
            Slot::EnabledParents => {
                bitmap_union_with(&mut self.enabled_parents.nodes, &value.nodes);
            },
            Slot::EnabledChildren => {
                bitmap_union_with(&mut self.enabled_children.nodes, &value.nodes);
            },
        }
    }
}

/// What a pass over the graph needs at every node: a starting value, and
/// how to write a value into the node. With `FORWARD` the pass runs along
/// the edges, without it against them. `ID` tells the passes apart.
pub trait Initialiser<const FORWARD: bool, const ID: u8> {
    /// The set of a node that the pass fills.
    spec fn slot() -> Slot;

    /// The edges along which the values go: the outgoing edges of a node
    /// for a pass that runs forward, the incoming ones for one that runs
    /// backward.
    fn direction() -> (d: Direction)
        ensures
            d == if FORWARD {
                Direction::Outgoing
            } else {
                Direction::Incoming
            },
    ;

    /// The starting value of a node.
    fn base(&mut self, node: &Node, parser: &Z3Parser) -> (r: NextInsts)
        ensures
            r.values() == Set::<u32>::empty(),
    ;

    /// Writes a value into a node.
    fn assign(&mut self, node: &mut Node, value: NextInsts)
        ensures
            final(node).slot_values(Self::slot()) == value.values(),
            final(node).same_but_slot(old(node), Self::slot()),
    ;

    /// Called between the nodes of different subgraphs.
    fn reset(&mut self);
}

/// What a pass needs to hand values on from node to node.
pub trait TransferInitialiser<const FORWARD: bool, const ID: u8>: Initialiser<FORWARD, ID> {
    /// What a neighbour shows of itself before the transfer.
    type Observed;

    /// What `transfer` hands on from a node, as a set.
    spec fn hands_on(from: &Node, from_idx: RawNodeIndex) -> Set<u32>;

    fn observe(&mut self, node: &Node, parser: &Z3Parser) -> Self::Observed;

    /// What `from` hands on to its neighbour number `to_idx`.
    fn transfer(
        &mut self,
        from: &Node,
        from_idx: RawNodeIndex,
        to_idx: usize,
        to_all: &[Self::Observed],
    ) -> (r: NextInsts)
        requires
            from_idx.0 <= u32::MAX,
        ensures
            r.values() == Self::hands_on(from, from_idx),
    ;

    /// Adds a value to what a node holds.
    fn add(&mut self, node: &mut Node, value: NextInsts)
        ensures
            final(node).slot_values(Self::slot()) == old(node).slot_values(Self::slot()).union(
                value.values(),
            ),
            final(node).same_but_slot(old(node), Self::slot()),
    ;
}

impl RawGraph {
    /// Whether two graphs differ at most in one of the sets of their nodes.
    pub open spec fn same_but_slot(&self, other: &RawGraph, slot: Slot) -> bool {
        &&& self.dag() == other.dag()
        &&& self.edge_kinds() == other.edge_kinds()
        &&& self.nodes().len() == other.nodes().len()
        &&& forall|i: int|
            0 <= i < self.nodes().len() ==> (#[trigger] self.nodes()[i]).same_but_slot(
                &other.nodes()[i],
                slot,
            )
    }

    /// Whether two graphs differ at most in the sets of their nodes.
    pub open spec fn same_but_sets(&self, other: &RawGraph) -> bool {
        &&& self.dag() == other.dag()
        &&& self.edge_kinds() == other.edge_kinds()
        &&& self.nodes().len() == other.nodes().len()
        &&& forall|i: int|
            0 <= i < self.nodes().len() ==> (#[trigger] self.nodes()[i]).same_but_sets(
                &other.nodes()[i],
            )
    }

    /// One of the sets of node `t`.
    pub open spec fn slot_at(&self, t: int, slot: Slot) -> Set<u32> {
        self.nodes()[t].slot_values(slot)
    }

    /// Whether a pass hands values on from `p` to `t`.
    pub open spec fn feeds(&self, forward: bool, p: int, t: int) -> bool {
        if forward {
            self.has_edge(p, t)
        } else {
            self.has_edge(t, p)
        }
    }
}

/// What the nodes from `lo` up to `hi` hand on to node `t`.
pub open spec fn handed<I: TransferInitialiser<FORWARD, ID>, const FORWARD: bool, const ID: u8>(
    g: &RawGraph,
    t: int,
    lo: int,
    hi: int,
) -> Set<u32> {
    Set::new(
        |x: u32|
            exists|p: int|
                lo <= p < hi && p < g.nodes().len() && g.feeds(FORWARD, p, t) && #[trigger] I::hands_on(
                    &g.nodes()[p],
                    RawNodeIndex(p as usize),
                ).contains(x),
    )
}

/// One of the first `k` listed nodes is `t`.
pub open spec fn listed_upto(list: Seq<usize>, k: int, t: int) -> bool {
    exists|j: int| 0 <= j < k && j < list.len() && #[trigger] list[j] == t
}

impl RawGraph {
    /// Gives every node the starting value of the pass.
    fn assign_bases<I: TransferInitialiser<FORWARD, ID>, const FORWARD: bool, const ID: u8>(
        &mut self,
        init: &mut I,
        parser: &Z3Parser,
    )
        requires
            old(self).wf(),
        ensures
            final(self).wf(),
            final(self).same_but_slot(old(self), I::slot()),
            forall|t: int|
                0 <= t < final(self).nodes().len() ==> #[trigger] final(self).slot_at(t, I::slot())
                    == Set::<u32>::empty(),
    {
        let n = self.node_count();
        let mut t: usize = 0;
        while t < n
            invariant
                0 <= t <= n,
                n == self.nodes().len(),
                self.wf(),
                self.same_but_slot(old(self), I::slot()),
                forall|c: int| 0 <= c < t ==> #[trigger] self.slot_at(c, I::slot()) == Set::<u32>::empty(),
            decreases n - t,
        {
            let ghost prev = *self;
            let base = init.base(self.node(RawNodeIndex(t)), parser);
            let node = self.node_mut(t);
            init.assign(node, base);
            proof {
                assert forall|c: int| 0 <= c < n implies (#[trigger] self.nodes()[c]).same_but_slot(
                    &old(self).nodes()[c],
                    I::slot(),
                ) by {
                    assert(prev.nodes()[c].same_but_slot(&old(self).nodes()[c], I::slot()));
                }
                assert forall|c: int| 0 <= c < t + 1 implies #[trigger] self.slot_at(c, I::slot())
                    == Set::<u32>::empty() by {
                    if c < t {
                        assert(prev.slot_at(c, I::slot()) == Set::<u32>::empty());
                    }
                }
            }
            t += 1;
        }
    }
}

/// What nodes hand on does not change where the nodes do not change.
pub proof fn lemma_handed_same<I: TransferInitialiser<FORWARD, ID>, const FORWARD: bool, const ID: u8>(
    a: &RawGraph,
    b: &RawGraph,
    t: int,
    lo: int,
    hi: int,
)
    requires
        a.dag() == b.dag(),
        a.nodes().len() == b.nodes().len(),
        forall|p: int| lo <= p < hi && 0 <= p < a.nodes().len() ==> #[trigger] a.nodes()[p] == b.nodes()[p],
    ensures
        handed::<I, FORWARD, ID>(a, t, lo, hi) == handed::<I, FORWARD, ID>(b, t, lo, hi),
{
    assert forall|x: u32|
        handed::<I, FORWARD, ID>(a, t, lo, hi).contains(x) == handed::<I, FORWARD, ID>(
            b,
            t,
            lo,
            hi,
        ).contains(x) by {
        if handed::<I, FORWARD, ID>(a, t, lo, hi).contains(x) {
            let p = choose|p: int|
                lo <= p < hi && p < a.nodes().len() && a.feeds(FORWARD, p, t) && #[trigger] I::hands_on(
                    &a.nodes()[p],
                    RawNodeIndex(p as usize),
                ).contains(x);
            if p >= 0 {
                assert(a.nodes()[p] == b.nodes()[p]);
                assert(I::hands_on(&b.nodes()[p], RawNodeIndex(p as usize)).contains(x));
            } else {
                lemma_feeds_in_range(a, FORWARD, p, t);
            }
        }
        if handed::<I, FORWARD, ID>(b, t, lo, hi).contains(x) {
            let p = choose|p: int|
                lo <= p < hi && p < b.nodes().len() && b.feeds(FORWARD, p, t) && #[trigger] I::hands_on(
                    &b.nodes()[p],
                    RawNodeIndex(p as usize),
                ).contains(x);
            if p >= 0 {
                assert(a.nodes()[p] == b.nodes()[p]);
                assert(I::hands_on(&a.nodes()[p], RawNodeIndex(p as usize)).contains(x));
            } else {
                lemma_feeds_in_range(b, FORWARD, p, t);
            }
        }
    }
    assert(handed::<I, FORWARD, ID>(a, t, lo, hi) =~= handed::<I, FORWARD, ID>(b, t, lo, hi));
}

/// What nodes hand on does not change where what each node hands on does
/// not change.
pub proof fn lemma_handed_alike<I: TransferInitialiser<FORWARD, ID>, const FORWARD: bool, const ID: u8>(
    a: &RawGraph,
    b: &RawGraph,
    t: int,
    lo: int,
    hi: int,
)
    requires
        a.dag() == b.dag(),
        a.dag().wf(),
        a.nodes().len() == b.nodes().len(),
        forall|p: int|
            0 <= p < a.nodes().len() ==> #[trigger] I::hands_on(
                &a.nodes()[p],
                RawNodeIndex(p as usize),
            ) == I::hands_on(&b.nodes()[p], RawNodeIndex(p as usize)),
    ensures
        handed::<I, FORWARD, ID>(a, t, lo, hi) == handed::<I, FORWARD, ID>(b, t, lo, hi),
{
    assert forall|x: u32|
        handed::<I, FORWARD, ID>(a, t, lo, hi).contains(x) == handed::<I, FORWARD, ID>(
            b,
            t,
            lo,
            hi,
        ).contains(x) by {
        if handed::<I, FORWARD, ID>(a, t, lo, hi).contains(x) {
            let p = choose|p: int|
                lo <= p < hi && p < a.nodes().len() && a.feeds(FORWARD, p, t) && #[trigger] I::hands_on(
                    &a.nodes()[p],
                    RawNodeIndex(p as usize),
                ).contains(x);
            lemma_feeds_in_range(a, FORWARD, p, t);
            assert(I::hands_on(&b.nodes()[p], RawNodeIndex(p as usize)).contains(x));
        }
        if handed::<I, FORWARD, ID>(b, t, lo, hi).contains(x) {
            let p = choose|p: int|
                lo <= p < hi && p < b.nodes().len() && b.feeds(FORWARD, p, t) && #[trigger] I::hands_on(
                    &b.nodes()[p],
                    RawNodeIndex(p as usize),
                ).contains(x);
            lemma_feeds_in_range(b, FORWARD, p, t);
            assert(I::hands_on(&a.nodes()[p], RawNodeIndex(p as usize)).contains(x));
        }
    }
    assert(handed::<I, FORWARD, ID>(a, t, lo, hi) =~= handed::<I, FORWARD, ID>(b, t, lo, hi));
}

/// Only nodes of the graph feed nodes.
pub proof fn lemma_feeds_in_range(g: &RawGraph, forward: bool, p: int, t: int)
    requires
        g.feeds(forward, p, t),
        g.dag().wf() || p < 0,
    ensures
        p >= 0,
{
    if p < 0 {
        if forward {
            let k = choose|k: int|
                0 <= k < g.edges().len() && (#[trigger] g.edges()[k]).0 == p && g.edges()[k].1 == t;
        } else {
            let k = choose|k: int|
                0 <= k < g.edges().len() && (#[trigger] g.edges()[k]).0 == t && g.edges()[k].1 == p;
        }
    }
}

impl RawGraph {
    /// Runs a pass along the edges: every node, in ascending order, hands a
    /// value on to each node behind one of its edges.
    fn transfer_forward<I: TransferInitialiser<FORWARD, ID>, const FORWARD: bool, const ID: u8>(
        &mut self,
        init: &mut I,
        parser: &Z3Parser,
    )
        requires
            FORWARD,
            old(self).wf(),
            forall|t: int|
                0 <= t < old(self).nodes().len() ==> #[trigger] old(self).slot_at(t, I::slot())
                    == Set::<u32>::empty(),
        ensures
            final(self).wf(),
            final(self).same_but_slot(old(self), I::slot()),
            forall|t: int|
                0 <= t < final(self).nodes().len() ==> #[trigger] final(self).slot_at(t, I::slot())
                    == handed::<I, FORWARD, ID>(final(self), t, 0, final(self).nodes().len() as int),
    {
        let n = self.node_count();
        let mut f: usize = 0;
        let mut last_component: Option<u32> = None;
        proof {
            assert forall|t: int| 0 <= t < n implies #[trigger] self.slot_at(t, I::slot())
                == handed::<I, FORWARD, ID>(self, t, 0, 0) by {
                assert(handed::<I, FORWARD, ID>(self, t, 0, 0) =~= Set::<u32>::empty());
            }
        }
        while f < n
            invariant
                FORWARD,
                0 <= f <= n,
                n == self.nodes().len(),
                self.wf(),
                self.same_but_slot(old(self), I::slot()),
                forall|t: int|
                    0 <= t < n ==> #[trigger] self.slot_at(t, I::slot()) == handed::<I, FORWARD, ID>(
                        self,
                        t,
                        0,
                        f as int,
                    ),
            decreases n - f,
        {
            let component = match self.node(RawNodeIndex(f)).subgraph {
                Some((c, _)) => Some(c),
                None => None,
            };
            let changed = match (component, last_component) {
                (Some(a), Some(b)) => a != b,
                (None, None) => false,
                _ => true,
            };
            if changed {
                init.reset();
            }
            last_component = component;
            let succ = self.topology().successors(f);
            let mut to_all: Vec<I::Observed> = Vec::new();
            let mut k: usize = 0;
            while k < succ.len()
                invariant
                    0 <= k <= succ@.len(),
                    n == self.nodes().len(),
                    forall|j: int| 0 <= j < succ@.len() ==> f < #[trigger] succ@[j] < n,
                decreases succ@.len() - k,
            {
                let seen = init.observe(self.node(RawNodeIndex(succ[k])), parser);
                to_all.push(seen);
                k += 1;
            }
            let ghost at_f = *self;
            let ghost gift = I::hands_on(&at_f.nodes()[f as int], RawNodeIndex(f));
            let mut k: usize = 0;
            while k < succ.len()
                invariant
                    FORWARD,
                    0 <= k <= succ@.len(),
                    0 <= f < n,
                    n == self.nodes().len(),
                    n <= u32::MAX,
                    self.wf(),
                    self.same_but_slot(old(self), I::slot()),
                    self.dag() == at_f.dag(),
                    forall|p: int| 0 <= p <= f ==> #[trigger] self.nodes()[p] == at_f.nodes()[p],
                    gift == I::hands_on(&at_f.nodes()[f as int], RawNodeIndex(f)),
                    forall|s: usize| #[trigger]
                        succ@.contains(s) <==> self.dag().has_edge(f as int, s as int),
                    forall|j: int| 0 <= j < succ@.len() ==> f < #[trigger] succ@[j] < n,
                    forall|t: int|
                        0 <= t < n ==> #[trigger] self.slot_at(t, I::slot()) == handed::<
                            I,
                            FORWARD,
                            ID,
                        >(&at_f, t, 0, f as int).union(
                            if listed_upto(succ@, k as int, t) {
                                gift
                            } else {
                                Set::<u32>::empty()
                            },
                        ),
                decreases succ@.len() - k,
            {
                let to = succ[k];
                let ghost prev = *self;
                let value = init.transfer(
                    self.node(RawNodeIndex(f)),
                    RawNodeIndex(f),
                    k,
                    to_all.as_slice(),
                );
                let node = self.node_mut(to);
                init.add(node, value);
                proof {
                    assert forall|c: int| 0 <= c < n implies (
                    #[trigger] self.nodes()[c]).same_but_slot(&old(self).nodes()[c], I::slot()) by {
                        assert(prev.nodes()[c].same_but_slot(&old(self).nodes()[c], I::slot()));
                    }
                    assert forall|p: int| 0 <= p <= f implies #[trigger] self.nodes()[p]
                        == at_f.nodes()[p] by {
                        assert(prev.nodes()[p] == at_f.nodes()[p]);
                    }
                    assert forall|t: int| 0 <= t < n implies #[trigger] self.slot_at(t, I::slot())
                        == handed::<I, FORWARD, ID>(&at_f, t, 0, f as int).union(
                        if listed_upto(succ@, k as int + 1, t) {
                            gift
                        } else {
                            Set::<u32>::empty()
                        },
                    ) by {
                        let base = handed::<I, FORWARD, ID>(&at_f, t, 0, f as int);
                        assert(prev.slot_at(t, I::slot()) == base.union(
                            if listed_upto(succ@, k as int, t) {
                                gift
                            } else {
                                Set::<u32>::empty()
                            },
                        ));
                        if listed_upto(succ@, k as int, t) {
                            let j = choose|j: int|
                                0 <= j < k && j < succ@.len() && #[trigger] succ@[j] == t;
                            assert(listed_upto(succ@, k as int + 1, t));
                        }
                        if t == to {
                            assert(succ@[k as int] == t);
                            assert(listed_upto(succ@, k as int + 1, t));
                            assert(self.slot_at(t, I::slot()) =~= base.union(gift));
                        } else {
                            if listed_upto(succ@, k as int + 1, t) {
                                let j = choose|j: int|
                                    0 <= j < k + 1 && j < succ@.len() && #[trigger] succ@[j] == t;
                                assert(j < k);
                                assert(listed_upto(succ@, k as int, t));
                            }
                            assert(self.nodes()[t] == prev.nodes()[t]);
                        }
                    }
                }
                k += 1;
            }
            proof {
                assert forall|t: int| 0 <= t < n implies #[trigger] self.slot_at(t, I::slot())
                    == handed::<I, FORWARD, ID>(self, t, 0, f as int + 1) by {
                    lemma_handed_same::<I, FORWARD, ID>(self, &at_f, t, 0, f as int);
                    let base = handed::<I, FORWARD, ID>(&at_f, t, 0, f as int);
                    let want = handed::<I, FORWARD, ID>(self, t, 0, f as int + 1);
                    let fed = listed_upto(succ@, succ@.len() as int, t);
                    if fed {
                        let j = choose|j: int|
                            0 <= j < succ@.len() && j < succ@.len() && #[trigger] succ@[j] == t;
                        assert(succ@.contains(succ@[j]));
                    }
                    if self.dag().has_edge(f as int, t) {
                        assert(succ@.contains(t as usize));
                        let j = choose|j: int| 0 <= j < succ@.len() && succ@[j] == t as usize;
                        assert(succ@[j] == t);
                        assert(fed);
                    }
                    assert(fed == self.feeds(FORWARD, f as int, t));
                    assert forall|x: u32| want.contains(x) == (base.contains(x) || (fed
                        && gift.contains(x))) by {
                        if want.contains(x) {
                            let p = choose|p: int|
                                0 <= p < f + 1 && p < self.nodes().len() && self.feeds(FORWARD, p, t)
                                    && #[trigger] I::hands_on(
                                    &self.nodes()[p],
                                    RawNodeIndex(p as usize),
                                ).contains(x);
                            if p < f {
                                assert(handed::<I, FORWARD, ID>(self, t, 0, f as int).contains(x));
                            }
                        }
                        if base.contains(x) {
                            assert(handed::<I, FORWARD, ID>(self, t, 0, f as int).contains(x));
                            let p = choose|p: int|
                                0 <= p < f && p < self.nodes().len() && self.feeds(FORWARD, p, t)
                                    && #[trigger] I::hands_on(
                                    &self.nodes()[p],
                                    RawNodeIndex(p as usize),
                                ).contains(x);
                            assert(0 <= p < f + 1);
                        }
                        if fed && gift.contains(x) {
                            assert(I::hands_on(
                                &self.nodes()[f as int],
                                RawNodeIndex(f as int as usize),
                            ).contains(x));
                        }
                    }
                    assert(want =~= base.union(
                        if fed {
                            gift
                        } else {
                            Set::<u32>::empty()
                        },
                    ));
                }
            }
            f += 1;
        }
    }

    /// Runs a pass against the edges: every node, in descending order, hands
    /// a value on to each node before one of its edges.
    fn transfer_backward<I: TransferInitialiser<FORWARD, ID>, const FORWARD: bool, const ID: u8>(
        &mut self,
        init: &mut I,
        parser: &Z3Parser,
    )
        requires
            !FORWARD,
            old(self).wf(),
            forall|t: int|
                0 <= t < old(self).nodes().len() ==> #[trigger] old(self).slot_at(t, I::slot())
                    == Set::<u32>::empty(),
        ensures
            final(self).wf(),
            final(self).same_but_slot(old(self), I::slot()),
            forall|t: int|
                0 <= t < final(self).nodes().len() ==> #[trigger] final(self).slot_at(t, I::slot())
                    == handed::<I, FORWARD, ID>(final(self), t, 0, final(self).nodes().len() as int),
    {
        let n = self.node_count();
        let mut upper: usize = n;
        let mut last_component: Option<u32> = None;
        proof {
            assert forall|t: int| 0 <= t < n implies #[trigger] self.slot_at(t, I::slot())
                == handed::<I, FORWARD, ID>(self, t, n as int, n as int) by {
                assert(handed::<I, FORWARD, ID>(self, t, n as int, n as int) =~= Set::<u32>::empty());
            }
        }
        while upper > 0
            invariant
                !FORWARD,
                0 <= upper <= n,
                n == self.nodes().len(),
                self.wf(),
                self.same_but_slot(old(self), I::slot()),
                forall|t: int|
                    0 <= t < n ==> #[trigger] self.slot_at(t, I::slot()) == handed::<I, FORWARD, ID>(
                        self,
                        t,
                        upper as int,
                        n as int,
                    ),
            decreases upper,
        {
            upper -= 1;
            let f = upper;
            let component = match self.node(RawNodeIndex(f)).subgraph {
                Some((c, _)) => Some(c),
                None => None,
            };
            let changed = match (component, last_component) {
                (Some(a), Some(b)) => a != b,
                (None, None) => false,
                _ => true,
            };
            if changed {
                init.reset();
            }
            last_component = component;
            let succ = self.topology().predecessors(f);
            let mut to_all: Vec<I::Observed> = Vec::new();
            let mut k: usize = 0;
            while k < succ.len()
                invariant
                    0 <= k <= succ@.len(),
                    0 <= f < n,
                    n == self.nodes().len(),
                    forall|j: int| 0 <= j < succ@.len() ==> #[trigger] succ@[j] < f,
                decreases succ@.len() - k,
            {
                let seen = init.observe(self.node(RawNodeIndex(succ[k])), parser);
                to_all.push(seen);
                k += 1;
            }
            let ghost at_f = *self;
            let ghost gift = I::hands_on(&at_f.nodes()[f as int], RawNodeIndex(f));
            let mut k: usize = 0;
            while k < succ.len()
                invariant
                    !FORWARD,
                    0 <= k <= succ@.len(),
                    0 <= f < n,
                    n == self.nodes().len(),
                    n <= u32::MAX,
                    self.wf(),
                    self.same_but_slot(old(self), I::slot()),
                    self.dag() == at_f.dag(),
                    forall|p: int| f <= p < n ==> #[trigger] self.nodes()[p] == at_f.nodes()[p],
                    gift == I::hands_on(&at_f.nodes()[f as int], RawNodeIndex(f)),
                    forall|s: usize| #[trigger]
                        succ@.contains(s) <==> self.dag().has_edge(s as int, f as int),
                    forall|j: int| 0 <= j < succ@.len() ==> #[trigger] succ@[j] < f,
                    forall|t: int|
                        0 <= t < n ==> #[trigger] self.slot_at(t, I::slot()) == handed::<
                            I,
                            FORWARD,
                            ID,
                        >(&at_f, t, f as int + 1, n as int).union(
                            if listed_upto(succ@, k as int, t) {
                                gift
                            } else {
                                Set::<u32>::empty()
                            },
                        ),
                decreases succ@.len() - k,
            {
                let to = succ[k];
                let ghost prev = *self;
                let value = init.transfer(
                    self.node(RawNodeIndex(f)),
                    RawNodeIndex(f),
                    k,
                    to_all.as_slice(),
                );
                let node = self.node_mut(to);
                init.add(node, value);
                proof {
                    assert forall|c: int| 0 <= c < n implies (
                    #[trigger] self.nodes()[c]).same_but_slot(&old(self).nodes()[c], I::slot()) by {
                        assert(prev.nodes()[c].same_but_slot(&old(self).nodes()[c], I::slot()));
                    }
                    assert forall|p: int| f <= p < n implies #[trigger] self.nodes()[p]
                        == at_f.nodes()[p] by {
                        assert(prev.nodes()[p] == at_f.nodes()[p]);
                    }
                    assert forall|t: int| 0 <= t < n implies #[trigger] self.slot_at(t, I::slot())
                        == handed::<I, FORWARD, ID>(&at_f, t, f as int + 1, n as int).union(
                        if listed_upto(succ@, k as int + 1, t) {
                            gift
                        } else {
                            Set::<u32>::empty()
                        },
                    ) by {
                        let base = handed::<I, FORWARD, ID>(&at_f, t, f as int + 1, n as int);
                        assert(prev.slot_at(t, I::slot()) == base.union(
                            if listed_upto(succ@, k as int, t) {
                                gift
                            } else {
                                Set::<u32>::empty()
                            },
                        ));
                        if listed_upto(succ@, k as int, t) {
                            let j = choose|j: int|
                                0 <= j < k && j < succ@.len() && #[trigger] succ@[j] == t;
                            assert(listed_upto(succ@, k as int + 1, t));
                        }
                        if t == to {
                            assert(succ@[k as int] == t);
                            assert(listed_upto(succ@, k as int + 1, t));
                            assert(self.slot_at(t, I::slot()) =~= base.union(gift));
                        } else {
                            if listed_upto(succ@, k as int + 1, t) {
                                let j = choose|j: int|
                                    0 <= j < k + 1 && j < succ@.len() && #[trigger] succ@[j] == t;
                                assert(j < k);
                                assert(listed_upto(succ@, k as int, t));
                            }
                            assert(self.nodes()[t] == prev.nodes()[t]);
                        }
                    }
                }
                k += 1;
            }
            proof {
                assert forall|t: int| 0 <= t < n implies #[trigger] self.slot_at(t, I::slot())
                    == handed::<I, FORWARD, ID>(self, t, f as int, n as int) by {
                    lemma_handed_same::<I, FORWARD, ID>(self, &at_f, t, f as int + 1, n as int);
                    let base = handed::<I, FORWARD, ID>(&at_f, t, f as int + 1, n as int);
                    let want = handed::<I, FORWARD, ID>(self, t, f as int, n as int);
                    let fed = listed_upto(succ@, succ@.len() as int, t);
                    if fed {
                        let j = choose|j: int|
                            0 <= j < succ@.len() && j < succ@.len() && #[trigger] succ@[j] == t;
                        assert(succ@.contains(succ@[j]));
                    }
                    if self.dag().has_edge(t, f as int) {
                        assert(succ@.contains(t as usize));
                        let j = choose|j: int| 0 <= j < succ@.len() && succ@[j] == t as usize;
                        assert(succ@[j] == t);
                        assert(fed);
                    }
                    assert(fed == self.feeds(FORWARD, f as int, t));
                    assert forall|x: u32| want.contains(x) == (base.contains(x) || (fed
                        && gift.contains(x))) by {
                        if want.contains(x) {
                            let p = choose|p: int|
                                f <= p < n && p < self.nodes().len() && self.feeds(FORWARD, p, t)
                                    && #[trigger] I::hands_on(
                                    &self.nodes()[p],
                                    RawNodeIndex(p as usize),
                                ).contains(x);
                            if p > f {
                                assert(handed::<I, FORWARD, ID>(self, t, f as int + 1, n as int).contains(
                                    x,
                                ));
                            }
                        }
                        if base.contains(x) {
                            assert(handed::<I, FORWARD, ID>(self, t, f as int + 1, n as int).contains(x));
                            let p = choose|p: int|
                                f + 1 <= p < n && p < self.nodes().len() && self.feeds(FORWARD, p, t)
                                    && #[trigger] I::hands_on(
                                    &self.nodes()[p],
                                    RawNodeIndex(p as usize),
                                ).contains(x);
                            assert(f <= p < n);
                        }
                        if fed && gift.contains(x) {
                            assert(I::hands_on(
                                &self.nodes()[f as int],
                                RawNodeIndex(f as int as usize),
                            ).contains(x));
                        }
                    }
                    assert(want =~= base.union(
                        if fed {
                            gift
                        } else {
                            Set::<u32>::empty()
                        },
                    ));
                }
            }
        }
    }

    /// Runs a pass over the graph. Every node gets the starting value; then
    /// the nodes are visited once each, in an order in which a node comes
    /// after all the nodes that hand a value on to it, and each hands its
    /// value on to the nodes behind its edges (before them, for a pass that
    /// is not forward). In the end every node holds what the nodes that feed
    /// it hand on.
    pub fn initialise_transfer<I: TransferInitialiser<FORWARD, ID>, const FORWARD: bool, const ID: u8>(
        &mut self,
        init: &mut I,
        parser: &Z3Parser,
    )
        requires
            old(self).wf(),
        ensures
            final(self).wf(),
            final(self).same_but_slot(old(self), I::slot()),
            forall|t: int|
                0 <= t < final(self).nodes().len() ==> #[trigger] final(self).slot_at(t, I::slot())
                    == handed::<I, FORWARD, ID>(final(self), t, 0, final(self).nodes().len() as int),
    {
        let ghost start = *self;
        self.assign_bases::<I, FORWARD, ID>(init, parser);
        let ghost based = *self;
        match I::direction() {
            Direction::Outgoing => {
                self.transfer_forward::<I, FORWARD, ID>(init, parser);
            },
            Direction::Incoming => {
                self.transfer_backward::<I, FORWARD, ID>(init, parser);
            },
        }
        proof {
            assert forall|c: int| 0 <= c < self.nodes().len() implies (
            #[trigger] self.nodes()[c]).same_but_slot(&start.nodes()[c], I::slot()) by {
                assert(self.nodes()[c].same_but_slot(&based.nodes()[c], I::slot()));
                assert(based.nodes()[c].same_but_slot(&start.nodes()[c], I::slot()));
            }
        }
    }
}

} // verus!
