//! The nearest instantiations before and behind every node.

use vstd::prelude::*;
use petgraph::Direction;
use crate::bitmap::{bitmap_insert, bitmap_new, bitmap_union_with, bitmap_values};
use crate::dataflow::{Initialiser, Slot, TransferInitialiser};
use crate::idx::RawNodeIndex;
use crate::model::{NodeKind, Z3Parser};
use crate::raw::{NextInsts, Node};

verus! {

/// A copy of a set of nodes.
pub fn copy_next(set: &NextInsts) -> (r: NextInsts)
    ensures
        r.values() == set.values(),
{
    let mut nodes = bitmap_new();
    bitmap_union_with(&mut nodes, &set.nodes);
    assert(bitmap_values(nodes) =~= bitmap_values(set.nodes));
    NextInsts { nodes }
}

/// The set of one node.
pub fn single_next(ix: RawNodeIndex) -> (r: NextInsts)
    requires
        ix.0 <= u32::MAX,
    ensures
        r.values() == Set::<u32>::empty().insert(ix.0 as u32),
{
    let mut nodes = bitmap_new();
    bitmap_insert(&mut nodes, ix.0 as u32);
    NextInsts { nodes }
}

/// What a pass for the next instantiations needs: where it starts, and what
/// a node hands on to its neighbours. With `FORWARD` the pass runs along the
/// edges and fills `inst_parents`; without, it runs against them and fills
/// `inst_children`.
pub trait NextInstsInitialiser<const FORWARD: bool> {
    /// What a neighbour shows of itself before the transfer.
    type Observed;

    /// What `transfer` hands on, as a set.
    spec fn transfers(from: &Node, from_idx: RawNodeIndex) -> Set<u32>;

    /// The starting value for a node.
    fn base(&mut self, node: &Node, parser: &Z3Parser) -> (r: NextInsts)
        ensures
            r.values() == Set::<u32>::empty(),
    ;

    /// What `reset` makes of a pass. A pass that does not say leaves it open.
    open spec fn cleared(&self, after: &Self) -> bool {
        true
    }

    /// Whether a node shows `seen` of itself. A pass that does not say leaves
    /// it open.
    open spec fn observes(node: &Node, seen: &Self::Observed) -> bool {
        true
    }

    /// Called between initialisations of different subgraphs.
    fn reset(&mut self)
        ensures
            old(self).cleared(final(self)),
    ;

    /// What a node shows of itself to the nodes that hand values on to it.
    fn observe(&mut self, node: &Node, parser: &Z3Parser) -> (seen: Self::Observed)
        ensures
            Self::observes(node, &seen),
    ;

    /// What `from` hands on to its neighbour number `to_idx`.
    fn transfer(
        &mut self,
        from: &Node,
        from_idx: RawNodeIndex,
        to_idx: usize,
        to_all: &[Self::Observed],
    ) -> (r: NextInsts)
        requires
            from_idx.0 <= u32::MAX,
        ensures
            r.values() == Self::transfers(from, from_idx),
    ;
}

/// The pass that finds, for every node, the instantiations that lead to it
/// (or that it leads to) with no instantiation in between.
pub struct DefaultNextInsts<const FORWARD: bool>;

impl<const FORWARD: bool> NextInstsInitialiser<FORWARD> for DefaultNextInsts<FORWARD> {
    type Observed = ();

    /// An instantiation hands on itself; another node hands on what it got.
    open spec fn transfers(from: &Node, from_idx: RawNodeIndex) -> Set<u32> {
        if from.kind is Instantiation {
            Set::<u32>::empty().insert(from_idx.0 as u32)
        } else if FORWARD {
            from.inst_parents.values()
        } else {
            from.inst_children.values()
        }
    }

    fn base(&mut self, _node: &Node, _parser: &Z3Parser) -> (r: NextInsts) {
        NextInsts::empty()
    }

    /// The pass keeps nothing between subgraphs.
    open spec fn cleared(&self, after: &Self) -> bool {
        after == self
    }

    fn reset(&mut self) {
    }

    /// A node shows nothing of itself.
    open spec fn observes(node: &Node, seen: &Self::Observed) -> bool {
        true
    }

    fn observe(&mut self, _node: &Node, _parser: &Z3Parser) -> Self::Observed {
    }

    fn transfer(
        &mut self,
        node: &Node,
        from_idx: RawNodeIndex,
        _idx: usize,
        _incoming: &[Self::Observed],
    ) -> (r: NextInsts) {
        match node.kind {
            NodeKind::Instantiation(_) => single_next(from_idx),
            _ => {
                if FORWARD {
                    copy_next(&node.inst_parents)
                } else {
                    copy_next(&node.inst_children)
                }
            },
        }
    }
}

impl<C: NextInstsInitialiser<FORWARD>, const FORWARD: bool> Initialiser<FORWARD, 2> for C {
    open spec fn slot() -> Slot {
        if FORWARD {
            Slot::InstParents
        } else {
            Slot::InstChildren
        }
    }

    fn direction() -> (d: Direction) {
        if FORWARD {
            Direction::Outgoing
        } else {
            Direction::Incoming
        }
    }

    fn base(&mut self, _node: &Node, _parser: &Z3Parser) -> (r: NextInsts) {
        NextInsts::empty()
    }

    fn assign(&mut self, node: &mut Node, value: NextInsts) {
        if FORWARD {
            node.assign_slot(Slot::InstParents, value);
        } else {
            node.assign_slot(Slot::InstChildren, value);
        }
    }

    /// Clears the pass as its own `reset` does.
    fn reset(&mut self)
        ensures
            old(self).cleared(final(self)),
    {
        <C as NextInstsInitialiser<FORWARD>>::reset(self)
    }
}

impl<C: NextInstsInitialiser<FORWARD>, const FORWARD: bool> TransferInitialiser<FORWARD, 2> for C {
    type Observed = C::Observed;

    open spec fn hands_on(from: &Node, from_idx: RawNodeIndex) -> Set<u32> {
        C::transfers(from, from_idx)
    }

    /// Shows of a node what the pass's own `observe` shows.
    fn observe(&mut self, node: &Node, parser: &Z3Parser) -> (seen: Self::Observed)
        ensures
            C::observes(node, &seen),
    {
        <C as NextInstsInitialiser<FORWARD>>::observe(self, node, parser)
    }

    fn transfer(
        &mut self,
        from: &Node,
        from_idx: RawNodeIndex,
        to_idx: usize,
        to_all: &[Self::Observed],
    ) -> (r: NextInsts) {
        <C as NextInstsInitialiser<FORWARD>>::transfer(self, from, from_idx, to_idx, to_all)
    }

    fn add(&mut self, node: &mut Node, value: NextInsts) {
        if FORWARD {
            node.add_slot(Slot::InstParents, &value);
        } else {
            node.add_slot(Slot::InstChildren, &value);
        }
    }
}

} // verus!
