//! The nearest enabled nodes before and behind every node.

use vstd::prelude::*;
use petgraph::Direction;
use crate::dataflow::{Initialiser, Slot, TransferInitialiser};
use crate::idx::RawNodeIndex;
use crate::model::Z3Parser;
use crate::next_insts::{copy_next, single_next};
use crate::raw::{NextInsts, Node};

verus! {

/// What a pass for the next enabled nodes needs: where it starts, and what
/// a node hands on to its neighbours. With `FORWARD` the pass runs along the
/// edges and fills `enabled_parents`; without, it runs against them and
/// fills `enabled_children`.
pub trait NextEnabledInitialiser<const FORWARD: bool> {
    /// What a neighbour shows of itself before the transfer.
    type Observed;

    /// What `transfer` hands on, as a set.
    spec fn transfers(from: &Node, from_idx: RawNodeIndex) -> Set<u32>;

    /// The starting value for a node.
    fn base(&mut self, node: &Node, parser: &Z3Parser) -> (r: NextInsts)
        ensures
            r.values() == Set::<u32>::empty(),
    ;

    /// What `reset` makes of a pass. A pass that does not say leaves it open.
    open spec fn cleared(&self, after: &Self) -> bool {
        true
    }

    /// Whether a node shows `seen` of itself. A pass that does not say leaves
    /// it open.
    open spec fn observes(node: &Node, seen: &Self::Observed) -> bool {
        true
    }

    /// Called between initialisations of different subgraphs.
    fn reset(&mut self)
        ensures
            old(self).cleared(final(self)),
    ;

    /// What a node shows of itself to the nodes that hand values on to it.
    fn observe(&mut self, node: &Node, parser: &Z3Parser) -> (seen: Self::Observed)
        ensures
            Self::observes(node, &seen),
    ;

    /// What `from` hands on to its neighbour number `to_idx`.
    fn transfer(
        &mut self,
        from: &Node,
        from_idx: RawNodeIndex,
        to_idx: usize,
        to_all: &[Self::Observed],
    ) -> (r: NextInsts)
        requires
            from_idx.0 <= u32::MAX,
        ensures
            r.values() == Self::transfers(from, from_idx),
    ;
}

impl<C: NextEnabledInitialiser<FORWARD>, const FORWARD: bool> Initialiser<FORWARD, 3> for C {
    open spec fn slot() -> Slot {
        if FORWARD {
            Slot::EnabledParents
        } else {
            Slot::EnabledChildren
        }
    }

    fn direction() -> (d: Direction) {
        if FORWARD {
            Direction::Outgoing
        } else {
            Direction::Incoming
        }
    }

    fn base(&mut self, _node: &Node, _parser: &Z3Parser) -> (r: NextInsts) {
        NextInsts::empty()
    }

    fn assign(&mut self, node: &mut Node, value: NextInsts) {
        if FORWARD {
            node.assign_slot(Slot::EnabledParents, value);
        } else {
            node.assign_slot(Slot::EnabledChildren, value);
        }
    }

    /// Clears the pass as its own `reset` does.
    fn reset(&mut self)
        ensures
            old(self).cleared(final(self)),
    {
        <C as NextEnabledInitialiser<FORWARD>>::reset(self)
    }
}

impl<C: NextEnabledInitialiser<FORWARD>, const FORWARD: bool> TransferInitialiser<FORWARD, 3> for C {
    type Observed = C::Observed;

    open spec fn hands_on(from: &Node, from_idx: RawNodeIndex) -> Set<u32> {
        C::transfers(from, from_idx)
    }

    /// Shows of a node what the pass's own `observe` shows.
    fn observe(&mut self, node: &Node, parser: &Z3Parser) -> (seen: Self::Observed)
        ensures
            C::observes(node, &seen),
    {
        <C as NextEnabledInitialiser<FORWARD>>::observe(self, node, parser)
    }

    fn transfer(
        &mut self,
        from: &Node,
        from_idx: RawNodeIndex,
        to_idx: usize,
        to_all: &[Self::Observed],
    ) -> (r: NextInsts) {
        <C as NextEnabledInitialiser<FORWARD>>::transfer(self, from, from_idx, to_idx, to_all)
    }

    fn add(&mut self, node: &mut Node, value: NextInsts) {
        if FORWARD {
            node.add_slot(Slot::EnabledParents, &value);
        } else {
            node.add_slot(Slot::EnabledChildren, &value);
        }
    }
}

/// The pass that finds, for every node, the enabled nodes that lead to it
/// (or that it leads to) with no enabled node in between.
pub struct DefaultNextEnabled<const FORWARD: bool>;

impl<const FORWARD: bool> NextEnabledInitialiser<FORWARD> for DefaultNextEnabled<FORWARD> {
    type Observed = NextInsts;

    /// An enabled node hands on itself; a disabled node hands on what it got.
    open spec fn transfers(from: &Node, from_idx: RawNodeIndex) -> Set<u32> {
        if !from.disabled {
            Set::<u32>::empty().insert(from_idx.0 as u32)
        } else if FORWARD {
            from.enabled_parents.values()
        } else {
            from.enabled_children.values()
        }
    }

    fn base(&mut self, _node: &Node, _parser: &Z3Parser) -> (r: NextInsts) {
        NextInsts::empty()
    }

    /// The pass keeps nothing between subgraphs.
    open spec fn cleared(&self, after: &Self) -> bool {
        after == self
    }

    fn reset(&mut self) {
    }

    /// A node shows the enabled nodes that it has got so far.
    open spec fn observes(node: &Node, seen: &Self::Observed) -> bool {
        seen.values() == if FORWARD {
            node.enabled_parents.values()
        } else {
            node.enabled_children.values()
        }
    }

    fn observe(&mut self, node: &Node, _parser: &Z3Parser) -> (seen: Self::Observed) {
        if FORWARD {
            copy_next(&node.enabled_parents)
        } else {
            copy_next(&node.enabled_children)
        }
    }

    fn transfer(
        &mut self,
        node: &Node,
        from_idx: RawNodeIndex,
        _idx: usize,
        _incoming: &[Self::Observed],
    ) -> (r: NextInsts) {
        match node.disabled() {
            false => single_next(from_idx),
            _ => {
                if FORWARD {
                    copy_next(&node.enabled_parents)
                } else {
                    copy_next(&node.enabled_children)
                }
            },
        }
    }
}

} // verus!
