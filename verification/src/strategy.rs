//! The decision function, the action and the fix-up with which the counting
//! tree inserts.

use crate::count::{CountNode, NodePtr, opt_count};
use crate::node::Node;
use crate::walk::{Act, Decide, Fixup, WalkAction, insert_before, insert_before_ok, inserted_before};
use vstd::prelude::*;

verus! {

/// The order-statistics descent to the element at position `index` of the
/// subtree in which the walk starts. `up_count` is the number of elements that
/// are known to lie left of the current node: those at and left of the
/// ancestors from which the walk went right.
pub struct Seek {
    pub index: u32,
    pub up_count: u32,
}

impl Seek {
    /// The descent to position `index`, before its first step.
    pub fn new(index: u32) -> (r: Seek)
        ensures
            r == (Seek { index, up_count: 0 }),
    {
        Seek { index, up_count: 0 }
    }

    /// The position of `node` itself, as the descent sees it.
    pub open spec fn at<T>(&self, node: &CountNode<T>) -> int {
        opt_count(node.spec_left()) + self.up_count
    }
}

impl<T> Decide<CountNode<T>> for Seek {
    open spec fn action(&self, node: &CountNode<T>) -> WalkAction {
        if self.index < self.at(node) {
            WalkAction::Left
        } else if self.index == self.at(node) {
            WalkAction::Stop
        } else {
            WalkAction::Right
        }
    }

    open spec fn next(self, node: &CountNode<T>) -> Seek {
        if self.index > self.at(node) {
            Seek { index: self.index, up_count: (self.at(node) + 1) as u32 }
        } else {
            self
        }
    }

    fn step_in(&mut self, node: &CountNode<T>) -> (a: WalkAction) {
        let cur_index: u64 = node.lcount() as u64 + self.up_count as u64;
        if (self.index as u64) < cur_index {
            WalkAction::Left
        } else if self.index as u64 == cur_index {
            WalkAction::Stop
        } else {
            self.up_count = (cur_index + 1) as u32;
            WalkAction::Right
        }
    }
}

/// The fix-up that rebalances every node it is handed.
pub struct Rebalance;

impl<T> Fixup<CountNode<T>> for Rebalance {
    open spec fn fix_pre(&self, node: &CountNode<T>, from: WalkAction) -> bool {
        true
    }

    open spec fn fix_spec(&self, node: CountNode<T>, from: WalkAction) -> CountNode<T> {
        node.rebalanced()
    }

    fn fix(&self, node: &mut CountNode<T>, from: WalkAction) {
        node.rebalance();
    }
}

/// Inserts `node` immediately before the node at which the walk stops, and
/// rebalances the path below that node.
pub struct InsertBefore<T> {
    pub node: NodePtr<T>,
}

impl<T> Act<CountNode<T>> for InsertBefore<T> {
    open spec fn act_pre(&self, node: &CountNode<T>) -> bool {
        insert_before_ok(*node, self.node, Rebalance)
    }

    open spec fn act_spec(self, node: CountNode<T>) -> CountNode<T> {
        inserted_before(node, self.node, Rebalance)
    }

    fn act(self, node: &mut CountNode<T>) {
        insert_before(node, self.node, &Rebalance);
    }
}

} // verus!
