//! What holds of every node of a tree, and of every history of insertions.

use crate::count::{CountNode, opt_balanced, opt_count, opt_seq, opt_wf};
use crate::node::Node;
use crate::tree::{inserted, lemma_inserted};
use crate::walk::{WalkAction, child};
use vstd::prelude::*;

verus! {

/// The node that is reached from `n` along `path`, one side per step; none
/// where the path leaves the tree.
pub open spec fn descendant<T>(n: CountNode<T>, path: Seq<WalkAction>) -> Option<CountNode<T>>
    decreases path.len(),
{
    if path.len() == 0 {
        Some(n)
    } else {
        match child(n, path[0]) {
            Some(c) => descendant(*c, path.skip(1)),
            None => None,
        }
    }
}

/// The count invariant: below a node whose statistics are right, every node
/// counts one more than its two subtrees together, and as many as it holds values.
pub proof fn lemma_count_invariant<T>(root: CountNode<T>, path: Seq<WalkAction>)
    requires
        root.wf(),
    ensures
        descendant(root, path) matches Some(m) ==> {
            &&& m.wf()
            &&& m.spec_count() == 1 + opt_count(m.spec_left()) + opt_count(m.spec_right())
            &&& m.spec_count() == m@.len()
        },
    decreases path.len(),
{
    if path.len() == 0 {
        root.lemma_count_is_len();
    } else {
        match child(root, path[0]) {
            Some(c) => lemma_count_invariant(*c, path.skip(1)),
            None => {},
        }
    }
}

/// The balance invariant: below a balanced node, the balance factor of every
/// node is -1, 0 or 1.
pub proof fn lemma_balance_invariant<T>(root: CountNode<T>, path: Seq<WalkAction>)
    requires
        root.balanced(),
    ensures
        descendant(root, path) matches Some(m) ==> {
            &&& m.balanced()
            &&& -1 <= m.spec_balance_factor() <= 1
        },
    decreases path.len(),
{
    if path.len() > 0 {
        match child(root, path[0]) {
            Some(c) => lemma_balance_invariant(*c, path.skip(1)),
            None => {},
        }
    }
}

/// Every step of `ops`, a position and a value, inserts at a position of the
/// sequence that the steps before it have made, or at its end, and there are
/// no more steps than a tree can hold elements.
pub open spec fn history_ok<T>(ops: Seq<(int, T)>) -> bool {
    &&& ops.len() <= u32::MAX
    &&& forall|k: int| 0 <= k < ops.len() ==> 0 <= (#[trigger] ops[k]).0 <= k
}

/// The sequence that the insertions of `ops` make, one after the other, from
/// the empty sequence.
pub open spec fn seq_after<T>(ops: Seq<(int, T)>) -> Seq<T>
    decreases ops.len(),
{
    if ops.len() == 0 {
        Seq::empty()
    } else {
        seq_after(ops.drop_last()).insert(ops.last().0, ops.last().1)
    }
}

/// The root that the insertions of `ops` leave, one after the other, in a
/// tree that was empty.
pub open spec fn root_after<T>(ops: Seq<(int, T)>) -> Option<Box<CountNode<T>>>
    decreases ops.len(),
{
    if ops.len() == 0 {
        None
    } else {
        Some(Box::new(inserted(root_after(ops.drop_last()), ops.last().0, ops.last().1)))
    }
}

/// Order preservation: after any history of insertions the tree holds the
/// sequence that those insertions make, each one shifting what stood at and
/// after its position one place up; it holds as many elements as there were
/// insertions; and its statistics are right and it is balanced at every node.
pub proof fn lemma_history<T>(ops: Seq<(int, T)>)
    requires
        history_ok(ops),
    ensures
        opt_seq(root_after(ops)) == seq_after(ops),
        seq_after(ops).len() == ops.len(),
        opt_count(root_after(ops)) == ops.len(),
        opt_wf(root_after(ops)),
        opt_balanced(root_after(ops)),
    decreases ops.len(),
{
    if ops.len() > 0 {
        let before = ops.drop_last();
        assert(history_ok(before)) by {
            assert forall|k: int| 0 <= k < before.len() implies 0 <= (#[trigger] before[k]).0
                <= k by {
                assert(before[k] == ops[k]);
            }
        }
        lemma_history(before);
        assert(0 <= ops[ops.len() - 1].0 <= ops.len() - 1);
        lemma_inserted(root_after(before), ops.last().0, ops.last().1);
    }
}

} // verus!
