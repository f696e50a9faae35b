//! The counting tree: a sequence with positional `get` and `insert`.

use crate::bulk::{build, bulk_height, bulk_tree};
use crate::count::{
    CountNode, NodePtr, opt_balanced, opt_count, opt_height, opt_seq, opt_wf,
};
use crate::insertion::{lemma_append, lemma_leaf, lemma_seek_get, lemma_seek_insert};
use crate::iter::{IntoIter, Iter};
use crate::node::{BinaryTree, Node};
use crate::strategy::{InsertBefore, Rebalance, Seek};
use crate::walk::{AttachRight, KeepRight, reshaped, walk, walk_mut};
use vstd::prelude::*;

verus! {

/// The root of the tree after `value` was inserted at position `index` of the
/// tree below `root`. Into an empty tree, the new node alone. At a position
/// below the count, what the order-statistics descent to the element at
/// `index` leaves, which inserts the new node before that element and
/// rebalances the path; at the count, what the walk down the right spine
/// leaves, which attaches the new node at its end and rebalances the path.
pub open spec fn inserted<T>(root: Option<Box<CountNode<T>>>, index: int, value: T) -> CountNode<
    T,
> {
    let leaf = Box::new(CountNode::make(value, None, None));
    match root {
        Some(n) => if index < n.spec_count() {
            reshaped(
                *n,
                Seek { index: index as u32, up_count: 0 },
                InsertBefore { node: leaf },
                Rebalance,
            )
        } else {
            reshaped(*n, KeepRight, AttachRight { node: leaf }, Rebalance)
        },
        None => *leaf,
    }
}

/// Order is kept: after an insertion at `index` into a tree whose statistics
/// are right and which is balanced, the statistics are right again, the tree
/// is balanced again, and it holds the new value at `index`, the values that
/// stood before `index` before it and those that stood at and after `index`
/// after it, each group in its old order.
pub proof fn lemma_inserted<T>(root: Option<Box<CountNode<T>>>, index: int, value: T)
    requires
        opt_wf(root),
        opt_balanced(root),
        0 <= index <= opt_count(root),
        opt_count(root) < u32::MAX,
    ensures
        inserted(root, index, value).wf(),
        inserted(root, index, value).balanced(),
        inserted(root, index, value)@ == opt_seq(root).insert(index, value),
        inserted(root, index, value).spec_count() == opt_count(root) + 1,
        inserted(root, index, value)@.len() == opt_seq(root).len() + 1,
{
    let leaf = Box::new(CountNode::make(value, None, None));
    CountNode::lemma_join(value, None, None);
    lemma_leaf(*leaf);
    match root {
        Some(n) => {
            n.lemma_count_is_len();
            if index < n.spec_count() {
                lemma_seek_insert(*n, index as u32, 0, leaf);
            } else {
                lemma_append(*n, leaf);
                assert(n@.push(value) =~= n@.insert(index, value));
            }
        },
        None => {
            assert(leaf@ =~= Seq::<T>::empty().insert(0, value));
        },
    }
}

/// A sequence of values, held in a balanced binary tree that is ordered by
/// position. The tree is empty exactly when it has no root.
pub struct CountTree<T>(Option<NodePtr<T>>);

impl<T> View for CountTree<T> {
    type V = Seq<T>;

    /// The values in positional order.
    open spec fn view(&self) -> Seq<T> {
        opt_seq(self.spec_root())
    }
}

impl<T> BinaryTree for CountTree<T> {
    type Node = CountNode<T>;

    closed spec fn spec_root(&self) -> Option<Box<CountNode<T>>> {
        self.0
    }

    /// The root node; none in an empty tree. Whatever tree it is read from,
    /// the statistics are right at every node below it, and every node is balanced.
    fn root(&self) -> (r: Option<&CountNode<T>>)
        ensures
            r is Some ==> r.unwrap().wf() && r.unwrap().balanced() && r.unwrap()@ == self@,
            self.well_formed(),
    {
        proof {
            use_type_invariant(self);
        }
        match &self.0 {
            Some(node) => Some(&**node),
            None => None,
        }
    }
}

impl<T> CountTree<T> {
    #[verifier::type_invariant]
    spec fn inv(self) -> bool {
        opt_wf(self.0) && opt_balanced(self.0)
    }

    /// What holds of every tree at all times: each node caches the true count
    /// and height of its subtree, and at each node the heights of the two
    /// subtrees differ by at most one.
    pub open spec fn well_formed(&self) -> bool {
        opt_wf(self.spec_root()) && opt_balanced(self.spec_root())
    }

    /// An empty tree.
    pub fn new() -> (r: CountTree<T>)
        ensures
            r@ == Seq::<T>::empty(),
            r.spec_root() is None,
            r.well_formed(),
    {
        CountTree(None)
    }

    /// The tree below `root`, if that subtree is balanced.
    pub fn from_root(root: NodePtr<T>) -> (r: Option<CountTree<T>>)
        requires
            root.wf(),
        ensures
            r is Some <==> root.balanced(),
            r is Some ==> r.unwrap().spec_root() == Some(root) && r.unwrap()@ == root@
                && r.unwrap().well_formed(),
    {
        if root.is_balanced() {
            Some(CountTree(Some(root)))
        } else {
            None
        }
    }

    /// A balanced tree of least height that holds the values of `items` in
    /// their order.
    pub fn from_iter(items: Vec<T>) -> (r: CountTree<T>)
        requires
            items.len() <= u32::MAX,
        ensures
            r.spec_root() == bulk_tree(items@),
            r@ == items@,
            r.well_formed(),
            opt_height(r.spec_root()) == bulk_height(items.len() as int),
    {
        let mut items = items;
        let ghost all = items@;
        let n: u32 = items.len() as u32;
        let root = build(&mut items, n);
        assert(all.skip(0) =~= all);
        CountTree(root)
    }

    /// The number of elements. It is read off the root in constant time.
    pub fn len(&self) -> (r: usize)
        ensures
            r == self@.len(),
            r == opt_count(self.spec_root()),
            r <= u32::MAX,
    {
        proof {
            use_type_invariant(self);
        }
        match &self.0 {
            Some(node) => {
                proof {
                    node.lemma_count_is_len();
                }
                node.count() as usize
            },
            None => 0,
        }
    }

    /// The element at position `index`; none where `index` is not below the length.
    pub fn get(&self, index: usize) -> (r: Option<&T>)
        ensures
            index < self@.len() ==> r == Some(&self@[index as int]),
            index >= self@.len() ==> r is None,
    {
        proof {
            use_type_invariant(self);
        }
        if index >= self.len() {
            None
        } else {
            match &self.0 {
                Some(root) => {
                    proof {
                        lemma_seek_get(**root, index as u32, 0);
                    }
                    let node = walk(&**root, Seek::new(index as u32));
                    Some(node.value())
                },
                None => None,
            }
        }
    }

    /// Inserts `value` at position `index`. The elements that stood at
    /// `index` and after it move one position up; `index == len()` appends.
    pub fn insert(&mut self, index: usize, value: T)
        requires
            index <= old(self)@.len(),
            old(self)@.len() < u32::MAX,
        ensures
            final(self).spec_root() == Some(
                Box::new(inserted(old(self).spec_root(), index as int, value)),
            ),
            final(self)@ == old(self)@.insert(index as int, value),
            final(self)@.len() == old(self)@.len() + 1,
            final(self).well_formed(),
    {
        proof {
            use_type_invariant(&*self);
            match &self.0 {
                Some(n) => n.lemma_count_is_len(),
                None => {},
            }
            lemma_inserted(self.0, index as int, value);
        }
        let len: usize = self.len();
        let new_node = Box::new(CountNode::new(value));
        let mut root = None;
        core::mem::swap(&mut root, &mut self.0);
        match root {
            Some(mut node) => {
                proof {
                    node.lemma_count_is_len();
                }
                if index < len {
                    proof {
                        lemma_leaf(*new_node);
                        lemma_seek_insert(*node, index as u32, 0, new_node);
                    }
                    walk_mut(
                        &mut *node,
                        Seek::new(index as u32),
                        InsertBefore { node: new_node },
                        &Rebalance,
                    );
                } else {
                    proof {
                        lemma_leaf(*new_node);
                        lemma_append(*node, new_node);
                    }
                    walk_mut(&mut *node, KeepRight, AttachRight { node: new_node }, &Rebalance);
                }
                self.0 = Some(node);
            },
            None => {
                self.0 = Some(new_node);
            },
        }
    }

    /// Inserts `value` at position `index` if that is a position of the tree
    /// or its end, and the tree is not full; else hands `value` back and
    /// leaves the tree as it is.
    pub fn try_insert(&mut self, index: usize, value: T) -> (r: Result<(), T>)
        ensures
            match r {
                Ok(_) => {
                    &&& index <= old(self)@.len() < u32::MAX
                    &&& final(self).spec_root() == Some(
                        Box::new(inserted(old(self).spec_root(), index as int, value)),
                    )
                    &&& final(self)@ == old(self)@.insert(index as int, value)
                },
                Err(back) => {
                    &&& index > old(self)@.len() || old(self)@.len() >= u32::MAX
                    &&& back == value
                    &&& final(self).spec_root() == old(self).spec_root()
                },
            },
            final(self).well_formed(),
    {
        proof {
            use_type_invariant(&*self);
        }
        let len: usize = self.len();
        if index <= len && len < u32::MAX as usize {
            self.insert(index, value);
            Ok(())
        } else {
            Err(value)
        }
    }

    /// An iterator over the values, by reference, in positional order.
    pub fn iter(&self) -> (r: Iter<'_, T>)
        ensures
            r@ == self@,
    {
        proof {
            use_type_invariant(self);
        }
        Iter::new(self.root())
    }

    /// An iterator that takes the tree over and hands out its values in
    /// positional order.
    pub fn into_iter(self) -> (r: IntoIter<T>)
        ensures
            r@ == self@,
    {
        proof {
            use_type_invariant(&self);
        }
        IntoIter::new(self.0)
    }

    /// The values in positional order.
    pub fn into_vec(self) -> (r: Vec<T>)
        ensures
            r@ == self@,
    {
        let ghost all = self@;
        let mut rest = self.into_iter();
        let mut out: Vec<T> = Vec::new();
        loop
            invariant_except_break
                out@ + rest@ == all,
            ensures
                out@ == all,
            decreases rest@.len(),
        {
            let ghost before = rest@;
            match rest.next() {
                Some(v) => {
                    proof {
                        assert(out@.push(v) + before.skip(1) =~= out@ + before);
                    }
                    out.push(v);
                },
                None => {
                    assert(out@ + rest@ =~= out@);
                    break ;
                },
            }
        }
        out
    }

    /// Empties the tree. The nodes are taken apart one by one, without recursion.
    pub fn clear(&mut self)
        ensures
            final(self)@ == Seq::<T>::empty(),
            final(self).spec_root() is None,
    {
        proof {
            use_type_invariant(&*self);
        }
        let mut root = None;
        core::mem::swap(&mut root, &mut self.0);
        let mut rest = IntoIter::new(root);
        loop
            invariant
                true,
            decreases rest@.len(),
        {
            match rest.next() {
                Some(_) => {},
                None => {
                    break ;
                },
            }
        }
    }
}

} // verus!
