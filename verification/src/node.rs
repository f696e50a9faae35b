//! The node abstraction: what an algorithm may ask of a node, whatever the tree
//! it belongs to. `Node` is the capability to read, `NodeMut` adds the
//! capability to take subtrees out and to put subtrees in.

use vstd::prelude::*;

verus! {

/// A node that can be read: it has a value and up to two children.
pub trait Node: Sized {
    /// What a node holds.
    type Value;

    /// The left subtree.
    spec fn spec_left(&self) -> Option<Box<Self>>;

    /// The right subtree.
    spec fn spec_right(&self) -> Option<Box<Self>>;

    /// The value stored in this node.
    spec fn spec_value(&self) -> Self::Value;

    /// A measure of the subtree that gets smaller from a node to its children,
    /// so that every descent ends.
    spec fn weight(&self) -> nat;

    /// A child weighs less than its parent.
    proof fn lemma_weight(&self)
        ensures
            self.spec_left() is Some ==> self.spec_left().unwrap().weight() < self.weight(),
            self.spec_right() is Some ==> self.spec_right().unwrap().weight() < self.weight(),
    ;

    /// The left child, if there is one.
    fn left(&self) -> (r: Option<&Self>)
        ensures
            r is Some <==> self.spec_left() is Some,
            r is Some ==> *r.unwrap() == *self.spec_left().unwrap(),
    ;

    /// The right child, if there is one.
    fn right(&self) -> (r: Option<&Self>)
        ensures
            r is Some <==> self.spec_right() is Some,
            r is Some ==> *r.unwrap() == *self.spec_right().unwrap(),
    ;

    /// The value stored in this node.
    fn value(&self) -> (r: &Self::Value)
        ensures
            *r == self.spec_value(),
    ;
}

/// A node whose subtrees can be exchanged. A node that caches anything about
/// its subtree brings the cache up to date in every one of these operations,
/// before the operation returns: that is what `valid` stands for.
pub trait NodeMut: Node {
    /// Whatever the node caches about its subtree is right, at this node and below.
    spec fn valid(&self) -> bool;

    /// This node with `tree` in its left slot.
    spec fn with_left(self, tree: Option<Box<Self>>) -> Self;

    /// This node with `tree` in its right slot.
    spec fn with_right(self, tree: Option<Box<Self>>) -> Self;

    /// The node can hold `tree` in its left slot: what it caches would still
    /// fit the machine.
    spec fn can_take_left(&self, tree: Option<Box<Self>>) -> bool;

    /// The node can hold `tree` in its right slot.
    spec fn can_take_right(&self, tree: Option<Box<Self>>) -> bool;

    /// Below a valid node all is valid, and emptying a slot that is empty
    /// changes nothing.
    proof fn lemma_valid(&self)
        requires
            self.valid(),
        ensures
            self.spec_left() is Some ==> self.spec_left().unwrap().valid(),
            self.spec_right() is Some ==> self.spec_right().unwrap().valid(),
            self.spec_left() is None ==> self.with_left(None) == *self,
            self.spec_right() is None ==> self.with_right(None) == *self,
    ;

    /// What was in the left slot before has no part in what the node is, or
    /// can take, with a new subtree there.
    proof fn lemma_with_left(&self, first: Option<Box<Self>>, then: Option<Box<Self>>)
        ensures
            self.with_left(first).with_left(then) == self.with_left(then),
            self.with_left(first).can_take_left(then) == self.can_take_left(then),
    ;

    /// The same for the right slot.
    proof fn lemma_with_right(&self, first: Option<Box<Self>>, then: Option<Box<Self>>)
        ensures
            self.with_right(first).with_right(then) == self.with_right(then),
            self.with_right(first).can_take_right(then) == self.can_take_right(then),
    ;

    /// Takes the left subtree out and leaves the slot empty.
    fn detach_left(&mut self) -> (r: Option<Box<Self>>)
        requires
            old(self).valid(),
        ensures
            r == old(self).spec_left(),
            *final(self) == old(self).with_left(None),
            final(self).valid(),
    ;

    /// Takes the right subtree out and leaves the slot empty.
    fn detach_right(&mut self) -> (r: Option<Box<Self>>)
        requires
            old(self).valid(),
        ensures
            r == old(self).spec_right(),
            *final(self) == old(self).with_right(None),
            final(self).valid(),
    ;

    /// Puts `tree` into the left slot and hands back what was there.
    fn insert_left(&mut self, tree: Option<Box<Self>>) -> (r: Option<Box<Self>>)
        requires
            old(self).valid(),
            tree is Some ==> tree.unwrap().valid(),
            old(self).can_take_left(tree),
        ensures
            r == old(self).spec_left(),
            *final(self) == old(self).with_left(tree),
            final(self).valid(),
    ;

    /// Puts `tree` into the right slot and hands back what was there.
    fn insert_right(&mut self, tree: Option<Box<Self>>) -> (r: Option<Box<Self>>)
        requires
            old(self).valid(),
            tree is Some ==> tree.unwrap().valid(),
            old(self).can_take_right(tree),
        ensures
            r == old(self).spec_right(),
            *final(self) == old(self).with_right(tree),
            final(self).valid(),
    ;

    /// Gives up the node for its value. The subtrees are dropped.
    fn value_owned(self) -> (r: Self::Value)
        ensures
            r == self.spec_value(),
    ;
}

/// A tree: it has a root node, or it is empty.
pub trait BinaryTree {
    /// The nodes that the tree is made of.
    type Node: Node;

    /// The root node; none in an empty tree.
    spec fn spec_root(&self) -> Option<Box<Self::Node>>;

    /// The root node; none in an empty tree.
    fn root(&self) -> (r: Option<&Self::Node>)
        ensures
            r is Some <==> self.spec_root() is Some,
            r is Some ==> *r.unwrap() == *self.spec_root().unwrap(),
    ;
}

} // verus!
