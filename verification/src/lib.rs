//! A rank-indexed balanced binary tree: a sequence container with positional
//! `get` and `insert` in logarithmic time.
//!
//! Every node caches the number of elements and the height of its subtree.
//! The tree is kept balanced by AVL rotations that are driven by those cached
//! statistics instead of by a key order.
//!
//! The modules, leaves first:
//! - `bits`: powers of two;
//! - `node`: the node abstraction, for reading and for exchanging subtrees;
//! - `walk`: the walk engine over that abstraction, for reading and for
//!   reshaping;
//! - `count`: the counting node, its statistics, rotations and rebalancing;
//! - `avl`: why a rebalancing step restores the balance, and how high a
//!   balanced tree can be;
//! - `strategy`: the decision function, the action and the fix-up with which
//!   the tree inserts;
//! - `insertion`: what the reshaping walks of an insertion leave;
//! - `bulk`: building a balanced tree from a sequence;
//! - `iter`: iteration by reference and by value;
//! - `tree`: the container;
//! - `laws`: what holds of every node of a tree.

pub mod avl;
pub mod bits;
pub mod bulk;
pub mod count;
pub mod insertion;
pub mod iter;
pub mod laws;
pub mod node;
pub mod strategy;
pub mod tree;
pub mod walk;

pub use crate::iter::{IntoIter, Iter};
pub use crate::count::{CountNode, NodePtr};
pub use crate::node::{BinaryTree, Node, NodeMut};
pub use crate::tree::CountTree;
pub use crate::walk::WalkAction;
