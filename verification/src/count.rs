//! The counting node: a value, two optional subtrees, and the cached number of
//! elements and height of the subtree that the node roots. It is the node that
//! the counting tree is made of.

use crate::node::{Node, NodeMut};
use vstd::prelude::*;

verus! {

/// An owned link to a subtree.
pub type NodePtr<T> = Box<CountNode<T>>;

/// A node of a counting tree. It owns its value and its two subtrees.
pub struct CountNode<T> {
    val: T,
    left: Option<Box<CountNode<T>>>,
    right: Option<Box<CountNode<T>>>,
    count: u32,
    height: u16,
}

/// The cached element count of an optional subtree; 0 where there is none.
pub open spec fn opt_count<T>(t: Option<Box<CountNode<T>>>) -> nat {
    match t {
        Some(n) => n.spec_count() as nat,
        None => 0,
    }
}

/// The cached height of an optional subtree; -1 where there is none, so that
/// a leaf, whose two subtrees are missing, has height 0.
pub open spec fn opt_height<T>(t: Option<Box<CountNode<T>>>) -> int {
    match t {
        Some(n) => n.spec_height() as int,
        None => -1,
    }
}

/// The values of an optional subtree in positional order.
pub open spec fn opt_seq<T>(t: Option<Box<CountNode<T>>>) -> Seq<T> {
    match t {
        Some(n) => n.as_seq(),
        None => Seq::empty(),
    }
}

/// The number of nodes of an optional subtree.
pub open spec fn opt_size<T>(t: Option<Box<CountNode<T>>>) -> nat {
    match t {
        Some(n) => n.size(),
        None => 0,
    }
}

/// Every node of the optional subtree caches its true count and height.
pub open spec fn opt_wf<T>(t: Option<Box<CountNode<T>>>) -> bool {
    match t {
        Some(n) => n.wf(),
        None => true,
    }
}

/// At every node of the optional subtree the two subtree heights differ by at most one.
pub open spec fn opt_balanced<T>(t: Option<Box<CountNode<T>>>) -> bool {
    match t {
        Some(n) => n.balanced(),
        None => true,
    }
}

/// The larger of two heights.
pub open spec fn max_height(a: int, b: int) -> int {
    if a >= b {
        a
    } else {
        b
    }
}

impl<T> CountNode<T> {
    /// The cached number of nodes in the subtree rooted here.
    pub closed spec fn spec_count(&self) -> u32 {
        self.count
    }

    /// The cached height of the subtree rooted here.
    pub closed spec fn spec_height(&self) -> u16 {
        self.height
    }

    /// The node that holds `val` above `left` and `right`, with the statistics
    /// that those two subtrees give it.
    pub closed spec fn make(
        val: T,
        left: Option<Box<CountNode<T>>>,
        right: Option<Box<CountNode<T>>>,
    ) -> CountNode<T> {
        CountNode {
            val,
            left,
            right,
            count: (1 + opt_count(left) + opt_count(right)) as u32,
            height: (1 + max_height(opt_height(left), opt_height(right))) as u16,
        }
    }

    /// The values of the subtree in positional order: the left subtree, the
    /// node's own value, the right subtree.
    pub open spec fn as_seq(&self) -> Seq<T>
        decreases self,
    {
        (match self.spec_left() {
            Some(l) => l.as_seq(),
            None => Seq::empty(),
        }).push(self.spec_value()) + (match self.spec_right() {
            Some(r) => r.as_seq(),
            None => Seq::empty(),
        })
    }

    /// The number of nodes in the subtree.
    pub open spec fn size(&self) -> nat
        decreases self,
    {
        1 + (match self.spec_left() {
            Some(l) => l.size(),
            None => 0,
        }) + (match self.spec_right() {
            Some(r) => r.size(),
            None => 0,
        })
    }

    /// The cached statistics are right at this node and at every node below it:
    /// `count == 1 + count(left) + count(right)` and
    /// `height == 1 + max(height(left), height(right))`, a missing subtree
    /// counting 0 elements and having height -1.
    pub open spec fn wf(&self) -> bool
        decreases self,
    {
        &&& self.spec_count() == 1 + opt_count(self.spec_left()) + opt_count(self.spec_right())
        &&& self.spec_height() == 1 + max_height(
            opt_height(self.spec_left()),
            opt_height(self.spec_right()),
        )
        &&& match self.spec_left() {
            Some(l) => l.wf(),
            None => true,
        }
        &&& match self.spec_right() {
            Some(r) => r.wf(),
            None => true,
        }
    }

    /// The height of the left subtree minus the height of the right subtree.
    pub open spec fn spec_balance_factor(&self) -> int {
        opt_height(self.spec_left()) - opt_height(self.spec_right())
    }

    /// The balance factor is within `[-1, 1]` at this node and at every node below it.
    pub open spec fn balanced(&self) -> bool
        decreases self,
    {
        &&& -1 <= self.spec_balance_factor() <= 1
        &&& match self.spec_left() {
            Some(l) => l.balanced(),
            None => true,
        }
        &&& match self.spec_right() {
            Some(r) => r.balanced(),
            None => true,
        }
    }

    /// The subtree after a right rotation: the left child on top, this node as
    /// its right child, the left child's former right subtree as this node's
    /// left subtree. Without a left child, the node as it is.
    pub open spec fn rotated_right(self) -> CountNode<T> {
        match self.spec_left() {
            Some(pivot) => Self::make(
                pivot.spec_value(),
                pivot.spec_left(),
                Some(Box::new(Self::make(self.spec_value(), pivot.spec_right(), self.spec_right()))),
            ),
            None => self,
        }
    }

    /// The subtree after a left rotation, the mirror image of `rotated_right`.
    pub open spec fn rotated_left(self) -> CountNode<T> {
        match self.spec_right() {
            Some(pivot) => Self::make(
                pivot.spec_value(),
                Some(Box::new(Self::make(self.spec_value(), self.spec_left(), pivot.spec_left()))),
                pivot.spec_right(),
            ),
            None => self,
        }
    }

    /// The subtree after one rebalancing step at its root. A node that leans
    /// left by more than one is rotated right, after its left child was rotated
    /// left if that child leans right; the mirror image for a node that leans
    /// right by more than one; any other node stays as it is.
    pub open spec fn rebalanced(self) -> CountNode<T> {
        if self.spec_balance_factor() > 1 {
            let l = *self.spec_left().unwrap();
            let l2 = if l.spec_balance_factor() < 0 {
                l.rotated_left()
            } else {
                l
            };
            self.with_left(Some(Box::new(l2))).rotated_right()
        } else if self.spec_balance_factor() < -1 {
            let r = *self.spec_right().unwrap();
            let r2 = if r.spec_balance_factor() > 0 {
                r.rotated_right()
            } else {
                r
            };
            self.with_right(Some(Box::new(r2))).rotated_left()
        } else {
            self
        }
    }

    /// What `make` builds: the three parts as given, and the statistics computed
    /// from the two subtrees.
    pub proof fn lemma_make(
        val: T,
        left: Option<Box<CountNode<T>>>,
        right: Option<Box<CountNode<T>>>,
    )
        ensures
            Self::make(val, left, right).spec_value() == val,
            Self::make(val, left, right).spec_left() == left,
            Self::make(val, left, right).spec_right() == right,
            Self::make(val, left, right).spec_count() == (1 + opt_count(left) + opt_count(
                right,
            )) as u32,
            Self::make(val, left, right).spec_height() == (1 + max_height(
                opt_height(left),
                opt_height(right),
            )) as u16,
    {
    }

    /// Two nodes with the same value, subtrees and statistics are the same node.
    pub proof fn lemma_ext(a: CountNode<T>, b: CountNode<T>)
        requires
            a.spec_value() == b.spec_value(),
            a.spec_left() == b.spec_left(),
            a.spec_right() == b.spec_right(),
            a.spec_count() == b.spec_count(),
            a.spec_height() == b.spec_height(),
        ensures
            a == b,
    {
    }

    /// In a well-formed subtree the cached count is the number of nodes, which is
    /// the length of the sequence of values; the cached height is below the count.
    pub proof fn lemma_count_is_len(self)
        requires
            self.wf(),
        ensures
            self.spec_count() == self.size(),
            self.as_seq().len() == self.size(),
            self.spec_height() < self.spec_count(),
        decreases self,
    {
        match self.left {
            Some(l) => l.lemma_count_is_len(),
            None => {},
        }
        match self.right {
            Some(r) => r.lemma_count_is_len(),
            None => {},
        }
    }

    /// A new node that holds `val` alone: count 1, height 0, no subtrees.
    pub fn new(val: T) -> (r: CountNode<T>)
        ensures
            r == Self::make(val, None, None),
            r.spec_value() == val,
            r.spec_left() is None,
            r.spec_right() is None,
            r.spec_count() == 1,
            r.spec_height() == 0,
            r.wf(),
            r.balanced(),
            r@ == seq![val],
    {
        let r = CountNode { val: val, left: None, right: None, count: 1, height: 0 };
        assert(r.as_seq() =~= seq![val]);
        r
    }

    /// The cached number of nodes in the subtree rooted here.
    pub fn count(&self) -> (r: u32)
        ensures
            r == self.spec_count(),
    {
        self.count
    }

    /// The cached height of the subtree rooted here.
    pub fn height(&self) -> (r: u16)
        ensures
            r == self.spec_height(),
    {
        self.height
    }

    /// The number of nodes in the left subtree.
    pub fn lcount(&self) -> (r: u32)
        ensures
            r == opt_count(self.spec_left()),
    {
        match &self.left {
            Some(tree) => tree.count,
            None => 0,
        }
    }

    /// The number of nodes in the right subtree.
    pub fn rcount(&self) -> (r: u32)
        ensures
            r == opt_count(self.spec_right()),
    {
        match &self.right {
            Some(tree) => tree.count,
            None => 0,
        }
    }

    /// The height of the left subtree minus the height of the right subtree,
    /// where a missing subtree is one level lower than a leaf.
    pub fn balance_factor(&self) -> (r: i32)
        ensures
            r == self.spec_balance_factor(),
    {
        match (&self.left, &self.right) {
            (None, None) => 0,
            (None, Some(r)) => -1 - r.height as i32,
            (Some(l), None) => 1 + l.height as i32,
            (Some(l), Some(r)) => l.height as i32 - r.height as i32,
        }
    }

    /// Takes the node apart into its value and its two subtrees.
    pub fn into_parts(self) -> (r: (T, Option<NodePtr<T>>, Option<NodePtr<T>>))
        ensures
            r.0 == self.spec_value(),
            r.1 == self.spec_left(),
            r.2 == self.spec_right(),
    {
        (self.val, self.left, self.right)
    }

    /// Recomputes the count and the height from the two subtrees.
    fn update_stats(&mut self)
        requires
            opt_wf(old(self).left),
            opt_wf(old(self).right),
            1 + opt_count(old(self).left) + opt_count(old(self).right) <= u32::MAX,
            1 + max_height(opt_height(old(self).left), opt_height(old(self).right)) <= u16::MAX,
        ensures
            *final(self) == Self::make(old(self).val, old(self).left, old(self).right),
    {
        let lc: u32 = self.lcount();
        let rc: u32 = self.rcount();
        self.count = lc + rc + 1;
        let lh: u16 = match &self.left {
            Some(tree) => tree.height,
            None => 0,
        };
        let rh: u16 = match &self.right {
            Some(tree) => tree.height,
            None => 0,
        };
        let mut h: u16 = if lh >= rh {
            lh
        } else {
            rh
        };
        if self.count > 1 {
            h = h + 1;
        }
        self.height = h;
    }

    /// A right rotation keeps the values in order and the statistics right.
    pub proof fn lemma_rotated_right(self)
        requires
            self.wf(),
            self.spec_left() is Some ==> opt_height(self.spec_right()) + 2 <= u16::MAX,
        ensures
            self.rotated_right().wf(),
            self.rotated_right()@ == self@,
            self.rotated_right().spec_count() == self.spec_count(),
    {
        reveal_with_fuel(CountNode::wf, 3);
        reveal_with_fuel(CountNode::as_seq, 3);
        match self.left {
            Some(pivot) => {
                let inner = Self::make(self.val, pivot.right, self.right);
                assert(inner.wf());
                let outer = Self::make(pivot.val, pivot.left, Some(Box::new(inner)));
                assert(outer.wf());
                assert(outer.as_seq() =~= self.as_seq());
            },
            None => {},
        }
    }

    /// A right rotation of a node that leans left does not raise the subtree.
    pub proof fn lemma_rotated_right_height(self)
        requires
            self.wf(),
            self.spec_balance_factor() > 0,
        ensures
            self.rotated_right().spec_height() <= self.spec_height(),
    {
        reveal_with_fuel(CountNode::wf, 3);
    }

    /// A left rotation of a node that leans right does not raise the subtree.
    pub proof fn lemma_rotated_left_height(self)
        requires
            self.wf(),
            self.spec_balance_factor() < 0,
        ensures
            self.rotated_left().spec_height() <= self.spec_height(),
    {
        reveal_with_fuel(CountNode::wf, 3);
    }

    /// A left rotation keeps the values in order and the statistics right.
    pub proof fn lemma_rotated_left(self)
        requires
            self.wf(),
            self.spec_right() is Some ==> opt_height(self.spec_left()) + 2 <= u16::MAX,
        ensures
            self.rotated_left().wf(),
            self.rotated_left()@ == self@,
            self.rotated_left().spec_count() == self.spec_count(),
    {
        reveal_with_fuel(CountNode::wf, 3);
        reveal_with_fuel(CountNode::as_seq, 3);
        match self.right {
            Some(pivot) => {
                let inner = Self::make(self.val, self.left, pivot.left);
                assert(inner.wf());
                let outer = Self::make(pivot.val, Some(Box::new(inner)), pivot.right);
                assert(outer.wf());
                assert(outer.as_seq() =~= self.as_seq());
            },
            None => {},
        }
    }

    /// The statistics and the balance of the node that `make` builds from
    /// well-formed subtrees whose statistics fit the machine.
    pub proof fn lemma_join_stats(
        val: T,
        left: Option<Box<CountNode<T>>>,
        right: Option<Box<CountNode<T>>>,
    )
        requires
            opt_wf(left),
            opt_wf(right),
            1 + opt_count(left) + opt_count(right) <= u32::MAX,
            1 + max_height(opt_height(left), opt_height(right)) <= u16::MAX,
        ensures
            ({
                let n = Self::make(val, left, right);
                &&& n.wf()
                &&& n.spec_value() == val
                &&& n.spec_left() == left
                &&& n.spec_right() == right
                &&& n.spec_count() == 1 + opt_count(left) + opt_count(right)
                &&& n.spec_height() == 1 + max_height(opt_height(left), opt_height(right))
                &&& n.balanced() <==> (-1 <= opt_height(left) - opt_height(right) <= 1
                    && opt_balanced(left) && opt_balanced(right))
            }),
    {
    }

    /// The statistics and the balance of a well-formed node, from its two subtrees.
    pub proof fn lemma_split_stats(self)
        requires
            self.wf(),
        ensures
            self == Self::make(self.spec_value(), self.spec_left(), self.spec_right()),
            opt_wf(self.spec_left()),
            opt_wf(self.spec_right()),
            self.spec_count() == 1 + opt_count(self.spec_left()) + opt_count(self.spec_right()),
            self.spec_height() == 1 + max_height(
                opt_height(self.spec_left()),
                opt_height(self.spec_right()),
            ),
            self.balanced() <==> (-1 <= self.spec_balance_factor() <= 1 && opt_balanced(
                self.spec_left(),
            ) && opt_balanced(self.spec_right())),
    {
    }

    /// What holds of the node that `make` builds from well-formed subtrees whose
    /// statistics fit the machine.
    pub proof fn lemma_join(
        val: T,
        left: Option<Box<CountNode<T>>>,
        right: Option<Box<CountNode<T>>>,
    )
        requires
            opt_wf(left),
            opt_wf(right),
            1 + opt_count(left) + opt_count(right) <= u32::MAX,
            1 + max_height(opt_height(left), opt_height(right)) <= u16::MAX,
        ensures
            ({
                let n = Self::make(val, left, right);
                &&& n.wf()
                &&& n@ == opt_seq(left).push(val) + opt_seq(right)
                &&& n.size() == 1 + opt_size(left) + opt_size(right)
                &&& n.spec_value() == val
                &&& n.spec_left() == left
                &&& n.spec_right() == right
                &&& n.spec_count() == 1 + opt_count(left) + opt_count(right)
                &&& n.spec_height() == 1 + max_height(opt_height(left), opt_height(right))
                &&& n.balanced() <==> (-1 <= opt_height(left) - opt_height(right) <= 1
                    && opt_balanced(left) && opt_balanced(right))
            }),
    {
    }

    /// What well-formedness says of a node and its two subtrees.
    pub proof fn lemma_split(self)
        requires
            self.wf(),
        ensures
            self == Self::make(self.spec_value(), self.spec_left(), self.spec_right()),
            opt_wf(self.spec_left()),
            opt_wf(self.spec_right()),
            self.spec_count() == 1 + opt_count(self.spec_left()) + opt_count(self.spec_right()),
            self.spec_height() == 1 + max_height(
                opt_height(self.spec_left()),
                opt_height(self.spec_right()),
            ),
            self@ == opt_seq(self.spec_left()).push(self.spec_value()) + opt_seq(
                self.spec_right(),
            ),
            self.size() == 1 + opt_size(self.spec_left()) + opt_size(self.spec_right()),
            self.balanced() <==> (-1 <= self.spec_balance_factor() <= 1 && opt_balanced(
                self.spec_left(),
            ) && opt_balanced(self.spec_right())),
    {
    }

    /// Rotates the subtree right: the left child becomes the root of the subtree
    /// and this node its right child. Fails, and changes nothing, where there is
    /// no left child.
    pub fn rotate_right(&mut self) -> (r: Result<(), ()>)
        requires
            old(self).wf(),
            old(self).spec_left() is Some ==> opt_height(old(self).spec_right()) + 2 <= u16::MAX,
        ensures
            r is Ok <==> old(self).spec_left() is Some,
            r is Err ==> *final(self) == *old(self),
            *final(self) == old(self).rotated_right(),
            final(self).wf(),
            final(self)@ == old(self)@,
            final(self).spec_count() == old(self).spec_count(),
    {
        proof {
            reveal_with_fuel(CountNode::wf, 3);
            old(self).lemma_rotated_right();
        }
        match self.detach_left() {
            Some(mut pivot) => {
                let mid = pivot.detach_right();
                self.insert_left(mid);
                core::mem::swap(self, &mut *pivot);
                self.insert_right(Some(pivot));
                Ok(())
            },
            None => Err(()),
        }
    }

    /// Rotates the subtree left: the right child becomes the root of the subtree
    /// and this node its left child. Fails, and changes nothing, where there is
    /// no right child.
    pub fn rotate_left(&mut self) -> (r: Result<(), ()>)
        requires
            old(self).wf(),
            old(self).spec_right() is Some ==> opt_height(old(self).spec_left()) + 2 <= u16::MAX,
        ensures
            r is Ok <==> old(self).spec_right() is Some,
            r is Err ==> *final(self) == *old(self),
            *final(self) == old(self).rotated_left(),
            final(self).wf(),
            final(self)@ == old(self)@,
            final(self).spec_count() == old(self).spec_count(),
    {
        proof {
            reveal_with_fuel(CountNode::wf, 3);
            old(self).lemma_rotated_left();
        }
        match self.detach_right() {
            Some(mut pivot) => {
                let mid = pivot.detach_left();
                self.insert_right(mid);
                core::mem::swap(self, &mut *pivot);
                self.insert_left(Some(pivot));
                Ok(())
            },
            None => Err(()),
        }
    }

    /// One step of the AVL algorithm at this node: see `rebalanced`.
    pub fn rebalance(&mut self)
        requires
            old(self).wf(),
        ensures
            *final(self) == old(self).rebalanced(),
            final(self).wf(),
            final(self)@ == old(self)@,
            final(self).spec_count() == old(self).spec_count(),
            -1 <= old(self).spec_balance_factor() <= 1 ==> *final(self) == *old(self),
            (opt_balanced(old(self).spec_left()) && opt_balanced(old(self).spec_right()) && -2
                <= old(self).spec_balance_factor() <= 2) ==> {
                &&& final(self).balanced()
                &&& old(self).spec_height() - 1 <= final(self).spec_height() <= old(
                    self,
                ).spec_height()
            },
    {
        proof {
            reveal_with_fuel(CountNode::wf, 3);
            crate::avl::lemma_rebalanced(*old(self));
        }
        let bf: i32 = self.balance_factor();
        if bf > 1 {
            let mut l = self.detach_left().unwrap();
            if l.balance_factor() < 0 {
                proof {
                    l.lemma_rotated_left();
                }
                let _ = l.rotate_left();
            }
            self.insert_left(Some(l));
            let _ = self.rotate_right();
        } else if bf < -1 {
            let mut r = self.detach_right().unwrap();
            if r.balance_factor() > 0 {
                proof {
                    r.lemma_rotated_right();
                }
                let _ = r.rotate_right();
            }
            self.insert_right(Some(r));
            let _ = self.rotate_left();
        }
    }

    /// Whether the balance factor is within `[-1, 1]` at every node of the subtree.
    pub fn is_balanced(&self) -> (r: bool)
        ensures
            r == self.balanced(),
    {
        let mut pending: Vec<&CountNode<T>> = Vec::new();
        pending.push(self);
        assert(pending@[0] == self);
        while pending.len() > 0
            invariant
                self.balanced() <==> Self::all_balanced(pending@),
            decreases Self::pending_size(pending@),
        {
            let ghost before = pending@;
            let node = pending.pop().unwrap();
            proof {
                assert(before.drop_last() =~= pending@);
                assert(before.last() == node);
                assert(Self::all_balanced(before) <==> node.balanced() && Self::all_balanced(
                    pending@,
                )) by {
                    if node.balanced() && Self::all_balanced(pending@) {
                        assert forall|i: int| 0 <= i < before.len() implies (
                        #[trigger] before[i]).balanced() by {
                            if i < pending@.len() {
                                assert(pending@[i] == before[i]);
                            }
                        }
                    }
                    if Self::all_balanced(before) {
                        assert(before[before.len() - 1].balanced());
                        assert forall|i: int| 0 <= i < pending@.len() implies (
                        #[trigger] pending@[i]).balanced() by {
                            assert(pending@[i] == before[i]);
                        }
                    }
                }
            }
            let bf: i32 = node.balance_factor();
            if bf < -1 || bf > 1 {
                return false;
            }
            match &node.left {
                Some(l) => {
                    proof {
                        Self::lemma_pending_push(pending@, &**l);
                    }
                    pending.push(&**l);
                },
                None => {},
            }
            match &node.right {
                Some(r) => {
                    proof {
                        Self::lemma_pending_push(pending@, &**r);
                    }
                    pending.push(&**r);
                },
                None => {},
            }
        }
        true
    }

    /// Every node of a worklist roots a balanced subtree.
    pub open spec fn all_balanced(s: Seq<&CountNode<T>>) -> bool {
        forall|i: int| 0 <= i < s.len() ==> (#[trigger] s[i]).balanced()
    }

    /// The number of nodes below and at the nodes of a worklist.
    pub open spec fn pending_size(s: Seq<&CountNode<T>>) -> nat
        decreases s.len(),
    {
        if s.len() == 0 {
            0
        } else {
            s.last().size() + Self::pending_size(s.drop_last())
        }
    }

    proof fn lemma_pending_push(s: Seq<&CountNode<T>>, n: &CountNode<T>)
        ensures
            Self::pending_size(s.push(n)) == n.size() + Self::pending_size(s),
            Self::all_balanced(s.push(n)) <==> n.balanced() && Self::all_balanced(s),
    {
        let t = s.push(n);
        assert(t.drop_last() =~= s);
        assert(t.last() == n);
        if n.balanced() && Self::all_balanced(s) {
            assert forall|i: int| 0 <= i < t.len() implies (#[trigger] t[i]).balanced() by {
                if i < s.len() {
                    assert(t[i] == s[i]);
                }
            }
        }
        if Self::all_balanced(t) {
            assert(t[t.len() - 1].balanced());
            assert forall|i: int| 0 <= i < s.len() implies (#[trigger] s[i]).balanced() by {
                assert(t[i] == s[i]);
            }
        }
    }
}

impl<T> Node for CountNode<T> {
    type Value = T;

    closed spec fn spec_left(&self) -> Option<Box<CountNode<T>>> {
        self.left
    }

    closed spec fn spec_right(&self) -> Option<Box<CountNode<T>>> {
        self.right
    }

    closed spec fn spec_value(&self) -> T {
        self.val
    }

    /// The number of nodes in the subtree.
    open spec fn weight(&self) -> nat {
        self.size()
    }

    proof fn lemma_weight(&self) {
        match self.left {
            Some(l) => {
                assert(self.size() >= 1 + l.size());
            },
            None => {},
        }
        match self.right {
            Some(r) => {
                assert(self.size() >= 1 + r.size());
            },
            None => {},
        }
    }

    fn left(&self) -> (r: Option<&CountNode<T>>) {
        match &self.left {
            Some(tree) => Some(&**tree),
            None => None,
        }
    }

    fn right(&self) -> (r: Option<&CountNode<T>>) {
        match &self.right {
            Some(tree) => Some(&**tree),
            None => None,
        }
    }

    fn value(&self) -> (r: &T) {
        &self.val
    }
}

impl<T> NodeMut for CountNode<T> {
    /// A counting node is valid when its statistics are right: see `wf`.
    open spec fn valid(&self) -> bool {
        self.wf()
    }

    open spec fn with_left(self, tree: Option<Box<CountNode<T>>>) -> CountNode<T> {
        Self::make(self.spec_value(), tree, self.spec_right())
    }

    open spec fn with_right(self, tree: Option<Box<CountNode<T>>>) -> CountNode<T> {
        Self::make(self.spec_value(), self.spec_left(), tree)
    }

    /// The count of the node with `tree` on its left fits 32 bits, and its
    /// height 16 bits.
    open spec fn can_take_left(&self, tree: Option<Box<CountNode<T>>>) -> bool {
        &&& 1 + opt_count(tree) + opt_count(self.spec_right()) <= u32::MAX
        &&& opt_height(tree) < u16::MAX
    }

    /// The count of the node with `tree` on its right fits 32 bits, and its
    /// height 16 bits.
    open spec fn can_take_right(&self, tree: Option<Box<CountNode<T>>>) -> bool {
        &&& 1 + opt_count(self.spec_left()) + opt_count(tree) <= u32::MAX
        &&& opt_height(tree) < u16::MAX
    }

    proof fn lemma_valid(&self) {
    }

    proof fn lemma_with_left(&self, first: Option<Box<Self>>, then: Option<Box<Self>>) {
    }

    proof fn lemma_with_right(&self, first: Option<Box<Self>>, then: Option<Box<Self>>) {
    }

    fn detach_left(&mut self) -> (r: Option<NodePtr<T>>)
        ensures
            final(self).spec_value() == old(self).spec_value(),
            final(self).spec_left() is None,
            final(self).spec_right() == old(self).spec_right(),
            final(self)@ == seq![old(self).spec_value()] + opt_seq(old(self).spec_right()),
    {
        let tree = self.left.take();
        self.update_stats();
        assert(self.as_seq() =~= seq![old(self).spec_value()] + opt_seq(old(self).spec_right()));
        tree
    }

    fn detach_right(&mut self) -> (r: Option<NodePtr<T>>)
        ensures
            final(self).spec_value() == old(self).spec_value(),
            final(self).spec_left() == old(self).spec_left(),
            final(self).spec_right() is None,
            final(self)@ == opt_seq(old(self).spec_left()).push(old(self).spec_value()),
    {
        let tree = self.right.take();
        self.update_stats();
        assert(self.as_seq() =~= opt_seq(old(self).spec_left()).push(old(self).spec_value()));
        tree
    }

    fn insert_left(&mut self, tree: Option<NodePtr<T>>) -> (r: Option<NodePtr<T>>)
        ensures
            final(self).spec_value() == old(self).spec_value(),
            final(self).spec_left() == tree,
            final(self).spec_right() == old(self).spec_right(),
            final(self)@ == opt_seq(tree).push(old(self).spec_value()) + opt_seq(
                old(self).spec_right(),
            ),
    {
        let mut tree = tree;
        core::mem::swap(&mut self.left, &mut tree);
        self.update_stats();
        tree
    }

    fn insert_right(&mut self, tree: Option<NodePtr<T>>) -> (r: Option<NodePtr<T>>)
        ensures
            final(self).spec_value() == old(self).spec_value(),
            final(self).spec_left() == old(self).spec_left(),
            final(self).spec_right() == tree,
            final(self)@ == opt_seq(old(self).spec_left()).push(old(self).spec_value()) + opt_seq(
                tree,
            ),
    {
        let mut tree = tree;
        core::mem::swap(&mut self.right, &mut tree);
        self.update_stats();
        tree
    }

    fn value_owned(self) -> (r: T) {
        self.val
    }
}

impl<T> View for CountNode<T> {
    type V = Seq<T>;

    open spec fn view(&self) -> Seq<T> {
        self.as_seq()
    }
}

} // verus!
