//! Iteration in positional order, by reference and by value.
//!
//! Both iterators keep the nodes whose own value is still to come on a stack,
//! innermost last. The owning iterator takes each node apart before it lets go
//! of it, so that no node is ever dropped with its subtrees attached below the
//! left spine: this is also how a tree is torn down without recursion.

use crate::count::{CountNode, NodePtr, opt_seq, opt_size, opt_wf};
use crate::node::{Node, NodeMut};
use vstd::prelude::*;

verus! {

/// The values that a stack of borrowed nodes still has to yield: for each
/// node, from the top of the stack down, its own value and then its right subtree.
pub open spec fn pending_refs<T>(stack: Seq<&CountNode<T>>) -> Seq<T>
    decreases stack.len(),
{
    if stack.len() == 0 {
        Seq::empty()
    } else {
        seq![stack.last().spec_value()] + opt_seq(stack.last().spec_right()) + pending_refs(
            stack.drop_last(),
        )
    }
}

/// The values that a stack of owned nodes still has to yield: for each node,
/// from the top of the stack down, its own value and then its right subtree.
pub open spec fn pending_nodes<T>(stack: Seq<Box<CountNode<T>>>) -> Seq<T>
    decreases stack.len(),
{
    if stack.len() == 0 {
        Seq::empty()
    } else {
        seq![stack.last().spec_value()] + opt_seq(stack.last().spec_right()) + pending_nodes(
            stack.drop_last(),
        )
    }
}

/// The values below an optional borrowed node.
pub open spec fn ref_seq<T>(t: Option<&CountNode<T>>) -> Seq<T> {
    match t {
        Some(n) => n@,
        None => Seq::empty(),
    }
}

struct Borrowed<'a, T> {
    stack: Vec<&'a CountNode<T>>,
    remaining: usize,
}

struct Owned<T> {
    stack: Vec<NodePtr<T>>,
    remaining: usize,
}

/// An iterator over the values of a tree, by reference, in positional order.
pub struct Iter<'a, T> {
    inner: Borrowed<'a, T>,
}

/// An iterator that owns the tree it came from and hands out its values in
/// positional order.
pub struct IntoIter<T> {
    inner: Owned<T>,
}

impl<'a, T> View for Iter<'a, T> {
    type V = Seq<T>;

    /// The values that are still to come, in the order in which they come.
    closed spec fn view(&self) -> Seq<T> {
        pending_refs(self.inner.stack@)
    }
}

impl<T> View for IntoIter<T> {
    type V = Seq<T>;

    /// The values that are still to come, in the order in which they come.
    closed spec fn view(&self) -> Seq<T> {
        pending_nodes(self.inner.stack@)
    }
}

/// Pushes `start` and the nodes of its left spine.
fn descend_refs<'a, T>(stack: &mut Vec<&'a CountNode<T>>, start: Option<&'a CountNode<T>>)
    requires
        start is Some ==> start.unwrap().wf(),
        forall|i: int| 0 <= i < old(stack).len() ==> (#[trigger] old(stack)[i]).wf(),
    ensures
        pending_refs(final(stack)@) == ref_seq(start) + pending_refs(old(stack)@),
        forall|i: int| 0 <= i < final(stack).len() ==> (#[trigger] final(stack)[i]).wf(),
{
    let mut cur = start;
    let ghost goal = ref_seq(start) + pending_refs(stack@);
    loop
        invariant_except_break
            cur is Some ==> cur.unwrap().wf(),
            forall|i: int| 0 <= i < stack.len() ==> (#[trigger] stack[i]).wf(),
            goal == ref_seq(cur) + pending_refs(stack@),
        ensures
            goal == pending_refs(stack@),
            forall|i: int| 0 <= i < stack.len() ==> (#[trigger] stack[i]).wf(),
        decreases
                match cur {
                    Some(n) => n.size() + 1,
                    None => 0,
                },
    {
        match cur {
            Some(n) => {
                proof {
                    n.lemma_split();
                    let grown = stack@.push(n);
                    assert(grown.drop_last() =~= stack@);
                    assert(grown.last() == n);
                    assert(goal =~= opt_seq(n.spec_left()) + pending_refs(grown));
                }
                stack.push(n);
                cur = n.left();
            },
            None => {
                assert(goal =~= pending_refs(stack@));
                break ;
            },
        }
    }
}

/// Pushes `start` and the nodes of its left spine, each without its left subtree.
fn descend_nodes<T>(stack: &mut Vec<NodePtr<T>>, start: Option<NodePtr<T>>)
    requires
        opt_wf(start),
        forall|i: int| 0 <= i < old(stack).len() ==> (#[trigger] old(stack)[i]).wf(),
    ensures
        pending_nodes(final(stack)@) == opt_seq(start) + pending_nodes(old(stack)@),
        forall|i: int| 0 <= i < final(stack).len() ==> (#[trigger] final(stack)[i]).wf(),
{
    let mut cur = start;
    let ghost goal = opt_seq(start) + pending_nodes(stack@);
    loop
        invariant_except_break
            opt_wf(cur),
            forall|i: int| 0 <= i < stack.len() ==> (#[trigger] stack[i]).wf(),
            goal == opt_seq(cur) + pending_nodes(stack@),
        ensures
            goal == pending_nodes(stack@),
            forall|i: int| 0 <= i < stack.len() ==> (#[trigger] stack[i]).wf(),
        decreases opt_size(cur) + (if cur is Some { 1nat } else { 0nat }),
    {
        match cur {
            Some(mut n) => {
                let ghost whole = *n;
                proof {
                    whole.lemma_split();
                }
                let below = n.detach_left();
                proof {
                    let grown = stack@.push(n);
                    assert(grown.drop_last() =~= stack@);
                    assert(grown.last() == n);
                    assert(goal =~= opt_seq(below) + pending_nodes(grown));
                }
                stack.push(n);
                cur = below;
            },
            None => {
                assert(goal =~= pending_nodes(stack@));
                break ;
            },
        }
    }
}

impl<'a, T> Iter<'a, T> {
    #[verifier::type_invariant]
    spec fn inv(self) -> bool {
        &&& forall|i: int| 0 <= i < self.inner.stack.len() ==> (#[trigger] self.inner.stack[i]).wf()
        &&& self.inner.remaining == pending_refs(self.inner.stack@).len()
    }

    /// The iterator over the subtree below `root`.
    pub fn new(root: Option<&'a CountNode<T>>) -> (r: Iter<'a, T>)
        requires
            root is Some ==> root.unwrap().wf(),
        ensures
            r@ == ref_seq(root),
    {
        let mut stack: Vec<&'a CountNode<T>> = Vec::new();
        let remaining: usize = match root {
            Some(n) => {
                proof {
                    n.lemma_count_is_len();
                }
                n.count() as usize
            },
            None => 0,
        };
        descend_refs(&mut stack, root);
        Iter { inner: Borrowed { stack, remaining } }
    }

    /// The next value; none when all values have been handed out.
    pub fn next(&mut self) -> (r: Option<&'a T>)
        ensures
            old(self)@.len() == 0 ==> r is None && final(self)@ == old(self)@,
            old(self)@.len() > 0 ==> r == Some(&old(self)@[0]) && final(self)@ == old(self)@.skip(1),
    {
        proof {
            use_type_invariant(&*self);
        }
        let mut inner = Borrowed { stack: Vec::new(), remaining: 0 };
        core::mem::swap(&mut inner, &mut self.inner);
        let ghost before = pending_refs(inner.stack@);
        let ghost path = inner.stack@;
        let r = match inner.stack.pop() {
            Some(n) => {
                proof {
                    assert(path.drop_last() =~= inner.stack@);
                    assert(path.last() == n);
                }
                descend_refs(&mut inner.stack, n.right());
                inner.remaining = inner.remaining - 1;
                proof {
                    assert(pending_refs(inner.stack@) =~= before.skip(1));
                }
                Some(n.value())
            },
            None => None,
        };
        self.inner = inner;
        r
    }

    /// The number of values that are still to come, as a lower and an upper bound.
    pub fn size_hint(&self) -> (r: (usize, Option<usize>))
        ensures
            r.0 == self@.len(),
            r.1 == Some(r.0),
    {
        proof {
            use_type_invariant(self);
        }
        (self.inner.remaining, Some(self.inner.remaining))
    }

    /// The number of values that are still to come.
    pub fn len(&self) -> (r: usize)
        ensures
            r == self@.len(),
    {
        proof {
            use_type_invariant(self);
        }
        self.inner.remaining
    }
}

impl<T> IntoIter<T> {
    #[verifier::type_invariant]
    spec fn inv(self) -> bool {
        &&& forall|i: int| 0 <= i < self.inner.stack.len() ==> (#[trigger] self.inner.stack[i]).wf()
        &&& self.inner.remaining == pending_nodes(self.inner.stack@).len()
    }

    /// The iterator over the subtree below `root`, which it takes over.
    pub fn new(root: Option<NodePtr<T>>) -> (r: IntoIter<T>)
        requires
            opt_wf(root),
        ensures
            r@ == opt_seq(root),
    {
        let mut stack: Vec<NodePtr<T>> = Vec::new();
        let remaining: usize = match &root {
            Some(n) => {
                proof {
                    n.lemma_count_is_len();
                }
                n.count() as usize
            },
            None => 0,
        };
        descend_nodes(&mut stack, root);
        IntoIter { inner: Owned { stack, remaining } }
    }

    /// The next value; none when all values have been handed out.
    pub fn next(&mut self) -> (r: Option<T>)
        ensures
            old(self)@.len() == 0 ==> r is None && final(self)@ == old(self)@,
            old(self)@.len() > 0 ==> r == Some(old(self)@[0]) && final(self)@ == old(self)@.skip(1),
    {
        proof {
            use_type_invariant(&*self);
        }
        let mut inner = Owned { stack: Vec::new(), remaining: 0 };
        core::mem::swap(&mut inner, &mut self.inner);
        let ghost before = pending_nodes(inner.stack@);
        let ghost path = inner.stack@;
        let r = match inner.stack.pop() {
            Some(n) => {
                proof {
                    assert(path.drop_last() =~= inner.stack@);
                    assert(path.last() == n);
                    n.lemma_split_stats();
                }
                let (val, _, right) = (*n).into_parts();
                descend_nodes(&mut inner.stack, right);
                inner.remaining = inner.remaining - 1;
                proof {
                    assert(pending_nodes(inner.stack@) =~= before.skip(1));
                }
                Some(val)
            },
            None => None,
        };
        self.inner = inner;
        r
    }

    /// The number of values that are still to come, as a lower and an upper bound.
    pub fn size_hint(&self) -> (r: (usize, Option<usize>))
        ensures
            r.0 == self@.len(),
            r.1 == Some(r.0),
    {
        proof {
            use_type_invariant(self);
        }
        (self.inner.remaining, Some(self.inner.remaining))
    }

    /// The number of values that are still to come.
    pub fn len(&self) -> (r: usize)
        ensures
            r == self@.len(),
    {
        proof {
            use_type_invariant(self);
        }
        self.inner.remaining
    }
}

} // verus!
