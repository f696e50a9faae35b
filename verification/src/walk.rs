//! The walk engine: one root-to-leaf descent that a decision function steers,
//! for reading and for reshaping a subtree. It asks of a node only what `Node`
//! and `NodeMut` offer.
//!
//! A reshaping walk takes the nodes of the path apart on the way down, acts on
//! the node where the descent stops, and puts the path together again on the
//! way up, handing every ancestor to a fix-up. The path is kept on an explicit
//! stack, so that the depth of the tree never becomes depth of the call stack.

use crate::node::{Node, NodeMut};
use vstd::prelude::*;

verus! {

/// What a decision function answers at a node.
#[derive(Clone, Copy, PartialEq, Eq, Debug, Structural)]
pub enum WalkAction {
    /// Go on into the left subtree.
    Left,
    /// Go on into the right subtree.
    Right,
    /// Stop at this node.
    Stop,
}

/// A decision function. It may keep state from node to node.
pub trait Decide<N: Node>: Sized {
    /// The answer at `node`.
    spec fn action(&self, node: &N) -> WalkAction;

    /// The state of the decision function after it has answered at `node`.
    spec fn next(self, node: &N) -> Self;

    /// Answers at `node` and moves on to the next state.
    fn step_in(&mut self, node: &N) -> (a: WalkAction)
        ensures
            a == old(self).action(node),
            *final(self) == (*old(self)).next(node),
    ;
}

/// What is done, once, to the node at which a reshaping walk stops.
pub trait Act<N: NodeMut>: Sized {
    /// What the action needs of the node it is applied to.
    spec fn act_pre(&self, node: &N) -> bool;

    /// The node after the action.
    spec fn act_spec(self, node: N) -> N;

    /// Applies the action to `node`.
    fn act(self, node: &mut N)
        requires
            old(node).valid(),
            self.act_pre(old(node)),
        ensures
            *final(node) == self.act_spec(*old(node)),
            final(node).valid(),
    ;
}

/// What is done to every ancestor of the stopping node on the way back up,
/// innermost first. `from` is the side on which the walk had gone down.
pub trait Fixup<N: NodeMut>: Sized {
    /// What the fix-up needs of the node it is applied to.
    spec fn fix_pre(&self, node: &N, from: WalkAction) -> bool;

    /// The node after the fix-up.
    spec fn fix_spec(&self, node: N, from: WalkAction) -> N;

    /// Applies the fix-up to `node`.
    fn fix(&self, node: &mut N, from: WalkAction)
        requires
            old(node).valid(),
            self.fix_pre(old(node), from),
        ensures
            *final(node) == self.fix_spec(*old(node), from),
            final(node).valid(),
    ;
}

/// The child of `n` on the side `a`; none for `Stop`.
pub open spec fn child<N: Node>(n: N, a: WalkAction) -> Option<Box<N>> {
    match a {
        WalkAction::Left => n.spec_left(),
        WalkAction::Right => n.spec_right(),
        WalkAction::Stop => None,
    }
}

/// `parent` with `sub` in the slot on the side `from`.
pub open spec fn joined<N: NodeMut>(parent: N, from: WalkAction, sub: N) -> N {
    match from {
        WalkAction::Left => parent.with_left(Some(Box::new(sub))),
        WalkAction::Right => parent.with_right(Some(Box::new(sub))),
        WalkAction::Stop => parent,
    }
}

/// `sub` can be put into the slot of `parent` on the side `from`: both are
/// valid, the walk went down on a side, and the parent can take the subtree there.
pub open spec fn can_join<N: NodeMut>(parent: N, from: WalkAction, sub: N) -> bool {
    &&& parent.valid()
    &&& sub.valid()
    &&& match from {
        WalkAction::Left => parent.can_take_left(Some(Box::new(sub))),
        WalkAction::Right => parent.can_take_right(Some(Box::new(sub))),
        WalkAction::Stop => false,
    }
}

/// The node at which a walk from `n` stops: the first node at which `d`
/// answers `Stop`, or names a side on which there is no child.
pub open spec fn walk_end<N: Node, D: Decide<N>>(n: N, d: D) -> N
    decreases n.weight(),
{
    match child(n, d.action(&n)) {
        Some(c) => {
            proof {
                n.lemma_weight();
            }
            walk_end(*c, d.next(&n))
        },
        None => n,
    }
}

/// The subtree after a reshaping walk from `n`: `act` applied to the node at
/// which the walk stops, and `fix` applied to every node above it, innermost
/// first, each with its reshaped child back in place.
pub open spec fn reshaped<N: NodeMut, D: Decide<N>, A: Act<N>, F: Fixup<N>>(
    n: N,
    d: D,
    act: A,
    fix: F,
) -> N
    decreases n.weight(),
{
    let a = d.action(&n);
    match child(n, a) {
        Some(c) => {
            proof {
                n.lemma_weight();
            }
            fix.fix_spec(joined(n, a, reshaped(*c, d.next(&n), act, fix)), a)
        },
        None => act.act_spec(n),
    }
}

/// A reshaping walk from `n` meets what `act`, joining and `fix` need wherever
/// it applies them.
pub open spec fn reshape_ok<N: NodeMut, D: Decide<N>, A: Act<N>, F: Fixup<N>>(
    n: N,
    d: D,
    act: A,
    fix: F,
) -> bool
    decreases n.weight(),
{
    let a = d.action(&n);
    match child(n, a) {
        Some(c) => {
            proof {
                n.lemma_weight();
            }
            let sub = reshaped(*c, d.next(&n), act, fix);
            &&& reshape_ok(*c, d.next(&n), act, fix)
            &&& can_join(n, a, sub)
            &&& fix.fix_pre(&joined(n, a, sub), a)
        },
        None => act.act_pre(&n),
    }
}

/// The subtree that comes out when the path on `stack`, innermost node last,
/// is put together again above `sub`.
pub open spec fn unwind<N: NodeMut, F: Fixup<N>>(
    stack: Seq<(Box<N>, WalkAction)>,
    sub: N,
    fix: F,
) -> N
    decreases stack.len(),
{
    if stack.len() == 0 {
        sub
    } else {
        let (parent, from) = stack.last();
        unwind(stack.drop_last(), fix.fix_spec(joined(*parent, from, sub), from), fix)
    }
}

/// Putting the path on `stack` together again above `sub` meets, at every
/// node, what joining and the fix-up need.
pub open spec fn unwind_ok<N: NodeMut, F: Fixup<N>>(
    stack: Seq<(Box<N>, WalkAction)>,
    sub: N,
    fix: F,
) -> bool
    decreases stack.len(),
{
    if stack.len() == 0 {
        true
    } else {
        let (parent, from) = stack.last();
        &&& can_join(*parent, from, sub)
        &&& fix.fix_pre(&joined(*parent, from, sub), from)
        &&& unwind_ok(stack.drop_last(), fix.fix_spec(joined(*parent, from, sub), from), fix)
    }
}

/// Walks down from `node` as `d` decides and returns the node at which the
/// walk stops.
pub fn walk<'a, N: Node, D: Decide<N>>(node: &'a N, d: D) -> (r: &'a N)
    ensures
        *r == walk_end(*node, d),
{
    let ghost target = walk_end(*node, d);
    let mut d = d;
    let mut cur: &'a N = node;
    loop
        invariant_except_break
            target == walk_end(*cur, d),
        ensures
            *cur == target,
        decreases cur.weight(),
    {
        let a = d.step_in(cur);
        let next = match a {
            WalkAction::Left => cur.left(),
            WalkAction::Right => cur.right(),
            WalkAction::Stop => None,
        };
        match next {
            Some(c) => {
                proof {
                    cur.lemma_weight();
                }
                cur = c;
            },
            None => {
                break ;
            },
        }
    }
    cur
}

/// Takes the child on the side `a` out; nothing for `Stop`.
fn detach<N: NodeMut>(node: &mut N, a: WalkAction) -> (r: Option<Box<N>>)
    requires
        old(node).valid(),
    ensures
        r == child(*old(node), a),
        r is Some ==> r.unwrap().valid(),
        final(node).valid(),
        r is None ==> *final(node) == *old(node),
        forall|sub: N|
            a != WalkAction::Stop ==> #[trigger] joined(*final(node), a, sub) == joined(
                *old(node),
                a,
                sub,
            ),
        forall|sub: N| #[trigger] can_join(*final(node), a, sub) == can_join(*old(node), a, sub),
{
    proof {
        old(node).lemma_valid();
    }
    let r = match a {
        WalkAction::Left => node.detach_left(),
        WalkAction::Right => node.detach_right(),
        WalkAction::Stop => None,
    };
    proof {
        assert forall|sub: N| a != WalkAction::Stop implies #[trigger] joined(*node, a, sub)
            == joined(*old(node), a, sub) by {
            old(node).lemma_with_left(None, Some(Box::new(sub)));
            old(node).lemma_with_right(None, Some(Box::new(sub)));
        }
        assert forall|sub: N| #[trigger] can_join(*node, a, sub) == can_join(*old(node), a, sub) by {
            old(node).lemma_with_left(None, Some(Box::new(sub)));
            old(node).lemma_with_right(None, Some(Box::new(sub)));
        }
    }
    r
}

/// Puts `sub` into the slot on the side `a`.
fn attach<N: NodeMut>(node: &mut N, a: WalkAction, sub: Box<N>)
    requires
        can_join(*old(node), a, *sub),
    ensures
        *final(node) == joined(*old(node), a, *sub),
        final(node).valid(),
{
    match a {
        WalkAction::Left => {
            node.insert_left(Some(sub));
        },
        WalkAction::Right => {
            node.insert_right(Some(sub));
        },
        WalkAction::Stop => {},
    }
}

/// The reshaping walk on a subtree that the caller owns.
fn reshape_owned<N: NodeMut, D: Decide<N>, A: Act<N>, F: Fixup<N>>(
    start: Box<N>,
    d: D,
    act: A,
    fix: &F,
) -> (r: Box<N>)
    requires
        start.valid(),
        reshape_ok(*start, d, act, *fix),
    ensures
        *r == reshaped(*start, d, act, *fix),
        r.valid(),
{
    let ghost target = reshaped(*start, d, act, *fix);
    let mut stack: Vec<(Box<N>, WalkAction)> = Vec::new();
    let mut cur = start;
    let mut d = d;
    loop
        invariant_except_break
            cur.valid(),
            reshape_ok(*cur, d, act, *fix),
            unwind_ok(stack@, reshaped(*cur, d, act, *fix), *fix),
            target == unwind(stack@, reshaped(*cur, d, act, *fix), *fix),
        ensures
            cur.valid(),
            act.act_pre(&*cur),
            unwind_ok(stack@, act.act_spec(*cur), *fix),
            target == unwind(stack@, act.act_spec(*cur), *fix),
        decreases cur.weight(),
    {
        let ghost whole = *cur;
        let ghost path = stack@;
        let a = d.step_in(&*cur);
        let child = detach(&mut *cur, a);
        match child {
            Some(c) => {
                proof {
                    whole.lemma_weight();
                    let sub = reshaped(*c, d, act, *fix);
                    let grown = path.push((cur, a));
                    assert(grown.drop_last() =~= path);
                    assert(grown.last() == (cur, a));
                    assert(joined(*cur, a, sub) == joined(whole, a, sub));
                    assert(can_join(*cur, a, sub) == can_join(whole, a, sub));
                }
                stack.push((cur, a));
                cur = c;
            },
            None => {
                break ;
            },
        }
    }
    act.act(&mut *cur);
    while stack.len() > 0
        invariant
            cur.valid(),
            unwind_ok(stack@, *cur, *fix),
            target == unwind(stack@, *cur, *fix),
        decreases stack.len(),
    {
        let ghost path = stack@;
        let (mut parent, a) = stack.pop().unwrap();
        proof {
            assert(path.drop_last() =~= stack@);
            assert(path.last() == (parent, a));
        }
        attach(&mut *parent, a, cur);
        fix.fix(&mut *parent, a);
        cur = parent;
    }
    cur
}

/// Walks down from `node` as `d` decides, applies `act` to the node at which
/// the walk stops, and then applies `fix` to every node on the path back up
/// to `node`, innermost first.
pub fn walk_mut<N: NodeMut, D: Decide<N>, A: Act<N>, F: Fixup<N>>(
    node: &mut N,
    d: D,
    act: A,
    fix: &F,
)
    requires
        old(node).valid(),
        reshape_ok(*old(node), d, act, *fix),
    ensures
        *final(node) == reshaped(*old(node), d, act, *fix),
        final(node).valid(),
{
    let mut d = d;
    let a = d.step_in(&*node);
    let child = detach(node, a);
    match child {
        Some(c) => {
            let sub = reshape_owned(c, d, act, fix);
            attach(node, a, sub);
            fix.fix(node, a);
        },
        None => {
            act.act(node);
        },
    }
}

/// The descent along the right spine: it goes right at every node, and so
/// stops at the last node of the subtree.
pub struct KeepRight;

impl<N: Node> Decide<N> for KeepRight {
    open spec fn action(&self, node: &N) -> WalkAction {
        WalkAction::Right
    }

    open spec fn next(self, node: &N) -> KeepRight {
        self
    }

    fn step_in(&mut self, node: &N) -> (a: WalkAction) {
        WalkAction::Right
    }
}

/// Puts `node` into the right slot of the node at which the walk stops.
pub struct AttachRight<N> {
    pub node: Box<N>,
}

impl<N: NodeMut> Act<N> for AttachRight<N> {
    open spec fn act_pre(&self, node: &N) -> bool {
        can_join(*node, WalkAction::Right, *self.node)
    }

    open spec fn act_spec(self, node: N) -> N {
        node.with_right(Some(self.node))
    }

    fn act(self, node: &mut N) {
        node.insert_right(Some(self.node));
    }
}

/// The fix-up that leaves every node as it is.
pub struct NoFixup;

impl<N: NodeMut> Fixup<N> for NoFixup {
    open spec fn fix_pre(&self, node: &N, from: WalkAction) -> bool {
        true
    }

    open spec fn fix_spec(&self, node: N, from: WalkAction) -> N {
        node
    }

    fn fix(&self, node: &mut N, from: WalkAction) {
    }
}

/// The subtree after `new_node` was inserted immediately before `n` in
/// positional order: as the left child where there is none, else as the right
/// child of the last node of the left subtree, with `fix` applied on the way
/// back up from there to `n`.
pub open spec fn inserted_before<N: NodeMut, F: Fixup<N>>(n: N, new_node: Box<N>, fix: F) -> N {
    match n.spec_left() {
        Some(l) => fix.fix_spec(
            joined(
                n,
                WalkAction::Left,
                reshaped(*l, KeepRight, AttachRight { node: new_node }, fix),
            ),
            WalkAction::Left,
        ),
        None => n.with_left(Some(new_node)),
    }
}

/// Inserting `new_node` before `n` meets what the walk down the left subtree,
/// joining and `fix` need.
pub open spec fn insert_before_ok<N: NodeMut, F: Fixup<N>>(n: N, new_node: Box<N>, fix: F) -> bool {
    match n.spec_left() {
        Some(l) => {
            let sub = reshaped(*l, KeepRight, AttachRight { node: new_node }, fix);
            &&& reshape_ok(*l, KeepRight, AttachRight { node: new_node }, fix)
            &&& can_join(n, WalkAction::Left, sub)
            &&& fix.fix_pre(&joined(n, WalkAction::Left, sub), WalkAction::Left)
        },
        None => can_join(n, WalkAction::Left, *new_node),
    }
}

/// Inserts `new_node` immediately before `node` in positional order. `fix` is
/// applied to every node on the path from the place where the new node was
/// attached up to `node`, `node` included, unless the new node was attached to
/// `node` itself.
pub fn insert_before<N: NodeMut, F: Fixup<N>>(node: &mut N, new_node: Box<N>, fix: &F)
    requires
        old(node).valid(),
        insert_before_ok(*old(node), new_node, *fix),
    ensures
        *final(node) == inserted_before(*old(node), new_node, *fix),
        final(node).valid(),
{
    let ghost whole = *node;
    match detach(node, WalkAction::Left) {
        Some(left) => {
            let sub = reshape_owned(left, KeepRight, AttachRight { node: new_node }, fix);
            proof {
                assert(joined(*node, WalkAction::Left, *sub) == joined(
                    whole,
                    WalkAction::Left,
                    *sub,
                ));
                assert(can_join(*node, WalkAction::Left, *sub) == can_join(
                    whole,
                    WalkAction::Left,
                    *sub,
                ));
            }
            attach(node, WalkAction::Left, sub);
            fix.fix(node, WalkAction::Left);
        },
        None => {
            attach(node, WalkAction::Left, new_node);
        },
    }
}

} // verus!
