//! Why insertion works: what the reshaping walks of the counting tree leave.

use crate::avl::{lemma_height_bound, lemma_rebalanced};
use crate::count::{CountNode, opt_count, opt_height, opt_seq};
use crate::node::{Node, NodeMut};
use crate::strategy::{InsertBefore, Rebalance, Seek};
use crate::walk::{
    AttachRight, Decide, KeepRight, WalkAction, can_join, insert_before_ok, inserted_before,
    joined, reshape_ok, reshaped, walk_end,
};
use vstd::prelude::*;

verus! {

/// A new node: well-formed and alone.
pub open spec fn is_leaf<T>(n: CountNode<T>) -> bool {
    &&& n.wf()
    &&& n.spec_count() == 1
}

/// A leaf has no subtrees, height 0, and holds one value.
pub proof fn lemma_leaf<T>(n: CountNode<T>)
    requires
        is_leaf(n),
    ensures
        n.spec_left() is None,
        n.spec_right() is None,
        n.spec_height() == 0,
        n.balanced(),
        n@ == seq![n.spec_value()],
{
    n.lemma_split();
    match n.spec_left() {
        Some(l) => l.lemma_split_stats(),
        None => {},
    }
    match n.spec_right() {
        Some(r) => r.lemma_split_stats(),
        None => {},
    }
    assert(n@ =~= seq![n.spec_value()]);
}

/// What holds after a balanced node got back its left subtree, one element
/// larger, at most one level higher and balanced, and was rebalanced.
proof fn lemma_grow_left<T>(n: CountNode<T>, sub: CountNode<T>)
    requires
        n.wf(),
        n.balanced(),
        sub.wf(),
        sub.balanced(),
        n.spec_count() < u32::MAX,
        sub.spec_count() == opt_count(n.spec_left()) + 1,
        opt_height(n.spec_left()) <= sub.spec_height() <= opt_height(n.spec_left()) + 1,
    ensures
        can_join(n, WalkAction::Left, sub),
        ({
            let r = joined(n, WalkAction::Left, sub).rebalanced();
            &&& r.wf()
            &&& r.balanced()
            &&& r@ == sub@.push(n.spec_value()) + opt_seq(n.spec_right())
            &&& r.spec_count() == n.spec_count() + 1
            &&& n.spec_height() <= r.spec_height() <= n.spec_height() + 1
        }),
{
    n.lemma_split_stats();
    lemma_height_bound(n);
    lemma_height_bound(sub);
    CountNode::lemma_join(n.spec_value(), Some(Box::new(sub)), n.spec_right());
    lemma_rebalanced(joined(n, WalkAction::Left, sub));
}

/// The mirror image of `lemma_grow_left`.
proof fn lemma_grow_right<T>(n: CountNode<T>, sub: CountNode<T>)
    requires
        n.wf(),
        n.balanced(),
        sub.wf(),
        sub.balanced(),
        n.spec_count() < u32::MAX,
        sub.spec_count() == opt_count(n.spec_right()) + 1,
        opt_height(n.spec_right()) <= sub.spec_height() <= opt_height(n.spec_right()) + 1,
    ensures
        can_join(n, WalkAction::Right, sub),
        ({
            let r = joined(n, WalkAction::Right, sub).rebalanced();
            &&& r.wf()
            &&& r.balanced()
            &&& r@ == opt_seq(n.spec_left()).push(n.spec_value()) + sub@
            &&& r.spec_count() == n.spec_count() + 1
            &&& n.spec_height() <= r.spec_height() <= n.spec_height() + 1
        }),
{
    n.lemma_split_stats();
    lemma_height_bound(n);
    lemma_height_bound(sub);
    CountNode::lemma_join(n.spec_value(), n.spec_left(), Some(Box::new(sub)));
    lemma_rebalanced(joined(n, WalkAction::Right, sub));
}

/// Appending to a balanced subtree: the walk down the right spine that
/// attaches `leaf` at its end and rebalances on the way back leaves a balanced
/// subtree that holds the same values followed by the new one, and is at most
/// one level higher.
pub proof fn lemma_append<T>(n: CountNode<T>, leaf: Box<CountNode<T>>)
    requires
        n.wf(),
        n.balanced(),
        is_leaf(*leaf),
        n.spec_count() < u32::MAX,
    ensures
        reshape_ok(n, KeepRight, AttachRight { node: leaf }, Rebalance),
        ({
            let r = reshaped(n, KeepRight, AttachRight { node: leaf }, Rebalance);
            &&& r.wf()
            &&& r.balanced()
            &&& r@ == n@.push(leaf.spec_value())
            &&& r.spec_count() == n.spec_count() + 1
            &&& n.spec_height() <= r.spec_height() <= n.spec_height() + 1
        }),
    decreases n.size(),
{
    n.lemma_split();
    lemma_leaf(*leaf);
    lemma_height_bound(n);
    let act = AttachRight { node: leaf };
    match n.spec_right() {
        Some(c) => {
            lemma_append(*c, leaf);
            let sub = reshaped(*c, KeepRight, act, Rebalance);
            lemma_grow_right(n, sub);
            let r = joined(n, WalkAction::Right, sub).rebalanced();
            assert(r == reshaped(n, KeepRight, act, Rebalance));
            assert(r@ =~= n@.push(leaf.spec_value()));
        },
        None => {
            CountNode::lemma_join(n.spec_value(), n.spec_left(), Some(leaf));
            let r = n.with_right(Some(leaf));
            assert(r == reshaped(n, KeepRight, act, Rebalance));
            assert(r@ =~= n@.push(leaf.spec_value()));
        },
    }
}

/// Inserting before a balanced node leaves a balanced subtree that holds the
/// new value between the left subtree and the node, and is at most one level
/// higher.
pub proof fn lemma_insert_before<T>(n: CountNode<T>, leaf: Box<CountNode<T>>)
    requires
        n.wf(),
        n.balanced(),
        is_leaf(*leaf),
        n.spec_count() < u32::MAX,
    ensures
        insert_before_ok(n, leaf, Rebalance),
        ({
            let r = inserted_before(n, leaf, Rebalance);
            &&& r.wf()
            &&& r.balanced()
            &&& r@ == n@.insert(opt_count(n.spec_left()) as int, leaf.spec_value())
            &&& r.spec_count() == n.spec_count() + 1
            &&& n.spec_height() <= r.spec_height() <= n.spec_height() + 1
        }),
{
    n.lemma_split();
    lemma_leaf(*leaf);
    lemma_height_bound(n);
    let x = leaf.spec_value();
    match n.spec_left() {
        Some(l) => {
            l.lemma_count_is_len();
            lemma_append(*l, leaf);
            let sub = reshaped(*l, KeepRight, AttachRight { node: leaf }, Rebalance);
            lemma_grow_left(n, sub);
            let r = joined(n, WalkAction::Left, sub).rebalanced();
            assert(r == inserted_before(n, leaf, Rebalance));
            assert(r@ =~= n@.insert(opt_count(n.spec_left()) as int, x));
        },
        None => {
            CountNode::lemma_join(n.spec_value(), Some(leaf), n.spec_right());
            let r = n.with_left(Some(leaf));
            assert(r@ =~= n@.insert(0, x));
        },
    }
}

/// What a subtree is like after an insertion into `before`, which held `old`
/// and now holds `x` at position `at` as well.
pub open spec fn grown<T>(before: CountNode<T>, now: CountNode<T>, at: int, x: T) -> bool {
    &&& now.wf()
    &&& now.balanced()
    &&& now@ == before@.insert(at, x)
    &&& now.spec_count() == before.spec_count() + 1
    &&& before.spec_height() <= now.spec_height() <= before.spec_height() + 1
}

proof fn lemma_seek_went_left<T>(n: CountNode<T>, at: int, x: T, sub: CountNode<T>)
    requires
        n.wf(),
        n.balanced(),
        n.spec_count() < u32::MAX,
        n.spec_left() is Some,
        0 <= at < opt_count(n.spec_left()),
        grown(*n.spec_left().unwrap(), sub, at, x),
    ensures
        can_join(n, WalkAction::Left, sub),
        grown(n, joined(n, WalkAction::Left, sub).rebalanced(), at, x),
{
    let l = *n.spec_left().unwrap();
    n.lemma_split();
    l.lemma_count_is_len();
    lemma_grow_left(n, sub);
    let r = joined(n, WalkAction::Left, sub).rebalanced();
    assert(l@.insert(at, x).push(n.spec_value()) + opt_seq(n.spec_right()) =~= (l@.push(
        n.spec_value(),
    ) + opt_seq(n.spec_right())).insert(at, x));
}

proof fn lemma_seek_went_right<T>(n: CountNode<T>, at: int, x: T, sub: CountNode<T>)
    requires
        n.wf(),
        n.balanced(),
        n.spec_count() < u32::MAX,
        n.spec_right() is Some,
        0 <= at < opt_count(n.spec_right()),
        grown(*n.spec_right().unwrap(), sub, at, x),
    ensures
        can_join(n, WalkAction::Right, sub),
        grown(
            n,
            joined(n, WalkAction::Right, sub).rebalanced(),
            opt_count(n.spec_left()) + 1 + at,
            x,
        ),
{
    let c = *n.spec_right().unwrap();
    n.lemma_split();
    c.lemma_count_is_len();
    let a = opt_seq(n.spec_left());
    match n.spec_left() {
        Some(l) => l.lemma_count_is_len(),
        None => {},
    }
    assert(a.len() == opt_count(n.spec_left()));
    lemma_grow_right(n, sub);
    assert(a.push(n.spec_value()) + c@.insert(at, x) =~= (a.push(n.spec_value()) + c@).insert(
        a.len() + 1 + at,
        x,
    ));
}

/// Inserting at a position of a balanced subtree: the order-statistics
/// descent to the element at position `index - up`, which inserts `leaf`
/// before that element and rebalances on the way back, leaves a balanced
/// subtree that holds the new value at that position and the old values, in
/// their order, around it, and is at most one level higher.
pub proof fn lemma_seek_insert<T>(n: CountNode<T>, index: u32, up: u32, leaf: Box<CountNode<T>>)
    requires
        n.wf(),
        n.balanced(),
        is_leaf(*leaf),
        n.spec_count() < u32::MAX,
        up <= index < up + n.spec_count(),
    ensures
        reshape_ok(n, Seek { index, up_count: up }, InsertBefore { node: leaf }, Rebalance),
        grown(
            n,
            reshaped(n, Seek { index, up_count: up }, InsertBefore { node: leaf }, Rebalance),
            index - up,
            leaf.spec_value(),
        ),
    decreases n.size(),
{
    n.lemma_split_stats();
    let d = Seek { index, up_count: up };
    let act = InsertBefore { node: leaf };
    let x = leaf.spec_value();
    let here = d.at(&n);
    if index < here {
        let l = n.spec_left().unwrap();
        l.lemma_split_stats();
        n.lemma_weight();
        lemma_seek_insert(*l, index, up, leaf);
        let sub = reshaped(*l, d, act, Rebalance);
        lemma_seek_went_left(n, index - up, x, sub);
    } else if index == here {
        lemma_insert_before(n, leaf);
    } else {
        let c = n.spec_right().unwrap();
        c.lemma_split_stats();
        n.lemma_weight();
        let d2 = Seek { index, up_count: (here + 1) as u32 };
        assert(d2 == d.next(&n));
        lemma_seek_insert(*c, index, (here + 1) as u32, leaf);
        let sub = reshaped(*c, d2, act, Rebalance);
        lemma_seek_went_right(n, index - here - 1, x, sub);
    }
}

/// The order-statistics descent to position `index - up` of a subtree stops at
/// the node that holds the element at that position.
pub proof fn lemma_seek_get<T>(n: CountNode<T>, index: u32, up: u32)
    requires
        n.wf(),
        up <= index < up + n.spec_count(),
    ensures
        walk_end(n, Seek { index, up_count: up }).spec_value() == n@[index - up],
    decreases n.size(),
{
    n.lemma_split();
    n.lemma_count_is_len();
    let d = Seek { index, up_count: up };
    let here = d.at(&n);
    match n.spec_left() {
        Some(l) => l.lemma_count_is_len(),
        None => {},
    }
    if index < here {
        let l = n.spec_left().unwrap();
        lemma_seek_get(*l, index, up);
    } else if index > here {
        let c = n.spec_right().unwrap();
        c.lemma_count_is_len();
        lemma_seek_get(*c, index, (here + 1) as u32);
    }
}

} // verus!
