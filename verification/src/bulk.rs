//! Bulk construction: a balanced subtree of least height, built from a
//! sequence in one pass.
//!
//! The shape is fixed by the number of elements alone. The left subtree of a
//! root is a perfect tree; what remains goes right and is built by the same
//! rule. So the right spine carries perfect trees of sizes that never grow on
//! the way down.

use crate::bits::{
    exp_floor_log, floor_log2, floor_pow2, is_pow2, lemma_floor_log2_small,
    lemma_floor_pow2_bounds, lemma_floor_pow2_unique, lemma_pow2_double,
};
use crate::count::{
    CountNode, NodePtr, opt_balanced, opt_count, opt_height, opt_seq, opt_wf,
};
use crate::node::NodeMut;
use vstd::prelude::*;

verus! {

/// The number of elements that go into the left subtree when `m` elements are
/// built into one subtree. With `p` the largest power of two for which
/// `2 * p <= m + 2`, it is `p - 1` as long as the rest, `m - p` elements, fits
/// a right subtree of the height that `p` elements need, and `2 * p - 1` after that.
pub open spec fn bulk_left(m: int) -> int {
    let p = floor_pow2((m + 2) / 2);
    if m <= 3 * p - 1 {
        p - 1
    } else {
        2 * p - 1
    }
}

/// The height of the subtree that is built from `m` elements: the least
/// height that holds them, and -1 for none.
pub open spec fn bulk_height(m: int) -> int {
    if m <= 0 {
        -1
    } else {
        floor_log2(m)
    }
}

/// The rule splits `m` elements into a left part, the root and a right part
/// whose heights differ by at most one and give the whole its least height.
pub proof fn lemma_bulk_split(m: int)
    requires
        m >= 1,
    ensures
        0 <= bulk_left(m) < m,
        -1 <= bulk_height(bulk_left(m)) - bulk_height(m - bulk_left(m) - 1) <= 1,
        bulk_height(m) == 1 + if bulk_height(bulk_left(m)) >= bulk_height(m - bulk_left(m) - 1) {
            bulk_height(bulk_left(m))
        } else {
            bulk_height(m - bulk_left(m) - 1)
        },
{
    let p = floor_pow2((m + 2) / 2);
    lemma_floor_pow2_bounds((m + 2) / 2);
    lemma_pow2_double(p);
    let k = floor_log2(p);
    let l = bulk_left(m);
    let r = m - l - 1;
    if p >= 2 {
        assert(is_pow2(p / 2));
        assert(floor_log2(p) == 1 + floor_log2(p / 2));
    }
    if m <= 3 * p - 1 {
        if p >= 2 {
            lemma_floor_pow2_unique(p / 2, l);
        }
        if r >= 2 * p {
            lemma_floor_pow2_unique(2 * p, r);
        } else if r >= p {
            lemma_floor_pow2_unique(p, r);
        } else if r >= 1 {
            lemma_floor_pow2_unique(p / 2, r);
        }
    } else {
        lemma_floor_pow2_unique(p, l);
        lemma_floor_pow2_unique(p, r);
    }
    if m >= 2 * p {
        lemma_floor_pow2_unique(2 * p, m);
    } else {
        lemma_floor_pow2_unique(p, m);
    }
}

/// The subtree that is built from the values `s`: none for no values, else
/// the value at position `bulk_left` on top, over the subtree built from the
/// values before it and the subtree built from the values after it.
pub open spec fn bulk_tree<T>(s: Seq<T>) -> Option<Box<CountNode<T>>>
    decreases s.len(),
{
    if s.len() == 0 {
        None
    } else {
        let l = bulk_left(s.len() as int);
        if 0 <= l < s.len() {
            Some(
                Box::new(
                    CountNode::make(s[l], bulk_tree(s.take(l)), bulk_tree(s.skip(l + 1))),
                ),
            )
        } else {
            None
        }
    }
}

/// The subtree built from `s` holds exactly the values of `s`, in their
/// order; its statistics are right; it is balanced, and of the least height
/// that holds so many values.
pub proof fn lemma_bulk_tree<T>(s: Seq<T>)
    requires
        s.len() <= u32::MAX,
    ensures
        opt_seq(bulk_tree(s)) == s,
        opt_wf(bulk_tree(s)),
        opt_balanced(bulk_tree(s)),
        opt_count(bulk_tree(s)) == s.len(),
        opt_height(bulk_tree(s)) == bulk_height(s.len() as int),
        bulk_tree(s) is Some <==> s.len() > 0,
    decreases s.len(),
{
    if s.len() > 0 {
        let m = s.len() as int;
        lemma_bulk_split(m);
        let l = bulk_left(m);
        lemma_bulk_tree(s.take(l));
        lemma_bulk_tree(s.skip(l + 1));
        lemma_floor_log2_small(m);
        lemma_floor_log2_small(l);
        lemma_floor_log2_small(m - l - 1);
        CountNode::lemma_join(s[l], bulk_tree(s.take(l)), bulk_tree(s.skip(l + 1)));
        assert(s.take(l).push(s[l]) + s.skip(l + 1) =~= s);
    } else {
        assert(s =~= Seq::<T>::empty());
    }
}

proof fn lemma_build_step<T>(
    all: Seq<T>,
    m: int,
    left: Option<Box<CountNode<T>>>,
    right: Option<Box<CountNode<T>>>,
)
    requires
        1 <= m <= all.len(),
        left == bulk_tree(
            all.take(all.len() - m + bulk_left(m)).skip(all.len() - m),
        ),
        right == bulk_tree(all.skip(all.len() - m + bulk_left(m) + 1)),
    ensures
        0 <= bulk_left(m) < m,
        bulk_tree(all.skip(all.len() - m)) == Some(
            Box::new(CountNode::make(all[all.len() - m + bulk_left(m)], left, right)),
        ),
{
    lemma_bulk_split(m);
    let start = all.len() - m;
    let l = bulk_left(m);
    let s = all.skip(start);
    assert(s.take(l) =~= all.take(start + l).skip(start));
    assert(s.skip(l + 1) =~= all.skip(start + l + 1));
    assert(s[l] == all[start + l]);
}

/// The number of elements that go into the left subtree when `m` elements
/// are built into one subtree.
pub fn left_share(m: u32) -> (l: u32)
    requires
        m >= 1,
    ensures
        l == bulk_left(m as int),
        l < m,
{
    proof {
        lemma_bulk_split(m as int);
        lemma_floor_pow2_bounds((m as int + 2) / 2);
    }
    let p: u32 = exp_floor_log(m / 2 + 1);
    if m as u64 <= 3 * (p as u64) - 1 {
        p - 1
    } else {
        2 * p - 1
    }
}

/// Builds the last `m` elements of `items` into a subtree and takes them off
/// `items`.
pub fn build<T>(items: &mut Vec<T>, m: u32) -> (r: Option<NodePtr<T>>)
    requires
        m <= old(items).len(),
    ensures
        final(items)@ == old(items)@.take(old(items).len() - m),
        r == bulk_tree(old(items)@.skip(old(items).len() - m)),
        opt_seq(r) == old(items)@.skip(old(items).len() - m),
        opt_wf(r),
        opt_balanced(r),
        opt_count(r) == m,
        opt_height(r) == bulk_height(m as int),
        r is Some <==> m > 0,
    decreases m,
{
    let ghost all = items@;
    let ghost start = all.len() - m;
    proof {
        lemma_bulk_tree(all.skip(start));
    }
    if m == 0 {
        assert(items@.take(items.len() as int) =~= items@);
        return None;
    }
    let l: u32 = left_share(m);
    let right = build(items, m - l - 1);
    let val = items.pop().unwrap();
    proof {
        assert(items@ =~= all.take(start + l));
        assert(val == all[start + l]);
    }
    let left = build(items, l);
    proof {
        assert(items@ =~= all.take(start));
        lemma_floor_log2_small(l as int);
        lemma_floor_log2_small(m as int - l as int - 1);
        lemma_build_step(all, m as int, left, right);
    }
    let node = join(val, left, right);
    Some(node)
}

/// The node that holds `val` above `left` and `right`.
fn join<T>(val: T, left: Option<NodePtr<T>>, right: Option<NodePtr<T>>) -> (r: NodePtr<T>)
    requires
        opt_wf(left),
        opt_wf(right),
        1 + opt_count(left) + opt_count(right) <= u32::MAX,
        opt_height(left) < u16::MAX,
        opt_height(right) < u16::MAX,
    ensures
        *r == CountNode::make(val, left, right),
{
    let mut node = Box::new(CountNode::new(val));
    node.insert_left(left);
    node.insert_right(right);
    proof {
        CountNode::lemma_make(val, left, right);
        node.lemma_split_stats();
        CountNode::lemma_ext(*node, CountNode::make(val, left, right));
    }
    node
}

} // verus!
