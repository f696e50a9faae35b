//! Why rebalancing works: the height arithmetic of AVL rotations.

use crate::count::{CountNode, max_height, opt_balanced, opt_count, opt_height, opt_wf};
use crate::node::{Node, NodeMut};
use vstd::arithmetic::power2::{lemma2_to64, lemma_pow2_unfold, pow2};
use vstd::prelude::*;

verus! {

/// The subtree that a double rotation leaves: `mid` on top, above the node
/// that holds `lo` over `a` and `b` and the node that holds `hi` over `c` and `d`.
spec fn three<T>(
    a: Option<Box<CountNode<T>>>,
    lo: T,
    b: Option<Box<CountNode<T>>>,
    mid: T,
    c: Option<Box<CountNode<T>>>,
    hi: T,
    d: Option<Box<CountNode<T>>>,
) -> CountNode<T> {
    CountNode::make(
        mid,
        Some(Box::new(CountNode::make(lo, a, b))),
        Some(Box::new(CountNode::make(hi, c, d))),
    )
}

proof fn lemma_three<T>(
    a: Option<Box<CountNode<T>>>,
    lo: T,
    b: Option<Box<CountNode<T>>>,
    mid: T,
    c: Option<Box<CountNode<T>>>,
    hi: T,
    d: Option<Box<CountNode<T>>>,
)
    requires
        opt_wf(a),
        opt_wf(b),
        opt_wf(c),
        opt_wf(d),
        3 + opt_count(a) + opt_count(b) + opt_count(c) + opt_count(d) <= u32::MAX,
        opt_height(a) + 2 <= u16::MAX,
        opt_height(b) + 2 <= u16::MAX,
        opt_height(c) + 2 <= u16::MAX,
        opt_height(d) + 2 <= u16::MAX,
    ensures
        ({
            let t = three(a, lo, b, mid, c, hi, d);
            let hl = 1 + max_height(opt_height(a), opt_height(b));
            let hr = 1 + max_height(opt_height(c), opt_height(d));
            &&& t.wf()
            &&& t.spec_height() == 1 + max_height(hl, hr)
            &&& t.balanced() <==> (-1 <= hl - hr <= 1 && -1 <= opt_height(a) - opt_height(b) <= 1
                && -1 <= opt_height(c) - opt_height(d) <= 1 && opt_balanced(a) && opt_balanced(b)
                && opt_balanced(c) && opt_balanced(d))
        }),
{
    CountNode::lemma_join_stats(lo, a, b);
    CountNode::lemma_join_stats(hi, c, d);
    CountNode::lemma_join_stats(
        mid,
        Some(Box::new(CountNode::make(lo, a, b))),
        Some(Box::new(CountNode::make(hi, c, d))),
    );
}

proof fn lemma_shape_left_right<T>(n: CountNode<T>)
    requires
        n.wf(),
        n.spec_balance_factor() > 1,
        n.spec_left().unwrap().spec_balance_factor() < 0,
    ensures
        ({
            let l = n.spec_left().unwrap();
            let p = l.spec_right().unwrap();
            n.rebalanced() == three(
                l.spec_left(),
                l.spec_value(),
                p.spec_left(),
                p.spec_value(),
                p.spec_right(),
                n.spec_value(),
                n.spec_right(),
            )
        }),
{
    n.lemma_split_stats();
    let l = *n.spec_left().unwrap();
    l.lemma_split_stats();
    let p = *l.spec_right().unwrap();
    p.lemma_split_stats();
    CountNode::lemma_make(l.spec_value(), l.spec_left(), p.spec_left());
    let a = CountNode::make(l.spec_value(), l.spec_left(), p.spec_left());
    CountNode::lemma_make(p.spec_value(), Some(Box::new(a)), p.spec_right());
    let l2 = CountNode::make(p.spec_value(), Some(Box::new(a)), p.spec_right());
    assert(l2 == l.rotated_left());
    CountNode::lemma_make(n.spec_value(), Some(Box::new(l2)), n.spec_right());
}

proof fn lemma_shape_right_left<T>(n: CountNode<T>)
    requires
        n.wf(),
        n.spec_balance_factor() < -1,
        n.spec_right().unwrap().spec_balance_factor() > 0,
    ensures
        ({
            let r = n.spec_right().unwrap();
            let p = r.spec_left().unwrap();
            n.rebalanced() == three(
                n.spec_left(),
                n.spec_value(),
                p.spec_left(),
                p.spec_value(),
                p.spec_right(),
                r.spec_value(),
                r.spec_right(),
            )
        }),
{
    n.lemma_split_stats();
    let r = *n.spec_right().unwrap();
    r.lemma_split_stats();
    let p = *r.spec_left().unwrap();
    p.lemma_split_stats();
    CountNode::lemma_make(r.spec_value(), p.spec_right(), r.spec_right());
    let b = CountNode::make(r.spec_value(), p.spec_right(), r.spec_right());
    CountNode::lemma_make(p.spec_value(), p.spec_left(), Some(Box::new(b)));
    let r2 = CountNode::make(p.spec_value(), p.spec_left(), Some(Box::new(b)));
    assert(r2 == r.rotated_right());
    CountNode::lemma_make(n.spec_value(), n.spec_left(), Some(Box::new(r2)));
}

proof fn lemma_balance_left_right<T>(n: CountNode<T>)
    requires
        n.wf(),
        n.spec_balance_factor() == 2,
        n.spec_left().unwrap().spec_balance_factor() < 0,
        opt_balanced(n.spec_left()),
        opt_balanced(n.spec_right()),
    ensures
        n.rebalanced().balanced(),
        n.spec_height() - 1 <= n.rebalanced().spec_height() <= n.spec_height(),
{
    lemma_shape_left_right(n);
    n.lemma_split_stats();
    let l = *n.spec_left().unwrap();
    l.lemma_split_stats();
    let p = *l.spec_right().unwrap();
    p.lemma_split_stats();
    lemma_three(
        l.spec_left(),
        l.spec_value(),
        p.spec_left(),
        p.spec_value(),
        p.spec_right(),
        n.spec_value(),
        n.spec_right(),
    );
}

proof fn lemma_balance_right_left<T>(n: CountNode<T>)
    requires
        n.wf(),
        n.spec_balance_factor() == -2,
        n.spec_right().unwrap().spec_balance_factor() > 0,
        opt_balanced(n.spec_left()),
        opt_balanced(n.spec_right()),
    ensures
        n.rebalanced().balanced(),
        n.spec_height() - 1 <= n.rebalanced().spec_height() <= n.spec_height(),
{
    lemma_shape_right_left(n);
    n.lemma_split_stats();
    let r = *n.spec_right().unwrap();
    r.lemma_split_stats();
    let p = *r.spec_left().unwrap();
    p.lemma_split_stats();
    lemma_three(
        n.spec_left(),
        n.spec_value(),
        p.spec_left(),
        p.spec_value(),
        p.spec_right(),
        r.spec_value(),
        r.spec_right(),
    );
}

proof fn lemma_balance_left_left<T>(n: CountNode<T>)
    requires
        n.wf(),
        n.spec_balance_factor() == 2,
        n.spec_left().unwrap().spec_balance_factor() >= 0,
        opt_balanced(n.spec_left()),
        opt_balanced(n.spec_right()),
    ensures
        n.rebalanced().balanced(),
        n.spec_height() - 1 <= n.rebalanced().spec_height() <= n.spec_height(),
{
    n.lemma_split_stats();
    let l = *n.spec_left().unwrap();
    l.lemma_split_stats();
    CountNode::lemma_join_stats(n.spec_value(), Some(Box::new(l)), n.spec_right());
    CountNode::lemma_join_stats(n.spec_value(), l.spec_right(), n.spec_right());
    let b = CountNode::make(n.spec_value(), l.spec_right(), n.spec_right());
    CountNode::lemma_join_stats(l.spec_value(), l.spec_left(), Some(Box::new(b)));
}

proof fn lemma_balance_right_right<T>(n: CountNode<T>)
    requires
        n.wf(),
        n.spec_balance_factor() == -2,
        n.spec_right().unwrap().spec_balance_factor() <= 0,
        opt_balanced(n.spec_left()),
        opt_balanced(n.spec_right()),
    ensures
        n.rebalanced().balanced(),
        n.spec_height() - 1 <= n.rebalanced().spec_height() <= n.spec_height(),
{
    n.lemma_split_stats();
    let r = *n.spec_right().unwrap();
    r.lemma_split_stats();
    CountNode::lemma_join_stats(n.spec_value(), n.spec_left(), Some(Box::new(r)));
    CountNode::lemma_join_stats(n.spec_value(), n.spec_left(), r.spec_left());
    let a = CountNode::make(n.spec_value(), n.spec_left(), r.spec_left());
    CountNode::lemma_join_stats(r.spec_value(), Some(Box::new(a)), r.spec_right());
}

/// One rebalancing step keeps the values in order and the statistics right.
proof fn lemma_rebalanced_keeps<T>(n: CountNode<T>)
    requires
        n.wf(),
    ensures
        n.rebalanced().wf(),
        n.rebalanced()@ == n@,
        n.rebalanced().spec_count() == n.spec_count(),
{
    n.lemma_split_stats();
    if n.spec_balance_factor() > 1 {
        let l = *n.spec_left().unwrap();
        l.lemma_split_stats();
        let l2 = if l.spec_balance_factor() < 0 {
            l.rotated_left()
        } else {
            l
        };
        if l.spec_balance_factor() < 0 {
            l.lemma_rotated_left();
            l.lemma_rotated_left_height();
        }
        CountNode::lemma_join(n.spec_value(), Some(Box::new(l2)), n.spec_right());
        n.lemma_split();
        let s1 = n.with_left(Some(Box::new(l2)));
        assert(s1@ =~= n@);
        s1.lemma_rotated_right();
    } else if n.spec_balance_factor() < -1 {
        let r = *n.spec_right().unwrap();
        r.lemma_split_stats();
        let r2 = if r.spec_balance_factor() > 0 {
            r.rotated_right()
        } else {
            r
        };
        if r.spec_balance_factor() > 0 {
            r.lemma_rotated_right();
            r.lemma_rotated_right_height();
        }
        CountNode::lemma_join(n.spec_value(), n.spec_left(), Some(Box::new(r2)));
        n.lemma_split();
        let s1 = n.with_right(Some(Box::new(r2)));
        assert(s1@ =~= n@);
        s1.lemma_rotated_left();
    }
}

/// One rebalancing step keeps the values in order and the statistics right.
/// Where the two subtrees are balanced and their heights differ by at most
/// two, the step leaves a balanced subtree, and the height it had or one less:
/// the same height where the node was balanced already.
pub proof fn lemma_rebalanced<T>(n: CountNode<T>)
    requires
        n.wf(),
    ensures
        n.rebalanced().wf(),
        n.rebalanced()@ == n@,
        n.rebalanced().spec_count() == n.spec_count(),
        -1 <= n.spec_balance_factor() <= 1 ==> n.rebalanced() == n,
        (opt_balanced(n.spec_left()) && opt_balanced(n.spec_right()) && -2
            <= n.spec_balance_factor() <= 2) ==> {
            &&& n.rebalanced().balanced()
            &&& n.spec_height() - 1 <= n.rebalanced().spec_height() <= n.spec_height()
        },
{
    lemma_rebalanced_keeps(n);
    n.lemma_split_stats();
    if opt_balanced(n.spec_left()) && opt_balanced(n.spec_right()) {
        if n.spec_balance_factor() == 2 {
            if n.spec_left().unwrap().spec_balance_factor() >= 0 {
                lemma_balance_left_left(n);
            } else {
                lemma_balance_left_right(n);
            }
        } else if n.spec_balance_factor() == -2 {
            if n.spec_right().unwrap().spec_balance_factor() <= 0 {
                lemma_balance_right_right(n);
            } else {
                lemma_balance_right_left(n);
            }
        }
    }
}

/// The least number of nodes in a balanced tree of height `h`.
pub open spec fn min_count(h: nat) -> nat
    decreases h,
{
    if h == 0 {
        1
    } else if h == 1 {
        2
    } else {
        1 + min_count((h - 1) as nat) + min_count((h - 2) as nat)
    }
}

proof fn lemma_min_count_grows(a: nat, b: nat)
    requires
        a <= b,
    ensures
        min_count(a) <= min_count(b),
    decreases b,
{
    if a < b {
        lemma_min_count_grows(a, (b - 1) as nat);
    }
}

proof fn lemma_min_count_doubles(k: nat)
    ensures
        min_count(2 * k) >= pow2(k),
    decreases k,
{
    if k == 0 {
        lemma2_to64();
    } else {
        lemma_min_count_doubles((k - 1) as nat);
        lemma_min_count_grows((2 * k - 2) as nat, (2 * k - 1) as nat);
        lemma_pow2_unfold(k);
    }
}

/// A balanced subtree has at least `min_count` of its height in nodes.
pub proof fn lemma_min_count<T>(n: CountNode<T>)
    requires
        n.wf(),
        n.balanced(),
    ensures
        n.spec_count() >= min_count(n.spec_height() as nat),
    decreases n.size(),
{
    n.lemma_split_stats();
    n.lemma_split();
    let h = n.spec_height() as nat;
    match n.spec_left() {
        Some(l) => {
            l.lemma_split_stats();
            lemma_min_count(*l);
            if h >= 2 {
                lemma_min_count_grows((h - 2) as nat, l.spec_height() as nat);
            }
        },
        None => {},
    }
    match n.spec_right() {
        Some(r) => {
            r.lemma_split_stats();
            lemma_min_count(*r);
            if h >= 2 {
                lemma_min_count_grows((h - 2) as nat, r.spec_height() as nat);
            }
        },
        None => {},
    }
}

/// A balanced subtree whose count fits 32 bits is less than 64 levels high.
pub proof fn lemma_height_bound<T>(n: CountNode<T>)
    requires
        n.wf(),
        n.balanced(),
    ensures
        n.spec_height() < 64,
{
    lemma_min_count(n);
    if n.spec_height() >= 64 {
        lemma_min_count_grows(64, n.spec_height() as nat);
        lemma_min_count_doubles(32);
        lemma2_to64();
    }
}

} // verus!
