use count_tree::count::CountNode;
use count_tree::iter::{IntoIter, Iter};
use count_tree::node::{BinaryTree, Node, NodeMut};
use count_tree::strategy::{Rebalance, Seek};
use count_tree::tree::CountTree;
use count_tree::walk::{
    insert_before, walk, walk_mut, AttachRight, Decide, KeepRight, NoFixup, WalkAction,
};

fn leaf(v: u32) -> Box<CountNode<u32>> {
    Box::new(CountNode::new(v))
}

fn in_order(n: &CountNode<u32>) -> Vec<u32> {
    let mut out = Vec::new();
    let mut it = Iter::new(Some(n));
    while let Some(v) = it.next() {
        out.push(*v);
    }
    out
}

/// The chain 1 <- 2 <- 3: each node the left child of the next.
fn left_chain() -> Box<CountNode<u32>> {
    let mut two = leaf(2);
    two.insert_left(Some(leaf(1)));
    let mut three = leaf(3);
    three.insert_left(Some(two));
    three
}

#[test]
fn new_node_stands_alone() {
    let n = CountNode::new(9u32);
    assert_eq!(n.count(), 1);
    assert_eq!(n.height(), 0);
    assert_eq!(n.lcount(), 0);
    assert_eq!(n.rcount(), 0);
    assert_eq!(n.balance_factor(), 0);
    assert!(n.left().is_none());
    assert!(n.right().is_none());
    assert_eq!(n.value(), &9);
    assert_eq!(n.value_owned(), 9);
}

#[test]
fn balance_factor_with_one_child() {
    let mut n = leaf(5);
    n.insert_left(Some(leaf(4)));
    assert_eq!(n.balance_factor(), 1);
    assert_eq!(n.height(), 1);
    let chain = left_chain();
    assert_eq!(chain.balance_factor(), 2);
    assert_eq!(chain.height(), 2);
    assert_eq!(chain.count(), 3);
    let mut m = leaf(5);
    m.insert_right(Some(left_chain()));
    assert_eq!(m.balance_factor(), -3);
    assert_eq!(m.height(), 3);
    assert_eq!(m.count(), 4);
}

#[test]
fn attach_hands_back_what_was_there() {
    let mut n = leaf(5);
    assert!(n.insert_left(Some(leaf(4))).is_none());
    let old = n.insert_left(Some(leaf(3))).unwrap();
    assert_eq!(old.value(), &4);
    assert_eq!(n.left().unwrap().value(), &3);
    assert!(n.insert_right(Some(leaf(6))).is_none());
    assert_eq!(n.count(), 3);
    let right = n.detach_right().unwrap();
    assert_eq!(right.value(), &6);
    assert_eq!(n.count(), 2);
    assert_eq!(n.height(), 1);
    assert!(n.detach_right().is_none());
    let left = n.detach_left().unwrap();
    assert_eq!(left.value(), &3);
    assert_eq!(n.count(), 1);
    assert_eq!(n.height(), 0);
}

#[test]
fn rotation_needs_the_child_it_lifts() {
    let mut n = leaf(5);
    assert_eq!(n.rotate_right(), Err(()));
    assert_eq!(n.rotate_left(), Err(()));
    assert_eq!(n.count(), 1);
    assert_eq!(n.value(), &5);
    n.insert_right(Some(leaf(6)));
    assert_eq!(n.rotate_right(), Err(()));
    assert_eq!(in_order(&n), vec![5, 6]);
    assert_eq!(n.value(), &5);
}

#[test]
fn rotate_right_lifts_the_left_child() {
    let mut n = left_chain();
    n.insert_right(Some(leaf(4)));
    assert_eq!(n.rotate_right(), Ok(()));
    assert_eq!(n.value(), &2);
    assert_eq!(n.left().unwrap().value(), &1);
    assert_eq!(n.right().unwrap().value(), &3);
    assert_eq!(n.right().unwrap().right().unwrap().value(), &4);
    assert!(n.right().unwrap().left().is_none());
    assert_eq!(in_order(&n), vec![1, 2, 3, 4]);
    assert_eq!(n.count(), 4);
    assert_eq!(n.height(), 2);
    assert_eq!(n.right().unwrap().count(), 2);
    assert_eq!(n.rotate_left(), Ok(()));
    assert_eq!(n.value(), &3);
    assert_eq!(n.left().unwrap().value(), &2);
    assert_eq!(n.right().unwrap().value(), &4);
    assert_eq!(in_order(&n), vec![1, 2, 3, 4]);
}

#[test]
fn rebalance_of_a_bent_chain_rotates_twice() {
    let mut two = leaf(1);
    two.insert_right(Some(leaf(2)));
    let mut n = leaf(3);
    n.insert_left(Some(two));
    assert_eq!(n.balance_factor(), 2);
    assert_eq!(n.left().unwrap().balance_factor(), -1);
    n.rebalance();
    assert_eq!(n.value(), &2);
    assert_eq!(n.left().unwrap().value(), &1);
    assert_eq!(n.right().unwrap().value(), &3);
    assert_eq!(n.balance_factor(), 0);
    assert!(n.is_balanced());
    let mut five = leaf(6);
    five.insert_left(Some(leaf(5)));
    let mut m = leaf(4);
    m.insert_right(Some(five));
    assert_eq!(m.balance_factor(), -2);
    m.rebalance();
    assert_eq!(m.value(), &5);
    assert_eq!(in_order(&m), vec![4, 5, 6]);
    assert_eq!(m.balance_factor(), 0);
}

#[test]
fn rebalance_leaves_a_balanced_node_alone() {
    let mut n = leaf(2);
    n.insert_left(Some(leaf(1)));
    n.rebalance();
    assert_eq!(n.value(), &2);
    assert_eq!(n.left().unwrap().value(), &1);
    assert_eq!(n.balance_factor(), 1);
}

#[test]
fn is_balanced_sees_a_deep_fault() {
    let mut n = leaf(10);
    n.insert_left(Some(left_chain()));
    n.insert_right(Some(leaf(11)));
    let mut top = leaf(20);
    top.insert_left(Some(n));
    let mut right = leaf(30);
    right.insert_right(Some(leaf(31)));
    right.insert_left(Some(leaf(29)));
    top.insert_right(Some(right));
    assert!(!top.is_balanced());
    assert!(CountTree::from_root(top).is_none());
    assert!(leaf(1).is_balanced());
}

#[test]
fn walk_stops_where_the_decision_says() {
    let tree = CountTree::from_iter((0..20u32).map(|v| v * 2).collect());
    let root = tree.root().unwrap();
    for index in 0..20u32 {
        assert_eq!(walk(root, Seek::new(index)).value(), &(index * 2));
    }
    assert_eq!(walk(root, KeepRight).value(), &38);
}

#[test]
fn seek_decides_by_the_left_count() {
    let tree = CountTree::from_iter((0..7u32).collect());
    let root = tree.root().unwrap();
    let mut seek = Seek::new(5);
    assert_eq!(seek.step_in(root), WalkAction::Right);
    assert_eq!(seek.up_count, 4);
    assert_eq!(seek.step_in(root.right().unwrap()), WalkAction::Stop);
    assert_eq!(seek.up_count, 4);
    let mut first = Seek::new(0);
    assert_eq!(first.step_in(root), WalkAction::Left);
    assert_eq!(first.up_count, 0);
}

#[test]
fn walk_mut_acts_once_and_fixes_the_path() {
    let mut plain = leaf(1);
    for value in 2..6u32 {
        walk_mut(&mut *plain, KeepRight, AttachRight { node: leaf(value) }, &NoFixup);
    }
    assert_eq!(in_order(&plain), vec![1, 2, 3, 4, 5]);
    assert_eq!(plain.height(), 4);
    assert_eq!(plain.count(), 5);
    assert_eq!(plain.value(), &1);
    let mut kept = leaf(1);
    for value in 2..8u32 {
        walk_mut(&mut *kept, KeepRight, AttachRight { node: leaf(value) }, &Rebalance);
    }
    assert_eq!(in_order(&kept), vec![1, 2, 3, 4, 5, 6, 7]);
    assert_eq!(kept.height(), 2);
    assert_eq!(kept.value(), &4);
    assert!(kept.is_balanced());
}

#[test]
fn insert_before_goes_to_the_end_of_the_left_subtree() {
    let mut n = leaf(7);
    insert_before(&mut *n, leaf(8), &NoFixup);
    assert_eq!(n.left().unwrap().value(), &8);
    insert_before(&mut *n, leaf(12), &NoFixup);
    assert_eq!(n.value(), &7);
    assert_eq!(n.left().unwrap().value(), &8);
    assert_eq!(n.left().unwrap().right().unwrap().value(), &12);
    assert_eq!(in_order(&n), vec![8, 12, 7]);
    let mut m = leaf(7);
    insert_before(&mut *m, leaf(8), &Rebalance);
    insert_before(&mut *m, leaf(12), &Rebalance);
    assert_eq!(in_order(&m), vec![8, 12, 7]);
    assert_eq!(m.value(), &12);
    assert!(m.is_balanced());
}

#[test]
fn iterators_count_down_exactly() {
    let tree = CountTree::from_iter((0..10u32).collect());
    let mut it = tree.iter();
    for expected in 0..10u32 {
        assert_eq!(it.size_hint(), (10 - expected as usize, Some(10 - expected as usize)));
        assert_eq!(it.len(), 10 - expected as usize);
        assert_eq!(it.next(), Some(&expected));
    }
    assert_eq!(it.size_hint(), (0, Some(0)));
    assert_eq!(it.next(), None);
    assert_eq!(it.next(), None);
    let mut again = tree.iter();
    assert_eq!(again.next(), Some(&0));
    let mut owned = tree.into_iter();
    for expected in 0..10u32 {
        assert_eq!(owned.len(), 10 - expected as usize);
        assert_eq!(owned.size_hint(), (10 - expected as usize, Some(10 - expected as usize)));
        assert_eq!(owned.next(), Some(expected));
    }
    assert_eq!(owned.next(), None);
    assert_eq!(owned.size_hint(), (0, Some(0)));
}

#[test]
fn iterators_over_nothing() {
    let tree: CountTree<u32> = CountTree::new();
    assert_eq!(tree.iter().next(), None);
    assert_eq!(tree.iter().size_hint(), (0, Some(0)));
    let mut owned = tree.into_iter();
    assert_eq!(owned.next(), None);
    let mut none: IntoIter<u32> = IntoIter::new(None);
    assert_eq!(none.next(), None);
}

#[test]
fn owning_iterator_over_a_subtree_that_is_not_balanced() {
    let mut chain = left_chain();
    chain.insert_right(Some(leaf(4)));
    let mut it = IntoIter::new(Some(chain));
    assert_eq!(it.len(), 4);
    assert_eq!(it.next(), Some(1));
    assert_eq!(it.next(), Some(2));
    assert_eq!(it.next(), Some(3));
    assert_eq!(it.next(), Some(4));
    assert_eq!(it.next(), None);
}

#[test]
fn clear_empties_a_large_tree() {
    let mut tree = CountTree::from_iter((0..100_000u32).collect());
    assert_eq!(tree.len(), 100_000);
    tree.clear();
    assert_eq!(tree.len(), 0);
    assert!(tree.root().is_none());
    tree.insert(0, 1);
    assert_eq!(tree.into_vec(), vec![1]);
}

#[test]
fn from_root_takes_a_balanced_subtree() {
    let mut n = leaf(2);
    n.insert_left(Some(leaf(1)));
    n.insert_right(Some(leaf(3)));
    let tree = CountTree::from_root(n).unwrap();
    assert_eq!(tree.len(), 3);
    assert_eq!(tree.into_vec(), vec![1, 2, 3]);
    assert!(CountTree::from_root(left_chain()).is_none());
}

#[test]
fn into_parts_gives_the_three_parts() {
    let mut n = leaf(2);
    n.insert_left(Some(leaf(1)));
    let (value, left, right) = (*n).into_parts();
    assert_eq!(value, 2);
    assert_eq!(left.unwrap().value(), &1);
    assert!(right.is_none());
}

/// The value of the first node in positional order, for any kind of node.
fn first_value<N: Node>(start: &N) -> &N::Value {
    let mut cur = start;
    while let Some(l) = cur.left() {
        cur = l;
    }
    cur.value()
}

/// The value at the root of any kind of tree.
fn root_value<B: BinaryTree>(tree: &B) -> Option<&<B::Node as Node>::Value> {
    tree.root().map(|n| n.value())
}

/// Moves the left subtree of any kind of node over to the right.
fn swing<N: NodeMut>(node: &mut N) {
    let left = node.detach_left();
    node.insert_right(left);
}

#[test]
fn the_node_traits_serve_any_algorithm() {
    let tree = CountTree::from_iter((5..25u32).collect());
    assert_eq!(first_value(tree.root().unwrap()), &5);
    assert_eq!(root_value(&tree), Some(&12));
    let empty: CountTree<u32> = CountTree::new();
    assert_eq!(root_value(&empty), None);
    let mut n = leaf(2);
    n.insert_left(Some(leaf(1)));
    swing(&mut *n);
    assert!(n.left().is_none());
    assert_eq!(n.right().unwrap().value(), &1);
    assert_eq!(n.count(), 2);
    assert_eq!(in_order(&n), vec![2, 1]);
}
