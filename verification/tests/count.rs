use count_tree::count::CountNode;
use count_tree::node::{BinaryTree, Node, NodeMut};
use count_tree::tree::CountTree;
use count_tree::walk::{insert_before, NoFixup};

fn test_nodes() -> Box<CountNode<u32>> {
    let mut cn = Box::new(CountNode::new(7));
    insert_before(&mut *cn, Box::new(CountNode::new(8)), &NoFixup);
    insert_before(&mut *cn, Box::new(CountNode::new(12)), &NoFixup);
    cn.insert_right(Some(Box::new(CountNode::new(5))));
    cn
}

#[test]
fn custom() {
    let ct = CountTree::from_root(test_nodes()).unwrap();
    assert_eq!(ct.get(0), Some(&8));
    assert_eq!(ct.get(1), Some(&12));
    assert_eq!(ct.get(2), Some(&7));
    assert_eq!(ct.get(3), Some(&5));
    assert_eq!(ct.get(4), None);
}

#[test]
fn counting() {
    let cn = test_nodes();
    assert_eq!(cn.lcount(), 2);
    assert_eq!(cn.rcount(), 1);
    assert_eq!(cn.count(), 4);
    assert_eq!(cn.height(), 2);
}

#[test]
fn rebalance() {
    let mut cn = test_nodes();
    assert_eq!(cn.balance_factor(), 1);
    cn.detach_right();
    cn.rebalance();
    assert_eq!(cn.balance_factor(), 0);
    let ct = CountTree::from_root(cn).unwrap();
    assert_eq!(ct.get(0), Some(&8));
    assert_eq!(ct.get(1), Some(&12));
    assert_eq!(ct.get(2), Some(&7));
    assert_eq!(ct.get(3), None);
}

#[test]
fn insert() {
    let mut ct = CountTree::new();
    assert_eq!(ct.get(0), None);
    ct.insert(0, 1);
    ct.insert(0, 2);
    ct.insert(0, 3);
    ct.insert(0, 4);
    ct.insert(0, 5);
    ct.insert(0, 6);
    assert_eq!(ct.get(0), Some(&6));
    assert_eq!(ct.get(1), Some(&5));
    assert_eq!(ct.get(2), Some(&4));
    assert_eq!(ct.get(3), Some(&3));
    assert_eq!(ct.get(4), Some(&2));
    assert_eq!(ct.get(5), Some(&1));
    assert_eq!(ct.root().unwrap().balance_factor(), 0);
    assert_eq!(ct.root().unwrap().value(), &4);
    assert_eq!(ct.root().unwrap().left().unwrap().value(), &5);
    assert_eq!(ct.root().unwrap().right().unwrap().value(), &2);
    ct.insert(0, 7);
    assert_eq!(ct.root().unwrap().balance_factor(), 0);
    assert_eq!(ct.root().unwrap().left().unwrap().value(), &6);
    assert_eq!(ct.get(6), Some(&1));
    ct.insert(7, 0);
    assert_eq!(ct.root().unwrap().balance_factor(), -1);
    assert_eq!(ct.get(7), Some(&0));
}

#[test]
fn from_iter() {
    let ct: CountTree<_> = CountTree::from_iter((0..94).collect());
    let root = ct.root().unwrap();
    assert_eq!(root.value(), &31);
    assert_eq!(root.balance_factor(), -1);
    let left = root.left().unwrap();
    assert_eq!(left.value(), &15);
    assert_eq!(left.balance_factor(), 0);
    let right = root.right().unwrap();
    assert_eq!(right.value(), &63);
    assert_eq!(right.balance_factor(), 0);
    {
        let rl = right.left().unwrap();
        assert_eq!(rl.value(), &47);
        assert_eq!(rl.balance_factor(), 0);
        let rr = right.right().unwrap();
        assert_eq!(rr.value(), &79);
        assert_eq!(rr.balance_factor(), 0);
        {
            let rrl = rr.left().unwrap();
            assert_eq!(rrl.value(), &71);
            assert_eq!(rrl.balance_factor(), 0);
            let rrr = rr.right().unwrap();
            assert_eq!(rrr.value(), &87);
            assert_eq!(rrr.balance_factor(), 0);
            {
                let rrrl = rrr.left().unwrap();
                assert_eq!(rrrl.value(), &83);
                assert_eq!(rrrl.balance_factor(), 0);
                let rrrr = rrr.right().unwrap();
                assert_eq!(rrrr.value(), &91);
                assert_eq!(rrrr.balance_factor(), 0);
                {
                    let rrrrl = rrrr.left().unwrap();
                    assert_eq!(rrrrl.value(), &89);
                    assert_eq!(rrrrl.balance_factor(), 0);
                    let rrrrr = rrrr.right().unwrap();
                    assert_eq!(rrrrr.value(), &93);
                    assert_eq!(rrrrr.balance_factor(), 1);
                    let rrrrrl = rrrrr.left().unwrap();
                    assert_eq!(rrrrrl.value(), &92);
                    assert_eq!(rrrrrl.balance_factor(), 0);
                }
            }
        }
    }
}
