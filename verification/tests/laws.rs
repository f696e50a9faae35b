use count_tree::bits::{exp_floor_log, is_power};
use count_tree::count::CountNode;
use count_tree::node::{BinaryTree, Node};
use count_tree::tree::CountTree;

/// Checks the cached statistics and the balance of every node below `n`, and
/// returns the number of nodes and the height.
fn audit(n: &CountNode<u32>) -> (u32, i32) {
    let (lc, lh) = match n.left() {
        Some(l) => audit(l),
        None => (0, -1),
    };
    let (rc, rh) = match n.right() {
        Some(r) => audit(r),
        None => (0, -1),
    };
    assert_eq!(n.lcount(), lc);
    assert_eq!(n.rcount(), rc);
    assert_eq!(n.count(), 1 + lc + rc);
    assert_eq!(n.height() as i32, 1 + lh.max(rh));
    assert_eq!(n.balance_factor(), lh - rh);
    assert!(n.balance_factor().abs() <= 1);
    assert!(n.is_balanced());
    (1 + lc + rc, 1 + lh.max(rh))
}

fn audit_tree(t: &CountTree<u32>) {
    match t.root() {
        Some(n) => {
            let (count, _) = audit(n);
            assert_eq!(t.len(), count as usize);
        }
        None => assert_eq!(t.len(), 0),
    }
}

fn contents(t: &CountTree<u32>) -> Vec<u32> {
    let mut out = Vec::new();
    let mut it = t.iter();
    while let Some(v) = it.next() {
        out.push(*v);
    }
    out
}

/// A small generator of positions, the same on every run.
fn next_rand(state: &mut u64) -> u64 {
    *state = state.wrapping_mul(6364136223846793005).wrapping_add(1442695040888963407);
    *state >> 33
}

#[test]
fn order_is_kept_by_every_insert() {
    let mut state = 7u64;
    let mut tree = CountTree::new();
    let mut model: Vec<u32> = Vec::new();
    for value in 0..600u32 {
        let index = (next_rand(&mut state) % (model.len() as u64 + 1)) as usize;
        tree.insert(index, value);
        model.insert(index, value);
        assert_eq!(tree.len(), model.len());
        if value % 37 == 0 {
            assert_eq!(contents(&tree), model);
            audit_tree(&tree);
        }
    }
    assert_eq!(contents(&tree), model);
    for (i, v) in model.iter().enumerate() {
        assert_eq!(tree.get(i), Some(v));
    }
    assert_eq!(tree.get(model.len()), None);
    audit_tree(&tree);
}

#[test]
fn insert_in_the_middle_shifts_the_rest() {
    let mut tree = CountTree::from_iter(vec![10, 20, 30, 40, 50, 60, 70]);
    tree.insert(3, 35);
    assert_eq!(contents(&tree), vec![10, 20, 30, 35, 40, 50, 60, 70]);
    audit_tree(&tree);
    tree.insert(3, 33);
    tree.insert(3, 32);
    tree.insert(3, 31);
    assert_eq!(contents(&tree), vec![10, 20, 30, 31, 32, 33, 35, 40, 50, 60, 70]);
    audit_tree(&tree);
}

#[test]
fn counts_and_balance_hold_at_every_node() {
    let mut front = CountTree::new();
    let mut back = CountTree::new();
    for value in 0..300u32 {
        front.insert(0, value);
        back.insert(value as usize, value);
        audit_tree(&front);
        audit_tree(&back);
    }
    assert_eq!(contents(&back), (0..300).collect::<Vec<u32>>());
    assert_eq!(contents(&front), (0..300).rev().collect::<Vec<u32>>());
}

#[test]
fn bulk_round_trip() {
    for n in 0..300u32 {
        let items: Vec<u32> = (0..n).map(|v| v * 3 + 1).collect();
        let tree = CountTree::from_iter(items.clone());
        assert_eq!(tree.len(), n as usize);
        audit_tree(&tree);
        assert_eq!(contents(&tree), items);
        assert_eq!(tree.into_vec(), items);
    }
}

#[test]
fn bulk_of_nothing_is_empty() {
    let tree: CountTree<u32> = CountTree::from_iter(Vec::new());
    assert_eq!(tree.len(), 0);
    assert!(tree.root().is_none());
    assert_eq!(tree.get(0), None);
    assert_eq!(tree.into_vec(), Vec::<u32>::new());
}

#[test]
fn bulk_height_is_least() {
    for n in 1..600u32 {
        let tree = CountTree::from_iter((0..n).collect());
        let height = tree.root().unwrap().height() as u32;
        assert_eq!(height, 31 - n.leading_zeros());
    }
}

#[test]
fn bulk_shapes_of_small_trees() {
    let two = CountTree::from_iter(vec![1u32, 2]);
    assert_eq!(two.root().unwrap().value(), &2);
    assert_eq!(two.root().unwrap().left().unwrap().value(), &1);
    assert!(two.root().unwrap().right().is_none());
    let six = CountTree::from_iter(vec![0u32, 1, 2, 3, 4, 5]);
    let root = six.root().unwrap();
    assert_eq!(root.value(), &3);
    assert_eq!(root.left().unwrap().value(), &1);
    assert_eq!(root.right().unwrap().value(), &5);
    assert_eq!(root.right().unwrap().left().unwrap().value(), &4);
    assert_eq!(root.balance_factor(), 0);
    let twelve = CountTree::from_iter((0..12u32).collect());
    assert_eq!(twelve.root().unwrap().value(), &7);
    assert_eq!(twelve.root().unwrap().lcount(), 7);
    assert_eq!(twelve.root().unwrap().rcount(), 4);
}

#[test]
fn length_grows_by_one_with_each_insert_and_never_otherwise() {
    let mut tree = CountTree::new();
    assert_eq!(tree.len(), 0);
    for value in 0..50u32 {
        let before = tree.len();
        tree.insert((value as usize * 7) % (before + 1), value);
        assert_eq!(tree.len(), before + 1);
        let _ = tree.get(value as usize / 2);
        let _ = tree.iter().size_hint();
        let _ = tree.root();
        assert_eq!(tree.len(), before + 1);
    }
}

#[test]
fn prepending_six_values() {
    let mut tree = CountTree::new();
    for value in [6u32, 5, 4, 3, 2, 1] {
        tree.insert(0, value);
    }
    assert_eq!(contents(&tree), vec![1, 2, 3, 4, 5, 6]);
    let mut tree = CountTree::new();
    for value in [1u32, 2, 3, 4, 5, 6] {
        tree.insert(0, value);
    }
    assert_eq!(contents(&tree), vec![6, 5, 4, 3, 2, 1]);
    assert_eq!(tree.root().unwrap().value(), &4);
    assert_eq!(tree.root().unwrap().balance_factor(), 0);
    tree.insert(0, 7);
    tree.insert(7, 0);
    assert_eq!(contents(&tree), vec![7, 6, 5, 4, 3, 2, 1, 0]);
    assert_eq!(tree.get(6), Some(&1));
    assert_eq!(tree.root().unwrap().balance_factor(), -1);
}

#[test]
fn empty_tree_then_first_insert() {
    let mut tree: CountTree<u32> = CountTree::new();
    assert_eq!(tree.get(0), None);
    assert_eq!(tree.len(), 0);
    assert!(tree.root().is_none());
    tree.insert(0, 42);
    assert_eq!(tree.len(), 1);
    assert_eq!(tree.get(0), Some(&42));
    assert_eq!(tree.get(1), None);
    assert_eq!(tree.root().unwrap().count(), 1);
    assert_eq!(tree.root().unwrap().height(), 0);
}

#[test]
fn bulk_of_ninety_four() {
    let tree = CountTree::from_iter((0..94u32).collect());
    assert_eq!(contents(&tree), (0..94).collect::<Vec<u32>>());
    let height = tree.root().unwrap().height();
    assert_eq!(height, 6);
    assert!((height as f64) <= 1.44 * (96f64).log2());
    audit_tree(&tree);
}

#[test]
fn insert_at_len_appends_whatever_the_shape() {
    let mut grown = CountTree::new();
    for value in 0..40u32 {
        grown.insert(0, value);
    }
    let n = grown.len();
    grown.insert(n, 1000);
    assert_eq!(grown.get(n), Some(&1000));
    assert_eq!(grown.len(), n + 1);
    audit_tree(&grown);
    let mut bulk = CountTree::from_iter((0..37u32).collect());
    bulk.insert(37, 1000);
    bulk.insert(38, 1001);
    assert_eq!(bulk.get(37), Some(&1000));
    assert_eq!(bulk.get(38), Some(&1001));
    assert_eq!(bulk.get(36), Some(&36));
    audit_tree(&bulk);
}

#[test]
fn powers_of_two() {
    assert!(!is_power(0));
    assert!(is_power(1));
    assert!(is_power(2));
    assert!(!is_power(3));
    assert!(is_power(4));
    assert!(!is_power(6));
    assert!(is_power(1 << 31));
    assert!(!is_power(u32::MAX));
    assert_eq!(exp_floor_log(0), 0);
    assert_eq!(exp_floor_log(1), 1);
    assert_eq!(exp_floor_log(2), 2);
    assert_eq!(exp_floor_log(3), 2);
    assert_eq!(exp_floor_log(4), 4);
    assert_eq!(exp_floor_log(5), 4);
    assert_eq!(exp_floor_log(95), 64);
    assert_eq!(exp_floor_log(1023), 512);
    assert_eq!(exp_floor_log(1024), 1024);
    assert_eq!(exp_floor_log((1 << 31) + 5), 1 << 31);
    assert_eq!(exp_floor_log(u32::MAX), 1 << 31);
}

#[test]
fn insert_past_the_end_is_refused() {
    let mut tree = CountTree::from_iter(vec![1u32, 2, 3]);
    assert_eq!(tree.try_insert(4, 9), Err(9));
    assert_eq!(tree.try_insert(usize::MAX, 9), Err(9));
    assert_eq!(tree.len(), 3);
    assert_eq!(contents(&tree), vec![1, 2, 3]);
    assert_eq!(tree.try_insert(3, 4), Ok(()));
    assert_eq!(tree.try_insert(0, 0), Ok(()));
    assert_eq!(contents(&tree), vec![0, 1, 2, 3, 4]);
    let mut empty: CountTree<u32> = CountTree::new();
    assert_eq!(empty.try_insert(1, 5), Err(5));
    assert_eq!(empty.len(), 0);
    assert_eq!(empty.try_insert(0, 5), Ok(()));
    assert_eq!(empty.get(0), Some(&5));
}
