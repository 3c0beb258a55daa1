use avl_tree::AvlTree;
use itertools::Itertools;
use rand::Rng;
use std::collections::BTreeSet;

#[test]
fn insert_iter() {
    let mut tree = AvlTree::new();
    tree.insert(4);
    tree.insert(3);
    tree.insert(2);
    tree.insert(1);

    let mut keys = tree.iter();
    for (expected, actual) in std::iter::from_fn(|| keys.next()).enumerate() {
        assert_eq!(&((expected + 1) as i32), actual)
    }
}

#[test]
fn node_height() {
    let mut tree = AvlTree::new();
    let mut rng = rand::thread_rng();
    for _ in 0..1000 {
        tree.insert(rng.gen::<u32>());
    }
    let mut nodes = tree.node_iter();
    assert!(itertools::all(std::iter::from_fn(|| nodes.next()), |node| {
        node.height() == 1 + std::cmp::max(node.left_height(), node.right_height())
    }));
}

#[test]
fn traversal_order() {
    let mut tree = AvlTree::new();
    let mut expected = Vec::new();
    let mut rng = rand::thread_rng();
    for _ in 0..1000 {
        let num = rng.gen::<u32>();
        tree.insert(num);
        expected.push(num);
    }
    let mut keys = tree.iter();
    assert!(itertools::equal(
        expected.iter().sorted(),
        std::iter::from_fn(|| keys.next())
    ));
}

#[test]
fn balanced_nodes() {
    let mut tree = AvlTree::new();
    let mut rng = rand::thread_rng();
    for _ in 0..1000 {
        tree.insert(rng.gen::<u32>());
    }
    let mut nodes = tree.node_iter();
    assert!(itertools::all(std::iter::from_fn(|| nodes.next()), |node| node
        .balance_factor()
        .abs()
        < 2));
}

#[test]
fn contains_parity() {
    let mut tree = AvlTree::new();
    let mut expected = BTreeSet::new();
    let mut rng = rand::thread_rng();
    for _ in 0..1000 {
        let num = rng.gen::<u32>();
        tree.insert(num);
        expected.insert(num);
    }
    assert!(itertools::all(expected.iter(), |value| tree.contains(value)
        == expected.contains(value)))
}

#[test]
fn tree_length() {
    let mut tree = AvlTree::new();
    let mut rng = rand::thread_rng();
    for _ in 0..1000 {
        tree.insert(rng.gen::<u32>());
    }
    assert_eq!(1000, tree.len())
}
