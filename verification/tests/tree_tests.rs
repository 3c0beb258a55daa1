use avl_tree::{AvlTree, Node};
use std::collections::BTreeSet;

fn keys_of<T: Ord + Clone>(tree: &AvlTree<T>) -> Vec<T> {
    let mut keys = tree.iter();
    let mut out = Vec::new();
    while let Some(key) = keys.next() {
        out.push(key.clone());
    }
    out
}

/// Whether heights are cached and nodes balanced at every node of the tree.
fn sound<T: Ord>(tree: &AvlTree<T>) -> bool {
    let mut nodes = tree.node_iter();
    while let Some(node) = nodes.next() {
        let high = std::cmp::max(node.left_height(), node.right_height());
        if node.height() != 1 + high {
            return false;
        }
        if node.balance_factor().abs() > 1 {
            return false;
        }
    }
    true
}

fn height_of<T: Ord>(tree: &AvlTree<T>) -> usize {
    tree.root().map_or(0, |root| root.height())
}

/// Distinct 32-bit values in no particular order: a full-period generator.
fn scrambled(count: usize) -> Vec<u32> {
    let mut state: u32 = 2463534242;
    let mut out = Vec::with_capacity(count);
    for _ in 0..count {
        state = state.wrapping_mul(1664525).wrapping_add(1013904223);
        out.push(state);
    }
    out
}

fn heights(node: &Node<i32>) -> Vec<(i32, usize)> {
    let mut out = Vec::new();
    if let Some(left) = node.left() {
        out.extend(heights(left));
    }
    out.push((*node.value(), node.height()));
    if let Some(right) = node.right() {
        out.extend(heights(right));
    }
    out
}

#[test]
fn empty_tree_has_nothing() {
    let tree: AvlTree<i32> = AvlTree::new();
    assert_eq!(tree.len(), 0);
    assert!(!tree.contains(&0));
    assert!(tree.root().is_none());
    assert!(tree.iter().next().is_none());
    assert!(tree.node_iter().next().is_none());
    assert!(tree.snapshot().is_empty());
}

#[test]
fn default_tree_is_empty() {
    let tree: AvlTree<String> = AvlTree::default();
    assert_eq!(tree.len(), 0);
    assert!(tree.root().is_none());
}

#[test]
fn first_insertion_sets_the_root() {
    let mut tree = AvlTree::new();
    assert!(tree.insert(10));
    assert_eq!(tree.len(), 1);
    let root = tree.root().unwrap();
    assert_eq!(*root.value(), 10);
    assert_eq!(root.height(), 1);
    assert!(root.left().is_none());
    assert!(root.right().is_none());
    assert!(tree.contains(&10));
    assert!(!tree.contains(&11));
}

#[test]
fn insert_reports_whether_the_value_was_new() {
    let mut tree = AvlTree::new();
    assert!(tree.insert(5));
    assert!(tree.insert(3));
    assert!(!tree.insert(5));
    assert!(!tree.insert(3));
    assert!(tree.insert(4));
    assert_eq!(keys_of(&tree), vec![3, 4, 5]);
}

#[test]
fn ascending_insertion_rotates_left() {
    let mut tree = AvlTree::new();
    tree.insert(1);
    tree.insert(2);
    tree.insert(3);
    let root = tree.root().unwrap();
    assert_eq!(*root.value(), 2);
    assert_eq!(root.height(), 2);
    let left = root.left().unwrap();
    assert_eq!(*left.value(), 1);
    assert_eq!(left.height(), 1);
    let right = root.right().unwrap();
    assert_eq!(*right.value(), 3);
    assert_eq!(right.height(), 1);
}

#[test]
fn descending_insertion_rotates_right() {
    let mut tree = AvlTree::new();
    tree.insert(3);
    tree.insert(2);
    tree.insert(1);
    assert_eq!(heights(tree.root().unwrap()), vec![(1, 1), (2, 2), (3, 1)]);
    assert_eq!(*tree.root().unwrap().value(), 2);
}

#[test]
fn bent_insertions_rotate_twice() {
    let mut tree = AvlTree::new();
    tree.insert(3);
    tree.insert(1);
    tree.insert(2);
    assert_eq!(*tree.root().unwrap().value(), 2);
    assert_eq!(heights(tree.root().unwrap()), vec![(1, 1), (2, 2), (3, 1)]);

    let mut tree = AvlTree::new();
    tree.insert(1);
    tree.insert(3);
    tree.insert(2);
    assert_eq!(*tree.root().unwrap().value(), 2);
    assert_eq!(heights(tree.root().unwrap()), vec![(1, 1), (2, 2), (3, 1)]);
}

#[test]
fn two_keys_keep_the_first_as_root() {
    let mut tree = AvlTree::new();
    tree.insert(1);
    tree.insert(2);
    assert_eq!(heights(tree.root().unwrap()), vec![(1, 2), (2, 1)]);
    assert_eq!(*tree.root().unwrap().value(), 1);
}

#[test]
fn seven_ascending_keys_make_a_full_tree() {
    let mut tree = AvlTree::new();
    for value in 1..=7 {
        assert!(tree.insert(value));
    }
    assert_eq!(
        heights(tree.root().unwrap()),
        vec![(1, 1), (2, 2), (3, 1), (4, 3), (5, 1), (6, 2), (7, 1)]
    );
    assert_eq!(
        tree.snapshot(),
        vec![
            (&1, None, None),
            (&2, Some(&1), Some(&3)),
            (&3, None, None),
            (&4, Some(&2), Some(&6)),
            (&5, None, None),
            (&6, Some(&5), Some(&7)),
            (&7, None, None),
        ]
    );
}

#[test]
fn iteration_is_strictly_ascending_whatever_the_order() {
    let orders: Vec<Vec<i32>> = vec![
        vec![1, 2, 3, 4, 5, 6, 7, 8],
        vec![8, 7, 6, 5, 4, 3, 2, 1],
        vec![4, 2, 6, 1, 3, 5, 7, 8],
        vec![5, 1, 8, 2, 7, 3, 6, 4],
        vec![-3, 9, 0, -7, 4],
    ];
    for order in orders {
        let mut tree = AvlTree::new();
        for value in &order {
            tree.insert(*value);
        }
        let keys = keys_of(&tree);
        assert!(keys.windows(2).all(|pair| pair[0] < pair[1]));
        let mut sorted = order.clone();
        sorted.sort();
        assert_eq!(keys, sorted);
    }
}

#[test]
fn every_insertion_leaves_heights_and_balance_right() {
    let mut inputs: Vec<Vec<u32>> = Vec::new();
    inputs.push((0..300).collect());
    inputs.push((0..300).rev().collect());
    inputs.push((0..300).map(|i| if i % 2 == 0 { i } else { 1000 - i }).collect());
    inputs.push(scrambled(300));
    for input in inputs {
        let mut tree = AvlTree::new();
        for value in input {
            tree.insert(value);
            assert!(sound(&tree));
        }
    }
}

#[test]
fn duplicate_insertion_changes_nothing() {
    let mut tree = AvlTree::new();
    for value in [50, 20, 70, 10, 30, 60, 80, 25, 35] {
        tree.insert(value);
    }
    let keys = keys_of(&tree);
    let shape = heights(tree.root().unwrap());
    let size = tree.len();
    for value in [50, 20, 70, 10, 30, 60, 80, 25, 35] {
        assert!(!tree.insert(value));
        assert_eq!(keys_of(&tree), keys);
        assert_eq!(heights(tree.root().unwrap()), shape);
        assert_eq!(tree.len(), size);
    }
}

#[test]
fn len_counts_what_iteration_yields() {
    let mut tree = AvlTree::new();
    assert_eq!(tree.len(), keys_of(&tree).len());
    for (count, value) in scrambled(200).into_iter().enumerate() {
        tree.insert(value);
        assert_eq!(tree.len(), count + 1);
        assert_eq!(tree.len(), keys_of(&tree).len());
    }
    tree.insert(scrambled(1)[0]);
    assert_eq!(tree.len(), 200);
}

#[test]
fn membership_agrees_with_a_std_set() {
    let mut tree = AvlTree::new();
    let mut model = BTreeSet::new();
    for value in scrambled(500) {
        let value = value % 1000;
        assert_eq!(tree.insert(value), model.insert(value));
    }
    for value in 0..1000 {
        assert_eq!(tree.contains(&value), model.contains(&value));
    }
    assert!(!tree.contains(&1000));
    assert_eq!(keys_of(&tree), model.into_iter().collect::<Vec<u32>>());
}

#[test]
fn a_thousand_scrambled_values_stay_shallow_and_sorted() {
    let input = scrambled(1000);
    let mut tree = AvlTree::new();
    for value in &input {
        assert!(tree.insert(*value));
    }
    let bound = (1.44 * (1002f64).log2()).ceil() as usize;
    assert_eq!(bound, 15);
    assert!(height_of(&tree) <= bound);
    let mut sorted = input.clone();
    sorted.sort();
    assert_eq!(keys_of(&tree), sorted);
    assert_eq!(tree.len(), 1000);
    assert!(sound(&tree));
}

#[test]
fn skewed_input_stays_logarithmic() {
    let mut tree = AvlTree::new();
    for value in 0..20000u32 {
        tree.insert(value);
    }
    assert_eq!(tree.len(), 20000);
    assert_eq!(height_of(&tree), 15);
    assert!(sound(&tree));
}

#[test]
fn iterators_are_independent_and_restartable() {
    let tree = AvlTree::from_iter(vec![2, 1, 3]);
    let mut first = tree.iter();
    let mut second = tree.iter();
    assert_eq!(first.next(), Some(&1));
    assert_eq!(first.next(), Some(&2));
    assert_eq!(second.next(), Some(&1));
    assert_eq!(first.next(), Some(&3));
    assert_eq!(first.next(), None);
    assert_eq!(first.next(), None);
    assert_eq!(second.next(), Some(&2));
    assert_eq!(second.next(), Some(&3));
    assert_eq!(second.next(), None);
    assert_eq!(keys_of(&tree), vec![1, 2, 3]);
}

#[test]
fn node_iteration_yields_every_node_in_key_order() {
    let tree = AvlTree::from_iter(vec![40, 20, 60, 10, 30, 50, 70]);
    let mut nodes = tree.node_iter();
    let mut seen = Vec::new();
    while let Some(node) = nodes.next() {
        seen.push((*node.value(), node.height(), node.balance_factor()));
    }
    assert_eq!(
        seen,
        vec![
            (10, 1, 0),
            (20, 2, 0),
            (30, 1, 0),
            (40, 3, 0),
            (50, 1, 0),
            (60, 2, 0),
            (70, 1, 0)
        ]
    );
}

#[test]
fn from_iter_inserts_first_to_last_and_drops_repeats() {
    let tree = AvlTree::from_iter(vec![3, 1, 3, 2, 1]);
    assert_eq!(keys_of(&tree), vec![1, 2, 3]);
    assert_eq!(tree.len(), 3);
    assert_eq!(*tree.root().unwrap().value(), 2);
    let mut by_hand = AvlTree::new();
    for value in [3, 1, 3, 2, 1] {
        by_hand.insert(value);
    }
    assert_eq!(tree.snapshot(), by_hand.snapshot());
    let empty: AvlTree<i32> = AvlTree::from_iter(Vec::new());
    assert_eq!(empty.len(), 0);
}

#[test]
fn snapshot_is_stable_between_insertions() {
    let mut tree = AvlTree::new();
    let mut sizes = Vec::new();
    for value in [5, 3, 8, 1] {
        tree.insert(value);
        let first = tree.snapshot();
        let second = tree.snapshot();
        assert_eq!(first, second);
        sizes.push(first.len());
    }
    assert_eq!(sizes, vec![1, 2, 3, 4]);
    assert_eq!(
        tree.snapshot(),
        vec![
            (&1, None, None),
            (&3, Some(&1), None),
            (&5, Some(&3), Some(&8)),
            (&8, None, None)
        ]
    );
}

#[test]
fn clear_releases_everything_and_the_tree_can_be_used_again() {
    let mut tree = AvlTree::new();
    for value in 0..50000u32 {
        tree.insert(value);
    }
    assert_eq!(tree.len(), 50000);
    tree.clear();
    assert_eq!(tree.len(), 0);
    assert!(tree.root().is_none());
    assert!(!tree.contains(&7));
    assert!(tree.insert(7));
    assert_eq!(keys_of(&tree), vec![7]);
    tree.clear();
    tree.clear();
    assert_eq!(tree.len(), 0);
}

#[test]
fn keys_of_other_types_are_ordered_by_their_comparison() {
    let mut tree = AvlTree::new();
    for word in ["pear", "apple", "fig", "apple", "kiwi"] {
        tree.insert(String::from(word));
    }
    assert_eq!(keys_of(&tree), vec!["apple", "fig", "kiwi", "pear"]);
    assert!(tree.contains(&String::from("fig")));
    assert!(!tree.contains(&String::from("plum")));

    let mut pairs = AvlTree::new();
    for pair in [(2, 1), (1, 9), (2, 0), (1, 9)] {
        pairs.insert(pair);
    }
    assert_eq!(keys_of(&pairs), vec![(1, 9), (2, 0), (2, 1)]);
}
