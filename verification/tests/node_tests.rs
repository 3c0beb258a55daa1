use avl_tree::{Link, Node};

fn link<T: Ord>(node: Node<T>) -> Link<T> {
    Some(Box::new(node))
}

/// The keys of a subtree in order, the cached height after each key.
fn shape(node: &Node<i32>) -> Vec<(i32, usize)> {
    let mut out = Vec::new();
    if let Some(left) = node.left() {
        out.extend(shape(left));
    }
    out.push((*node.value(), node.height()));
    if let Some(right) = node.right() {
        out.extend(shape(right));
    }
    out
}

fn keys(node: &Node<i32>) -> Vec<i32> {
    shape(node).into_iter().map(|(key, _)| key).collect()
}

/// 3 over (2 over 1), which leans left by two.
fn left_chain() -> Node<i32> {
    Node::branch(link(Node::branch(link(Node::new(1)), 2, None)), 3, None)
}

/// 1 over (2 over 3), which leans right by two.
fn right_chain() -> Node<i32> {
    Node::branch(None, 1, link(Node::branch(None, 2, link(Node::new(3)))))
}

/// 3 over (1 over 2): left child leans right.
fn left_right_bend() -> Node<i32> {
    Node::branch(link(Node::branch(None, 1, link(Node::new(2)))), 3, None)
}

/// 1 over (3 over 2): right child leans left.
fn right_left_bend() -> Node<i32> {
    Node::branch(None, 1, link(Node::branch(link(Node::new(2)), 3, None)))
}

#[test]
fn leaf_has_height_one_and_no_children() {
    let node = Node::new(7);
    assert_eq!(*node.value(), 7);
    assert_eq!(node.height(), 1);
    assert_eq!(node.left_height(), 0);
    assert_eq!(node.right_height(), 0);
    assert_eq!(node.balance_factor(), 0);
    assert!(node.left().is_none());
    assert!(node.right().is_none());
}

#[test]
fn branch_height_is_one_more_than_the_higher_subtree() {
    let node = Node::branch(link(Node::new(1)), 2, None);
    assert_eq!(node.height(), 2);
    let node = Node::branch(link(node), 5, link(Node::new(9)));
    assert_eq!(node.height(), 3);
    assert_eq!(node.left_height(), 2);
    assert_eq!(node.right_height(), 1);
    assert_eq!(*node.left().unwrap().value(), 2);
    assert_eq!(*node.right().unwrap().value(), 9);
}

#[test]
fn balance_factor_is_left_height_minus_right_height() {
    assert_eq!(left_chain().balance_factor(), 2);
    assert_eq!(right_chain().balance_factor(), -2);
    assert_eq!(Node::branch(link(Node::new(1)), 2, None).balance_factor(), 1);
    assert_eq!(Node::branch(None, 2, link(Node::new(3))).balance_factor(), -1);
    assert_eq!(
        Node::branch(link(Node::new(1)), 2, link(Node::new(3))).balance_factor(),
        0
    );
}

#[test]
fn update_height_recomputes_from_the_children() {
    let mut node = Node::branch(link(Node::branch(None, 1, link(Node::new(2)))), 3, None);
    assert_eq!(node.height(), 3);
    node.update_height();
    assert_eq!(node.height(), 3);
    assert_eq!(shape(&node), vec![(1, 2), (2, 1), (3, 3)]);
}

#[test]
fn rotate_right_lifts_the_left_child() {
    let mut node = left_chain();
    assert!(node.rotate_right());
    assert_eq!(shape(&node), vec![(1, 1), (2, 2), (3, 1)]);
    assert_eq!(*node.value(), 2);
    assert_eq!(*node.left().unwrap().value(), 1);
    assert_eq!(*node.right().unwrap().value(), 3);
}

#[test]
fn rotate_right_hands_the_inner_subtree_over() {
    // 4 over (2 over 1 and 3) and 5
    let mut node = Node::branch(
        link(Node::branch(link(Node::new(1)), 2, link(Node::new(3)))),
        4,
        link(Node::new(5)),
    );
    assert!(node.rotate_right());
    assert_eq!(*node.value(), 2);
    assert_eq!(*node.left().unwrap().value(), 1);
    let right = node.right().unwrap();
    assert_eq!(*right.value(), 4);
    assert_eq!(*right.left().unwrap().value(), 3);
    assert_eq!(*right.right().unwrap().value(), 5);
    assert_eq!(shape(&node), vec![(1, 1), (2, 3), (3, 1), (4, 2), (5, 1)]);
}

#[test]
fn rotate_left_lifts_the_right_child() {
    let mut node = right_chain();
    assert!(node.rotate_left());
    assert_eq!(shape(&node), vec![(1, 1), (2, 2), (3, 1)]);
    assert_eq!(*node.value(), 2);
}

#[test]
fn rotate_left_hands_the_inner_subtree_over() {
    let mut node = Node::branch(
        link(Node::new(1)),
        2,
        link(Node::branch(link(Node::new(3)), 4, link(Node::new(5)))),
    );
    assert!(node.rotate_left());
    assert_eq!(*node.value(), 4);
    let left = node.left().unwrap();
    assert_eq!(*left.value(), 2);
    assert_eq!(*left.left().unwrap().value(), 1);
    assert_eq!(*left.right().unwrap().value(), 3);
    assert_eq!(*node.right().unwrap().value(), 5);
    assert_eq!(shape(&node), vec![(1, 1), (2, 2), (3, 1), (4, 3), (5, 1)]);
}

#[test]
fn rotation_without_the_needed_child_does_nothing() {
    let mut node = right_chain();
    assert!(!node.rotate_right());
    assert_eq!(shape(&node), vec![(1, 3), (2, 2), (3, 1)]);
    let mut node = left_chain();
    assert!(!node.rotate_left());
    assert_eq!(shape(&node), vec![(1, 1), (2, 2), (3, 3)]);
    let mut leaf = Node::new(1);
    assert!(!leaf.rotate_left());
    assert!(!leaf.rotate_right());
    assert_eq!(shape(&leaf), vec![(1, 1)]);
}

#[test]
fn rebalance_of_a_left_chain_rotates_right() {
    let mut node = left_chain();
    assert!(node.rebalance());
    assert_eq!(*node.value(), 2);
    assert_eq!(shape(&node), vec![(1, 1), (2, 2), (3, 1)]);
    assert_eq!(node.balance_factor(), 0);
}

#[test]
fn rebalance_of_a_right_chain_rotates_left() {
    let mut node = right_chain();
    assert!(node.rebalance());
    assert_eq!(*node.value(), 2);
    assert_eq!(shape(&node), vec![(1, 1), (2, 2), (3, 1)]);
}

#[test]
fn rebalance_of_a_left_right_bend_rotates_twice() {
    let mut node = left_right_bend();
    assert_eq!(node.balance_factor(), 2);
    assert_eq!(node.left().unwrap().balance_factor(), -1);
    assert!(node.rebalance());
    assert_eq!(*node.value(), 2);
    assert_eq!(*node.left().unwrap().value(), 1);
    assert_eq!(*node.right().unwrap().value(), 3);
    assert_eq!(shape(&node), vec![(1, 1), (2, 2), (3, 1)]);
}

#[test]
fn rebalance_of_a_right_left_bend_rotates_twice() {
    let mut node = right_left_bend();
    assert_eq!(node.balance_factor(), -2);
    assert_eq!(node.right().unwrap().balance_factor(), 1);
    assert!(node.rebalance());
    assert_eq!(*node.value(), 2);
    assert_eq!(shape(&node), vec![(1, 1), (2, 2), (3, 1)]);
}

#[test]
fn rebalance_with_an_even_child_rotates_once() {
    // 5 over (3 over 2 and 4): leans left by two, the child does not lean.
    let mut node = Node::branch(
        link(Node::branch(link(Node::new(2)), 3, link(Node::new(4)))),
        5,
        None,
    );
    assert_eq!(node.balance_factor(), 2);
    assert!(node.rebalance());
    assert_eq!(shape(&node), vec![(2, 1), (3, 3), (4, 1), (5, 2)]);
    assert_eq!(node.balance_factor(), -1);
}

#[test]
fn rebalance_of_a_balanced_node_does_nothing() {
    let mut node = Node::branch(link(Node::new(1)), 2, None);
    assert!(!node.rebalance());
    assert_eq!(shape(&node), vec![(1, 1), (2, 2)]);
    let mut node = Node::branch(link(Node::new(1)), 2, link(Node::new(3)));
    assert!(!node.rebalance());
    assert_eq!(shape(&node), vec![(1, 1), (2, 2), (3, 1)]);
    let mut leaf = Node::new(4);
    assert!(!leaf.rebalance());
}

#[test]
fn rotation_and_its_inverse_restore_the_tree() {
    let mut node = left_chain();
    let before = shape(&node);
    assert!(node.rebalance());
    assert_eq!(keys(&node), vec![1, 2, 3]);
    assert!(node.rotate_left());
    assert_eq!(shape(&node), before);

    let mut node = right_chain();
    let before = shape(&node);
    assert!(node.rebalance());
    assert!(node.rotate_right());
    assert_eq!(shape(&node), before);
}

/// A copy of a subtree, built node by node.
fn copy_of(node: &Node<i32>) -> Box<Node<i32>> {
    Box::new(Node::branch(
        node.left().map(copy_of),
        *node.value(),
        node.right().map(copy_of),
    ))
}

#[test]
fn double_rotation_and_its_inverse_restore_the_tree() {
    // 6 over (2 over 1 and (4 over 3 and 5)) and 7: leans left by two, and
    // the left child leans right by one.
    let mut node = Node::branch(
        link(Node::branch(
            link(Node::new(1)),
            2,
            link(Node::branch(link(Node::new(3)), 4, link(Node::new(5)))),
        )),
        6,
        link(Node::new(7)),
    );
    assert_eq!(node.balance_factor(), 2);
    assert_eq!(node.left().unwrap().balance_factor(), -1);
    let before = shape(&node);
    assert!(node.rebalance());
    assert_eq!(keys(&node), vec![1, 2, 3, 4, 5, 6, 7]);
    assert_eq!(
        shape(&node),
        vec![(1, 1), (2, 2), (3, 1), (4, 3), (5, 1), (6, 2), (7, 1)]
    );
    // The inverse: rotate the root left, then its left child right.
    assert!(node.rotate_left());
    let mut left = *copy_of(node.left().unwrap());
    assert!(left.rotate_right());
    let undone = Node::branch(link(left), *node.value(), node.right().map(copy_of));
    assert_eq!(shape(&undone), before);
}
