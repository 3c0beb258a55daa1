//! Taking a tree apart without recursion, in two ways: over a work stack,
//! and, where nothing may be allocated, by turning the tree as it is released.

use vstd::prelude::*;
use vstd::multiset::Multiset;
use crate::node::{link_keys, Link, Node};

verus! {

/// The number of keys in the left subtree of the node behind a link.
spec fn left_keys<T: Ord>(link: Link<T>) -> nat {
    match link {
        None => 0,
        Some(node) => link_keys(node.left_link()).len(),
    }
}

/// A subtree has the keys of its two subtrees and one more.
proof fn lemma_key_count<T: Ord>(node: Node<T>)
    ensures
        node.keys().len() == link_keys(node.left_link()).len() + 1 + link_keys(
            node.right_link(),
        ).len(),
{
}

/// The keys in the subtrees that wait on a stack, each as often as it occurs.
spec fn stacked_keys<T: Ord>(stack: Seq<Box<Node<T>>>) -> Multiset<T>
    decreases stack.len(),
{
    if stack.len() == 0 {
        Multiset::empty()
    } else {
        stacked_keys(stack.drop_last()).add(stack.last().keys().to_multiset())
    }
}

/// The keys that the given nodes hold themselves, whatever hangs below them.
pub(crate) open spec fn own_keys<T: Ord>(nodes: Seq<Box<Node<T>>>) -> Seq<T> {
    nodes.map_values(|node: Box<Node<T>>| node.key())
}

/// A subtree pushed on the stack adds its keys to those that wait there.
proof fn lemma_pushed_keys<T: Ord>(stack: Seq<Box<Node<T>>>, node: Box<Node<T>>)
    ensures
        stacked_keys(stack.push(node)) == stacked_keys(stack).add(node.keys().to_multiset()),
{
    assert(stack.push(node).drop_last() =~= stack);
}

/// The keys of a subtree are those of its left subtree, its own, and those of
/// its right subtree.
proof fn lemma_keys_in_parts<T: Ord>(node: Node<T>)
    ensures
        node.keys().to_multiset() == link_keys(node.left_link()).to_multiset().insert(
            node.key(),
        ).add(link_keys(node.right_link()).to_multiset()),
        link_keys(None::<Box<Node<T>>>).to_multiset() == Multiset::<T>::empty(),
{
    broadcast use vstd::seq_lib::group_to_multiset_ensures;

    vstd::seq_lib::lemma_multiset_commutative(
        link_keys(node.left).push(node.value),
        link_keys(node.right),
    );
    assert(link_keys(None::<Box<Node<T>>>) =~= Seq::<T>::empty());
}

/// Takes the tree behind `root` apart without recursion. A stack of subtrees
/// takes the place of the call stack: a node is popped, its subtrees are
/// taken off it and pushed, and the node is set aside. The nodes set aside
/// hold every key of the tree exactly once, and no subtree hangs on any of
/// them, so that each can be released on its own.
pub(crate) fn dismantle<T: Ord>(root: Link<T>) -> (nodes: Vec<Box<Node<T>>>)
    ensures
        own_keys(nodes@).to_multiset() == link_keys(root).to_multiset(),
        nodes@.len() == link_keys(root).len(),
        forall|i: int|
            0 <= i < nodes@.len() ==> (#[trigger] nodes@[i]).left_link() is None
                && nodes@[i].right_link() is None,
{
    broadcast use vstd::seq_lib::group_to_multiset_ensures;
    broadcast use vstd::multiset::group_multiset_axioms;

    let mut stack: Vec<Box<Node<T>>> = Vec::new();
    let mut nodes: Vec<Box<Node<T>>> = Vec::new();
    proof {
        assert(own_keys(nodes@) =~= Seq::<T>::empty());
    }
    match root {
        None => {
            proof {
                assert(link_keys(root) =~= Seq::<T>::empty());
            }
            return nodes;
        },
        Some(node) => {
            proof {
                lemma_pushed_keys(stack@, node);
            }
            stack.push(node);
        },
    }
    loop
        invariant
            own_keys(nodes@).to_multiset().add(stacked_keys(stack@)) =~= link_keys(
                root,
            ).to_multiset(),
            forall|i: int|
                0 <= i < nodes@.len() ==> (#[trigger] nodes@[i]).left_link() is None
                    && nodes@[i].right_link() is None,
        ensures
            own_keys(nodes@).to_multiset() =~= link_keys(root).to_multiset(),
            forall|i: int|
                0 <= i < nodes@.len() ==> (#[trigger] nodes@[i]).left_link() is None
                    && nodes@[i].right_link() is None,
        decreases stacked_keys(stack@).len(),
    {
        let ghost waiting = stack@;
        let ghost aside = nodes@;
        match stack.pop() {
            None => {
                break ;
            },
            Some(mut curr_node) => {
                let ghost rest = stacked_keys(stack@);
                let ghost below = link_keys(curr_node.left).to_multiset();
                let ghost above = link_keys(curr_node.right).to_multiset();
                proof {
                    assert(waiting.drop_last() == stack@);
                    assert(waiting.last() == curr_node);
                    lemma_keys_in_parts(*curr_node);
                    assert(stacked_keys(waiting) == rest.add(
                        below.insert(curr_node.key()).add(above),
                    ));
                }
                match curr_node.right.take() {
                    None => {
                        proof {
                            assert(rest.add(above) =~= rest);
                        }
                    },
                    Some(right) => {
                        proof {
                            lemma_pushed_keys(stack@, right);
                        }
                        stack.push(right);
                    },
                }
                assert(stacked_keys(stack@) == rest.add(above));
                match curr_node.left.take() {
                    None => {
                        proof {
                            assert(rest.add(above).add(below) =~= rest.add(above));
                        }
                    },
                    Some(left) => {
                        proof {
                            lemma_pushed_keys(stack@, left);
                        }
                        stack.push(left);
                    },
                }
                assert(stacked_keys(stack@) == rest.add(above).add(below));
                nodes.push(curr_node);
                proof {
                    assert(own_keys(nodes@) =~= own_keys(aside).push(curr_node.key()));
                    vstd::seq_lib::to_multiset_build(own_keys(aside), curr_node.key());
                    assert(own_keys(nodes@).to_multiset().add(stacked_keys(stack@))
                        =~= own_keys(aside).to_multiset().add(stacked_keys(waiting)));
                }
            },
        }
    }
    proof {
        assert(own_keys(nodes@).to_multiset().len() == own_keys(nodes@).len());
        assert(link_keys(root).to_multiset().len() == link_keys(root).len());
    }
    nodes
}

/// Releases the tree behind `root` node by node, without recursion and
/// without a work list: it is what a destructor runs, which must not fail
/// and so does not allocate. While the node at hand has a left subtree, that
/// subtree's root is lifted over it; a node without a left subtree is
/// released, and its right subtree is next.
pub(crate) fn release<T: Ord>(root: Link<T>)
    opens_invariants none
    no_unwind
{
    let mut current_tree = root;
    loop
        decreases link_keys(current_tree).len(), left_keys(current_tree),
    {
        match current_tree {
            None => {
                break ;
            },
            Some(mut node) => {
                proof {
                    lemma_key_count(*node);
                }
                let mut left: Link<T> = None;
                core::mem::swap(&mut left, &mut node.left);
                match left {
                    None => {
                        let mut right: Link<T> = None;
                        core::mem::swap(&mut right, &mut node.right);
                        current_tree = right;
                    },
                    Some(mut pivot) => {
                        proof {
                            lemma_key_count(*pivot);
                        }
                        core::mem::swap(&mut node.left, &mut pivot.right);
                        proof {
                            lemma_key_count(*node);
                        }
                        pivot.right = Some(node);
                        proof {
                            lemma_key_count(*pivot);
                        }
                        current_tree = Some(pivot);
                    },
                }
            },
        }
    }
}

} // verus!
