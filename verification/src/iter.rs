//! In-order traversal without recursion: a cursor and a stack of the
//! ancestors whose own turn is still to come.

use vstd::prelude::*;
use crate::node::{link_keys, link_nodes, Link, Node};

verus! {

/// Walks the nodes of a tree in the order of their keys.
pub struct NodeIter<'a, T: Ord> {
    /// The ancestors that were passed on the way down to the left, nearest last.
    /// Each comes after everything below the cursor, and before its own right subtree.
    pub(crate) prev_nodes: Vec<&'a Node<T>>,
    /// The subtree that has not been entered yet.
    pub(crate) current_tree: &'a Link<T>,
}

/// Walks the keys of a tree in ascending order.
pub struct Iter<'a, T: Ord> {
    pub(crate) nodes: NodeIter<'a, T>,
}

/// The nodes that a stack of waiting ancestors still stands for: the nearest
/// ancestor and its right subtree, then the same for the one before it, and so on.
pub open spec fn waiting_nodes<T: Ord>(stack: Seq<&Node<T>>) -> Seq<Node<T>>
    decreases stack.len(),
{
    if stack.len() == 0 {
        Seq::empty()
    } else {
        (seq![*stack.last()] + link_nodes(stack.last().right_link())) + waiting_nodes(
            stack.drop_last(),
        )
    }
}

/// The keys of a sequence of nodes.
pub open spec fn keys_of<T: Ord>(nodes: Seq<Node<T>>) -> Seq<T> {
    nodes.map_values(|node: Node<T>| node.key())
}

impl<'a, T: Ord> View for NodeIter<'a, T> {
    type V = Seq<Node<T>>;

    /// The nodes that are still to come, next one first.
    closed spec fn view(&self) -> Seq<Node<T>> {
        link_nodes(*self.current_tree) + waiting_nodes(self.prev_nodes@)
    }
}

impl<'a, T: Ord> View for Iter<'a, T> {
    type V = Seq<T>;

    /// The keys that are still to come, next one first.
    closed spec fn view(&self) -> Seq<T> {
        keys_of(self.nodes@)
    }
}

impl<'a, T: Ord> NodeIter<'a, T> {
    /// A traversal that has the whole subtree behind `root` before it.
    pub(crate) fn begin(root: &'a Link<T>) -> (iter: Self)
        ensures
            iter@ == link_nodes(*root),
    {
        let iter = NodeIter { prev_nodes: Vec::new(), current_tree: root };
        proof {
            assert(waiting_nodes(iter.prev_nodes@) =~= Seq::<Node<T>>::empty());
            assert(iter@ =~= link_nodes(*root));
        }
        iter
    }

    /// Hands out the next node, or `None` when all have been handed out.
    pub fn next(&mut self) -> (item: Option<&'a Node<T>>)
        ensures
            match item {
                None => old(self)@.len() == 0 && final(self)@.len() == 0,
                Some(node) => {
                    &&& old(self)@.len() > 0
                    &&& *node == old(self)@[0]
                    &&& final(self)@ == old(self)@.drop_first()
                },
            },
    {
        loop
            invariant
                self@ == old(self)@,
            decreases *self.current_tree,
        {
            let ghost stack = self.prev_nodes@;
            let current = self.current_tree;
            match current {
                None => match self.prev_nodes.pop() {
                    None => {
                        return None;
                    },
                    Some(prev_node) => {
                        self.current_tree = &prev_node.right;
                        proof {
                            assert(stack.drop_last() == self.prev_nodes@);
                            assert(link_nodes(*current) =~= Seq::<Node<T>>::empty());
                            assert(self@ =~= old(self)@.drop_first());
                        }
                        return Some(prev_node);
                    },
                },
                Some(current_node) => {
                    if current_node.left.is_some() {
                        self.prev_nodes.push(&**current_node);
                        self.current_tree = &current_node.left;
                        proof {
                            assert(self.prev_nodes@.drop_last() == stack);
                            assert(self@ =~= old(self)@);
                        }
                        continue ;
                    }
                    self.current_tree = &current_node.right;
                    proof {
                        assert(link_nodes(current_node.left) =~= Seq::<Node<T>>::empty());
                        assert(self@ =~= old(self)@.drop_first());
                    }
                    return Some(&**current_node);
                },
            }
        }
    }
}

impl<'a, T: Ord> Iter<'a, T> {
    /// A traversal of the keys of the nodes that `nodes` has before it.
    pub(crate) fn begin(nodes: NodeIter<'a, T>) -> (iter: Self)
        ensures
            iter@ == keys_of(nodes@),
    {
        Iter { nodes }
    }

    /// Hands out the next key, or `None` when all have been handed out.
    pub fn next(&mut self) -> (item: Option<&'a T>)
        ensures
            match item {
                None => old(self)@.len() == 0 && final(self)@.len() == 0,
                Some(key) => {
                    &&& old(self)@.len() > 0
                    &&& *key == old(self)@[0]
                    &&& final(self)@ == old(self)@.drop_first()
                },
            },
    {
        match self.nodes.next() {
            None => None,
            Some(node) => {
                proof {
                    assert(self@ =~= old(self)@.drop_first());
                }
                Some(&node.value)
            },
        }
    }
}

/// The keys of the nodes behind a link are the keys behind the link.
pub proof fn lemma_keys_of_nodes<T: Ord>(link: Link<T>)
    ensures
        keys_of(link_nodes(link)) == link_keys(link),
    decreases link,
{
    match link {
        None => {
            assert(keys_of(link_nodes(link)) =~= link_keys(link));
        },
        Some(node) => {
            lemma_keys_of_nodes(node.left);
            lemma_keys_of_nodes(node.right);
            assert(keys_of(link_nodes(link)) =~= link_keys(link));
        },
    }
}

} // verus!
