//! The tree: an ordered set of keys without duplicates, kept balanced.

use vstd::prelude::*;
use core::cmp::Ordering;
use crate::insertion::{lemma_side_holds, lemma_with_key, link_with_key, link_with_keys};
use crate::iter::{keys_of, lemma_keys_of_nodes, Iter, NodeIter};
use crate::node::{link_avl, link_height, link_keys, link_nodes, Link, Node};
use crate::order::{
    equiv, holds, lemma_comparison, lemma_rank_bound, lemma_with_key_holds, lemma_with_keys_len,
    strictly_ascending, total_order, with_key, with_keys,
};
use crate::path::{
    at_depth, descended, lemma_ascent_begins, lemma_ascent_goes_on, lemma_descent_begins,
    lemma_descent_goes_on, stood_below, Step,
};
use crate::shape::{fewest_keys, lemma_every_node, lemma_link_height_bound};
use crate::teardown::{dismantle, release};

verus! {

/// An AVL tree of keys of type `T`. No two keys in it compare as equal.
#[derive(Debug)]
pub struct AvlTree<T: Ord> {
    pub(crate) root: Link<T>,
}

/// The key of the node behind a link, if there is one.
pub open spec fn child_key<T: Ord>(link: &Link<T>) -> Option<&T> {
    match link {
        None => None,
        Some(node) => Some(&node.key()),
    }
}

impl<T: Ord> View for AvlTree<T> {
    type V = Seq<T>;

    /// The keys of the tree, in ascending order.
    open spec fn view(&self) -> Seq<T> {
        link_keys(self.root_link())
    }
}

impl<T: Ord> Default for AvlTree<T> {
    /// An empty tree.
    fn default() -> (tree: Self)
        ensures
            tree@ == Seq::<T>::empty(),
            tree.root_link() is None,
    {
        Self { root: None }
    }
}

impl<T: Ord> Drop for AvlTree<T> {
    /// Releases the nodes one by one, without recursion.
    fn drop(&mut self)
        ensures
            final(self).root_link() is None,
        opens_invariants none
        no_unwind
    {
        let mut root: Link<T> = None;
        core::mem::swap(&mut root, &mut self.root);
        release(root);
    }
}

impl<T: Ord> AvlTree<T> {
    /// A tree that holds keys is a valid AVL tree over a totally ordered key
    /// type, and its keys can be counted in a `usize`.
    #[verifier::type_invariant]
    spec fn valid(self) -> bool {
        match self.root {
            None => true,
            Some(node) => {
                &&& total_order::<T>()
                &&& node.avl()
                &&& node.keys().len() <= usize::MAX
            },
        }
    }

    /// The link to the root node.
    pub open(crate) spec fn root_link(self) -> Link<T> {
        self.root
    }

    /// The nodes of the tree, in the order of their keys.
    pub open spec fn nodes(self) -> Seq<Node<T>> {
        link_nodes(self.root_link())
    }

    /// The height of the tree: that of its root, 0 for the empty tree.
    pub open spec fn height(self) -> nat {
        link_height(self.root_link())
    }

    /// At every node of the tree the balance factor is -1, 0 or 1.
    pub open spec fn balanced(self) -> bool {
        forall|i: int|
            0 <= i < self.nodes().len() ==> -1 <= (#[trigger] self.nodes()[i]).balance() <= 1
    }

    /// Every node of the tree caches one more than the greater of the heights
    /// of its two subtrees, where an empty subtree has height 0.
    pub open spec fn heights_cached(self) -> bool {
        forall|i: int|
            0 <= i < self.nodes().len() ==> (#[trigger] self.nodes()[i]).cached_height()
                == self.nodes()[i].height_from_below()
    }

    /// An empty tree.
    pub fn new() -> (tree: Self)
        ensures
            tree@ == Seq::<T>::empty(),
            tree.root_link() is None,
    {
        Self { root: None }
    }

    /// Puts `value` into the tree, unless a key that compares as equal is in
    /// it already. Returns whether the tree took the value.
    ///
    /// The way down from the root is recorded, ancestor by ancestor. A new
    /// leaf is hung where the way ends. Then the record is walked back, deepest
    /// ancestor first, and each one has its height recomputed and its balance
    /// restored. Where the way ends at an equivalent key, the ancestors are
    /// put back as they were.
    pub fn insert(&mut self, value: T) -> (inserted: bool)
        requires
            total_order::<T>(),
            old(self)@.len() < usize::MAX,
        ensures
            inserted == !holds(old(self)@, value),
            final(self).root_link() == link_with_key(old(self).root_link(), value),
            final(self)@ == with_key(old(self)@, value),
            !inserted ==> *final(self) == *old(self),
            strictly_ascending(final(self)@),
            final(self).balanced(),
            final(self).heights_cached(),
            fewest_keys(final(self).height()) <= final(self)@.len(),
            forall|other: T| #[trigger]
                holds(final(self)@, other) <==> holds(old(self)@, other) || equiv(value, other),
    {
        proof {
            use_type_invariant(&*self);
        }
        let ghost before = self.root;
        let ghost bound = link_keys(before).len();
        let mut current_tree: Link<T> = None;
        core::mem::swap(&mut current_tree, &mut self.root);
        let mut prev_nodes: Vec<Step<T>> = Vec::new();
        let ghost mut ancestors: Seq<Node<T>> = Seq::empty();
        let mut found = false;
        proof {
            lemma_descent_begins(before, value, bound);
        }
        loop
            invariant
                total_order::<T>(),
                descended(prev_nodes@, ancestors, current_tree, value, bound),
                at_depth(ancestors, current_tree, 0) == before,
                link_avl(current_tree),
                link_keys(current_tree).len() <= bound,
                holds(link_keys(current_tree), value) == holds(link_keys(before), value),
                found ==> current_tree is Some && equiv(current_tree.unwrap().key(), value),
            ensures
                found || current_tree is None,
            decreases current_tree,
        {
            let ghost here = current_tree;
            match current_tree.take() {
                None => {
                    break ;
                },
                Some(mut node) => {
                    proof {
                        lemma_comparison(node.value, value);
                    }
                    match node.value.cmp(&value) {
                        Ordering::Greater => {
                            current_tree = node.left.take();
                            let step = Step { node, went_left: true };
                            proof {
                                lemma_descent_goes_on(
                                    prev_nodes@,
                                    ancestors,
                                    here,
                                    value,
                                    bound,
                                    step,
                                    current_tree,
                                );
                                ancestors = ancestors.push(*here.unwrap());
                            }
                            prev_nodes.push(step);
                        },
                        Ordering::Equal => {
                            current_tree = Some(node);
                            found = true;
                            break ;
                        },
                        Ordering::Less => {
                            current_tree = node.right.take();
                            let step = Step { node, went_left: false };
                            proof {
                                lemma_descent_goes_on(
                                    prev_nodes@,
                                    ancestors,
                                    here,
                                    value,
                                    bound,
                                    step,
                                    current_tree,
                                );
                                ancestors = ancestors.push(*here.unwrap());
                            }
                            prev_nodes.push(step);
                        },
                    }
                },
            }
        }
        let ghost bottom = current_tree;
        let ghost full = prev_nodes@;
        if !found {
            current_tree = Some(Box::new(Node::new(value)));
        }
        proof {
            lemma_ascent_begins(full, ancestors, bound, current_tree, bottom, value, found);
        }
        loop
            invariant
                total_order::<T>(),
                bound < usize::MAX,
                descended(full, ancestors, bottom, value, bound),
                prev_nodes@.is_prefix_of(full),
                current_tree == link_with_key(
                    stood_below(prev_nodes@, ancestors, bottom),
                    value,
                ),
                found == holds(link_keys(stood_below(prev_nodes@, ancestors, bottom)), value),
            ensures
                current_tree == link_with_key(at_depth(ancestors, bottom, 0), value),
                found == holds(link_keys(at_depth(ancestors, bottom, 0)), value),
            decreases prev_nodes@.len(),
        {
            let ghost upper = prev_nodes@;
            let ghost grown = current_tree;
            match prev_nodes.pop() {
                None => {
                    break ;
                },
                Some(step) => {
                    let went_left = step.went_left;
                    let mut node = step.node;
                    proof {
                        assert(prev_nodes@ == upper.drop_last());
                        assert(step == upper.last());
                        lemma_ascent_goes_on(
                            full,
                            ancestors,
                            bottom,
                            value,
                            bound,
                            upper,
                            grown,
                            found,
                        );
                    }
                    if went_left {
                        node.left = current_tree;
                    } else {
                        node.right = current_tree;
                    }
                    assert(*node == step.filled(grown));
                    if !found {
                        node.update_height();
                        node.rebalance();
                    }
                    current_tree = Some(node);
                },
            }
        }
        proof {
            lemma_with_key(before, value);
            lemma_rank_bound(link_keys(before), value);
            lemma_every_node(current_tree);
            lemma_link_height_bound(current_tree);
            assert forall|other: T| #[trigger]
                holds(link_keys(current_tree), other) <==> holds(link_keys(before), other)
                    || equiv(value, other) by {
                lemma_with_key_holds(link_keys(before), value, other);
            }
        }
        self.root = current_tree;
        !found
    }

    /// Whether the tree holds a key that compares as equal to `value`.
    pub fn contains(&self, value: &T) -> (found: bool)
        ensures
            found == holds(self@, *value),
    {
        proof {
            use_type_invariant(self);
        }
        let mut current_tree = &self.root;
        loop
            invariant
                current_tree is Some ==> total_order::<T>(),
                strictly_ascending(link_keys(*current_tree)),
                holds(self@, *value) == holds(link_keys(*current_tree), *value),
            decreases *current_tree,
        {
            match current_tree {
                None => {
                    return false;
                },
                Some(node) => {
                    proof {
                        lemma_side_holds(**node, *value);
                        lemma_comparison(node.value, *value);
                    }
                    match node.value.cmp(value) {
                        Ordering::Greater => {
                            current_tree = &node.left;
                        },
                        Ordering::Equal => {
                            return true;
                        },
                        Ordering::Less => {
                            current_tree = &node.right;
                        },
                    }
                },
            }
        }
    }


    /// The number of keys in the tree: what a full traversal counts.
    pub fn len(&self) -> (count: usize)
        ensures
            count == self@.len(),
    {
        proof {
            use_type_invariant(self);
            if self.root is Some {
                assert(self@.len() <= usize::MAX);
            } else {
                assert(self@.len() == 0);
            }
        }
        let mut iter = self.iter();
        let mut count: usize = 0;
        loop
            invariant
                count + iter@.len() == self@.len(),
                self@.len() <= usize::MAX,
            ensures
                count == self@.len(),
            decreases iter@.len(),
        {
            match iter.next() {
                None => {
                    break ;
                },
                Some(_) => {
                    count = count + 1;
                },
            }
        }
        count
    }

    /// A traversal of the keys, in ascending order.
    pub fn iter(&self) -> (iter: Iter<'_, T>)
        ensures
            iter@ == self@,
            strictly_ascending(iter@),
    {
        proof {
            use_type_invariant(self);
            lemma_keys_of_nodes(self.root);
            if self.root is None {
                assert(self@ =~= Seq::<T>::empty());
            }
        }
        Iter::begin(self.node_iter())
    }

    /// A traversal of the nodes, in the ascending order of their keys. Each
    /// node comes with the subtree below it, which is a valid AVL tree itself.
    pub fn node_iter(&self) -> (iter: NodeIter<'_, T>)
        ensures
            iter@ == self.nodes(),
            keys_of(iter@) == self@,
            forall|i: int| 0 <= i < iter@.len() ==> (#[trigger] iter@[i]).avl(),
    {
        proof {
            use_type_invariant(self);
            lemma_keys_of_nodes(self.root);
            lemma_every_node(self.root);
        }
        NodeIter::begin(&self.root)
    }

    /// The root node, if the tree is not empty. It is the root of a valid
    /// AVL tree.
    pub fn root(&self) -> (node: Option<&Node<T>>)
        ensures
            match node {
                None => self.root_link() is None,
                Some(root) => self.root_link() == Some(Box::new(*root)) && root.avl(),
            },
            self.balanced(),
            self.heights_cached(),
            fewest_keys(self.height()) <= self@.len(),
    {
        proof {
            use_type_invariant(self);
            lemma_every_node(self.root);
            if self.root is Some {
                lemma_link_height_bound(self.root);
            }
        }
        match &self.root {
            None => None,
            Some(node) => Some(&**node),
        }
    }

    /// The structure of the tree as plain values: for each node, in the
    /// order of the keys, its key and the keys of its left and right child
    /// where it has them. The tree is not changed.
    pub fn snapshot(&self) -> (entries: Vec<(&T, Option<&T>, Option<&T>)>)
        ensures
            entries@.len() == self.nodes().len(),
            forall|i: int|
                0 <= i < entries@.len() ==> {
                    &&& *(#[trigger] entries@[i]).0 == self.nodes()[i].key()
                    &&& entries@[i].1 == child_key(&self.nodes()[i].left_link())
                    &&& entries@[i].2 == child_key(&self.nodes()[i].right_link())
                },
    {
        let mut entries: Vec<(&T, Option<&T>, Option<&T>)> = Vec::new();
        let mut nodes = self.node_iter();
        loop
            invariant
                entries@.len() + nodes@.len() == self.nodes().len(),
                nodes@ == self.nodes().skip(entries@.len() as int),
                forall|i: int|
                    0 <= i < entries@.len() ==> {
                        &&& *(#[trigger] entries@[i]).0 == self.nodes()[i].key()
                        &&& entries@[i].1 == child_key(&self.nodes()[i].left_link())
                        &&& entries@[i].2 == child_key(&self.nodes()[i].right_link())
                    },
            ensures
                entries@.len() == self.nodes().len(),
            decreases nodes@.len(),
        {
            match nodes.next() {
                None => {
                    break ;
                },
                Some(node) => {
                    let left = match node.left() {
                        None => None,
                        Some(child) => Some(child.value()),
                    };
                    let right = match node.right() {
                        None => None,
                        Some(child) => Some(child.value()),
                    };
                    entries.push((node.value(), left, right));
                },
            }
        }
        entries
    }

    /// A tree of the given values, put in one by one, first to last. A value
    /// that compares as equal to an earlier one is dropped.
    pub fn from_iter(values: Vec<T>) -> (tree: Self)
        requires
            total_order::<T>(),
        ensures
            tree.root_link() == link_with_keys(None, values@),
            tree@ == with_keys(Seq::<T>::empty(), values@),
            strictly_ascending(tree@),
            tree.balanced(),
            tree.heights_cached(),
            fewest_keys(tree.height()) <= tree@.len(),
    {
        let mut tree = Self::new();
        let count = values.len();
        proof {
            lemma_every_node(tree.root);
        }
        for value in iter: values
            invariant
                total_order::<T>(),
                iter.seq() == values@,
                values@.len() == count,
                tree.root_link() == link_with_keys(None, values@.take(iter.index() as int)),
                tree@ == with_keys(Seq::<T>::empty(), values@.take(iter.index() as int)),
                strictly_ascending(tree@),
                tree.balanced(),
                tree.heights_cached(),
                fewest_keys(tree.height()) <= tree@.len(),
        {
            proof {
                let done = values@.take(iter.index() as int);
                let next = values@.take(iter.index() + 1);
                lemma_with_keys_len(Seq::<T>::empty(), done);
                assert(done.len() == iter.index());
                assert(iter.index() < values@.len());
                assert(next.drop_last() =~= done);
                assert(next.last() == value);
            }
            tree.insert(value);
        }
        proof {
            assert(values@.take(values@.len() as int) =~= values@);
        }
        tree
    }

    /// Releases every node and leaves the tree empty. The nodes are taken
    /// apart over a work stack and then released one by one, none of them
    /// with a subtree still hanging on it.
    pub fn clear(&mut self)
        ensures
            final(self)@ == Seq::<T>::empty(),
            final(self).root_link() is None,
    {
        let mut root: Link<T> = None;
        core::mem::swap(&mut root, &mut self.root);
        let _released = dismantle(root);
    }}

} // verus!
