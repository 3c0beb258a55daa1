//! The nodes of the tree: height bookkeeping, rotations and the single-level
//! rebalancing step.

use vstd::prelude::*;
use crate::order::strictly_ascending;
use crate::shape::{
    lemma_height_within_size, lemma_link_height_within_size, lemma_rebalanced,
    lemma_rebalanced_keys, lemma_rotated_left, lemma_rotated_right,
};

verus! {

/// An owning link to a subtree; `None` is the empty subtree.
pub type Link<T> = Option<Box<Node<T>>>;

/// A node of the tree: a key, two subtrees and the cached height of the
/// subtree that the node is the root of.
#[derive(Debug)]
pub struct Node<T: Ord> {
    pub(crate) value: T,
    pub(crate) left: Link<T>,
    pub(crate) right: Link<T>,
    pub(crate) height: usize,
}

/// The cached height of the subtree behind a link; the empty subtree has height 0.
pub open spec fn link_height<T: Ord>(link: Link<T>) -> nat {
    match link {
        None => 0,
        Some(node) => node.cached_height() as nat,
    }
}

/// The keys of the subtree behind a link, in order.
pub open spec fn link_keys<T: Ord>(link: Link<T>) -> Seq<T>
    decreases link,
{
    match link {
        None => Seq::empty(),
        Some(node) => node.keys(),
    }
}

/// The nodes of the subtree behind a link, in the order of their keys.
pub open spec fn link_nodes<T: Ord>(link: Link<T>) -> Seq<Node<T>>
    decreases link,
{
    match link {
        None => Seq::empty(),
        Some(node) => node.nodes(),
    }
}

/// Every node behind the link caches the right height.
pub open spec fn link_cached<T: Ord>(link: Link<T>) -> bool
    decreases link,
{
    match link {
        None => true,
        Some(node) => node.cached(),
    }
}

/// Every node behind the link has subtrees whose heights differ by at most one.
pub open spec fn link_balanced<T: Ord>(link: Link<T>) -> bool
    decreases link,
{
    match link {
        None => true,
        Some(node) => node.balanced(),
    }
}

/// The subtree behind the link is empty or a valid AVL tree.
pub open spec fn link_avl<T: Ord>(link: Link<T>) -> bool {
    match link {
        None => true,
        Some(node) => node.avl(),
    }
}

impl<T: Ord> Node<T> {
    /// The key that the node holds.
    pub open(crate) spec fn key(self) -> T {
        self.value
    }

    /// The link to the left subtree.
    pub open(crate) spec fn left_link(self) -> Link<T> {
        self.left
    }

    /// The link to the right subtree.
    pub open(crate) spec fn right_link(self) -> Link<T> {
        self.right
    }

    /// The height that the node has cached for its subtree.
    pub open(crate) spec fn cached_height(self) -> usize {
        self.height
    }

    /// The keys of the subtree, in order: those of the left subtree, the
    /// node's own, those of the right subtree.
    pub open spec fn keys(self) -> Seq<T>
        decreases self,
    {
        link_keys(self.left_link()).push(self.key()) + link_keys(self.right_link())
    }

    /// The nodes of the subtree, in the order of their keys.
    pub open spec fn nodes(self) -> Seq<Node<T>>
        decreases self,
    {
        link_nodes(self.left_link()).push(self) + link_nodes(self.right_link())
    }

    /// The height that the node's subtrees give it: one more than the greater
    /// of their cached heights.
    pub open spec fn height_from_below(self) -> nat {
        if link_height(self.left_link()) >= link_height(self.right_link()) {
            link_height(self.left_link()) + 1
        } else {
            link_height(self.right_link()) + 1
        }
    }

    /// The balance factor: cached height of the left subtree minus that of the right.
    pub open spec fn balance(self) -> int {
        link_height(self.left_link()) - link_height(self.right_link())
    }

    /// The node and every node below it cache the height that their subtrees give them.
    pub open spec fn cached(self) -> bool
        decreases self,
    {
        &&& self.cached_height() == self.height_from_below()
        &&& link_cached(self.left_link())
        &&& link_cached(self.right_link())
    }

    /// At the node and at every node below it the balance factor is -1, 0 or 1.
    pub open spec fn balanced(self) -> bool
        decreases self,
    {
        &&& -1 <= self.balance() <= 1
        &&& link_balanced(self.left_link())
        &&& link_balanced(self.right_link())
    }

    /// The subtree is a valid AVL tree: heights are cached, every node is
    /// balanced, and the keys ascend strictly.
    pub open spec fn avl(self) -> bool {
        &&& self.cached()
        &&& self.balanced()
        &&& strictly_ascending(self.keys())
    }

    /// The subtrees below the node cache the right heights. The node's own
    /// cached height is left open: it is what `update_height` sets.
    pub open spec fn cached_below(self) -> bool {
        link_cached(self.left_link()) && link_cached(self.right_link())
    }

    /// The subtrees below the node are balanced. The node itself may lean by more.
    pub open spec fn balanced_below(self) -> bool {
        link_balanced(self.left_link()) && link_balanced(self.right_link())
    }

    /// The node with its height recomputed from its subtrees.
    pub open(crate) spec fn refreshed(self) -> Node<T> {
        Node {
            value: self.value,
            left: self.left,
            right: self.right,
            height: self.height_from_below() as usize,
        }
    }

    /// The node after a right rotation: the left child's key moves to the
    /// root, the root's key to a new right child, which takes the left
    /// child's right subtree and the old right subtree. Both heights are
    /// recomputed, the lower one first. Without a left child nothing changes.
    pub open(crate) spec fn rotated_right(self) -> Node<T> {
        match self.left {
            None => self,
            Some(pivot) => Node {
                value: pivot.value,
                left: pivot.left,
                right: Some(
                    Box::new(
                        Node {
                            value: self.value,
                            left: pivot.right,
                            right: self.right,
                            height: 0,
                        }.refreshed(),
                    ),
                ),
                height: 0,
            }.refreshed(),
        }
    }

    /// The node after a left rotation, the mirror image of a right rotation.
    pub open(crate) spec fn rotated_left(self) -> Node<T> {
        match self.right {
            None => self,
            Some(pivot) => Node {
                value: pivot.value,
                left: Some(
                    Box::new(
                        Node {
                            value: self.value,
                            left: self.left,
                            right: pivot.left,
                            height: 0,
                        }.refreshed(),
                    ),
                ),
                right: pivot.right,
                height: 0,
            }.refreshed(),
        }
    }

    /// The node with another left subtree.
    pub open(crate) spec fn with_left(self, link: Link<T>) -> Node<T> {
        Node { value: self.value, left: link, right: self.right, height: self.height }
    }

    /// The node with another right subtree.
    pub open(crate) spec fn with_right(self, link: Link<T>) -> Node<T> {
        Node { value: self.value, left: self.left, right: link, height: self.height }
    }

    /// The node after the rebalancing step. A node that leans right by two is
    /// rotated left, after its right child, if that one leans left by one, was
    /// rotated right. A node that leans left by two is treated in mirror
    /// image. Any other node stays as it is.
    pub open spec fn rebalanced(self) -> Node<T> {
        if self.balance() == -2 {
            match self.right_link() {
                Some(child) if child.balance() == 1 => self.with_right(
                    Some(Box::new(child.rotated_right())),
                ).rotated_left(),
                _ => self.rotated_left(),
            }
        } else if self.balance() == 2 {
            match self.left_link() {
                Some(child) if child.balance() == -1 => self.with_left(
                    Some(Box::new(child.rotated_left())),
                ).rotated_right(),
                _ => self.rotated_right(),
            }
        } else {
            self
        }
    }

    /// The rebalancing step of `before`, undone on `self`: the rotations
    /// that the step makes of `before`, each taken back by its inverse, the
    /// last one first.
    pub open spec fn unrebalanced(self, before: Node<T>) -> Node<T> {
        if before.balance() == -2 {
            let back = self.rotated_right();
            match (before.right_link(), back.right_link()) {
                (Some(child), Some(turned)) if child.balance() == 1 => back.with_right(
                    Some(Box::new(turned.rotated_left())),
                ),
                _ => back,
            }
        } else if before.balance() == 2 {
            let back = self.rotated_left();
            match (before.left_link(), back.left_link()) {
                (Some(child), Some(turned)) if child.balance() == -1 => back.with_left(
                    Some(Box::new(turned.rotated_right())),
                ),
                _ => back,
            }
        } else {
            self
        }
    }

    /// A node that holds `value` over the two given subtrees, at the height
    /// that they give it.
    pub open(crate) spec fn joined(left: Link<T>, value: T, right: Link<T>) -> Node<T> {
        Node { value: value, left: left, right: right, height: 0 }.refreshed()
    }

    /// A leaf: a node of height 1 that holds `value` and has no subtrees.
    pub fn new(value: T) -> (node: Node<T>)
        ensures
            node == Self::joined(None, value, None),
            node.cached_height() == 1,
    {
        Node { value, left: None, right: None, height: 1 }
    }

    /// A node that holds `value` over the two given subtrees. Its height is
    /// computed from the heights that the subtrees have cached.
    pub fn branch(left: Link<T>, value: T, right: Link<T>) -> (node: Node<T>)
        requires
            link_height(left) < usize::MAX,
            link_height(right) < usize::MAX,
        ensures
            node == Self::joined(left, value, right),
    {
        let mut node = Node { value, left, right, height: 0 };
        node.update_height();
        node
    }

    /// The key that the node holds.
    pub fn value(&self) -> (value: &T)
        ensures
            *value == self.key(),
    {
        &self.value
    }

    /// The root of the left subtree, if there is one.
    pub fn left(&self) -> (child: Option<&Node<T>>)
        ensures
            match child {
                None => self.left_link() is None,
                Some(node) => self.left_link() == Some(Box::new(*node)),
            },
    {
        match &self.left {
            None => None,
            Some(node) => Some(&**node),
        }
    }

    /// The root of the right subtree, if there is one.
    pub fn right(&self) -> (child: Option<&Node<T>>)
        ensures
            match child {
                None => self.right_link() is None,
                Some(node) => self.right_link() == Some(Box::new(*node)),
            },
    {
        match &self.right {
            None => None,
            Some(node) => Some(&**node),
        }
    }

    /// The cached height of the subtree that the node is the root of.
    pub fn height(&self) -> (height: usize)
        ensures
            height == self.cached_height(),
    {
        self.height
    }

    /// The cached height of the left subtree, 0 if there is none.
    pub fn left_height(&self) -> (height: usize)
        ensures
            height == link_height(self.left_link()),
    {
        match &self.left {
            None => 0,
            Some(node) => node.height,
        }
    }

    /// The cached height of the right subtree, 0 if there is none.
    pub fn right_height(&self) -> (height: usize)
        ensures
            height == link_height(self.right_link()),
    {
        match &self.right {
            None => 0,
            Some(node) => node.height,
        }
    }

    /// Recomputes the cached height from the subtrees. The subtrees' own
    /// heights are taken as they are cached, so this is done bottom-up.
    pub fn update_height(&mut self)
        requires
            old(self).height_from_below() <= usize::MAX,
        ensures
            *final(self) == old(self).refreshed(),
    {
        let left_height = self.left_height();
        let right_height = self.right_height();
        self.height = 1 + if left_height >= right_height {
            left_height
        } else {
            right_height
        };
    }

    /// The balance factor: height of the left subtree minus height of the right.
    pub fn balance_factor(&self) -> (factor: i8)
        requires
            -127 <= self.balance() <= 127,
        ensures
            factor == self.balance(),
    {
        let left_height = self.left_height();
        let right_height = self.right_height();
        if left_height >= right_height {
            (left_height - right_height) as i8
        } else {
            -((right_height - left_height) as i8)
        }
    }
    /// Rotates the subtree to the right, in place: keys move between the node
    /// and its left child, and links are rehung. Returns false, and changes
    /// nothing, where there is no left child.
    pub fn rotate_right(&mut self) -> (rotated: bool)
        requires
            old(self).cached_below(),
            old(self).keys().len() <= usize::MAX,
        ensures
            rotated == old(self).left_link().is_some(),
            *final(self) == old(self).rotated_right(),
            final(self).keys() == old(self).keys(),
    {
        proof {
            lemma_rotated_right(*self);
        }
        match self.left.take() {
            None => false,
            Some(mut pivot) => {
                proof {
                    lemma_height_within_size(*pivot);
                    lemma_link_height_within_size(pivot.left);
                    lemma_link_height_within_size(pivot.right);
                    lemma_link_height_within_size(self.right);
                }
                let inner = pivot.right.take();
                let outer = pivot.left.take();
                self.left = outer;
                core::mem::swap(&mut self.value, &mut pivot.value);
                let far = self.right.take();
                pivot.left = inner;
                pivot.right = far;
                pivot.update_height();
                self.right = Some(pivot);
                self.update_height();
                true
            },
        }
    }

    /// Rotates the subtree to the left, in place: the mirror image of
    /// `rotate_right`. Returns false, and changes nothing, where there is no
    /// right child.
    pub fn rotate_left(&mut self) -> (rotated: bool)
        requires
            old(self).cached_below(),
            old(self).keys().len() <= usize::MAX,
        ensures
            rotated == old(self).right_link().is_some(),
            *final(self) == old(self).rotated_left(),
            final(self).keys() == old(self).keys(),
    {
        proof {
            lemma_rotated_left(*self);
        }
        match self.right.take() {
            None => false,
            Some(mut pivot) => {
                proof {
                    lemma_height_within_size(*pivot);
                    lemma_link_height_within_size(pivot.left);
                    lemma_link_height_within_size(pivot.right);
                    lemma_link_height_within_size(self.left);
                }
                let inner = pivot.left.take();
                let outer = pivot.right.take();
                self.right = outer;
                core::mem::swap(&mut self.value, &mut pivot.value);
                let far = self.left.take();
                pivot.right = inner;
                pivot.left = far;
                pivot.update_height();
                self.left = Some(pivot);
                self.update_height();
                true
            },
        }
    }

    /// Restores the balance at this node after an insertion below it. Returns
    /// whether it rotated. The keys stay in their order, and a node that
    /// leans by at most two over valid subtrees becomes the root of a valid
    /// shape.
    pub fn rebalance(&mut self) -> (rotated: bool)
        requires
            old(self).cached_below(),
            old(self).balanced_below(),
            old(self).keys().len() <= usize::MAX,
            -127 <= old(self).balance() <= 127,
        ensures
            rotated == (old(self).balance() == 2 || old(self).balance() == -2),
            *final(self) == old(self).rebalanced(),
            final(self).keys() == old(self).keys(),
            old(self).cached() && -2 <= old(self).balance() <= 2 ==> final(self).cached()
                && final(self).balanced(),
    {
        proof {
            lemma_rebalanced_keys(*self);
            if self.cached() && -2 <= self.balance() <= 2 {
                lemma_rebalanced(*self);
            }
        }
        match self.balance_factor() {
            -2 => {
                proof {
                    lemma_rotated_right(*self.right.unwrap());
                }
                let child = self.right.as_mut().unwrap();
                if child.balance_factor() == 1 {
                    child.rotate_right();
                }
                self.rotate_left();
                true
            },
            2 => {
                proof {
                    lemma_rotated_left(*self.left.unwrap());
                }
                let child = self.left.as_mut().unwrap();
                if child.balance_factor() == -1 {
                    child.rotate_left();
                }
                self.rotate_right();
                true
            },
            _ => false,
        }
    }
}

} // verus!
