//! Facts about the shape of subtrees: heights and sizes, what rotations keep,
//! and what the rebalancing step restores.

use vstd::prelude::*;
use crate::node::{link_balanced, link_cached, link_height, link_keys, link_nodes, Link, Node};
use crate::order::{lemma_ascending_split, strictly_ascending};

verus! {

/// A subtree with cached heights is no higher than it has keys.
pub proof fn lemma_height_within_size<T: Ord>(node: Node<T>)
    requires
        node.cached(),
    ensures
        node.cached_height() <= node.keys().len(),
        node.keys().len() == link_keys(node.left_link()).len() + 1 + link_keys(
            node.right_link(),
        ).len(),
    decreases node,
{
    lemma_link_height_within_size(node.left);
    lemma_link_height_within_size(node.right);
}

/// What `lemma_height_within_size` says, for a link.
pub proof fn lemma_link_height_within_size<T: Ord>(link: Link<T>)
    requires
        link_cached(link),
    ensures
        link_height(link) <= link_keys(link).len(),
    decreases link,
{
    match link {
        None => {},
        Some(node) => lemma_height_within_size(*node),
    }
}

/// Every node behind a link is the root of a subtree that is as sound as the
/// whole: heights are cached and nodes balanced in it where they are in the
/// whole, and its keys ascend where those of the whole do.
pub proof fn lemma_every_node<T: Ord>(link: Link<T>)
    ensures
        link_cached(link) ==> forall|i: int|
            0 <= i < link_nodes(link).len() ==> (#[trigger] link_nodes(link)[i]).cached(),
        link_balanced(link) ==> forall|i: int|
            0 <= i < link_nodes(link).len() ==> (#[trigger] link_nodes(link)[i]).balanced(),
        strictly_ascending(link_keys(link)) ==> forall|i: int|
            0 <= i < link_nodes(link).len() ==> strictly_ascending(
                (#[trigger] link_nodes(link)[i]).keys(),
            ),
    decreases link,
{
    match link {
        None => {},
        Some(node) => {
            lemma_every_node(node.left);
            lemma_every_node(node.right);
            let all = link_nodes(link);
            let n = link_nodes(node.left).len() as int;
            assert(all == link_nodes(node.left).push(*node) + link_nodes(node.right));
            if strictly_ascending(link_keys(link)) {
                lemma_ascending_split(link_keys(node.left), node.value, link_keys(node.right));
            }
            assert forall|i: int| 0 <= i < all.len() implies {
                &&& link_cached(link) ==> (#[trigger] all[i]).cached()
                &&& link_balanced(link) ==> all[i].balanced()
                &&& strictly_ascending(link_keys(link)) ==> strictly_ascending(all[i].keys())
            } by {
                if i < n {
                    assert(all[i] == link_nodes(node.left)[i]);
                } else if i == n {
                    assert(all[i] == *node);
                } else {
                    assert(all[i] == link_nodes(node.right)[i - n - 1]);
                }
            }
        },
    }
}

/// A right rotation keeps the keys in their order, and leaves correct heights
/// where the heights below the node were correct.
pub proof fn lemma_rotated_right<T: Ord>(node: Node<T>)
    requires
        node.cached_below(),
        node.keys().len() <= usize::MAX,
    ensures
        node.rotated_right().keys() == node.keys(),
        node.rotated_right().cached_below(),
        node.left_link() is Some ==> node.rotated_right().cached(),
{
    match node.left {
        None => {},
        Some(pivot) => {
            lemma_height_within_size(*pivot);
            lemma_link_height_within_size(pivot.left);
            lemma_link_height_within_size(pivot.right);
            lemma_link_height_within_size(node.right);
            let low = Node {
                value: node.value,
                left: pivot.right,
                right: node.right,
                height: 0,
            }.refreshed();
            assert(low.cached());
            assert(low.keys() == link_keys(pivot.right).push(node.value) + link_keys(node.right));
            assert(pivot.keys() == link_keys(pivot.left).push(pivot.value) + link_keys(
                pivot.right,
            ));
            assert(node.keys() == pivot.keys().push(node.value) + link_keys(node.right));
            assert(node.rotated_right().keys() == link_keys(pivot.left).push(pivot.value)
                + low.keys());
            assert(node.rotated_right().keys() =~= node.keys());
        },
    }
}

/// A left rotation keeps the keys in their order, and leaves correct heights
/// where the heights below the node were correct.
pub proof fn lemma_rotated_left<T: Ord>(node: Node<T>)
    requires
        node.cached_below(),
        node.keys().len() <= usize::MAX,
    ensures
        node.rotated_left().keys() == node.keys(),
        node.rotated_left().cached_below(),
        node.right_link() is Some ==> node.rotated_left().cached(),
{
    match node.right {
        None => {},
        Some(pivot) => {
            lemma_height_within_size(*pivot);
            lemma_link_height_within_size(pivot.left);
            lemma_link_height_within_size(pivot.right);
            lemma_link_height_within_size(node.left);
            let low = Node {
                value: node.value,
                left: node.left,
                right: pivot.left,
                height: 0,
            }.refreshed();
            assert(low.cached());
            assert(low.keys() == link_keys(node.left).push(node.value) + link_keys(pivot.left));
            assert(pivot.keys() == link_keys(pivot.left).push(pivot.value) + link_keys(
                pivot.right,
            ));
            assert(node.keys() == link_keys(node.left).push(node.value) + pivot.keys());
            assert(node.rotated_left().keys() == low.keys().push(pivot.value) + link_keys(
                pivot.right,
            ));
            assert(node.rotated_left().keys() =~= node.keys());
        },
    }
}

/// The fewest keys that a balanced tree of a given height can have.
pub open spec fn fewest_keys(height: nat) -> nat
    decreases height,
{
    if height == 0 {
        0
    } else if height == 1 {
        1
    } else {
        1 + fewest_keys((height - 1) as nat) + fewest_keys((height - 2) as nat)
    }
}

/// The fewest keys grow with the height.
pub proof fn lemma_fewest_keys_grow(lower: nat, higher: nat)
    requires
        lower <= higher,
    ensures
        fewest_keys(lower) <= fewest_keys(higher),
    decreases higher,
{
    if lower < higher {
        lemma_fewest_keys_grow(lower, (higher - 1) as nat);
    }
}

/// A balanced subtree with cached heights has at least the fewest keys of its
/// height. This bounds the height by a logarithm of the number of keys.
pub proof fn lemma_height_bound<T: Ord>(node: Node<T>)
    requires
        node.cached(),
        node.balanced(),
    ensures
        fewest_keys(node.cached_height() as nat) <= node.keys().len(),
    decreases node,
{
    lemma_link_height_bound(node.left);
    lemma_link_height_bound(node.right);
    let low = link_height(node.left);
    let high = link_height(node.right);
    if low >= high && low >= 1 {
        lemma_fewest_keys_grow((low - 1) as nat, high);
    } else if high >= 1 {
        lemma_fewest_keys_grow((high - 1) as nat, low);
    }
}

/// What `lemma_height_bound` says, for a link.
pub proof fn lemma_link_height_bound<T: Ord>(link: Link<T>)
    requires
        link_cached(link),
        link_balanced(link),
    ensures
        fewest_keys(link_height(link)) <= link_keys(link).len(),
    decreases link,
{
    match link {
        None => {},
        Some(node) => lemma_height_bound(*node),
    }
}

/// The rebalancing step keeps the keys in their order, however the node leans.
pub proof fn lemma_rebalanced_keys<T: Ord>(node: Node<T>)
    requires
        node.cached_below(),
        node.keys().len() <= usize::MAX,
    ensures
        node.rebalanced().keys() == node.keys(),
        node.rebalanced().cached_below(),
{
    lemma_rotated_left(node);
    lemma_rotated_right(node);
    if node.balance() == -2 {
        match node.right {
            Some(child) if child.balance() == 1 => {
                assert(child.cached());
                lemma_height_within_size(*child);
                lemma_rotated_right(*child);
                let primed = node.with_right(Some(Box::new(child.rotated_right())));
                assert(primed.keys() == node.keys());
                lemma_rotated_left(primed);
            },
            _ => {},
        }
    } else if node.balance() == 2 {
        match node.left {
            Some(child) if child.balance() == -1 => {
                assert(child.cached());
                lemma_height_within_size(*child);
                lemma_rotated_left(*child);
                let primed = node.with_left(Some(Box::new(child.rotated_left())));
                assert(primed.keys() == node.keys());
                lemma_rotated_right(primed);
            },
            _ => {},
        }
    }
}

/// A right rotation is taken back by a left rotation.
pub proof fn lemma_right_then_left<T: Ord>(node: Node<T>)
    requires
        node.cached_below(),
        node.left_link() is Some,
        node.keys().len() <= usize::MAX,
    ensures
        node.rotated_right().rotated_left() == node.refreshed(),
{
    let pivot = *node.left.unwrap();
    assert(pivot.cached());
    lemma_height_within_size(pivot);
    lemma_link_height_within_size(pivot.left);
    lemma_link_height_within_size(pivot.right);
    lemma_link_height_within_size(node.right);
}

/// A left rotation is taken back by a right rotation.
pub proof fn lemma_left_then_right<T: Ord>(node: Node<T>)
    requires
        node.cached_below(),
        node.right_link() is Some,
        node.keys().len() <= usize::MAX,
    ensures
        node.rotated_left().rotated_right() == node.refreshed(),
{
    let pivot = *node.right.unwrap();
    assert(pivot.cached());
    lemma_height_within_size(pivot);
    lemma_link_height_within_size(pivot.left);
    lemma_link_height_within_size(pivot.right);
    lemma_link_height_within_size(node.left);
}

/// Rotation identity: where a node leans by two, the rotations that the
/// rebalancing step makes, followed by their inverses, give back a tree with
/// the same keys in the same order; and where the node cached its own
/// height, the very same tree.
pub proof fn lemma_rotation_identity<T: Ord>(node: Node<T>)
    requires
        node.balance() == 2 || node.balance() == -2,
        node.cached_below(),
        node.keys().len() <= usize::MAX,
    ensures
        node.rebalanced().unrebalanced(node).keys() == node.keys(),
        node.rebalanced().unrebalanced(node) == node.refreshed(),
{
    lemma_link_height_within_size(node.left);
    lemma_link_height_within_size(node.right);
    assert(node.refreshed().keys() == node.keys());
    if node.balance() == -2 {
        let child = *node.right.unwrap();
        assert(child.cached());
        lemma_height_within_size(child);
        if child.balance() == 1 {
            lemma_rotated_right(child);
            lemma_right_then_left(child);
            let turned = child.rotated_right();
            let primed = node.with_right(Some(Box::new(turned)));
            assert(primed.keys() == node.keys());
            lemma_rotated_left(primed);
            lemma_left_then_right(primed);
            assert(node.rebalanced() == primed.rotated_left());
            assert(child.refreshed() == child);
            assert(primed.refreshed().with_right(Some(Box::new(child))) == node.refreshed());
        } else {
            lemma_rotated_left(node);
            lemma_left_then_right(node);
        }
    } else {
        let child = *node.left.unwrap();
        assert(child.cached());
        lemma_height_within_size(child);
        if child.balance() == -1 {
            lemma_rotated_left(child);
            lemma_left_then_right(child);
            let turned = child.rotated_left();
            let primed = node.with_left(Some(Box::new(turned)));
            assert(primed.keys() == node.keys());
            lemma_rotated_right(primed);
            lemma_right_then_left(primed);
            assert(node.rebalanced() == primed.rotated_right());
            assert(child.refreshed() == child);
            assert(primed.refreshed().with_left(Some(Box::new(child))) == node.refreshed());
        } else {
            lemma_rotated_right(node);
            lemma_right_then_left(node);
        }
    }
}

/// The rebalancing step makes a valid shape of a node that leans by at most
/// two over valid subtrees: afterwards heights are cached and every node is
/// balanced, the keys stand in the same order, and the height is what it was
/// or one less. A node that leans by at most one is not touched.
pub proof fn lemma_rebalanced<T: Ord>(node: Node<T>)
    requires
        node.cached(),
        node.balanced_below(),
        -2 <= node.balance() <= 2,
        node.keys().len() <= usize::MAX,
    ensures
        node.rebalanced().cached(),
        node.rebalanced().balanced(),
        node.rebalanced().keys() == node.keys(),
        node.cached_height() - 1 <= node.rebalanced().cached_height() <= node.cached_height(),
        -1 <= node.balance() <= 1 ==> node.rebalanced() == node,
        node.balance() == 2 && node.left_link().unwrap().balance() != 0
            ==> node.rebalanced().cached_height() == node.cached_height() - 1,
        node.balance() == -2 && node.right_link().unwrap().balance() != 0
            ==> node.rebalanced().cached_height() == node.cached_height() - 1,
{
    if node.balance() == -2 {
        let child = *node.right.unwrap();
        assert(child.cached() && child.balanced());
        assert(link_cached(node.left) && link_balanced(node.left));
        lemma_height_within_size(child);
        if child.balance() == 1 {
            let inner = *child.left.unwrap();
            assert(inner.cached() && inner.balanced());
            assert(link_cached(child.right) && link_balanced(child.right));
            lemma_rotated_right(child);
            let turned = child.rotated_right();
            let high = *turned.right.unwrap();
            assert(high.balanced());
            assert(turned.cached());
            let primed = node.with_right(Some(Box::new(turned)));
            assert(primed.keys() == node.keys());
            lemma_rotated_left(primed);
            let done = primed.rotated_left();
            assert(node.rebalanced() == done);
            let low = *done.left.unwrap();
            assert(low.balanced());
            assert(done.balanced());
        } else {
            lemma_rotated_left(node);
            let done = node.rotated_left();
            let low = *done.left.unwrap();
            assert(link_cached(child.left) && link_balanced(child.left));
            assert(link_cached(child.right) && link_balanced(child.right));
            assert(low.balanced());
            assert(done.balanced());
        }
    } else if node.balance() == 2 {
        let child = *node.left.unwrap();
        assert(child.cached() && child.balanced());
        assert(link_cached(node.right) && link_balanced(node.right));
        lemma_height_within_size(child);
        if child.balance() == -1 {
            let inner = *child.right.unwrap();
            assert(inner.cached() && inner.balanced());
            assert(link_cached(child.left) && link_balanced(child.left));
            lemma_rotated_left(child);
            let turned = child.rotated_left();
            let high = *turned.left.unwrap();
            assert(high.balanced());
            assert(turned.cached());
            let primed = node.with_left(Some(Box::new(turned)));
            assert(primed.keys() == node.keys());
            lemma_rotated_right(primed);
            let done = primed.rotated_right();
            assert(node.rebalanced() == done);
            let low = *done.right.unwrap();
            assert(low.balanced());
            assert(done.balanced());
        } else {
            lemma_rotated_right(node);
            let done = node.rotated_right();
            let low = *done.right.unwrap();
            assert(link_cached(child.left) && link_balanced(child.left));
            assert(link_cached(child.right) && link_balanced(child.right));
            assert(low.balanced());
            assert(done.balanced());
        }
    }
}

} // verus!
