//! What insertion makes of a tree, as a function on trees, and the proof
//! that it keeps a valid AVL tree valid.

use vstd::prelude::*;
use crate::node::{link_avl, link_balanced, link_cached, link_height, link_keys, Link, Node};
use crate::order::{
    equiv, holds, lemma_ascending_join, lemma_ascending_split, lemma_equiv_same_side,
    lemma_lt_transitive, lemma_rank_all_below, lemma_rank_bound, lemma_rank_concat,
    lemma_rank_none_below, lemma_trichotomy, lt, rank, strictly_ascending, total_order, with_key,
};
use crate::shape::{lemma_height_within_size, lemma_link_height_within_size, lemma_rebalanced};

verus! {

/// A node without subtrees that holds `value`.
pub open spec fn leaf<T: Ord>(value: T) -> Node<T> {
    Node::joined(None, value, None)
}

/// The subtree behind a link after `value` was put into it: a new leaf where
/// the link was empty, else what the node there makes of the value.
pub open spec fn link_with_key<T: Ord>(link: Link<T>, value: T) -> Link<T>
    decreases link,
{
    match link {
        None => Some(Box::new(leaf(value))),
        Some(node) => Some(Box::new(node.with_key(value))),
    }
}

/// The tree behind a link after the values were put into it, first to last.
pub open spec fn link_with_keys<T: Ord>(link: Link<T>, values: Seq<T>) -> Link<T>
    decreases values.len(),
{
    if values.len() == 0 {
        link
    } else {
        link_with_key(link_with_keys(link, values.drop_last()), values.last())
    }
}

/// The number of rotation events that putting `value` in behind the link
/// brings about: the nodes on the way of the value at which the rebalancing
/// step rotates, once or twice.
pub open spec fn link_rotations<T: Ord>(link: Link<T>, value: T) -> nat
    decreases link,
{
    match link {
        None => 0,
        Some(node) => node.rotations(value),
    }
}

impl<T: Ord> Node<T> {
    /// The number of rotation events that putting `value` into the subtree
    /// brings about, at the node or below it.
    pub open spec fn rotations(self, value: T) -> nat
        decreases self,
    {
        if lt(value, self.key()) {
            let hung = self.with_left(link_with_key(self.left_link(), value)).refreshed();
            if hung.balance() == 2 || hung.balance() == -2 {
                link_rotations(self.left_link(), value) + 1
            } else {
                link_rotations(self.left_link(), value)
            }
        } else if lt(self.key(), value) {
            let hung = self.with_right(link_with_key(self.right_link(), value)).refreshed();
            if hung.balance() == 2 || hung.balance() == -2 {
                link_rotations(self.right_link(), value) + 1
            } else {
                link_rotations(self.right_link(), value)
            }
        } else {
            0
        }
    }

    /// The subtree after `value` was put into it. A lesser value goes into
    /// the left subtree, a greater one into the right; then the node has its
    /// height recomputed and its balance restored. A value equivalent to the
    /// node's key changes nothing.
    pub open spec fn with_key(self, value: T) -> Node<T>
        decreases self,
    {
        if lt(value, self.key()) {
            self.with_left(link_with_key(self.left_link(), value)).refreshed().rebalanced()
        } else if lt(self.key(), value) {
            self.with_right(link_with_key(self.right_link(), value)).refreshed().rebalanced()
        } else {
            self
        }
    }
}

/// In a subtree with ascending keys, a key equivalent to `value` can only be
/// at the root or on the side of the root where `value` belongs, and both
/// sides have ascending keys themselves.
pub proof fn lemma_side_holds<T: Ord>(node: Node<T>, value: T)
    requires
        total_order::<T>(),
        strictly_ascending(node.keys()),
    ensures
        strictly_ascending(link_keys(node.left_link())),
        strictly_ascending(link_keys(node.right_link())),
        equiv(node.key(), value) ==> holds(node.keys(), value),
        lt(value, node.key()) ==> (holds(node.keys(), value) <==> holds(
            link_keys(node.left_link()),
            value,
        )),
        lt(node.key(), value) ==> (holds(node.keys(), value) <==> holds(
            link_keys(node.right_link()),
            value,
        )),
{
    let below = link_keys(node.left);
    let above = link_keys(node.right);
    let all = node.keys();
    let n = below.len() as int;
    lemma_ascending_split(below, node.value, above);
    lemma_trichotomy(node.value, value);
    assert(all[n] == node.value);
    if holds(all, value) {
        let i = choose|i: int| 0 <= i < all.len() && equiv(#[trigger] all[i], value);
        if i < n {
            assert(all[i] == below[i]);
            if !lt(value, node.value) {
                lemma_equiv_same_side(all[i], value, node.value);
            }
        } else if i > n {
            assert(all[i] == above[i - n - 1]);
            if !lt(node.value, value) {
                lemma_equiv_same_side(all[i], value, node.value);
            }
        }
    }
    if holds(below, value) {
        let i = choose|i: int| 0 <= i < below.len() && equiv(#[trigger] below[i], value);
        assert(all[i] == below[i]);
    }
    if holds(above, value) {
        let i = choose|i: int| 0 <= i < above.len() && equiv(#[trigger] above[i], value);
        assert(all[i + n + 1] == above[i]);
    }
}

/// One level of the way back up after a key was put in below `orig`, on the
/// side where it belongs: `grown` is the subtree that now stands there. With
/// `grown` hung in, the height recomputed and the node rebalanced, the
/// result is a valid tree again, it holds the keys of `orig` and the new key
/// in its place, and it is as high as `orig` or one higher.
proof fn lemma_grown<T: Ord>(orig: Node<T>, grown: Link<T>, went_left: bool, value: T)
    requires
        total_order::<T>(),
        orig.avl(),
        orig.keys().len() < usize::MAX,
        if went_left {
            lt(value, orig.key())
        } else {
            lt(orig.key(), value)
        },
        link_cached(grown),
        link_balanced(grown),
        strictly_ascending(link_keys(grown)),
        ({
            let was = if went_left {
                orig.left_link()
            } else {
                orig.right_link()
            };
            &&& !holds(link_keys(was), value)
            &&& link_keys(grown) == with_key(link_keys(was), value)
            &&& link_height(was) <= link_height(grown) <= link_height(was) + 1
        }),
    ensures
        ({
            let hung = if went_left {
                orig.with_left(grown)
            } else {
                orig.with_right(grown)
            };
            let done = hung.refreshed().rebalanced();
            &&& hung.height_from_below() <= usize::MAX
            &&& hung.refreshed().cached_below()
            &&& hung.refreshed().balanced_below()
            &&& hung.refreshed().keys().len() <= usize::MAX
            &&& -2 <= hung.refreshed().balance() <= 2
            &&& done.avl()
            &&& !holds(orig.keys(), value)
            &&& done.keys() == with_key(orig.keys(), value)
            &&& orig.cached_height() <= done.cached_height() <= orig.cached_height() + 1
        }),
{
    let below = link_keys(orig.left);
    let above = link_keys(orig.right);
    let x = orig.value;
    let hung = if went_left {
        orig.with_left(grown)
    } else {
        orig.with_right(grown)
    };
    let fresh = hung.refreshed();
    lemma_ascending_split(below, x, above);
    lemma_side_holds(orig, value);
    lemma_trichotomy(x, value);
    lemma_height_within_size(orig);
    lemma_link_height_within_size(grown);
    lemma_link_height_within_size(orig.left);
    lemma_link_height_within_size(orig.right);
    lemma_rank_concat(below.push(x), above, value);
    if went_left {
        let k = rank(below, value) as int;
        let new_below = link_keys(grown);
        lemma_rank_bound(below, value);
        assert(new_below == below.insert(k, value));
        assert((below.push(x)).drop_last() =~= below);
        assert(rank(below.push(x), value) == rank(below, value));
        assert forall|j: int| 0 <= j < above.len() implies !lt(#[trigger] above[j], value) by {
            lemma_lt_transitive(value, x, above[j]);
            lemma_trichotomy(above[j], value);
        }
        lemma_rank_none_below(above, value);
        assert(hung.keys() =~= orig.keys().insert(k, value));
        assert forall|i: int| 0 <= i < new_below.len() implies lt(#[trigger] new_below[i], x) by {
            if i < k {
                assert(new_below[i] == below[i]);
            } else if i > k {
                assert(new_below[i] == below[i - 1]);
            }
        }
        lemma_ascending_join(new_below, x, above);
    } else {
        let k = rank(above, value) as int;
        let new_above = link_keys(grown);
        lemma_rank_bound(above, value);
        assert(new_above == above.insert(k, value));
        assert forall|j: int| 0 <= j < below.push(x).len() implies lt(
            #[trigger] below.push(x)[j],
            value,
        ) by {
            if j < below.len() {
                lemma_lt_transitive(below[j], x, value);
            }
        }
        lemma_rank_all_below(below.push(x), value);
        assert(hung.keys() =~= orig.keys().insert(below.len() + 1 + k, value));
        assert forall|i: int| 0 <= i < new_above.len() implies lt(x, #[trigger] new_above[i]) by {
            if i < k {
                assert(new_above[i] == above[i]);
            } else if i > k {
                assert(new_above[i] == above[i - 1]);
            }
        }
        lemma_ascending_join(below, x, new_above);
    }
    assert(fresh.keys() == hung.keys());
    assert(fresh.cached());
    lemma_rebalanced(fresh);
}

/// Insertion keeps a valid AVL tree valid. The tree after it holds the keys
/// that it held, in their order, and the new key where it belongs; it is as
/// high as before or one higher; and where an equivalent key was there
/// already, it is the very same tree.
pub proof fn lemma_with_key<T: Ord>(link: Link<T>, value: T)
    requires
        total_order::<T>(),
        link_avl(link),
        link_keys(link).len() < usize::MAX,
    ensures
        link_with_key(link, value) is Some,
        link_avl(link_with_key(link, value)),
        link_keys(link_with_key(link, value)) == with_key(link_keys(link), value),
        link_height(link) <= link_height(link_with_key(link, value)) <= link_height(link) + 1,
        holds(link_keys(link), value) ==> link_with_key(link, value) == link,
    decreases link,
{
    match link {
        None => {
            let node = leaf(value);
            assert(link_keys(link) =~= Seq::<T>::empty());
            assert(link_keys(node.left) =~= Seq::<T>::empty());
            assert(link_keys(node.right) =~= Seq::<T>::empty());
            assert(node.keys() =~= Seq::<T>::empty().push(value));
            assert(rank(link_keys(link), value) == 0);
            assert(node.keys() =~= with_key(link_keys(link), value));
            assert(node.cached());
            assert(node.balanced());
        },
        Some(node) => {
            lemma_node_with_key(*node, value);
        },
    }
}

/// What `lemma_with_key` says, for a node, and that the steps of which the
/// insertion is made can be taken: with the new subtree hung in, the height
/// of the node can be recomputed, and the node can be rebalanced.
pub proof fn lemma_node_with_key<T: Ord>(node: Node<T>, value: T)
    requires
        total_order::<T>(),
        node.avl(),
        node.keys().len() < usize::MAX,
    ensures
        node.with_key(value).avl(),
        node.with_key(value).keys() == with_key(node.keys(), value),
        node.cached_height() <= node.with_key(value).cached_height() <= node.cached_height() + 1,
        holds(node.keys(), value) ==> node.with_key(value) == node,
        !equiv(node.key(), value) ==> ({
            let hung = if lt(value, node.key()) {
                node.with_left(link_with_key(node.left_link(), value))
            } else {
                node.with_right(link_with_key(node.right_link(), value))
            };
            &&& hung.height_from_below() <= usize::MAX
            &&& hung.refreshed().cached_below()
            &&& hung.refreshed().balanced_below()
            &&& hung.refreshed().keys().len() <= usize::MAX
            &&& -2 <= hung.refreshed().balance() <= 2
            &&& hung.refreshed().rebalanced() == node.with_key(value)
        }),
    decreases node,
{
    lemma_trichotomy(node.value, value);
    lemma_side_holds(node, value);
    lemma_height_within_size(node);
    lemma_link_height_within_size(node.left);
    lemma_link_height_within_size(node.right);
    if !equiv(node.value, value) {
        let went_left = lt(value, node.value);
        let was = if went_left {
            node.left
        } else {
            node.right
        };
        assert(link_avl(was)) by {
            assert(link_cached(was) && link_balanced(was));
        }
        lemma_with_key(was, value);
        let grown = link_with_key(was, value);
        if holds(link_keys(was), value) {
            lemma_rebalanced(node);
            if went_left {
                assert(node.with_left(grown) == node);
            } else {
                assert(node.with_right(grown) == node);
            }
            assert(node.refreshed() == node);
        } else {
            lemma_grown(node, grown, went_left, value);
        }
    }
}

/// An insertion into a valid AVL tree rotates at one node at most. Where it
/// rotates, the tree is as high afterwards as it was; and a tree that has
/// grown higher was not rotated anywhere, and its root leans to one side,
/// unless it is the new leaf.
pub proof fn lemma_one_rotation<T: Ord>(link: Link<T>, value: T)
    requires
        total_order::<T>(),
        link_avl(link),
        link_keys(link).len() < usize::MAX,
    ensures
        link_rotations(link, value) <= 1,
        link_rotations(link, value) == 1 ==> link_height(link_with_key(link, value))
            == link_height(link),
        link_height(link_with_key(link, value)) == link_height(link) + 1 ==> {
            &&& link_rotations(link, value) == 0
            &&& link is None || link_with_key(link, value).unwrap().balance() != 0
        },
    decreases link,
{
    match link {
        None => {},
        Some(node) => {
            lemma_node_one_rotation(*node, value);
        },
    }
}

/// What `lemma_one_rotation` says, for a node.
pub proof fn lemma_node_one_rotation<T: Ord>(node: Node<T>, value: T)
    requires
        total_order::<T>(),
        node.avl(),
        node.keys().len() < usize::MAX,
    ensures
        node.rotations(value) <= 1,
        node.rotations(value) == 1 ==> node.with_key(value).cached_height()
            == node.cached_height(),
        node.with_key(value).cached_height() == node.cached_height() + 1 ==> {
            &&& node.rotations(value) == 0
            &&& node.with_key(value).balance() != 0
        },
    decreases node,
{
    lemma_trichotomy(node.value, value);
    lemma_height_within_size(node);
    lemma_node_with_key(node, value);
    if !equiv(node.value, value) {
        let went_left = lt(value, node.value);
        let was = if went_left {
            node.left
        } else {
            node.right
        };
        let grown = link_with_key(was, value);
        let hung = if went_left {
            node.with_left(grown)
        } else {
            node.with_right(grown)
        };
        let fresh = hung.refreshed();
        assert(link_avl(was)) by {
            lemma_side_holds(node, value);
            assert(link_cached(was) && link_balanced(was));
        }
        lemma_with_key(was, value);
        lemma_one_rotation(was, value);
        assert(fresh.cached()) by {
            assert(link_cached(grown));
        }
        assert(fresh.balanced_below()) by {
            assert(link_balanced(grown));
        }
        lemma_rebalanced(fresh);
    }
}

} // verus!
