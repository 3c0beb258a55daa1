//! The record of a descent: the ancestors passed on the way from the root
//! down to the place of a key, and what is known of them on the way back up.

use vstd::prelude::*;
use crate::insertion::{leaf, lemma_node_with_key, lemma_side_holds, lemma_with_key, link_with_key};
use crate::node::{link_avl, link_balanced, link_cached, link_keys, Link, Node};
use crate::order::{equiv, holds, lemma_trichotomy, lt, total_order};
use crate::shape::lemma_height_within_size;

verus! {

/// An ancestor met on the way down to the place of a key, taken out of the
/// tree. The link that the descent followed is empty while the node waits here.
pub(crate) struct Step<T: Ord> {
    pub(crate) node: Box<Node<T>>,
    pub(crate) went_left: bool,
}

impl<T: Ord> Step<T> {
    /// The ancestor with `link` hung where the descent went on.
    pub(crate) open spec fn filled(self, link: Link<T>) -> Node<T> {
        if self.went_left {
            self.node.with_left(link)
        } else {
            self.node.with_right(link)
        }
    }
}

/// The subtree that stood at depth `i` of a descent before anything was
/// taken apart: the `i`-th ancestor, or, below the last one, `bottom`.
pub(crate) open spec fn at_depth<T: Ord>(
    ancestors: Seq<Node<T>>,
    bottom: Link<T>,
    i: int,
) -> Link<T> {
    if 0 <= i < ancestors.len() {
        Some(Box::new(ancestors[i]))
    } else {
        bottom
    }
}

/// `path` is the record of a descent towards `value` through `ancestors`,
/// which ended above `bottom`: each ancestor was a valid tree of at most
/// `bound` keys, the step taken out of it gives it back when the next
/// subtree is hung in, and `value` belongs on the side where the descent went.
pub(crate) closed spec fn descended<T: Ord>(
    path: Seq<Step<T>>,
    ancestors: Seq<Node<T>>,
    bottom: Link<T>,
    value: T,
    bound: nat,
) -> bool {
    &&& path.len() == ancestors.len()
    &&& forall|i: int|
        0 <= i < ancestors.len() ==> {
            &&& (#[trigger] ancestors[i]).avl()
            &&& ancestors[i].keys().len() <= bound
            &&& path[i].filled(at_depth(ancestors, bottom, i + 1)) == ancestors[i]
            &&& if path[i].went_left {
                lt(value, ancestors[i].key())
            } else {
                lt(ancestors[i].key(), value)
            }
        }
}

/// The subtree that stood below the last step of `path` before the descent.
pub(crate) open spec fn stood_below<T: Ord>(
    path: Seq<Step<T>>,
    ancestors: Seq<Node<T>>,
    bottom: Link<T>,
) -> Link<T> {
    at_depth(ancestors, bottom, path.len() as int)
}

/// Before the first step nothing was recorded, and the descent stands at the root.
pub(crate) proof fn lemma_descent_begins<T: Ord>(root: Link<T>, value: T, bound: nat)
    ensures
        descended(Seq::<Step<T>>::empty(), Seq::<Node<T>>::empty(), root, value, bound),
        at_depth(Seq::<Node<T>>::empty(), root, 0) == root,
{
}

/// A step down from the node at `here` to its child on the side where
/// `value` belongs extends the record by that node.
pub(crate) proof fn lemma_descent_goes_on<T: Ord>(
    path: Seq<Step<T>>,
    ancestors: Seq<Node<T>>,
    here: Link<T>,
    value: T,
    bound: nat,
    step: Step<T>,
    child: Link<T>,
)
    requires
        total_order::<T>(),
        descended(path, ancestors, here, value, bound),
        here is Some,
        here.unwrap().avl(),
        here.unwrap().keys().len() <= bound,
        step.filled(child) == *here.unwrap(),
        if step.went_left {
            lt(value, here.unwrap().key())
        } else {
            lt(here.unwrap().key(), value)
        },
    ensures
        descended(path.push(step), ancestors.push(*here.unwrap()), child, value, bound),
        at_depth(ancestors.push(*here.unwrap()), child, 0) == at_depth(ancestors, here, 0),
        link_avl(child),
        link_keys(child).len() <= bound,
        holds(link_keys(child), value) == holds(link_keys(here), value),
{
    let whole = *here.unwrap();
    let longer = ancestors.push(whole);
    let further = path.push(step);
    lemma_side_holds(whole, value);
    lemma_height_within_size(whole);
    assert forall|i: int| 0 <= i < longer.len() implies {
        &&& (#[trigger] longer[i]).avl()
        &&& longer[i].keys().len() <= bound
        &&& further[i].filled(at_depth(longer, child, i + 1)) == longer[i]
        &&& if further[i].went_left {
            lt(value, longer[i].key())
        } else {
            lt(longer[i].key(), value)
        }
    } by {
        if i < ancestors.len() {
            assert(longer[i] == ancestors[i]);
            assert(further[i] == path[i]);
            assert(at_depth(ancestors, here, i + 1) == at_depth(longer, child, i + 1));
        }
    }
}

/// Where the descent ended, the way back up begins: at a node with an
/// equivalent key, which stays, or at an empty link, where the new leaf hangs.
pub(crate) proof fn lemma_ascent_begins<T: Ord>(
    path: Seq<Step<T>>,
    ancestors: Seq<Node<T>>,
    bound: nat,
    now: Link<T>,
    bottom: Link<T>,
    value: T,
    found: bool,
)
    requires
        total_order::<T>(),
        descended(path, ancestors, bottom, value, bound),
        link_avl(bottom),
        found ==> now == bottom && bottom is Some && equiv(bottom.unwrap().key(), value),
        !found ==> bottom is None && now == Some(Box::new(leaf(value))),
    ensures
        now == link_with_key(stood_below(path, ancestors, bottom), value),
        found == holds(link_keys(stood_below(path, ancestors, bottom)), value),
{
    if found {
        lemma_trichotomy(bottom.unwrap().key(), value);
        lemma_side_holds(*bottom.unwrap(), value);
    }
}

/// One level of the way back up: the last recorded step gets the subtree
/// `now` hung in. Where the key was found, that gives the ancestor back as
/// it was. Where it was not, the ancestor can have its height recomputed and
/// its balance restored, which makes of it what insertion makes of it.
pub(crate) proof fn lemma_ascent_goes_on<T: Ord>(
    full: Seq<Step<T>>,
    ancestors: Seq<Node<T>>,
    bottom: Link<T>,
    value: T,
    bound: nat,
    upper: Seq<Step<T>>,
    now: Link<T>,
    found: bool,
)
    requires
        total_order::<T>(),
        bound < usize::MAX,
        descended(full, ancestors, bottom, value, bound),
        upper.is_prefix_of(full),
        upper.len() > 0,
        now == link_with_key(stood_below(upper, ancestors, bottom), value),
        found == holds(link_keys(stood_below(upper, ancestors, bottom)), value),
    ensures
        upper.drop_last().is_prefix_of(full),
        found == holds(link_keys(stood_below(upper.drop_last(), ancestors, bottom)), value),
        ({
            let hung = upper.last().filled(now);
            let fresh = hung.refreshed();
            let above = stood_below(upper.drop_last(), ancestors, bottom);
            if found {
                Some(Box::new(hung)) == link_with_key(above, value)
            } else {
                &&& hung.height_from_below() <= usize::MAX
                &&& fresh.cached_below()
                &&& fresh.balanced_below()
                &&& fresh.keys().len() <= usize::MAX
                &&& -2 <= fresh.balance() <= 2
                &&& Some(Box::new(fresh.rebalanced())) == link_with_key(above, value)
            }
        }),
{
    let depth = upper.len() - 1;
    let step = upper.last();
    let orig = ancestors[depth];
    let was = stood_below(upper, ancestors, bottom);
    assert(step == full[depth]);
    assert(orig.avl());
    assert(step.filled(was) == orig);
    assert(stood_below(upper.drop_last(), ancestors, bottom) == Some(Box::new(orig)));
    lemma_trichotomy(orig.key(), value);
    lemma_side_holds(orig, value);
    lemma_height_within_size(orig);
    lemma_node_with_key(orig, value);
    assert(link_avl(was)) by {
        assert(link_cached(was) && link_balanced(was));
    }
    lemma_with_key(was, value);
    if step.went_left {
        assert(step.filled(now) == orig.with_left(now));
    } else {
        assert(step.filled(now) == orig.with_right(now));
    }
}

} // verus!
