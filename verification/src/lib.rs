//! An ordered set without duplicates, kept as an AVL tree: at every node the
//! heights of the two subtrees differ by at most one, so the tree stays
//! logarithmic in height whatever the order of insertion.
//!
//! [`AvlTree`] offers insertion, membership, size and in-order traversal.
//! Every function is verified against a contract over the ascending sequence
//! of keys that the tree stands for.

pub mod insertion;
pub mod iter;
pub mod node;
pub mod order;
mod path;
pub mod shape;
mod teardown;
pub mod tree;

pub use iter::{Iter, NodeIter};
pub use node::{Link, Node};
pub use tree::AvlTree;
