//! A red-black tree: an ordered set of unique keys that stays balanced
//! under insertion and removal.
//!
//! Every operation has a contract over the tree's mathematical model: the
//! set of keys it holds (`tree@`), the keys in ascending order
//! (`tree.in_order()`), and the colour invariants (`tree.colors_valid()`).

pub mod order;
pub mod tree;
pub mod sorted;
pub mod search;
pub mod rotate;
pub mod insert;
pub mod remove;
pub mod inspect;
pub mod laws;

pub use order::{less, total_order};
pub use tree::{BinaryTree, Color};
