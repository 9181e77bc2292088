//! Membership lookup.

use crate::order::total_order;
use crate::tree::BinaryTree;
use std::cmp::Ordering;
use vstd::prelude::*;

verus! {

impl<T: Ord> BinaryTree<T> {
    /// Whether `needle` is a key of the tree, by binary search from the
    /// root.
    pub fn contains(&self, needle: T) -> (found: bool)
        requires
            total_order::<T>(),
            self.ordered(),
        ensures
            found == self@.contains(needle),
    {
        let mut node = self;
        loop
            invariant
                total_order::<T>(),
                node.ordered(),
                self@.contains(needle) == node@.contains(needle),
            decreases node,
        {
            match node {
                BinaryTree::Node { data, left, right, color: _ } => match needle.cmp(data) {
                    Ordering::Less => {
                        assert(!right.keys().contains(needle));
                        node = left;
                    },
                    Ordering::Greater => {
                        assert(!left.keys().contains(needle));
                        node = right;
                    },
                    Ordering::Equal => {
                        return true;
                    },
                },
                BinaryTree::Sentinel => {
                    return false;
                },
            }
        }
    }
}

} // verus!
