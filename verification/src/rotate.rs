//! The local edits that rebalancing is made of: recolouring a position
//! and rotating a node with one of its children.

use crate::tree::{BinaryTree, Color};
use vstd::prelude::*;

verus! {

impl<T> BinaryTree<T> {
    /// This tree with its root recoloured; the sentinel stays as it is.
    pub open spec fn painted(self, c: Color) -> Self {
        match self {
            BinaryTree::Node { data, left, right, color } => BinaryTree::Node {
                data,
                left,
                right,
                color: c,
            },
            BinaryTree::Sentinel => BinaryTree::Sentinel,
        }
    }

    /// This node with `child` as its left subtree; the sentinel stays as
    /// it is.
    pub open spec fn with_left(self, child: Self) -> Self {
        match self {
            BinaryTree::Node { data, left, right, color } => BinaryTree::Node {
                data,
                left: Box::new(child),
                right,
                color,
            },
            BinaryTree::Sentinel => BinaryTree::Sentinel,
        }
    }

    /// This node with `child` as its right subtree; the sentinel stays as
    /// it is.
    pub open spec fn with_right(self, child: Self) -> Self {
        match self {
            BinaryTree::Node { data, left, right, color } => BinaryTree::Node {
                data,
                left,
                right: Box::new(child),
                color,
            },
            BinaryTree::Sentinel => BinaryTree::Sentinel,
        }
    }

    /// This node with `key` in place of its own; the sentinel stays as it
    /// is.
    pub open spec fn with_key(self, key: T) -> Self {
        match self {
            BinaryTree::Node { data, left, right, color } => BinaryTree::Node {
                data: key,
                left,
                right,
                color,
            },
            BinaryTree::Sentinel => BinaryTree::Sentinel,
        }
    }

    /// This tree rotated left: the right child takes the root's place, the
    /// root becomes its left child and adopts its former left subtree as
    /// right subtree. Colours stay with their keys. A tree without a right
    /// child stays as it is.
    pub open spec fn rotated_left(self) -> Self {
        match self {
            BinaryTree::Node { data, left, right, color } => match *right {
                BinaryTree::Node { data: pivot, left: inner, right: outer, color: pivot_color } => {
                    BinaryTree::Node {
                        data: pivot,
                        left: Box::new(BinaryTree::Node { data, left, right: inner, color }),
                        right: outer,
                        color: pivot_color,
                    }
                },
                BinaryTree::Sentinel => self,
            },
            BinaryTree::Sentinel => BinaryTree::Sentinel,
        }
    }

    /// This tree rotated right: the mirror image of `rotated_left`.
    pub open spec fn rotated_right(self) -> Self {
        match self {
            BinaryTree::Node { data, left, right, color } => match *left {
                BinaryTree::Node { data: pivot, left: outer, right: inner, color: pivot_color } => {
                    BinaryTree::Node {
                        data: pivot,
                        left: outer,
                        right: Box::new(BinaryTree::Node { data, left: inner, right, color }),
                        color: pivot_color,
                    }
                },
                BinaryTree::Sentinel => self,
            },
            BinaryTree::Sentinel => BinaryTree::Sentinel,
        }
    }

    /// Recolouring moves no key.
    pub proof fn lemma_painted_walk(self, c: Color)
        ensures
            self.painted(c).in_order() == self.in_order(),
            self.painted(c).size() == self.size(),
    {
    }

    /// A left subtree may give way to one with the same in-order walk.
    pub proof fn lemma_with_left_walk(self, child: Self)
        requires
            child.in_order() == self.left_child().in_order(),
        ensures
            self.with_left(child).in_order() == self.in_order(),
    {
    }

    /// A right subtree may give way to one with the same in-order walk.
    pub proof fn lemma_with_right_walk(self, child: Self)
        requires
            child.in_order() == self.right_child().in_order(),
        ensures
            self.with_right(child).in_order() == self.in_order(),
    {
    }

    /// A left rotation keeps the in-order walk.
    pub proof fn lemma_rotated_left_walk(self)
        ensures
            self.rotated_left().in_order() == self.in_order(),
    {
        match self {
            BinaryTree::Node { data, left, right, color } => match *right {
                BinaryTree::Node { data: pivot, left: inner, right: outer, color: pivot_color } => {
                    let below = BinaryTree::Node { data, left, right: inner, color };
                    assert(below.in_order() == left.in_order() + seq![data] + inner.in_order());
                    assert(right.in_order() == inner.in_order() + seq![pivot] + outer.in_order());
                    assert(self.rotated_left().in_order() == below.in_order() + seq![pivot]
                        + outer.in_order());
                    assert(self.rotated_left().in_order() =~= self.in_order());
                },
                BinaryTree::Sentinel => {},
            },
            BinaryTree::Sentinel => {},
        }
    }

    /// A right rotation keeps the in-order walk.
    pub proof fn lemma_rotated_right_walk(self)
        ensures
            self.rotated_right().in_order() == self.in_order(),
    {
        match self {
            BinaryTree::Node { data, left, right, color } => match *left {
                BinaryTree::Node { data: pivot, left: outer, right: inner, color: pivot_color } => {
                    let below = BinaryTree::Node { data, left: inner, right, color };
                    assert(below.in_order() == inner.in_order() + seq![data] + right.in_order());
                    assert(left.in_order() == outer.in_order() + seq![pivot] + inner.in_order());
                    assert(self.rotated_right().in_order() == outer.in_order() + seq![pivot]
                        + below.in_order());
                    assert(self.rotated_right().in_order() =~= self.in_order());
                },
                BinaryTree::Sentinel => {},
            },
            BinaryTree::Sentinel => {},
        }
    }

    /// Recolours this position. The sentinel stays black.
    pub fn paint(&mut self, c: Color)
        ensures
            *final(self) == old(self).painted(c),
            final(self).in_order() == old(self).in_order(),
    {
        match self {
            BinaryTree::Node { color, .. } => {
                *color = c;
            },
            BinaryTree::Sentinel => {},
        }
    }

    /// Recolours the right child of this node.
    pub fn paint_right(&mut self, c: Color)
        ensures
            *final(self) == old(self).with_right(old(self).right_child().painted(c)),
            final(self).in_order() == old(self).in_order(),
    {
        match self {
            BinaryTree::Node { right, .. } => {
                right.paint(c);
            },
            BinaryTree::Sentinel => {},
        }
    }

    /// Recolours the left child of this node.
    pub fn paint_left(&mut self, c: Color)
        ensures
            *final(self) == old(self).with_left(old(self).left_child().painted(c)),
            final(self).in_order() == old(self).in_order(),
    {
        match self {
            BinaryTree::Node { left, .. } => {
                left.paint(c);
            },
            BinaryTree::Sentinel => {},
        }
    }

    /// Rotates this node left, in place.
    pub fn rotate_left(&mut self)
        ensures
            *final(self) == old(self).rotated_left(),
            final(self).in_order() == old(self).in_order(),
    {
        proof {
            self.lemma_rotated_left_walk();
        }
        let mut node = BinaryTree::Sentinel;
        std::mem::swap(self, &mut node);
        match node {
            BinaryTree::Node { data, left, right, color } => match *right {
                BinaryTree::Node { data: pivot, left: inner, right: outer, color: pivot_color } => {
                    *self = BinaryTree::Node {
                        data: pivot,
                        left: Box::new(BinaryTree::Node { data, left, right: inner, color }),
                        right: outer,
                        color: pivot_color,
                    };
                },
                BinaryTree::Sentinel => {
                    *self = BinaryTree::Node {
                        data,
                        left,
                        right: Box::new(BinaryTree::Sentinel),
                        color,
                    };
                },
            },
            BinaryTree::Sentinel => {},
        }
    }

    /// Rotates this node right, in place.
    pub fn rotate_right(&mut self)
        ensures
            *final(self) == old(self).rotated_right(),
            final(self).in_order() == old(self).in_order(),
    {
        proof {
            self.lemma_rotated_right_walk();
        }
        let mut node = BinaryTree::Sentinel;
        std::mem::swap(self, &mut node);
        match node {
            BinaryTree::Node { data, left, right, color } => match *left {
                BinaryTree::Node { data: pivot, left: outer, right: inner, color: pivot_color } => {
                    *self = BinaryTree::Node {
                        data: pivot,
                        left: outer,
                        right: Box::new(BinaryTree::Node { data, left: inner, right, color }),
                        color: pivot_color,
                    };
                },
                BinaryTree::Sentinel => {
                    *self = BinaryTree::Node {
                        data,
                        left: Box::new(BinaryTree::Sentinel),
                        right,
                        color,
                    };
                },
            },
            BinaryTree::Sentinel => {},
        }
    }
}

} // verus!
