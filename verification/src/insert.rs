//! Insertion, and the fix-up that restores the colour invariants after it.

use crate::order::{lemma_less_asymmetric, lemma_less_total, less, total_order};
use crate::tree::{BinaryTree, Color};
use std::cmp::Ordering;
use vstd::prelude::*;

verus! {

impl<T> BinaryTree<T> {
    /// The red leaf as which `key` enters a tree.
    pub open spec fn leaf(key: T) -> Self {
        BinaryTree::Node {
            data: key,
            left: Box::new(BinaryTree::Sentinel),
            right: Box::new(BinaryTree::Sentinel),
            color: Color::Red,
        }
    }

    /// The insertion fix-up at the grandparent of a new red node that went
    /// into the left subtree. Where the left child, the parent, is red and
    /// has a red child: with a red uncle, parent and uncle turn black and
    /// this node red; with a black uncle, a zig-zag is first rotated into
    /// a zig-zig at the parent, then the parent turns black, this node
    /// red, and this node is rotated right. Otherwise nothing changes.
    pub open spec fn red_fixed_left(self) -> Self {
        let parent = self.left_child();
        let uncle = self.right_child();
        if !parent.red_red() {
            self
        } else if uncle.is_red() {
            self.with_left(parent.painted(Color::Black)).with_right(
                uncle.painted(Color::Black),
            ).painted(Color::Red)
        } else {
            let straight = if parent.right_child().is_red() {
                parent.rotated_left()
            } else {
                parent
            };
            self.with_left(straight.painted(Color::Black)).painted(Color::Red).rotated_right()
        }
    }

    /// The mirror image of `red_fixed_left`, for a new red node in the
    /// right subtree.
    pub open spec fn red_fixed_right(self) -> Self {
        let parent = self.right_child();
        let uncle = self.left_child();
        if !parent.red_red() {
            self
        } else if uncle.is_red() {
            self.with_left(uncle.painted(Color::Black)).with_right(
                parent.painted(Color::Black),
            ).painted(Color::Red)
        } else {
            let straight = if parent.left_child().is_red() {
                parent.rotated_right()
            } else {
                parent
            };
            self.with_right(straight.painted(Color::Black)).painted(Color::Red).rotated_left()
        }
    }

    /// What the insertion fix-up asks of the node it works on, seen as the
    /// grandparent of the new red node: it is black, the child that took
    /// the new key is at most one step away from the red rule, the other
    /// child keeps it, and both have the same black depth.
    pub open spec fn red_fixable(self, grown: Self, other: Self) -> bool {
        &&& self is Node
        &&& !self.is_red()
        &&& grown.nearly_red_ok()
        &&& other.red_ok()
        &&& grown.balanced()
        &&& other.balanced()
        &&& grown.black_depth() == other.black_depth()
    }

    /// How a subtree stands after an insertion below it, against what it
    /// was `before`: it is balanced and as deep in black nodes as before,
    /// and the red rule holds but perhaps between the root and one child
    /// of it, and there only if the root was red before.
    pub open spec fn grown_from(self, before: Self) -> bool {
        &&& self.balanced()
        &&& self.black_depth() == before.black_depth()
        &&& self.nearly_red_ok()
        &&& !before.is_red() ==> self.red_ok()
    }

    /// The fix-up on the left moves no key out of its place in the
    /// in-order walk, and under a black node it restores the red rule
    /// without changing the black depth.
    pub proof fn lemma_red_fixed_left(self)
        ensures
            self.red_fixed_left().in_order() == self.in_order(),
            self.red_fixable(self.left_child(), self.right_child()) ==> {
                &&& self.red_fixed_left().red_ok()
                &&& self.red_fixed_left().balanced()
                &&& self.red_fixed_left().black_depth() == self.black_depth()
            },
    {
        reveal_with_fuel(BinaryTree::red_ok, 3);
        reveal_with_fuel(BinaryTree::balanced, 3);
        reveal_with_fuel(BinaryTree::black_depth, 3);
        let parent = self.left_child();
        let uncle = self.right_child();
        if parent.red_red() && uncle.is_red() {
            let half = self.with_left(parent.painted(Color::Black));
            parent.lemma_painted_walk(Color::Black);
            self.lemma_with_left_walk(parent.painted(Color::Black));
            uncle.lemma_painted_walk(Color::Black);
            half.lemma_with_right_walk(uncle.painted(Color::Black));
            half.with_right(uncle.painted(Color::Black)).lemma_painted_walk(Color::Red);
        } else if parent.red_red() {
            let straight = if parent.right_child().is_red() {
                parent.rotated_left()
            } else {
                parent
            };
            parent.lemma_rotated_left_walk();
            straight.lemma_painted_walk(Color::Black);
            self.lemma_with_left_walk(straight.painted(Color::Black));
            let bent = self.with_left(straight.painted(Color::Black));
            bent.lemma_painted_walk(Color::Red);
            bent.painted(Color::Red).lemma_rotated_right_walk();
        }
    }

    /// The fix-up on the right moves no key out of its place in the
    /// in-order walk, and under a black node it restores the red rule
    /// without changing the black depth.
    pub proof fn lemma_red_fixed_right(self)
        ensures
            self.red_fixed_right().in_order() == self.in_order(),
            self.red_fixable(self.right_child(), self.left_child()) ==> {
                &&& self.red_fixed_right().red_ok()
                &&& self.red_fixed_right().balanced()
                &&& self.red_fixed_right().black_depth() == self.black_depth()
            },
    {
        reveal_with_fuel(BinaryTree::red_ok, 3);
        reveal_with_fuel(BinaryTree::balanced, 3);
        reveal_with_fuel(BinaryTree::black_depth, 3);
        let parent = self.right_child();
        let uncle = self.left_child();
        if parent.red_red() && uncle.is_red() {
            let half = self.with_left(uncle.painted(Color::Black));
            uncle.lemma_painted_walk(Color::Black);
            self.lemma_with_left_walk(uncle.painted(Color::Black));
            parent.lemma_painted_walk(Color::Black);
            half.lemma_with_right_walk(parent.painted(Color::Black));
            half.with_right(parent.painted(Color::Black)).lemma_painted_walk(Color::Red);
        } else if parent.red_red() {
            let straight = if parent.left_child().is_red() {
                parent.rotated_right()
            } else {
                parent
            };
            parent.lemma_rotated_right_walk();
            straight.lemma_painted_walk(Color::Black);
            self.lemma_with_right_walk(straight.painted(Color::Black));
            let bent = self.with_right(straight.painted(Color::Black));
            bent.lemma_painted_walk(Color::Red);
            bent.painted(Color::Red).lemma_rotated_left_walk();
        }
    }

    /// Runs the insertion fix-up on the left, in place.
    pub fn fix_red_left(&mut self)
        ensures
            *final(self) == old(self).red_fixed_left(),
    {
        if !self.left_ref().is_red_red() {
            return ;
        }
        if self.right_ref().is_red() {
            self.paint_left(Color::Black);
            self.paint_right(Color::Black);
            self.paint(Color::Red);
        } else {
            match self {
                BinaryTree::Node { left, .. } => {
                    if left.right_ref().is_red() {
                        left.rotate_left();
                    }
                },
                BinaryTree::Sentinel => {},
            }
            self.paint_left(Color::Black);
            self.paint(Color::Red);
            self.rotate_right();
        }
    }

    /// Runs the insertion fix-up on the right, in place.
    pub fn fix_red_right(&mut self)
        ensures
            *final(self) == old(self).red_fixed_right(),
    {
        if !self.right_ref().is_red_red() {
            return ;
        }
        if self.left_ref().is_red() {
            self.paint_left(Color::Black);
            self.paint_right(Color::Black);
            self.paint(Color::Red);
        } else {
            match self {
                BinaryTree::Node { right, .. } => {
                    if right.left_ref().is_red() {
                        right.rotate_right();
                    }
                },
                BinaryTree::Sentinel => {},
            }
            self.paint_right(Color::Black);
            self.paint(Color::Red);
            self.rotate_left();
        }
    }
}

impl<T: Ord> BinaryTree<T> {
    /// The subtree after the insertion of `new` below this position, and
    /// whether the key went in. The search descends to the left of a
    /// greater key and to the right of a lesser one. Where it ends at a
    /// sentinel, the key enters there as a red leaf, and each node on the
    /// way back up runs the fix-up on the side the key went to. Where it
    /// meets the key, nothing changes.
    pub open spec fn inserted(self, new: T) -> (Self, bool)
        decreases self,
    {
        match self {
            BinaryTree::Node { data, left, right, .. } => {
                if less(new, data) {
                    let (below, grew) = left.inserted(new);
                    if grew {
                        (self.with_left(below).red_fixed_left(), true)
                    } else {
                        (self, false)
                    }
                } else if less(data, new) {
                    let (below, grew) = right.inserted(new);
                    if grew {
                        (self.with_right(below).red_fixed_right(), true)
                    } else {
                        (self, false)
                    }
                } else {
                    (self, false)
                }
            },
            BinaryTree::Sentinel => (Self::leaf(new), true),
        }
    }

    /// The tree after `insert`: the outcome of `inserted`, with the root
    /// painted black if the key went in.
    pub open spec fn after_insert(self, new: T) -> Self {
        let (tree, grew) = self.inserted(new);
        if grew {
            tree.painted(Color::Black)
        } else {
            tree
        }
    }

    /// An insertion below a position keeps the order of the subtree and
    /// adds the key to its keys; the key goes in exactly if it was not
    /// there, and else the subtree stays as it is. A subtree that kept the
    /// colour invariants stands as `grown_from` says.
    pub proof fn lemma_inserted(self, new: T)
        requires
            total_order::<T>(),
            self.ordered(),
        ensures
            self.inserted(new).0.ordered(),
            self.inserted(new).0@ == self@.insert(new),
            self.inserted(new).1 == !self@.contains(new),
            self@.contains(new) ==> self.inserted(new).0 == self,
            self.colors_valid() ==> self.inserted(new).0.grown_from(self),
        decreases self,
    {
        match self {
            BinaryTree::Node { data, left, right, .. } => {
                lemma_less_asymmetric(new, data);
                lemma_less_total(new, data);
                if less(new, data) {
                    left.lemma_inserted(new);
                    let (below, grew) = left.inserted(new);
                    let mid = self.with_left(below);
                    assert(!right@.contains(new));
                    assert(mid.ordered());
                    assert(mid@ =~= self@.insert(new));
                    if grew {
                        mid.lemma_red_fixed_left();
                        mid.lemma_same_walk(mid.red_fixed_left());
                    } else {
                        assert(mid == self);
                    }
                } else if less(data, new) {
                    right.lemma_inserted(new);
                    let (below, grew) = right.inserted(new);
                    let mid = self.with_right(below);
                    assert(!left@.contains(new));
                    assert(mid.ordered());
                    assert(mid@ =~= self@.insert(new));
                    if grew {
                        mid.lemma_red_fixed_right();
                        mid.lemma_same_walk(mid.red_fixed_right());
                    } else {
                        assert(mid == self);
                    }
                } else {
                    assert(self@ =~= self@.insert(new));
                }
            },
            BinaryTree::Sentinel => {
                reveal_with_fuel(BinaryTree::keys, 2);
                reveal_with_fuel(BinaryTree::ordered, 2);
                reveal_with_fuel(BinaryTree::red_ok, 2);
                reveal_with_fuel(BinaryTree::balanced, 2);
                reveal_with_fuel(BinaryTree::black_depth, 2);
                assert(Self::leaf(new)@ =~= self@.insert(new));
            },
        }
    }

    /// What `insert` makes of a tree: the tree keeps its order and gains
    /// the key; a tree that holds the key stays exactly as it is, and else
    /// the root comes out black; the colour invariants are kept, and so a
    /// red-black tree stays one.
    pub proof fn lemma_after_insert(self, new: T)
        requires
            total_order::<T>(),
            self.ordered(),
        ensures
            self.after_insert(new).ordered(),
            self.after_insert(new)@ == self@.insert(new),
            self@.contains(new) ==> self.after_insert(new) == self,
            !self@.contains(new) ==> !self.after_insert(new).is_red(),
            self.colors_valid() ==> self.after_insert(new).colors_valid(),
            self.is_red_black() ==> self.after_insert(new).is_red_black(),
    {
        self.lemma_inserted(new);
        let (tree, grew) = self.inserted(new);
        tree.lemma_same_walk(tree.painted(Color::Black));
    }

    /// Runs `inserted` in place: inserts `new` below this position, runs
    /// the fix-up on the way back up as far as this position, and says
    /// whether the key went in.
    pub fn insert_at(&mut self, new: T) -> (grew: bool)
        requires
            total_order::<T>(),
        ensures
            (*final(self), grew) == old(self).inserted(new),
        decreases *old(self),
    {
        match self {
            BinaryTree::Node { data, left, right, color: _ } => {
                proof {
                    lemma_less_asymmetric(new, *data);
                }
                match new.cmp(data) {
                    Ordering::Less => {
                        let grew = left.insert_at(new);
                        if grew {
                            self.fix_red_left();
                        }
                        grew
                    },
                    Ordering::Greater => {
                        let grew = right.insert_at(new);
                        if grew {
                            self.fix_red_right();
                        }
                        grew
                    },
                    Ordering::Equal => false,
                }
            },
            BinaryTree::Sentinel => {
                *self = BinaryTree::new(new);
                true
            },
        }
    }

    /// Inserts `new`; a tree that holds it already stays exactly as it is.
    /// Otherwise the key goes in as a red leaf where the search for it
    /// ends, the fix-up repairs the red rule from there up to the root,
    /// and the root is painted black. The tree keeps its order and gains
    /// the key, and a red-black tree stays one.
    pub fn insert(&mut self, new: T)
        requires
            total_order::<T>(),
            old(self).ordered(),
        ensures
            *final(self) == old(self).after_insert(new),
            final(self).ordered(),
            final(self)@ == old(self)@.insert(new),
            old(self)@.contains(new) ==> *final(self) == *old(self),
            !old(self)@.contains(new) ==> !final(self).is_red(),
            old(self).colors_valid() ==> final(self).colors_valid(),
            old(self).is_red_black() ==> final(self).is_red_black(),
    {
        proof {
            self.lemma_after_insert(new);
        }
        let grew = self.insert_at(new);
        if grew {
            self.paint(Color::Black);
        }
    }
}

} // verus!
