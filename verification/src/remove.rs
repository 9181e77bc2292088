//! Removal, and the fix-up that restores the black-height invariant after
//! a black node has left a path.

use crate::order::{lemma_less_asymmetric, lemma_less_total, less, total_order};
use crate::sorted::lemma_drop_middle;
use crate::tree::{BinaryTree, Color};
use std::cmp::Ordering;
use vstd::prelude::*;

verus! {

impl<T> BinaryTree<T> {
    /// The removal fix-up with the deficit in the left subtree and a black
    /// sibling on the right, and whether the deficit is at this node
    /// afterwards. With both of the sibling's children black, the sibling
    /// turns red and the deficit moves up to this node, which absorbs it
    /// by turning black if it was red. With only the near child red, the
    /// sibling is first turned red and rotated right, and the near child,
    /// now the sibling, turned black. With the far child red, the sibling
    /// takes this node's colour, this node and the far child turn black,
    /// and this node is rotated left.
    pub open spec fn black_sibling_fixed_left(self) -> (Self, bool) {
        let sibling = self.right_child();
        if !sibling.left_child().is_red() && !sibling.right_child().is_red() {
            (self.with_right(sibling.painted(Color::Red)).painted(Color::Black), !self.is_red())
        } else {
            let outward = if sibling.right_child().is_red() {
                sibling
            } else {
                sibling.painted(Color::Red).rotated_right().painted(Color::Black)
            };
            let far = outward.right_child();
            let sibling = outward.painted(self.spec_color()).with_right(far.painted(Color::Black));
            (self.with_right(sibling).painted(Color::Black).rotated_left(), false)
        }
    }

    /// The mirror image of `black_sibling_fixed_left`, for a deficit in
    /// the right subtree.
    pub open spec fn black_sibling_fixed_right(self) -> (Self, bool) {
        let sibling = self.left_child();
        if !sibling.left_child().is_red() && !sibling.right_child().is_red() {
            (self.with_left(sibling.painted(Color::Red)).painted(Color::Black), !self.is_red())
        } else {
            let outward = if sibling.left_child().is_red() {
                sibling
            } else {
                sibling.painted(Color::Red).rotated_left().painted(Color::Black)
            };
            let far = outward.left_child();
            let sibling = outward.painted(self.spec_color()).with_left(far.painted(Color::Black));
            (self.with_left(sibling).painted(Color::Black).rotated_right(), false)
        }
    }

    /// The removal fix-up at the parent of a left subtree that came out
    /// one black node short, and whether the deficit is at this node
    /// afterwards. A red sibling is first turned black, this node red, and
    /// this node rotated left, which leaves the deficit under this node,
    /// now red and one level down, with a black sibling; the black-sibling
    /// cases do the rest.
    pub open spec fn deficit_fixed_left(self) -> (Self, bool) {
        let sibling = self.right_child();
        if sibling.is_red() {
            let turned = self.with_right(sibling.painted(Color::Black)).painted(
                Color::Red,
            ).rotated_left();
            (turned.with_left(turned.left_child().black_sibling_fixed_left().0), false)
        } else {
            self.black_sibling_fixed_left()
        }
    }

    /// The mirror image of `deficit_fixed_left`, for a right subtree that
    /// came out short.
    pub open spec fn deficit_fixed_right(self) -> (Self, bool) {
        let sibling = self.left_child();
        if sibling.is_red() {
            let turned = self.with_left(sibling.painted(Color::Black)).painted(
                Color::Red,
            ).rotated_right();
            (turned.with_right(turned.right_child().black_sibling_fixed_right().0), false)
        } else {
            self.black_sibling_fixed_right()
        }
    }

    /// This position without its node, and whether the paths through it
    /// are one black node short afterwards. A node with at most one real
    /// child gives way to that child, or to the sentinel. Nothing is
    /// missing where the node was red, nor where a red child took the
    /// place of a black node and turned black. A node with two real
    /// children, and the sentinel, stay.
    pub open spec fn unlinked(self) -> (Self, bool) {
        let left = self.left_child();
        let right = self.right_child();
        if left is Node && right is Node {
            (self, false)
        } else {
            let child = if left is Sentinel {
                right
            } else {
                left
            };
            if self.is_red() || self is Sentinel {
                (child, false)
            } else if child.is_red() {
                (child.painted(Color::Black), false)
            } else {
                (child, true)
            }
        }
    }

    /// The least key of the subtree as the leftmost path leads to it, or
    /// `other` below the sentinel.
    pub open spec fn least_or(self, other: T) -> T
        decreases self,
    {
        match self {
            BinaryTree::Node { data, left, .. } => left.least_or(data),
            BinaryTree::Sentinel => other,
        }
    }

    /// The subtree without its leftmost node, and whether it came out one
    /// black node short: the leftmost node is unlinked, and each node on
    /// the way back up runs the fix-up if its left subtree came out short.
    pub open spec fn without_least(self) -> (Self, bool)
        decreases self,
    {
        match self {
            BinaryTree::Node { left, .. } => {
                if *left is Sentinel {
                    self.unlinked()
                } else {
                    let (below, deficit) = left.without_least();
                    if deficit {
                        self.with_left(below).deficit_fixed_left()
                    } else {
                        (self.with_left(below), false)
                    }
                }
            },
            BinaryTree::Sentinel => (self, false),
        }
    }

    /// The subtree without the key at its root, and whether it came out
    /// one black node short. A node with two real children takes over the
    /// key of its in-order successor, the least key of its right subtree,
    /// whose node leaves in its place; any other node is unlinked.
    pub open spec fn without_root(self) -> (Self, bool) {
        let left = self.left_child();
        let right = self.right_child();
        if left is Sentinel || right is Sentinel {
            self.unlinked()
        } else {
            let (below, deficit) = right.without_least();
            let next = self.with_key(right.least_or(self->data)).with_right(below);
            if deficit {
                next.deficit_fixed_right()
            } else {
                (next, false)
            }
        }
    }

    /// The black depth of this node as measured through `child`, whatever
    /// its other subtree has become.
    pub open spec fn depth_through(self, child: Self) -> nat {
        child.black_depth() + if self.is_red() {
            0nat
        } else {
            1nat
        }
    }

    /// How a subtree stands after a removal below it, against what it was
    /// `before`: the colour invariants hold; with a `deficit` its paths
    /// are one black node short, else they are as long as before; a black
    /// root stays black; and only a subtree with a black root can come
    /// out short.
    pub open spec fn shrunk_from(self, before: Self, deficit: bool) -> bool {
        self.shrunk_to(before.black_depth(), before.is_red(), deficit)
    }

    /// `shrunk_from`, with the former black depth and root colour given as
    /// such.
    pub open spec fn shrunk_to(self, depth: nat, was_red: bool, deficit: bool) -> bool {
        &&& self.colors_valid()
        &&& self.black_depth() + if deficit {
            1nat
        } else {
            0nat
        } == depth
        &&& !was_red ==> !self.is_red()
        &&& deficit ==> !was_red
    }

    /// What the removal fix-up asks of the node it works on: the subtree
    /// on the `short` side has a black root and is one black node short of
    /// the `tall` one, both keep the colour invariants, and a red node has
    /// no red child on the tall side.
    pub open spec fn short_by_one(self, short: Self, tall: Self) -> bool {
        &&& self is Node
        &&& short.colors_valid()
        &&& tall.colors_valid()
        &&& !short.is_red()
        &&& short.black_depth() + 1 == tall.black_depth()
        &&& self.is_red() ==> !tall.is_red()
    }

    /// The black-sibling cases on the left move no key out of its place in
    /// the in-order walk. Where the left subtree is one black node short
    /// of a right subtree with a black root, the colour invariants hold
    /// afterwards, and the subtree is as deep in black nodes as it was
    /// before the removal, or one short if the deficit is now at its root.
    pub proof fn lemma_black_sibling_fixed_left(self)
        ensures
            self.black_sibling_fixed_left().0.in_order() == self.in_order(),
            self.short_by_one(self.left_child(), self.right_child()) && !self.right_child().is_red()
                ==> self.black_sibling_fixed_left().0.shrunk_to(
                self.depth_through(self.right_child()),
                self.is_red(),
                self.black_sibling_fixed_left().1,
            ),
    {
        reveal_with_fuel(BinaryTree::red_ok, 3);
        reveal_with_fuel(BinaryTree::balanced, 3);
        reveal_with_fuel(BinaryTree::black_depth, 3);
        let sibling = self.right_child();
        sibling.lemma_painted_walk(Color::Red);
        if sibling.left_child().is_red() || sibling.right_child().is_red() {
            let outward = if sibling.right_child().is_red() {
                sibling
            } else {
                sibling.painted(Color::Red).rotated_right().painted(Color::Black)
            };
            sibling.painted(Color::Red).lemma_rotated_right_walk();
            sibling.painted(Color::Red).rotated_right().lemma_painted_walk(Color::Black);
            let far = outward.right_child();
            let tinted = outward.painted(self.spec_color());
            outward.lemma_painted_walk(self.spec_color());
            far.lemma_painted_walk(Color::Black);
            tinted.lemma_with_right_walk(far.painted(Color::Black));
            let recoloured = tinted.with_right(far.painted(Color::Black));
            self.lemma_with_right_walk(recoloured);
            self.with_right(recoloured).lemma_painted_walk(Color::Black);
            self.with_right(recoloured).painted(Color::Black).lemma_rotated_left_walk();
        } else {
            self.lemma_with_right_walk(sibling.painted(Color::Red));
            self.with_right(sibling.painted(Color::Red)).lemma_painted_walk(Color::Black);
        }
    }

    /// The mirror image of `lemma_black_sibling_fixed_left`.
    pub proof fn lemma_black_sibling_fixed_right(self)
        ensures
            self.black_sibling_fixed_right().0.in_order() == self.in_order(),
            self.short_by_one(self.right_child(), self.left_child()) && !self.left_child().is_red()
                ==> self.black_sibling_fixed_right().0.shrunk_to(
                self.depth_through(self.left_child()),
                self.is_red(),
                self.black_sibling_fixed_right().1,
            ),
    {
        reveal_with_fuel(BinaryTree::red_ok, 3);
        reveal_with_fuel(BinaryTree::balanced, 3);
        reveal_with_fuel(BinaryTree::black_depth, 3);
        let sibling = self.left_child();
        sibling.lemma_painted_walk(Color::Red);
        if sibling.left_child().is_red() || sibling.right_child().is_red() {
            let outward = if sibling.left_child().is_red() {
                sibling
            } else {
                sibling.painted(Color::Red).rotated_left().painted(Color::Black)
            };
            sibling.painted(Color::Red).lemma_rotated_left_walk();
            sibling.painted(Color::Red).rotated_left().lemma_painted_walk(Color::Black);
            let far = outward.left_child();
            let tinted = outward.painted(self.spec_color());
            outward.lemma_painted_walk(self.spec_color());
            far.lemma_painted_walk(Color::Black);
            tinted.lemma_with_left_walk(far.painted(Color::Black));
            let recoloured = tinted.with_left(far.painted(Color::Black));
            self.lemma_with_left_walk(recoloured);
            self.with_left(recoloured).lemma_painted_walk(Color::Black);
            self.with_left(recoloured).painted(Color::Black).lemma_rotated_right_walk();
        } else {
            self.lemma_with_left_walk(sibling.painted(Color::Red));
            self.with_left(sibling.painted(Color::Red)).lemma_painted_walk(Color::Black);
        }
    }

    /// The removal fix-up on the left moves no key out of its place in the
    /// in-order walk. Where the left subtree is one black node short of
    /// the right one, the colour invariants hold afterwards, and the
    /// subtree is as deep in black nodes as it was before the removal, or
    /// one short if the deficit is now at its root.
    pub proof fn lemma_deficit_fixed_left(self)
        ensures
            self.deficit_fixed_left().0.in_order() == self.in_order(),
            self.short_by_one(self.left_child(), self.right_child())
                ==> self.deficit_fixed_left().0.shrunk_to(
                self.depth_through(self.right_child()),
                self.is_red(),
                self.deficit_fixed_left().1,
            ),
    {
        reveal_with_fuel(BinaryTree::red_ok, 3);
        reveal_with_fuel(BinaryTree::balanced, 3);
        reveal_with_fuel(BinaryTree::black_depth, 3);
        let sibling = self.right_child();
        if sibling.is_red() {
            sibling.lemma_painted_walk(Color::Black);
            self.lemma_with_right_walk(sibling.painted(Color::Black));
            self.with_right(sibling.painted(Color::Black)).lemma_painted_walk(Color::Red);
            let recoloured = self.with_right(sibling.painted(Color::Black)).painted(Color::Red);
            recoloured.lemma_rotated_left_walk();
            let turned = recoloured.rotated_left();
            turned.left_child().lemma_black_sibling_fixed_left();
            turned.lemma_with_left_walk(turned.left_child().black_sibling_fixed_left().0);
        } else {
            self.lemma_black_sibling_fixed_left();
        }
    }

    /// The mirror image of `lemma_deficit_fixed_left`.
    pub proof fn lemma_deficit_fixed_right(self)
        ensures
            self.deficit_fixed_right().0.in_order() == self.in_order(),
            self.short_by_one(self.right_child(), self.left_child())
                ==> self.deficit_fixed_right().0.shrunk_to(
                self.depth_through(self.left_child()),
                self.is_red(),
                self.deficit_fixed_right().1,
            ),
    {
        reveal_with_fuel(BinaryTree::red_ok, 3);
        reveal_with_fuel(BinaryTree::balanced, 3);
        reveal_with_fuel(BinaryTree::black_depth, 3);
        let sibling = self.left_child();
        if sibling.is_red() {
            sibling.lemma_painted_walk(Color::Black);
            self.lemma_with_left_walk(sibling.painted(Color::Black));
            self.with_left(sibling.painted(Color::Black)).lemma_painted_walk(Color::Red);
            let recoloured = self.with_left(sibling.painted(Color::Black)).painted(Color::Red);
            recoloured.lemma_rotated_right_walk();
            let turned = recoloured.rotated_right();
            turned.right_child().lemma_black_sibling_fixed_right();
            turned.lemma_with_right_walk(turned.right_child().black_sibling_fixed_right().0);
        } else {
            self.lemma_black_sibling_fixed_right();
        }
    }

    /// A node with at most one real child leaves the in-order walk when it
    /// is unlinked, and nothing else moves. A subtree that kept the colour
    /// invariants stands as `shrunk_from` says.
    pub proof fn lemma_unlinked(self)
        requires
            self.left_child() is Sentinel || self.right_child() is Sentinel,
        ensures
            self.unlinked().0.in_order() == self.left_child().in_order()
                + self.right_child().in_order(),
            self.colors_valid() ==> self.unlinked().0.shrunk_from(self, self.unlinked().1),
    {
        reveal_with_fuel(BinaryTree::red_ok, 2);
        reveal_with_fuel(BinaryTree::balanced, 2);
        reveal_with_fuel(BinaryTree::black_depth, 2);
        assert(self.unlinked().0.in_order() =~= self.left_child().in_order()
            + self.right_child().in_order());
    }

    /// The key that `without_least` takes out of a node's subtree is the
    /// first of the in-order walk, and the rest of the walk stays. A
    /// subtree that kept the colour invariants stands as `shrunk_from`
    /// says.
    pub proof fn lemma_without_least(self, other: T)
        ensures
            self is Node ==> self.in_order() == seq![self.least_or(other)]
                + self.without_least().0.in_order(),
            self.colors_valid() ==> self.without_least().0.shrunk_from(
                self,
                self.without_least().1,
            ),
        decreases self,
    {
        match self {
            BinaryTree::Node { data, left, right, .. } => {
                if *left is Sentinel {
                    self.lemma_unlinked();
                    assert(self.in_order() =~= seq![data] + self.unlinked().0.in_order());
                } else {
                    left.lemma_without_least(data);
                    let (below, deficit) = left.without_least();
                    let mid = self.with_left(below);
                    assert(self.in_order() =~= seq![left.least_or(data)] + mid.in_order());
                    if deficit {
                        mid.lemma_deficit_fixed_left();
                    }
                }
            },
            BinaryTree::Sentinel => {},
        }
    }

    /// The key at the root leaves the in-order walk with `without_root`,
    /// and nothing else moves. A subtree that kept the colour invariants
    /// stands as `shrunk_from` says.
    pub proof fn lemma_without_root(self)
        ensures
            self.without_root().0.in_order() == self.left_child().in_order()
                + self.right_child().in_order(),
            self.colors_valid() ==> self.without_root().0.shrunk_from(self, self.without_root().1),
    {
        let left = self.left_child();
        let right = self.right_child();
        if left is Sentinel || right is Sentinel {
            self.lemma_unlinked();
        } else {
            right.lemma_without_least(self->data);
            let (below, deficit) = right.without_least();
            let next = self.with_key(right.least_or(self->data)).with_right(below);
            assert(next.in_order() =~= left.in_order() + right.in_order());
            if deficit {
                next.lemma_deficit_fixed_right();
            }
        }
    }

    /// Runs the black-sibling cases of the removal fix-up on the left, in
    /// place, and says whether the deficit is now at this node.
    pub fn fix_black_sibling_left(&mut self) -> (deficit: bool)
        ensures
            (*final(self), deficit) == old(self).black_sibling_fixed_left(),
    {
        let near_red = self.right_ref().left_ref().is_red();
        let far_red = self.right_ref().right_ref().is_red();
        let top = if self.is_red() {
            Color::Red
        } else {
            Color::Black
        };
        if !near_red && !far_red {
            self.paint_right(Color::Red);
            self.paint(Color::Black);
            match top {
                Color::Red => false,
                Color::Black => true,
            }
        } else {
            match self {
                BinaryTree::Node { right, .. } => {
                    if !far_red {
                        right.paint(Color::Red);
                        right.rotate_right();
                        right.paint(Color::Black);
                    }
                    right.paint(top);
                    right.paint_right(Color::Black);
                },
                BinaryTree::Sentinel => {},
            }
            self.paint(Color::Black);
            self.rotate_left();
            false
        }
    }

    /// Runs the black-sibling cases of the removal fix-up on the right, in
    /// place, and says whether the deficit is now at this node.
    pub fn fix_black_sibling_right(&mut self) -> (deficit: bool)
        ensures
            (*final(self), deficit) == old(self).black_sibling_fixed_right(),
    {
        let near_red = self.left_ref().right_ref().is_red();
        let far_red = self.left_ref().left_ref().is_red();
        let top = if self.is_red() {
            Color::Red
        } else {
            Color::Black
        };
        if !near_red && !far_red {
            self.paint_left(Color::Red);
            self.paint(Color::Black);
            match top {
                Color::Red => false,
                Color::Black => true,
            }
        } else {
            match self {
                BinaryTree::Node { left, .. } => {
                    if !far_red {
                        left.paint(Color::Red);
                        left.rotate_left();
                        left.paint(Color::Black);
                    }
                    left.paint(top);
                    left.paint_left(Color::Black);
                },
                BinaryTree::Sentinel => {},
            }
            self.paint(Color::Black);
            self.rotate_right();
            false
        }
    }

    /// Runs the removal fix-up at the parent of a left subtree that came
    /// out short, in place, and says whether the deficit is now at this
    /// node.
    pub fn fix_deficit_left(&mut self) -> (deficit: bool)
        ensures
            (*final(self), deficit) == old(self).deficit_fixed_left(),
    {
        if self.right_ref().is_red() {
            self.paint_right(Color::Black);
            self.paint(Color::Red);
            self.rotate_left();
            match self {
                BinaryTree::Node { left, .. } => {
                    left.fix_black_sibling_left();
                },
                BinaryTree::Sentinel => {},
            }
            false
        } else {
            self.fix_black_sibling_left()
        }
    }

    /// Runs the removal fix-up at the parent of a right subtree that came
    /// out short, in place, and says whether the deficit is now at this
    /// node.
    pub fn fix_deficit_right(&mut self) -> (deficit: bool)
        ensures
            (*final(self), deficit) == old(self).deficit_fixed_right(),
    {
        if self.left_ref().is_red() {
            self.paint_left(Color::Black);
            self.paint(Color::Red);
            self.rotate_right();
            match self {
                BinaryTree::Node { right, .. } => {
                    right.fix_black_sibling_right();
                },
                BinaryTree::Sentinel => {},
            }
            false
        } else {
            self.fix_black_sibling_right()
        }
    }

    /// Takes this node out of the tree, in place, if it has at most one
    /// real child, which then takes its place. Says whether the paths
    /// through this position are now one black node short.
    pub fn unlink(&mut self) -> (deficit: bool)
        ensures
            (*final(self), deficit) == old(self).unlinked(),
    {
        if !self.left_ref().is_sentinel() && !self.right_ref().is_sentinel() {
            return false;
        }
        let mut node = BinaryTree::Sentinel;
        std::mem::swap(self, &mut node);
        match node {
            BinaryTree::Node { data: _, left, right, color } => {
                if left.is_sentinel() {
                    *self = *right;
                } else {
                    *self = *left;
                }
                match color {
                    Color::Red => false,
                    Color::Black => {
                        if self.is_red() {
                            self.paint(Color::Black);
                            false
                        } else {
                            true
                        }
                    },
                }
            },
            BinaryTree::Sentinel => false,
        }
    }

    /// Takes the leftmost node out of the subtree, in place, and puts its
    /// key into `slot`, whose former content leaves with the node. The
    /// sentinel has no key to give: nothing changes. Says whether the
    /// subtree came out one black node short.
    pub fn take_min(&mut self, slot: &mut T) -> (deficit: bool)
        ensures
            (*final(self), deficit) == old(self).without_least(),
            *final(slot) == old(self).least_or(*old(slot)),
        decreases *old(self),
    {
        if self.left_ref().is_sentinel() {
            match self {
                BinaryTree::Node { data, .. } => {
                    std::mem::swap(slot, data);
                },
                BinaryTree::Sentinel => {
                    return false;
                },
            }
            assert(old(self).left_child().least_or(*slot) == *slot);
            self.unlink()
        } else {
            let ghost below = old(self).left_child();
            assert(below.least_or(*slot) == below.least_or(old(self)->data));
            let deficit = match self {
                BinaryTree::Node { left, .. } => left.take_min(slot),
                BinaryTree::Sentinel => false,
            };
            if deficit {
                self.fix_deficit_left()
            } else {
                false
            }
        }
    }

    /// Removes the key at this node, in place: a node with two real
    /// children takes over the key of its in-order successor, whose node
    /// leaves in its place; any other node is unlinked. Says whether the
    /// subtree came out one black node short.
    pub fn remove_root(&mut self) -> (deficit: bool)
        ensures
            (*final(self), deficit) == old(self).without_root(),
    {
        if self.left_ref().is_sentinel() || self.right_ref().is_sentinel() {
            self.unlink()
        } else {
            let deficit = match self {
                BinaryTree::Node { data, right, .. } => right.take_min(data),
                BinaryTree::Sentinel => false,
            };
            if deficit {
                self.fix_deficit_right()
            } else {
                false
            }
        }
    }
}

impl<T: Ord> BinaryTree<T> {
    /// The subtree after the removal of `key` below this position, and
    /// whether it came out one black node short. The search descends to
    /// the left of a greater key and to the right of a lesser one. Where
    /// it meets the key, the key leaves as `without_root` says, and each
    /// node on the way back up runs the fix-up if the subtree it descended
    /// into came out short. Where it ends at a sentinel, nothing changes.
    pub open spec fn removed(self, key: T) -> (Self, bool)
        decreases self,
    {
        match self {
            BinaryTree::Node { data, left, right, .. } => {
                if less(key, data) {
                    let (below, deficit) = left.removed(key);
                    if deficit {
                        self.with_left(below).deficit_fixed_left()
                    } else {
                        (self.with_left(below), false)
                    }
                } else if less(data, key) {
                    let (below, deficit) = right.removed(key);
                    if deficit {
                        self.with_right(below).deficit_fixed_right()
                    } else {
                        (self.with_right(below), false)
                    }
                } else {
                    self.without_root()
                }
            },
            BinaryTree::Sentinel => (self, false),
        }
    }

    /// The tree after `remove`: the outcome of `removed`, with the root
    /// painted black if the deficit reached it.
    pub open spec fn after_remove(self, key: T) -> Self {
        let (tree, deficit) = self.removed(key);
        if deficit {
            tree.painted(Color::Black)
        } else {
            tree
        }
    }

    /// A removal below a position keeps the order of the subtree and
    /// takes the key from its keys; without the key the subtree stays as
    /// it is. A subtree that kept the colour invariants stands as
    /// `shrunk_from` says.
    pub proof fn lemma_removed(self, key: T)
        requires
            total_order::<T>(),
            self.ordered(),
        ensures
            self.removed(key).0.ordered(),
            self.removed(key).0@ == self@.remove(key),
            !self@.contains(key) ==> self.removed(key) == (self, false),
            self.colors_valid() ==> self.removed(key).0.shrunk_from(self, self.removed(key).1),
        decreases self,
    {
        match self {
            BinaryTree::Node { data, left, right, .. } => {
                lemma_less_asymmetric(key, data);
                lemma_less_total(key, data);
                if less(key, data) {
                    left.lemma_removed(key);
                    let (below, deficit) = left.removed(key);
                    let mid = self.with_left(below);
                    assert(!right@.contains(key));
                    assert(mid.ordered());
                    assert(mid@ =~= self@.remove(key));
                    if deficit {
                        mid.lemma_deficit_fixed_left();
                        mid.lemma_same_walk(mid.deficit_fixed_left().0);
                    }
                    if !self@.contains(key) {
                        assert(mid == self);
                    }
                } else if less(data, key) {
                    right.lemma_removed(key);
                    let (below, deficit) = right.removed(key);
                    let mid = self.with_right(below);
                    assert(!left@.contains(key));
                    assert(mid.ordered());
                    assert(mid@ =~= self@.remove(key));
                    if deficit {
                        mid.lemma_deficit_fixed_right();
                        mid.lemma_same_walk(mid.deficit_fixed_right().0);
                    }
                    if !self@.contains(key) {
                        assert(mid == self);
                    }
                } else {
                    let after = self.without_root().0;
                    self.lemma_without_root();
                    self.lemma_ordered_ascending();
                    self.lemma_in_order_keys();
                    lemma_drop_middle(left.in_order(), key, right.in_order());
                    after.lemma_ordered_ascending();
                    after.lemma_in_order_keys();
                }
            },
            BinaryTree::Sentinel => {
                assert(self@ =~= self@.remove(key));
            },
        }
    }

    /// What `remove` makes of a tree: the tree keeps its order and loses
    /// the key; a tree that does not hold the key stays exactly as it is;
    /// the colour invariants are kept, and a red-black tree stays one.
    pub proof fn lemma_after_remove(self, key: T)
        requires
            total_order::<T>(),
            self.ordered(),
        ensures
            self.after_remove(key).ordered(),
            self.after_remove(key)@ == self@.remove(key),
            !self@.contains(key) ==> self.after_remove(key) == self,
            self.colors_valid() ==> self.after_remove(key).colors_valid(),
            self.is_red_black() ==> self.after_remove(key).is_red_black(),
    {
        self.lemma_removed(key);
        let (tree, deficit) = self.removed(key);
        tree.lemma_same_walk(tree.painted(Color::Black));
    }

    /// Runs `removed` in place: removes `key` from the subtree, if it is
    /// there, runs the fix-up on the way back up as far as this position,
    /// and says whether the subtree came out one black node short.
    pub fn remove_at(&mut self, key: T) -> (deficit: bool)
        requires
            total_order::<T>(),
        ensures
            (*final(self), deficit) == old(self).removed(key),
        decreases *old(self),
    {
        match self {
            BinaryTree::Node { data, left, right, color: _ } => {
                proof {
                    lemma_less_asymmetric(key, *data);
                }
                match key.cmp(data) {
                    Ordering::Less => {
                        let deficit = left.remove_at(key);
                        if deficit {
                            self.fix_deficit_left()
                        } else {
                            false
                        }
                    },
                    Ordering::Greater => {
                        let deficit = right.remove_at(key);
                        if deficit {
                            self.fix_deficit_right()
                        } else {
                            false
                        }
                    },
                    Ordering::Equal => self.remove_root(),
                }
            },
            BinaryTree::Sentinel => false,
        }
    }

    /// Removes `key`; a tree that does not hold it stays exactly as it is.
    /// Otherwise the node that holds it leaves the tree, by way of its
    /// in-order successor where it has two real children, the fix-up
    /// repairs the black-heights from there upwards, and where the deficit
    /// reaches the root, the root is painted black. The tree keeps its
    /// order and loses the key, and a red-black tree stays one.
    pub fn remove(&mut self, key: T)
        requires
            total_order::<T>(),
            old(self).ordered(),
        ensures
            *final(self) == old(self).after_remove(key),
            final(self).ordered(),
            final(self)@ == old(self)@.remove(key),
            !old(self)@.contains(key) ==> *final(self) == *old(self),
            old(self).colors_valid() ==> final(self).colors_valid(),
            old(self).is_red_black() ==> final(self).is_red_black(),
    {
        proof {
            self.lemma_after_remove(key);
        }
        let deficit = self.remove_at(key);
        if deficit {
            self.paint(Color::Black);
        }
    }
}

} // verus!
