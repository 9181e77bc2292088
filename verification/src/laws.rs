//! What holds of the tree across operations.

use crate::order::total_order;
use crate::sorted::{ascending, lemma_ascending_no_duplicates, lemma_ascending_unique};
use crate::tree::BinaryTree;
use vstd::arithmetic::power2::{
    lemma2_to64,
    lemma_pow2_adds,
    lemma_pow2_strictly_increases,
    lemma_pow2_unfold,
    pow2,
};
use vstd::prelude::*;

verus! {

/// One change to a tree.
pub enum Step<T> {
    Insert(T),
    Remove(T),
}

/// `k` was inserted at some step of the history and not removed at any
/// later one.
pub open spec fn inserted_and_kept<T>(history: Seq<Step<T>>, k: T) -> bool {
    exists|i: int|
        0 <= i < history.len() && #[trigger] history[i] == Step::Insert(k) && forall|j: int|
            i < j < history.len() ==> #[trigger] history[j] != Step::Remove(k)
}

impl<T: Ord> BinaryTree<T> {
    /// The tree after one step: what `insert` or `remove` leaves of it.
    pub open spec fn after_step(self, step: Step<T>) -> Self {
        match step {
            Step::Insert(k) => self.after_insert(k),
            Step::Remove(k) => self.after_remove(k),
        }
    }

    /// The tree after a history of steps, taken in turn.
    pub open spec fn after_all(self, history: Seq<Step<T>>) -> Self
        decreases history.len(),
    {
        if history.len() == 0 {
            self
        } else {
            self.after_all(history.drop_last()).after_step(history.last())
        }
    }
}

/// Invariant preservation: whatever insertions and removals a red-black
/// tree goes through, it is a red-black tree after each of them: the keys
/// in order, the root black, no red node with a red child, and as many
/// black nodes on one path from the root to a sentinel as on any other.
/// The empty tree is one to start from.
pub proof fn law_invariants_preserved<T: Ord>(start: BinaryTree<T>, history: Seq<Step<T>>)
    requires
        total_order::<T>(),
        start.is_red_black(),
    ensures
        start.after_all(history).is_red_black(),
        BinaryTree::<T>::Sentinel.is_red_black(),
    decreases history.len(),
{
    if history.len() > 0 {
        law_invariants_preserved(start, history.drop_last());
        let before = start.after_all(history.drop_last());
        match history.last() {
            Step::Insert(k) => before.lemma_after_insert(k),
            Step::Remove(k) => before.lemma_after_remove(k),
        }
    }
}

/// Order: the in-order walk of a tree that keeps the order invariant
/// ascends strictly, holds no key twice, and holds exactly the keys of the
/// tree, one for each node.
pub proof fn law_walk_ascending<T: Ord>(tree: BinaryTree<T>)
    requires
        total_order::<T>(),
        tree.ordered(),
    ensures
        ascending(tree.in_order()),
        tree.in_order().no_duplicates(),
        tree.in_order().to_set() == tree@,
        tree.in_order().len() == tree.size(),
        tree@.finite(),
        tree@.len() == tree.size(),
{
    tree.lemma_ordered_ascending();
    tree.lemma_in_order_keys();
    lemma_ascending_no_duplicates(tree.in_order());
    tree.in_order().unique_seq_to_set();
}

/// Order, of the trees that come of insertions and removals on the empty
/// tree: whatever the history, the in-order walk ascends strictly, holds
/// no key twice, and holds exactly the keys that were inserted and not
/// removed afterwards.
pub proof fn law_walk_of_history<T: Ord>(history: Seq<Step<T>>)
    requires
        total_order::<T>(),
    ensures
        ascending(BinaryTree::<T>::Sentinel.after_all(history).in_order()),
        BinaryTree::<T>::Sentinel.after_all(history).in_order().no_duplicates(),
        forall|k: T|
            BinaryTree::<T>::Sentinel.after_all(history).in_order().contains(k)
                <==> #[trigger] inserted_and_kept(history, k),
{
    let tree = BinaryTree::<T>::Sentinel.after_all(history);
    law_invariants_preserved(BinaryTree::<T>::Sentinel, history);
    law_walk_ascending(tree);
    assert forall|k: T| tree.in_order().contains(k) <==> #[trigger] inserted_and_kept(
        history,
        k,
    ) by {
        law_membership_round_trip(history, k);
        assert(tree.in_order().to_set().contains(k) == tree.in_order().contains(k));
    }
}

/// Membership round trip: after any history of insertions and removals
/// on the empty tree, the tree holds exactly the keys that were inserted
/// and not removed afterwards.
pub proof fn law_membership_round_trip<T: Ord>(history: Seq<Step<T>>, k: T)
    requires
        total_order::<T>(),
    ensures
        BinaryTree::<T>::Sentinel.after_all(history)@.contains(k) <==> inserted_and_kept(
            history,
            k,
        ),
    decreases history.len(),
{
    let empty = BinaryTree::<T>::Sentinel;
    if history.len() > 0 {
        let earlier = history.drop_last();
        let n = history.len() - 1;
        let before = empty.after_all(earlier);
        let after = empty.after_all(history);
        law_membership_round_trip(earlier, k);
        law_invariants_preserved(empty, earlier);
        match history.last() {
            Step::Insert(x) => before.lemma_after_insert(x),
            Step::Remove(x) => before.lemma_after_remove(x),
        }
        if history[n] == Step::Insert(k) {
            assert(inserted_and_kept(history, k));
        } else if history[n] == Step::Remove(k) {
            assert(!inserted_and_kept(history, k));
        } else {
            assert(after@.contains(k) == before@.contains(k));
            if inserted_and_kept(earlier, k) {
                let i = choose|i: int|
                    0 <= i < earlier.len() && #[trigger] earlier[i] == Step::Insert(k) && forall|
                        j: int,
                    |
                        i < j < earlier.len() ==> #[trigger] earlier[j] != Step::Remove(k);
                assert(history[i] == earlier[i]);
                assert forall|j: int| i < j < history.len() implies #[trigger] history[j]
                    != Step::Remove(k) by {
                    if j < n {
                        assert(history[j] == earlier[j]);
                    }
                }
            }
            if inserted_and_kept(history, k) {
                let i = choose|i: int|
                    0 <= i < history.len() && #[trigger] history[i] == Step::Insert(k) && forall|
                        j: int,
                    |
                        i < j < history.len() ==> #[trigger] history[j] != Step::Remove(k);
                assert(earlier[i] == history[i]);
                assert forall|j: int| i < j < earlier.len() implies #[trigger] earlier[j]
                    != Step::Remove(k) by {
                    assert(history[j] == earlier[j]);
                }
            }
        }
    } else {
        assert(!empty@.contains(k));
    }
}

/// Two ordered trees with the same keys have the same in-order walk,
/// whatever their shapes and colours.
pub proof fn law_walk_determined_by_keys<T: Ord>(a: BinaryTree<T>, b: BinaryTree<T>)
    requires
        total_order::<T>(),
        a.ordered(),
        b.ordered(),
        a@ == b@,
    ensures
        a.in_order() == b.in_order(),
{
    a.lemma_ordered_ascending();
    b.lemma_ordered_ascending();
    a.lemma_in_order_keys();
    b.lemma_in_order_keys();
    lemma_ascending_unique(a.in_order(), b.in_order());
}

/// Idempotence: inserting a key a second time leaves the tree, and so
/// its in-order walk, as the first insertion left it; removing a key that
/// the tree does not hold leaves the tree as it is, and so does removing
/// a key a second time.
pub proof fn law_idempotence<T: Ord>(tree: BinaryTree<T>, k: T)
    requires
        total_order::<T>(),
        tree.ordered(),
    ensures
        tree.after_insert(k).after_insert(k) == tree.after_insert(k),
        tree.after_insert(k).after_insert(k).in_order() == tree.after_insert(k).in_order(),
        !tree@.contains(k) ==> tree.after_remove(k) == tree,
        tree.after_remove(k).after_remove(k) == tree.after_remove(k),
{
    tree.lemma_after_insert(k);
    tree.after_insert(k).lemma_after_insert(k);
    tree.lemma_after_remove(k);
    tree.after_remove(k).lemma_after_remove(k);
}

impl<T> BinaryTree<T> {
    /// The subtree that one turn leads to: the right one if `right`, else
    /// the left one.
    pub open spec fn turn(self, right: bool) -> Self {
        if right {
            self.right_child()
        } else {
            self.left_child()
        }
    }

    /// `path`, a run of turns from this position, each `true` for right,
    /// ends at a sentinel and not before.
    pub open spec fn reaches_sentinel(self, path: Seq<bool>) -> bool
        decreases path.len(),
    {
        if path.len() == 0 {
            self is Sentinel
        } else {
            self is Node && self.turn(path[0]).reaches_sentinel(path.drop_first())
        }
    }

    /// The number of black positions along `path` from this position on,
    /// both ends counted.
    pub open spec fn blacks_along(self, path: Seq<bool>) -> nat
        decreases path.len(),
    {
        let here = if self.is_red() {
            0nat
        } else {
            1nat
        };
        if path.len() == 0 {
            here
        } else {
            here + self.turn(path[0]).blacks_along(path.drop_first())
        }
    }

    /// In a balanced tree every path from a position down to a sentinel
    /// passes as many black positions as the leftmost one, so every such
    /// path from the root has the same black-height.
    pub proof fn law_paths_equally_black(self, path: Seq<bool>)
        requires
            self.balanced(),
            self.reaches_sentinel(path),
        ensures
            self.blacks_along(path) == self.black_depth(),
            self is Node ==> self.turn(path[0]).blacks_along(path.drop_first())
                == self.spec_black_height(),
        decreases path.len(),
    {
        if path.len() > 0 {
            self.turn(path[0]).law_paths_equally_black(path.drop_first());
        }
    }

    /// In a tree that keeps the colour invariants no path is more than
    /// twice as long as the black-height, and a red root leaves one to
    /// spare.
    pub proof fn lemma_height_by_black_height(self)
        requires
            self.colors_valid(),
        ensures
            self.spec_height() + (if self.is_red() {
                1nat
            } else {
                0nat
            }) <= 2 * self.spec_black_height(),
        decreases self,
    {
        match self {
            BinaryTree::Node { left, right, .. } => {
                left.lemma_height_by_black_height();
                right.lemma_height_by_black_height();
            },
            BinaryTree::Sentinel => {},
        }
    }

    /// A balanced tree of black-height `b` has at least `2^b - 1` nodes.
    pub proof fn lemma_size_by_black_height(self)
        requires
            self.balanced(),
        ensures
            pow2(self.spec_black_height()) <= self.size() + 1,
        decreases self,
    {
        match self {
            BinaryTree::Node { left, right, .. } => {
                left.lemma_size_by_black_height();
                right.lemma_size_by_black_height();
                left.lemma_black_depth_bounds();
                let b = self.spec_black_height();
                let below = (b - 1) as nat;
                lemma_pow2_unfold(b);
                if left.spec_black_height() > below {
                    lemma_pow2_strictly_increases(below, left.spec_black_height());
                }
                if right.spec_black_height() > below {
                    lemma_pow2_strictly_increases(below, right.spec_black_height());
                }
            },
            BinaryTree::Sentinel => {
                lemma2_to64();
            },
        }
    }
}

/// Height bound: a tree of `n` nodes that keeps the colour invariants has
/// a height `h` of at most `2 * log2(n + 1)`, that is, `2^h <= (n + 1)^2`:
/// no path is more than twice as long as the black-height `b`, and
/// `2^b <= n + 1`.
pub proof fn law_height_bound<T>(tree: BinaryTree<T>)
    requires
        tree.colors_valid(),
    ensures
        tree.spec_height() <= 2 * tree.spec_black_height(),
        pow2(tree.spec_black_height()) <= tree.size() + 1,
        pow2(tree.spec_height()) <= (tree.size() + 1) * (tree.size() + 1),
{
    tree.lemma_height_by_black_height();
    tree.lemma_size_by_black_height();
    let h = tree.spec_height();
    let b = tree.spec_black_height();
    let n = tree.size() + 1;
    lemma_pow2_adds(b, b);
    if h < 2 * b {
        lemma_pow2_strictly_increases(h, 2 * b);
    }
    assert(pow2(b) * pow2(b) <= n * n) by (nonlinear_arith)
        requires
            0 <= pow2(b) <= n,
    ;
}

} // verus!
