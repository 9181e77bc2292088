//! Reading a tree: the in-order walk, the heights, and a check of the
//! invariants.

use crate::order::{less, total_order};
use crate::sorted::ascending;
use crate::tree::{BinaryTree, Color};
use std::cmp::Ordering;
use vstd::prelude::*;

verus! {

/// The keys that a sequence of references points at.
pub open spec fn values<T>(refs: Seq<&T>) -> Seq<T> {
    refs.map_values(|r: &T| *r)
}

/// A sequence in which each element sorts before the next one ascends.
pub proof fn lemma_adjacent_ascending<T: Ord>(s: Seq<T>)
    requires
        total_order::<T>(),
        forall|j: int| 0 < j < s.len() ==> less(s[j - 1], #[trigger] s[j]),
    ensures
        ascending(s),
{
    assert forall|i: int, j: int| 0 <= i < j < s.len() implies less(
        #[trigger] s[i],
        #[trigger] s[j],
    ) by {
        lemma_adjacent_reach(s, i, j);
    }
}

proof fn lemma_adjacent_reach<T: Ord>(s: Seq<T>, i: int, j: int)
    requires
        total_order::<T>(),
        forall|j: int| 0 < j < s.len() ==> less(s[j - 1], #[trigger] s[j]),
        0 <= i < j < s.len(),
    ensures
        less(s[i], s[j]),
    decreases j - i,
{
    if i + 1 < j {
        lemma_adjacent_reach(s, i, j - 1);
        assert(less(s[j - 1], s[j]));
    }
}

/// Whether `a` sorts before `b`.
pub fn sorts_before<T: Ord>(a: &T, b: &T) -> (before: bool)
    requires
        total_order::<T>(),
    ensures
        before == less(*a, *b),
{
    match a.cmp(b) {
        Ordering::Less => true,
        _ => false,
    }
}

/// Whether the keys ascend strictly.
pub fn is_ascending<T: Ord>(keys: &Vec<&T>) -> (up: bool)
    requires
        total_order::<T>(),
    ensures
        up == ascending(values(keys@)),
{
    let mut i: usize = 1;
    while i < keys.len()
        invariant
            total_order::<T>(),
            1 <= i,
            forall|j: int| 0 < j < i && j < keys.len() ==> less(*keys@[j - 1], *#[trigger] keys@[j]),
        decreases keys.len() - i,
    {
        if !sorts_before(keys[i - 1], keys[i]) {
            assert(values(keys@)[i - 1] == *keys@[i - 1]);
            assert(values(keys@)[i as int] == *keys@[i as int]);
            return false;
        }
        i = i + 1;
    }
    proof {
        let s = values(keys@);
        assert forall|j: int| 0 < j < s.len() implies less(s[j - 1], #[trigger] s[j]) by {
            assert(less(*keys@[j - 1], *keys@[j]));
        }
        lemma_adjacent_ascending(s);
    }
    true
}

impl<T> BinaryTree<T> {
    /// Every leftmost path ends in the sentinel, which is black, and is no
    /// longer than the tree is high.
    pub proof fn lemma_black_depth_bounds(self)
        ensures
            1 <= self.black_depth() <= self.spec_height() + 1,
            self.spec_black_height() <= self.spec_height(),
        decreases self,
    {
        match self {
            BinaryTree::Node { left, .. } => {
                left.lemma_black_depth_bounds();
            },
            BinaryTree::Sentinel => {},
        }
    }

    /// Appends the keys of this subtree to `out` in in-order.
    fn walk<'a>(&'a self, out: &mut Vec<&'a T>)
        ensures
            values(final(out)@) == values(old(out)@) + self.in_order(),
        decreases self,
    {
        match self {
            BinaryTree::Node { data, left, right, .. } => {
                left.walk(out);
                let ghost before = out@;
                out.push(data);
                assert(values(out@) =~= values(before) + seq![*data]);
                right.walk(out);
                assert(values(out@) =~= values(old(out)@) + self.in_order());
            },
            BinaryTree::Sentinel => {
                assert(values(out@) =~= values(out@) + self.in_order());
            },
        }
    }

    /// The number of internal nodes on the longest path from this position
    /// down to a sentinel: 0 for the empty tree.
    pub fn height(&self) -> (h: usize)
        requires
            self.spec_height() <= usize::MAX,
        ensures
            h == self.spec_height(),
        decreases self,
    {
        match self {
            BinaryTree::Node { left, right, .. } => {
                let l = left.height();
                let r = right.height();
                if l >= r {
                    l + 1
                } else {
                    r + 1
                }
            },
            BinaryTree::Sentinel => 0,
        }
    }

    /// The number of black positions on the leftmost path from this
    /// position down to the sentinel, both ends counted.
    fn count_black(&self) -> (n: usize)
        requires
            self.black_depth() <= usize::MAX,
        ensures
            n == self.black_depth(),
    {
        let mut node = self;
        let mut n: usize = 1;
        loop
            invariant
                self.black_depth() <= usize::MAX,
                n + node.black_depth() == self.black_depth() + 1,
            decreases node,
        {
            proof {
                node.lemma_black_depth_bounds();
                node.left_child().lemma_black_depth_bounds();
            }
            match node {
                BinaryTree::Node { left, color, .. } => {
                    match color {
                        Color::Black => {
                            n = n + 1;
                        },
                        Color::Red => {},
                    }
                    node = left;
                },
                BinaryTree::Sentinel => {
                    return n;
                },
            }
        }
    }

    /// The black-height of this position, measured along the leftmost
    /// path: the black positions below it, the sentinel counted. In a
    /// balanced tree every path gives this number.
    pub fn black_height(&self) -> (h: usize)
        requires
            self.spec_black_height() <= usize::MAX,
        ensures
            h == self.spec_black_height(),
    {
        match self {
            BinaryTree::Node { left, .. } => left.count_black(),
            BinaryTree::Sentinel => 0,
        }
    }

    /// The black depth of this subtree if it keeps the two colour
    /// invariants, and nothing if it breaks one.
    fn check_colors(&self) -> (depth: Option<usize>)
        requires
            self.spec_height() < usize::MAX,
        ensures
            depth is Some <==> self.colors_valid(),
            depth matches Some(d) ==> d == self.black_depth(),
        decreases self,
    {
        match self {
            BinaryTree::Node { left, right, color, .. } => {
                proof {
                    left.lemma_black_depth_bounds();
                }
                match (left.check_colors(), right.check_colors()) {
                    (Some(l), Some(r)) => {
                        if l != r {
                            None
                        } else {
                            match color {
                                Color::Red => {
                                    if left.is_red() || right.is_red() {
                                        None
                                    } else {
                                        Some(l)
                                    }
                                },
                                Color::Black => Some(l + 1),
                            }
                        }
                    },
                    _ => None,
                }
            },
            BinaryTree::Sentinel => Some(1),
        }
    }
}

impl<T: Ord> BinaryTree<T> {
    /// The keys in the order of an in-order walk from the root. For a tree
    /// that keeps the order invariant they ascend strictly, and each key
    /// of the tree comes once.
    pub fn traverse(&self) -> (keys: Vec<&T>)
        ensures
            values(keys@) == self.in_order(),
            keys@.len() == self.size(),
            values(keys@).to_set() == self@,
            total_order::<T>() && self.ordered() ==> ascending(values(keys@)),
    {
        let mut keys = Vec::new();
        self.walk(&mut keys);
        proof {
            assert(values(keys@) =~= self.in_order());
            self.lemma_in_order_keys();
            if total_order::<T>() {
                self.lemma_ordered_ascending();
            }
        }
        keys
    }

    /// Whether this is a red-black tree: the keys in order, the root
    /// black, no red node with a red child, and the same number of black
    /// nodes on every path from the root down to a sentinel.
    pub fn validate(&self) -> (ok: bool)
        requires
            total_order::<T>(),
            self.spec_height() < usize::MAX,
        ensures
            ok == self.is_red_black(),
    {
        let keys = self.traverse();
        let up = is_ascending(&keys);
        proof {
            self.lemma_ordered_ascending();
        }
        let colors = self.check_colors();
        up && !self.is_red() && colors.is_some()
    }
}

} // verus!
