//! The tree itself, its mathematical model and its invariants.

use crate::order::less;
use vstd::prelude::*;

verus! {

/// The colour tag of a position in the tree.
#[derive(Debug, Clone, Copy, PartialEq, Eq, Structural)]
pub enum Color {
    Red,
    Black,
}

/// A position in a red-black tree: either an internal node, which owns
/// one key, a colour and two children, or the sentinel that stands where
/// there is no node. The sentinel counts as black.
#[derive(Debug)]
pub enum BinaryTree<T> {
    Node { data: T, left: Box<BinaryTree<T>>, right: Box<BinaryTree<T>>, color: Color },
    Sentinel,
}

impl<T> View for BinaryTree<T> {
    type V = Set<T>;

    /// The set of keys in the tree.
    open spec fn view(&self) -> Set<T> {
        self.keys()
    }
}

impl<T> BinaryTree<T> {
    /// The set of keys in the tree.
    pub open spec fn keys(self) -> Set<T>
        decreases self,
    {
        match self {
            BinaryTree::Node { data, left, right, .. } => left.keys().union(right.keys()).insert(
                data,
            ),
            BinaryTree::Sentinel => Set::empty(),
        }
    }

    /// The keys as an in-order walk meets them: left subtree, node, right
    /// subtree.
    pub open spec fn in_order(self) -> Seq<T>
        decreases self,
    {
        match self {
            BinaryTree::Node { data, left, right, .. } => left.in_order() + seq![data]
                + right.in_order(),
            BinaryTree::Sentinel => Seq::empty(),
        }
    }

    /// The number of internal nodes.
    pub open spec fn size(self) -> nat
        decreases self,
    {
        match self {
            BinaryTree::Node { left, right, .. } => 1 + left.size() + right.size(),
            BinaryTree::Sentinel => 0,
        }
    }

    /// The number of internal nodes on the longest path from this position
    /// down to a sentinel.
    pub open spec fn spec_height(self) -> nat
        decreases self,
    {
        match self {
            BinaryTree::Node { left, right, .. } => {
                let l = left.spec_height();
                let r = right.spec_height();
                1 + if l >= r {
                    l
                } else {
                    r
                }
            },
            BinaryTree::Sentinel => 0,
        }
    }

    /// The left child; the sentinel has none, which reads as the sentinel.
    pub open spec fn left_child(self) -> Self {
        match self {
            BinaryTree::Node { left, .. } => *left,
            BinaryTree::Sentinel => BinaryTree::Sentinel,
        }
    }

    /// The right child; the sentinel has none, which reads as the sentinel.
    pub open spec fn right_child(self) -> Self {
        match self {
            BinaryTree::Node { right, .. } => *right,
            BinaryTree::Sentinel => BinaryTree::Sentinel,
        }
    }

    /// The colour of this position. The sentinel is black.
    pub open spec fn spec_color(self) -> Color {
        match self {
            BinaryTree::Node { color, .. } => color,
            BinaryTree::Sentinel => Color::Black,
        }
    }

    /// This position is an internal node coloured red.
    pub open spec fn spec_is_red(&self) -> bool {
        self.spec_color() == Color::Red
    }

    /// This position is a red node with at least one red child.
    pub open spec fn red_red(self) -> bool {
        self.is_red() && (self.left_child().is_red() || self.right_child().is_red())
    }

    /// No red node in the tree has a red child.
    pub open spec fn red_ok(self) -> bool
        decreases self,
    {
        match self {
            BinaryTree::Node { left, right, color, .. } => {
                &&& left.red_ok()
                &&& right.red_ok()
                &&& color == Color::Red ==> !left.is_red() && !right.is_red()
            },
            BinaryTree::Sentinel => true,
        }
    }

    /// The number of black positions on the leftmost path from this
    /// position down to the sentinel, both ends counted.
    pub open spec fn black_depth(self) -> nat
        decreases self,
    {
        match self {
            BinaryTree::Node { left, color, .. } => left.black_depth() + if color == Color::Black {
                1nat
            } else {
                0nat
            },
            BinaryTree::Sentinel => 1,
        }
    }

    /// The black-height of this position: the number of black positions on
    /// the leftmost path from it down to the sentinel, the sentinel counted
    /// and the position itself not.
    pub open spec fn spec_black_height(self) -> nat {
        match self {
            BinaryTree::Node { left, .. } => left.black_depth(),
            BinaryTree::Sentinel => 0,
        }
    }

    /// Every path from a position down to a sentinel passes the same
    /// number of black nodes, at every position of the tree.
    pub open spec fn balanced(self) -> bool
        decreases self,
    {
        match self {
            BinaryTree::Node { left, right, .. } => {
                &&& left.balanced()
                &&& right.balanced()
                &&& left.black_depth() == right.black_depth()
            },
            BinaryTree::Sentinel => true,
        }
    }

    /// The state of a subtree in the middle of an insertion: every proper
    /// subtree keeps the red rule, and the root, if it is red, has at most
    /// one red child.
    pub open spec fn nearly_red_ok(self) -> bool {
        &&& self.left_child().red_ok()
        &&& self.right_child().red_ok()
        &&& self.is_red() ==> !(self.left_child().is_red() && self.right_child().is_red())
    }

    /// The two colour invariants that hold of every subtree of a red-black
    /// tree: no red node has a red child, and the black-heights agree.
    pub open spec fn colors_valid(self) -> bool {
        self.red_ok() && self.balanced()
    }

    /// Whether this position is a red node.
    #[verifier::when_used_as_spec(spec_is_red)]
    pub fn is_red(&self) -> (red: bool)
        ensures
            red == self.spec_is_red(),
    {
        match self {
            BinaryTree::Node { color: Color::Red, .. } => true,
            _ => false,
        }
    }

    /// The position to the left of this one: the left child of a node,
    /// the sentinel below the sentinel.
    pub fn left_ref(&self) -> (t: &Self)
        ensures
            *t == self.left_child(),
    {
        match self {
            BinaryTree::Node { left, .. } => left,
            BinaryTree::Sentinel => self,
        }
    }

    /// The position to the right of this one: the right child of a node,
    /// the sentinel below the sentinel.
    pub fn right_ref(&self) -> (t: &Self)
        ensures
            *t == self.right_child(),
    {
        match self {
            BinaryTree::Node { right, .. } => right,
            BinaryTree::Sentinel => self,
        }
    }

    /// Whether this position is a red node with a red child.
    pub fn is_red_red(&self) -> (both: bool)
        ensures
            both == self.red_red(),
    {
        self.is_red() && (self.left_ref().is_red() || self.right_ref().is_red())
    }

    /// Whether this position is the sentinel.
    pub fn is_sentinel(&self) -> (none: bool)
        ensures
            none == (*self == BinaryTree::<T>::Sentinel),
    {
        match self {
            BinaryTree::Node { .. } => false,
            BinaryTree::Sentinel => true,
        }
    }
}

impl<T> Default for BinaryTree<T> {
    /// The empty tree.
    fn default() -> (tree: Self)
        ensures
            tree == BinaryTree::<T>::Sentinel,
    {
        BinaryTree::Sentinel
    }
}

impl<T: Ord> BinaryTree<T> {
    /// The order invariant: at every node, the keys of the left subtree
    /// sort before the node's key and those of the right subtree after it.
    pub open spec fn ordered(self) -> bool
        decreases self,
    {
        match self {
            BinaryTree::Node { data, left, right, .. } => {
                &&& left.ordered()
                &&& right.ordered()
                &&& forall|k: T| #[trigger] left.keys().contains(k) ==> less(k, data)
                &&& forall|k: T| #[trigger] right.keys().contains(k) ==> less(data, k)
            },
            BinaryTree::Sentinel => true,
        }
    }

    /// A red-black tree: ordered, with a black root, no red node with a
    /// red child, and equal black-heights on every path.
    pub open spec fn is_red_black(self) -> bool {
        &&& self.ordered()
        &&& !self.is_red()
        &&& self.red_ok()
        &&& self.balanced()
    }

    /// A tree of one red node that holds `data`: the leaf as which a key
    /// enters a tree. It keeps the order and colour invariants of a
    /// subtree; its root is not black.
    pub fn new(data: T) -> (tree: Self)
        ensures
            tree == (BinaryTree::Node {
                data,
                left: Box::new(BinaryTree::Sentinel),
                right: Box::new(BinaryTree::Sentinel),
                color: Color::Red,
            }),
            tree@ == Set::<T>::empty().insert(data),
            tree.in_order() == seq![data],
            tree.ordered(),
            tree.colors_valid(),
    {
        let tree = BinaryTree::Node {
            data,
            left: Default::default(),
            right: Default::default(),
            color: Color::Red,
        };
        proof {
            reveal_with_fuel(BinaryTree::keys, 2);
            reveal_with_fuel(BinaryTree::in_order, 2);
            reveal_with_fuel(BinaryTree::ordered, 2);
            reveal_with_fuel(BinaryTree::red_ok, 2);
            reveal_with_fuel(BinaryTree::balanced, 2);
            reveal_with_fuel(BinaryTree::black_depth, 2);
            assert(tree@ =~= Set::<T>::empty().insert(data));
            assert(tree.in_order() =~= seq![data]);
        }
        tree
    }

    /// The colour of this position; the sentinel is black.
    pub fn color(&self) -> (c: &Color)
        ensures
            *c == self.spec_color(),
    {
        match self {
            BinaryTree::Node { data: _, left: _, right: _, color } => color,
            BinaryTree::Sentinel => &Color::Black,
        }
    }

    /// This node with `node` as its left child, in place of the child it
    /// had. The sentinel has no children: it gives way to `node`.
    pub fn left(self, node: BinaryTree<T>) -> (tree: Self)
        ensures
            tree == (match self {
                BinaryTree::Node { data, left, right, color } => BinaryTree::Node {
                    data,
                    left: Box::new(node),
                    right,
                    color,
                },
                BinaryTree::Sentinel => node,
            }),
    {
        match self {
            BinaryTree::Node { data, left: _, right, color } => BinaryTree::Node {
                data,
                left: Box::new(node),
                right,
                color,
            },
            BinaryTree::Sentinel => node,
        }
    }

    /// This node with `node` as its right child, in place of the child it
    /// had. The sentinel has no children: it gives way to `node`.
    pub fn right(self, node: BinaryTree<T>) -> (tree: Self)
        ensures
            tree == (match self {
                BinaryTree::Node { data, left, right, color } => BinaryTree::Node {
                    data,
                    left,
                    right: Box::new(node),
                    color,
                },
                BinaryTree::Sentinel => node,
            }),
    {
        match self {
            BinaryTree::Node { data, left, right: _, color } => BinaryTree::Node {
                data,
                left,
                right: Box::new(node),
                color,
            },
            BinaryTree::Sentinel => node,
        }
    }

    /// The key of this node, if it is one.
    pub fn data(&self) -> (d: Option<&T>)
        ensures
            d == (match *self {
                BinaryTree::Node { data, .. } => Some(&data),
                BinaryTree::Sentinel => None,
            }),
    {
        match self {
            BinaryTree::Node { data, left: _, right: _, color: _ } => Some(data),
            BinaryTree::Sentinel => None,
        }
    }

    /// The left subtree of this node, if it is one.
    pub fn left_tree(&self) -> (t: Option<&BinaryTree<T>>)
        ensures
            t == (match *self {
                BinaryTree::Node { left, .. } => Some(&*left),
                BinaryTree::Sentinel => None,
            }),
    {
        match self {
            BinaryTree::Node { data: _, left, right: _, color: _ } => Some(left),
            BinaryTree::Sentinel => None,
        }
    }

    /// The right subtree of this node, if it is one.
    pub fn right_tree(&self) -> (t: Option<&BinaryTree<T>>)
        ensures
            t == (match *self {
                BinaryTree::Node { right, .. } => Some(&*right),
                BinaryTree::Sentinel => None,
            }),
    {
        match self {
            BinaryTree::Node { data: _, left: _, right, color: _ } => Some(right),
            BinaryTree::Sentinel => None,
        }
    }
}

} // verus!
