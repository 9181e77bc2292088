//! Ascending sequences, and how the in-order walk of a tree relates to its
//! key set and its order invariant.

use crate::order::{less, lemma_less_asymmetric, total_order};
use crate::tree::BinaryTree;
use vstd::prelude::*;

verus! {

/// Strictly ascending: each element sorts before every later one.
pub open spec fn ascending<T: Ord>(s: Seq<T>) -> bool {
    forall|i: int, j: int| 0 <= i < j < s.len() ==> less(#[trigger] s[i], #[trigger] s[j])
}

/// The elements of `a + [x] + b` are those of `a`, of `b`, and `x`.
pub proof fn lemma_concat_members<T>(a: Seq<T>, x: T, b: Seq<T>)
    ensures
        (a + seq![x] + b).to_set() =~= a.to_set().union(b.to_set()).insert(x),
{
    let s = a + seq![x] + b;
    assert forall|k: T| s.to_set().contains(k) implies a.to_set().union(b.to_set()).insert(
        x,
    ).contains(k) by {
        let i = choose|i: int| 0 <= i < s.len() && s[i] == k;
        if i < a.len() {
            assert(a[i] == k);
            assert(a.contains(k));
        } else if i == a.len() {
        } else {
            assert(b[i - a.len() - 1] == k);
            assert(b.contains(k));
        }
    }
    assert forall|k: T| a.to_set().union(b.to_set()).insert(x).contains(k) implies s.to_set().contains(
        k,
    ) by {
        if k == x {
            assert(s[a.len() as int] == x);
        } else if a.contains(k) {
            let i = choose|i: int| 0 <= i < a.len() && a[i] == k;
            assert(s[i] == k);
        } else {
            assert(b.contains(k));
            let i = choose|i: int| 0 <= i < b.len() && b[i] == k;
            assert(s[a.len() + 1 + i] == k);
        }
        assert(s.contains(k));
    }
}

/// `a + [x] + b` ascends exactly when `a` and `b` ascend, every element of
/// `a` sorts before `x`, and `x` sorts before every element of `b`.
pub proof fn lemma_concat_ascending<T: Ord>(a: Seq<T>, x: T, b: Seq<T>)
    requires
        total_order::<T>(),
    ensures
        ascending(a + seq![x] + b) <==> {
            &&& ascending(a)
            &&& ascending(b)
            &&& forall|i: int| 0 <= i < a.len() ==> less(#[trigger] a[i], x)
            &&& forall|j: int| 0 <= j < b.len() ==> less(x, #[trigger] b[j])
        },
{
    let s = a + seq![x] + b;
    let n = a.len() as int;
    if ascending(s) {
        assert forall|i: int, j: int| 0 <= i < j < a.len() implies less(
            #[trigger] a[i],
            #[trigger] a[j],
        ) by {
            assert(s[i] == a[i] && s[j] == a[j]);
        }
        assert forall|i: int, j: int| 0 <= i < j < b.len() implies less(
            #[trigger] b[i],
            #[trigger] b[j],
        ) by {
            assert(s[n + 1 + i] == b[i] && s[n + 1 + j] == b[j]);
        }
        assert forall|i: int| 0 <= i < a.len() implies less(#[trigger] a[i], x) by {
            assert(s[i] == a[i] && s[n] == x);
        }
        assert forall|j: int| 0 <= j < b.len() implies less(x, #[trigger] b[j]) by {
            assert(s[n + 1 + j] == b[j] && s[n] == x);
        }
    }
    if ascending(a) && ascending(b) && (forall|i: int|
        0 <= i < a.len() ==> less(#[trigger] a[i], x)) && (forall|j: int|
        0 <= j < b.len() ==> less(x, #[trigger] b[j])) {
        assert forall|i: int, j: int| 0 <= i < j < s.len() implies less(
            #[trigger] s[i],
            #[trigger] s[j],
        ) by {
            if j < n {
                assert(s[i] == a[i] && s[j] == a[j]);
            } else if j == n {
                assert(s[i] == a[i] && s[j] == x);
            } else if i < n {
                assert(s[i] == a[i] && s[j] == b[j - n - 1]);
                assert(less(a[i], x) && less(x, b[j - n - 1]));
            } else if i == n {
                assert(s[i] == x && s[j] == b[j - n - 1]);
            } else {
                assert(s[i] == b[i - n - 1] && s[j] == b[j - n - 1]);
            }
        }
    }
}

/// Taking `x` out of the ascending `a + [x] + b` leaves an ascending
/// sequence with the same elements but `x`.
pub proof fn lemma_drop_middle<T: Ord>(a: Seq<T>, x: T, b: Seq<T>)
    requires
        total_order::<T>(),
        ascending(a + seq![x] + b),
    ensures
        ascending(a + b),
        (a + b).to_set() =~= (a + seq![x] + b).to_set().remove(x),
{
    let s = a + b;
    let n = a.len() as int;
    lemma_concat_ascending(a, x, b);
    lemma_concat_members(a, x, b);
    assert forall|i: int, j: int| 0 <= i < j < s.len() implies less(
        #[trigger] s[i],
        #[trigger] s[j],
    ) by {
        if j < n {
            assert(s[i] == a[i] && s[j] == a[j]);
        } else if i < n {
            assert(s[i] == a[i] && s[j] == b[j - n]);
            assert(less(a[i], x) && less(x, b[j - n]));
        } else {
            assert(s[i] == b[i - n] && s[j] == b[j - n]);
        }
    }
    lemma_less_asymmetric(x, x);
    assert forall|k: T| s.to_set().contains(k) implies a.to_set().union(b.to_set()).insert(
        x,
    ).remove(x).contains(k) by {
        let i = choose|i: int| 0 <= i < s.len() && s[i] == k;
        if i < n {
            assert(a[i] == k);
            assert(a.contains(k));
        } else {
            assert(b[i - n] == k);
            assert(b.contains(k));
        }
    }
    assert forall|k: T| a.to_set().union(b.to_set()).insert(x).remove(x).contains(
        k,
    ) implies s.to_set().contains(k) by {
        if a.contains(k) {
            let i = choose|i: int| 0 <= i < a.len() && a[i] == k;
            assert(s[i] == k);
        } else {
            assert(b.contains(k));
            let i = choose|i: int| 0 <= i < b.len() && b[i] == k;
            assert(s[n + i] == k);
        }
        assert(s.contains(k));
    }
}

/// An ascending sequence holds no element twice.
pub proof fn lemma_ascending_no_duplicates<T: Ord>(s: Seq<T>)
    requires
        total_order::<T>(),
        ascending(s),
    ensures
        s.no_duplicates(),
{
    assert forall|i: int, j: int| 0 <= i < s.len() && 0 <= j < s.len() && i != j implies s[i]
        != s[j] by {
        lemma_less_asymmetric(s[i], s[j]);
        if i < j {
            assert(less(s[i], s[j]));
        } else {
            assert(less(s[j], s[i]));
        }
    }
}

/// Two ascending sequences with the same elements are the same sequence.
pub proof fn lemma_ascending_unique<T: Ord>(s: Seq<T>, t: Seq<T>)
    requires
        total_order::<T>(),
        ascending(s),
        ascending(t),
        s.to_set() == t.to_set(),
    ensures
        s == t,
    decreases s.len(),
{
    if s.len() == 0 {
        if t.len() > 0 {
            assert(t.contains(t[0]));
            assert(s.to_set().contains(t[0]));
            assert(s.contains(t[0]));
        }
        assert(s =~= t);
    } else {
        assert(s.contains(s[0]));
        assert(t.to_set().contains(s[0]));
        assert(t.contains(s[0]));
        assert(t.len() > 0);
        // the two heads are each the least element of the common set
        assert(t.contains(t[0]));
        assert(s.to_set().contains(t[0]));
        let i = choose|i: int| 0 <= i < s.len() && s[i] == t[0];
        let j = choose|j: int| 0 <= j < t.len() && t[j] == s[0];
        lemma_less_asymmetric(s[0], t[0]);
        if i > 0 && j > 0 {
            assert(less(s[0], s[i]));
            assert(less(t[0], t[j]));
        }
        assert(s[0] == t[0]);
        let s1 = s.subrange(1, s.len() as int);
        let t1 = t.subrange(1, t.len() as int);
        assert(ascending(s1)) by {
            assert forall|a: int, b: int| 0 <= a < b < s1.len() implies less(
                #[trigger] s1[a],
                #[trigger] s1[b],
            ) by {
                assert(s1[a] == s[a + 1] && s1[b] == s[b + 1]);
            }
        }
        assert(ascending(t1)) by {
            assert forall|a: int, b: int| 0 <= a < b < t1.len() implies less(
                #[trigger] t1[a],
                #[trigger] t1[b],
            ) by {
                assert(t1[a] == t[a + 1] && t1[b] == t[b + 1]);
            }
        }
        assert(s1.to_set() =~= t1.to_set()) by {
            assert forall|k: T| s1.contains(k) implies t1.contains(k) by {
                let a = choose|a: int| 0 <= a < s1.len() && s1[a] == k;
                assert(s[a + 1] == k);
                assert(less(s[0], s[a + 1]));
                lemma_less_asymmetric(s[0], k);
                assert(s.contains(k));
                assert(t.to_set().contains(k));
                let b = choose|b: int| 0 <= b < t.len() && t[b] == k;
                assert(b > 0);
                assert(t1[b - 1] == k);
            }
            assert forall|k: T| t1.contains(k) implies s1.contains(k) by {
                let a = choose|a: int| 0 <= a < t1.len() && t1[a] == k;
                assert(t[a + 1] == k);
                assert(less(t[0], t[a + 1]));
                lemma_less_asymmetric(t[0], k);
                assert(t.contains(k));
                assert(s.to_set().contains(k));
                let b = choose|b: int| 0 <= b < s.len() && s[b] == k;
                assert(b > 0);
                assert(s1[b - 1] == k);
            }
        }
        lemma_ascending_unique(s1, t1);
        assert(s =~= seq![s[0]] + s1);
        assert(t =~= seq![t[0]] + t1);
    }
}

impl<T> BinaryTree<T> {
    /// The in-order walk meets exactly the keys of the tree, once for each
    /// node.
    pub proof fn lemma_in_order_keys(self)
        ensures
            self.in_order().to_set() == self@,
            self.in_order().len() == self.size(),
        decreases self,
    {
        match self {
            BinaryTree::Node { data, left, right, .. } => {
                left.lemma_in_order_keys();
                right.lemma_in_order_keys();
                lemma_concat_members(left.in_order(), data, right.in_order());
            },
            BinaryTree::Sentinel => {
                assert(self.in_order().to_set() =~= Set::<T>::empty());
            },
        }
    }
}

impl<T: Ord> BinaryTree<T> {
    /// A tree keeps the order invariant exactly when its in-order walk
    /// ascends.
    pub proof fn lemma_ordered_ascending(self)
        requires
            total_order::<T>(),
        ensures
            self.ordered() <==> ascending(self.in_order()),
        decreases self,
    {
        match self {
            BinaryTree::Node { data, left, right, .. } => {
                left.lemma_ordered_ascending();
                right.lemma_ordered_ascending();
                left.lemma_in_order_keys();
                right.lemma_in_order_keys();
                let a = left.in_order();
                let b = right.in_order();
                lemma_concat_ascending(a, data, b);
                if self.ordered() {
                    assert forall|i: int| 0 <= i < a.len() implies less(#[trigger] a[i], data) by {
                        assert(a.contains(a[i]));
                        assert(left.keys().contains(a[i]));
                    }
                    assert forall|j: int| 0 <= j < b.len() implies less(data, #[trigger] b[j]) by {
                        assert(b.contains(b[j]));
                        assert(right.keys().contains(b[j]));
                    }
                }
                if ascending(self.in_order()) {
                    assert forall|k: T| #[trigger] left.keys().contains(k) implies less(k, data) by {
                        assert(a.contains(k));
                    }
                    assert forall|k: T| #[trigger] right.keys().contains(k) implies less(
                        data,
                        k,
                    ) by {
                        assert(b.contains(k));
                    }
                }
            },
            BinaryTree::Sentinel => {},
        }
    }

    /// A rearrangement that keeps the in-order walk keeps the keys and the
    /// order invariant.
    pub proof fn lemma_same_walk(self, other: Self)
        requires
            total_order::<T>(),
            self.in_order() == other.in_order(),
        ensures
            self@ == other@,
            self.ordered() == other.ordered(),
    {
        self.lemma_in_order_keys();
        other.lemma_in_order_keys();
        self.lemma_ordered_ascending();
        other.lemma_ordered_ascending();
    }
}

} // verus!
