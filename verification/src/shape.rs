//! The mathematical model of the trees of this library: what a tree holds and where, and what
//! each operation makes of it.
use crate::order::less;
use std::cmp::Ordering;
use vstd::multiset::Multiset;
use vstd::prelude::*;
use vstd::std_specs::cmp::OrdSpec;

verus! {

/// A binary tree as a mathematical value.
pub enum Shape<T> {
    /// The tree without a node.
    Empty,
    /// A node with the tree to its left, its value and the tree to its right.
    Node { left: Box<Shape<T>>, value: T, right: Box<Shape<T>> },
}

/// One change to a tree of unique values.
pub enum Edit<T> {
    /// The insertion of a value.
    Insert(T),
    /// The deletion of a value.
    Delete(T),
}

/// The values that a sequence of changes leaves in a set that was empty before: those whose
/// last change was an insertion.
pub open spec fn kept<T>(edits: Seq<Edit<T>>) -> Set<T>
    decreases edits.len(),
{
    if edits.len() == 0 {
        Set::empty()
    } else {
        match edits.last() {
            Edit::Insert(v) => kept(edits.drop_last()).insert(v),
            Edit::Delete(v) => kept(edits.drop_last()).remove(v),
        }
    }
}

impl<T> Shape<T> {
    /// The tree of a single node.
    pub open spec fn leaf(value: T) -> Shape<T> {
        Shape::Node { left: Box::new(Shape::Empty), value, right: Box::new(Shape::Empty) }
    }

    /// The value of the root, if there is one.
    pub open spec fn root(self) -> Option<T> {
        match self {
            Shape::Empty => None,
            Shape::Node { value, .. } => Some(value),
        }
    }

    /// The number of nodes.
    pub open spec fn size(self) -> nat
        decreases self,
    {
        match self {
            Shape::Empty => 0,
            Shape::Node { left, right, .. } => left.size() + 1 + right.size(),
        }
    }

    /// The values of all nodes.
    pub open spec fn values(self) -> Set<T>
        decreases self,
    {
        match self {
            Shape::Empty => Set::empty(),
            Shape::Node { left, value, right } => left.values().union(right.values()).insert(
                value,
            ),
        }
    }

    /// The values in the order of an in-order traversal: left subtree, node, right subtree.
    pub open spec fn in_order(self) -> Seq<T>
        decreases self,
    {
        match self {
            Shape::Empty => Seq::empty(),
            Shape::Node { left, value, right } => left.in_order().push(value) + right.in_order(),
        }
    }

    /// The values of all nodes, each as often as it occurs.
    pub open spec fn bag(self) -> Multiset<T>
        decreases self,
    {
        match self {
            Shape::Empty => Multiset::empty(),
            Shape::Node { left, value, right } => left.bag().add(right.bag()).insert(value),
        }
    }

    /// The number of nodes on the longest way from the root down.
    pub open spec fn height(self) -> nat
        decreases self,
    {
        match self {
            Shape::Empty => 0,
            Shape::Node { left, right, .. } => 1 + if left.height() >= right.height() {
                left.height()
            } else {
                right.height()
            },
        }
    }

    /// The nodes as a drawing of the tree turned on its side shows them, from top to bottom:
    /// right subtree, node, left subtree. Each node comes with its depth, which is `depth` at
    /// the root and one more at each step down.
    pub open spec fn rows(self, depth: int) -> Seq<(int, T)>
        decreases self,
    {
        match self {
            Shape::Empty => Seq::empty(),
            Shape::Node { left, value, right } => right.rows(depth + 1).push((depth, value))
                + left.rows(depth + 1),
        }
    }

    /// The value of the rightmost node: the node reached from the root by going right until
    /// there is no right subtree.
    pub open spec fn rightmost(self) -> Option<T>
        decreases self,
    {
        match self {
            Shape::Empty => None,
            Shape::Node { value, right, .. } => if *right is Empty {
                Some(value)
            } else {
                right.rightmost()
            },
        }
    }

    /// The tree without its rightmost node, whose left subtree takes the place of that node.
    pub open spec fn without_rightmost(self) -> Shape<T>
        decreases self,
    {
        match self {
            Shape::Empty => Shape::Empty,
            Shape::Node { left, value, right } => if *right is Empty {
                *left
            } else {
                Shape::Node { left, value, right: Box::new(right.without_rightmost()) }
            },
        }
    }
}

impl<T: Ord> Shape<T> {
    /// The search tree property: at every node, all values of the left subtree are smaller
    /// than the node's value and all values of the right subtree are greater.
    pub open spec fn is_search_tree(self) -> bool
        decreases self,
    {
        match self {
            Shape::Empty => true,
            Shape::Node { left, value, right } => {
                &&& left.is_search_tree()
                &&& right.is_search_tree()
                &&& forall|w: T| #[trigger] left.values().contains(w) ==> less(w, value)
                &&& forall|w: T| #[trigger] right.values().contains(w) ==> less(value, w)
            },
        }
    }

    /// Whether the descent for `v` meets `v`: from the root, to the left where `v` is smaller
    /// than the node's value and to the right where it is greater.
    pub open spec fn finds(self, v: T) -> bool
        decreases self,
    {
        match self {
            Shape::Empty => false,
            Shape::Node { left, value, right } => match v.cmp_spec(&value) {
                Ordering::Equal => true,
                Ordering::Less => left.finds(v),
                Ordering::Greater => right.finds(v),
            },
        }
    }

    /// The tree after the descent for `v` has put a new leaf with `v` into the empty place it
    /// reached. Where the descent meets `v`, the tree stays as it is.
    pub open spec fn insert(self, v: T) -> Shape<T>
        decreases self,
    {
        match self {
            Shape::Empty => Shape::leaf(v),
            Shape::Node { left, value, right } => match v.cmp_spec(&value) {
                Ordering::Equal => self,
                Ordering::Less => Shape::Node { left: Box::new(left.insert(v)), value, right },
                Ordering::Greater => Shape::Node { left, value, right: Box::new(right.insert(v)) },
            },
        }
    }

    /// The tree after the node that the descent for `v` meets has been removed. A node with a
    /// left subtree gets the value of the rightmost node of that subtree, and that node is
    /// removed in its stead. A node without a left subtree is replaced by its right subtree.
    /// Where the descent does not meet `v`, the tree stays as it is.
    pub open spec fn delete(self, v: T) -> Shape<T>
        decreases self,
    {
        match self {
            Shape::Empty => Shape::Empty,
            Shape::Node { left, value, right } => match v.cmp_spec(&value) {
                Ordering::Equal => match left.rightmost() {
                    Some(predecessor) => Shape::Node {
                        left: Box::new(left.without_rightmost()),
                        value: predecessor,
                        right,
                    },
                    None => *right,
                },
                Ordering::Less => Shape::Node { left: Box::new(left.delete(v)), value, right },
                Ordering::Greater => Shape::Node { left, value, right: Box::new(right.delete(v)) },
            },
        }
    }

    /// The order of a tree that admits equal values: at every node, all values of the left
    /// subtree are smaller than the node's value and no value of the right subtree is.
    pub open spec fn is_sorted(self) -> bool
        decreases self,
    {
        match self {
            Shape::Empty => true,
            Shape::Node { left, value, right } => {
                &&& left.is_sorted()
                &&& right.is_sorted()
                &&& forall|w: T| #[trigger] left.values().contains(w) ==> less(w, value)
                &&& forall|w: T| #[trigger] right.values().contains(w) ==> !less(w, value)
            },
        }
    }

    /// The tree after `v` has gone down from the root, to the left where it is smaller than
    /// the node's value and to the right where it is not, and a new leaf with `v` has taken
    /// the empty place it reached.
    pub open spec fn push(self, v: T) -> Shape<T>
        decreases self,
    {
        match self {
            Shape::Empty => Shape::leaf(v),
            Shape::Node { left, value, right } => if less(v, value) {
                Shape::Node { left: Box::new(left.push(v)), value, right }
            } else {
                Shape::Node { left, value, right: Box::new(right.push(v)) }
            },
        }
    }

    /// The tree after one change. A change that fails leaves the tree as it is.
    pub open spec fn apply(self, edit: Edit<T>) -> Shape<T> {
        match edit {
            Edit::Insert(v) => self.insert(v),
            Edit::Delete(v) => self.delete(v),
        }
    }

    /// The tree that a sequence of changes makes of the empty tree.
    pub open spec fn replay(edits: Seq<Edit<T>>) -> Shape<T>
        decreases edits.len(),
    {
        if edits.len() == 0 {
            Shape::Empty
        } else {
            Self::replay(edits.drop_last()).apply(edits.last())
        }
    }

    /// The tree after the descent for `key` has put the whole of `donor` into the empty place
    /// it reached. Where the descent meets `key`, the tree stays as it is.
    pub open spec fn graft(self, key: T, donor: Shape<T>) -> Shape<T>
        decreases self,
    {
        match self {
            Shape::Empty => donor,
            Shape::Node { left, value, right } => match key.cmp_spec(&value) {
                Ordering::Equal => self,
                Ordering::Less => Shape::Node {
                    left: Box::new(left.graft(key, donor)),
                    value,
                    right,
                },
                Ordering::Greater => Shape::Node {
                    left,
                    value,
                    right: Box::new(right.graft(key, donor)),
                },
            },
        }
    }

    /// Whether every node that the descent for `key` passes has all values of `donor` on the
    /// side to which the descent goes on.
    pub open spec fn admits(self, key: T, donor: Shape<T>) -> bool
        decreases self,
    {
        match self {
            Shape::Empty => true,
            Shape::Node { left, value, right } => match key.cmp_spec(&value) {
                Ordering::Equal => true,
                Ordering::Less => {
                    &&& forall|w: T| #[trigger] donor.values().contains(w) ==> less(w, value)
                    &&& left.admits(key, donor)
                },
                Ordering::Greater => {
                    &&& forall|w: T| #[trigger] donor.values().contains(w) ==> less(value, w)
                    &&& right.admits(key, donor)
                },
            },
        }
    }
}

} // verus!
