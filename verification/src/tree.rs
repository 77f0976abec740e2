//! A binary search tree of unique values.
use crate::laws::{
    lemma_delete, lemma_finds_members, lemma_graft, lemma_insert, lemma_rightmost,
    lemma_rightmost_is_greatest,
};
use crate::order::{lemma_comparisons_obey, less, total_order};
use crate::shape::Shape;
use std::cmp::Ordering;
use vstd::prelude::*;
use vstd::std_specs::cmp::{PartialEqSpec, PartialEqSpecImpl};

verus! {

/// Simple binary search tree.
///
/// For every node of value `v`, all elements in the left sub-tree are smaller
/// than `v` and all elements in the right sub-tree are larger than `v`.
///
/// The view of a tree is its [`Shape`]. The operations work on every tree and say what shape
/// they leave. `new`, `leaf`, `insert`, `delete` and `inorder_predecessor` keep a search tree
/// a search tree; `add_to_end` does so where the receiver admits the donor.
#[derive(Debug)]
pub struct Tree<T>(Option<Box<Node<T>>>);

/// Internal Node representation with a `value` and the left and right sub-trees.
#[derive(Debug)]
struct Node<T> {
    value: T,
    left: Tree<T>,
    right: Tree<T>,
}

/// Errors returned by operations on a `Tree`.
#[derive(Debug, PartialEq, Eq, Clone, Copy, Structural)]
pub enum TreeOpError {
    /// The value to delete was not found.
    NoValue,
    /// The value to insert, or the value at the root of the tree to merge, already exists.
    ValueAlreadyExists,
    /// The tree to merge is empty.
    NoneTree,
}

impl<T> View for Tree<T> {
    type V = Shape<T>;

    closed spec fn view(&self) -> Shape<T>
        decreases self,
    {
        match self.0 {
            None => Shape::Empty,
            Some(node) => Shape::Node {
                left: Box::new(node.left.view()),
                value: node.value,
                right: Box::new(node.right.view()),
            },
        }
    }
}

impl<T: Ord> Tree<T> {
    /// Returns an empty tree.
    pub fn new() -> (tree: Self)
        ensures
            tree@ == Shape::<T>::Empty,
            tree@.is_search_tree(),
    {
        Tree(None)
    }

    /// Returns a tree containing a single value.
    pub fn leaf(value: T) -> (tree: Self)
        ensures
            tree@ == Shape::leaf(value),
            tree@.is_search_tree(),
    {
        let left = Tree(None);
        let right = Tree(None);
        assert(left@ == Shape::<T>::Empty && right@ == Shape::<T>::Empty);
        assert(Shape::<T>::Empty.values() =~= Set::<T>::empty());
        assert(Shape::<T>::Empty.is_search_tree());
        Tree(Some(Box::new(Node { value, left, right })))
    }

    /// Inserts `value` into the tree.
    ///
    /// The descent from the root goes left where `value` is smaller than a node's value and
    /// right where it is greater. Where it meets `value`, the tree stays as it is and the
    /// result is `TreeOpError::ValueAlreadyExists`. Else a new leaf with `value` takes the
    /// empty place that the descent reaches.
    pub fn insert(&mut self, value: T) -> (result: Result<(), TreeOpError>)
        requires
            total_order::<T>(),
        ensures
            final(self)@ == old(self)@.insert(value),
            result == (if old(self)@.finds(value) {
                Err::<(), TreeOpError>(TreeOpError::ValueAlreadyExists)
            } else {
                Ok::<(), TreeOpError>(())
            }),
            result is Err ==> final(self)@ == old(self)@,
            result is Ok ==> final(self)@.size() == old(self)@.size() + 1,
            final(self)@.finds(value),
            final(self)@.values() == old(self)@.values().insert(value),
            old(self)@.is_search_tree() ==> final(self)@.is_search_tree() && (result is Err
                <==> old(self)@.values().contains(value)),
        decreases *old(self),
    {
        proof {
            lemma_comparisons_obey::<T>();
            lemma_insert(old(self)@, value);
            lemma_finds_members(old(self)@, value);
        }
        match &mut self.0 {
            Some(n) => match value.cmp(&n.value) {
                Ordering::Equal => Err(TreeOpError::ValueAlreadyExists),
                Ordering::Less => n.left.insert(value),
                Ordering::Greater => n.right.insert(value),
            },
            None => {
                *self = Tree::leaf(value);
                Ok(())
            },
        }
    }

    /// Returns true iff `target` belongs to the tree.
    ///
    /// The result is whether the descent for `target` meets it; in a search tree, that is
    /// whether `target` is a value of the tree.
    pub fn contains(&self, target: T) -> (found: bool)
        requires
            total_order::<T>(),
        ensures
            found == self@.finds(target),
            found ==> self@.values().contains(target),
            self@.is_search_tree() ==> found == self@.values().contains(target),
        decreases self,
    {
        proof {
            lemma_comparisons_obey::<T>();
            lemma_finds_members(self@, target);
        }
        match &self.0 {
            Some(n) => match target.cmp(&n.value) {
                Ordering::Equal => true,
                Ordering::Less => n.left.contains(target),
                Ordering::Greater => n.right.contains(target),
            },
            None => false,
        }
    }

    /// Inserts `tree` at the corresponding place in `self`.
    ///
    /// The descent is that of an insertion of the value at the root of `tree`. Where it
    /// reaches an empty place, the whole of `tree` moves there and `tree` is left empty.
    /// Where `tree` is empty the result is `TreeOpError::NoneTree`, and where the descent
    /// meets the value it is `TreeOpError::ValueAlreadyExists`: both trees then stay as they
    /// are.
    ///
    /// Only the root of `tree` is compared. The result is a search tree where both trees were
    /// and `self` admits `tree`: every node on the way has all values of `tree` on the side
    /// to which the descent goes on. That is for the caller to see to.
    pub fn add_to_end(&mut self, tree: &mut Tree<T>) -> (result: Result<(), TreeOpError>)
        requires
            total_order::<T>(),
        ensures
            result == (match old(tree)@.root() {
                None => Err::<(), TreeOpError>(TreeOpError::NoneTree),
                Some(key) => if old(self)@.finds(key) {
                    Err::<(), TreeOpError>(TreeOpError::ValueAlreadyExists)
                } else {
                    Ok::<(), TreeOpError>(())
                },
            }),
            result is Err ==> final(self)@ == old(self)@ && final(tree)@ == old(tree)@,
            result is Ok ==> final(tree)@ == Shape::<T>::Empty,
            old(tree)@.root() matches Some(key) ==> {
                &&& final(self)@ == old(self)@.graft(key, old(tree)@)
                &&& result is Ok ==> {
                    &&& final(self)@.size() == old(self)@.size() + old(tree)@.size()
                    &&& final(self)@.values() == old(self)@.values().union(old(tree)@.values())
                    &&& old(self)@.is_search_tree() && old(tree)@.is_search_tree() && old(
                        self,
                    )@.admits(key, old(tree)@) ==> final(self)@.is_search_tree()
                }
                &&& old(self)@.is_search_tree() ==> (result is Err <==> old(
                    self,
                )@.values().contains(key))
            },
        decreases *old(self),
    {
        proof {
            lemma_comparisons_obey::<T>();
        }
        // Get the value at the root of `tree`
        let target = match &tree.0 {
            Some(node) => &node.value,
            None => return Err(TreeOpError::NoneTree),
        };
        proof {
            lemma_graft(old(self)@, *target, old(tree)@);
            lemma_finds_members(old(self)@, *target);
        }
        match &mut self.0 {
            Some(n) => match target.cmp(&n.value) {
                Ordering::Equal => Err(TreeOpError::ValueAlreadyExists),
                Ordering::Less => n.left.add_to_end(tree),
                Ordering::Greater => n.right.add_to_end(tree),
            },
            None => {
                self.0 = tree.0.take();
                Ok(())
            },
        }
    }

    /// Deletes `target` from the tree.
    ///
    /// Where the descent for `target` does not meet it, the tree stays as it is and the
    /// result is `TreeOpError::NoValue`. A node with a left subtree gets the greatest value
    /// of that subtree, the value of its rightmost node, and that node is removed in its
    /// stead. A node without a left subtree is replaced by its right subtree.
    pub fn delete(&mut self, target: &T) -> (result: Result<(), TreeOpError>)
        requires
            total_order::<T>(),
        ensures
            final(self)@ == old(self)@.delete(*target),
            result == (if old(self)@.finds(*target) {
                Ok::<(), TreeOpError>(())
            } else {
                Err::<(), TreeOpError>(TreeOpError::NoValue)
            }),
            result is Err ==> final(self)@ == old(self)@,
            result is Ok ==> final(self)@.size() + 1 == old(self)@.size(),
            final(self)@.values().subset_of(old(self)@.values()),
            old(self)@.is_search_tree() ==> {
                &&& final(self)@.is_search_tree()
                &&& final(self)@.values() == old(self)@.values().remove(*target)
                &&& !final(self)@.finds(*target)
                &&& result is Ok <==> old(self)@.values().contains(*target)
            },
        decreases *old(self),
    {
        proof {
            lemma_comparisons_obey::<T>();
            lemma_delete(old(self)@, *target);
            lemma_finds_members(old(self)@, *target);
        }
        match &mut self.0 {
            None => Err(TreeOpError::NoValue),
            Some(n) => match target.cmp(&n.value) {
                Ordering::Equal => {
                    match n.left.inorder_predecessor() {
                        Some(predecessor) => n.value = predecessor,
                        None => self.0 = n.right.0.take(),
                    }
                    Ok(())
                },
                Ordering::Less => n.left.delete(target),
                Ordering::Greater => n.right.delete(target),
            },
        }
    }

    /// Removes the rightmost node of the tree and returns its value: the greatest value of a
    /// search tree, and so the in-order predecessor of the value of a node whose left subtree
    /// the tree is. The left subtree of the removed node takes its place. An empty tree gives
    /// `None`.
    pub fn inorder_predecessor(&mut self) -> (predecessor: Option<T>)
        ensures
            predecessor == old(self)@.rightmost(),
            predecessor is None <==> old(self)@ is Empty,
            final(self)@ == old(self)@.without_rightmost(),
            predecessor matches Some(greatest) ==> {
                &&& old(self)@.values().contains(greatest)
                &&& final(self)@.size() + 1 == old(self)@.size()
                &&& final(self)@.values().subset_of(old(self)@.values())
                &&& total_order::<T>() && old(self)@.is_search_tree() ==> {
                    &&& forall|w: T| #[trigger]
                        old(self)@.values().contains(w) ==> w == greatest || less(w, greatest)
                    &&& final(self)@.values() == old(self)@.values().remove(greatest)
                    &&& final(self)@.is_search_tree()
                }
            },
        decreases *old(self),
    {
        proof {
            lemma_rightmost(old(self)@);
            if total_order::<T>() && old(self)@.is_search_tree() {
                lemma_rightmost_is_greatest(old(self)@);
            }
        }
        match &mut self.0 {
            Some(n) => match n.right.inorder_predecessor() {
                Some(child) => Some(child),
                None => {
                    let predecessor = self.0.take().unwrap();
                    self.0 = predecessor.left.0;
                    Some(predecessor.value)
                },
            },
            None => None,
        }
    }
}

impl<T: Ord> Default for Tree<T> {
    /// Returns an empty tree.
    fn default() -> (tree: Self)
        ensures
            tree@ == Shape::<T>::Empty,
    {
        Self::new()
    }
}

impl<T: PartialEq> PartialEq for Tree<T> {
    /// Compares two trees by their roots alone: two empty trees are equal, and two trees with
    /// nodes are equal where the values at their roots are.
    fn eq(&self, other: &Self) -> (equal: bool) {
        match (self.0.as_ref(), other.0.as_ref()) {
            (Some(a), Some(b)) => a.value == b.value,
            (None, None) => true,
            _ => false,
        }
    }
}

impl<T: PartialEq> PartialEqSpecImpl for Tree<T> {
    open spec fn obeys_eq_spec() -> bool {
        T::obeys_eq_spec()
    }

    open spec fn eq_spec(&self, other: &Self) -> bool {
        match (self@.root(), other@.root()) {
            (Some(a), Some(b)) => a.eq_spec(&b),
            (None, None) => true,
            _ => false,
        }
    }
}

} // verus!
