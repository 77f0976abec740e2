//! A binary search tree that admits equal values.
use crate::laws::{lemma_finds_members, lemma_finds_members_of_sorted, lemma_push, lemma_rows};
use crate::order::{lemma_comparisons_obey, lemma_trichotomy, less, total_order};
use crate::shape::Shape;
use vstd::prelude::*;

verus! {

type Edge<T> = Option<Box<BinarySearchTree<T>>>;

/// A binary search tree whose root may be without an element: the empty tree.
///
/// A value goes to the left of a node where it is smaller than the node's element, and to the
/// right where it is not, so equal values may occur more than once.
#[derive(Debug)]
pub struct BinarySearchTree<T> {
    elem: Option<T>,
    left: Edge<T>,
    right: Edge<T>,
}

/// The shape of the tree behind an edge.
spec fn edge_shape<T>(edge: Edge<T>) -> Shape<T> {
    match edge {
        None => Shape::Empty,
        Some(node) => (*node).view(),
    }
}

/// Whether the tree behind an edge, if there is one, has an element at its root and is well
/// formed.
spec fn edge_well_formed<T>(edge: Edge<T>) -> bool
    decreases edge,
{
    match edge {
        None => true,
        Some(node) => node.elem is Some && node.well_formed(),
    }
}

impl<T> View for BinarySearchTree<T> {
    type V = Shape<T>;

    closed spec fn view(&self) -> Shape<T>
        decreases self,
    {
        match self.elem {
            None => Shape::Empty,
            Some(value) => Shape::Node {
                left: Box::new(
                    match self.left {
                        None => Shape::Empty,
                        Some(node) => (*node).view(),
                    },
                ),
                value,
                right: Box::new(
                    match self.right {
                        None => Shape::Empty,
                        Some(node) => (*node).view(),
                    },
                ),
            },
        }
    }
}

impl<T> BinarySearchTree<T> {
    /// Only the root of a tree may be without an element, and then it has no subtrees.
    pub closed spec fn well_formed(&self) -> bool
        decreases self,
    {
        match self.elem {
            None => self.left is None && self.right is None,
            Some(_) => edge_well_formed(self.left) && edge_well_formed(self.right),
        }
    }
}

/// The lines of the drawing of a tree turned on its side: for each line its depth and the
/// element it shows. The empty tree is drawn as one line without an element.
pub open spec fn drawing<T>(tree: Shape<T>, depth: int) -> Seq<(int, Option<T>)> {
    if tree is Empty {
        seq![(depth, None)]
    } else {
        tree.rows(depth).map_values(|row: (int, T)| (row.0, Some(row.1)))
    }
}

impl<T: Ord> BinarySearchTree<T> {
    /// Returns an empty tree.
    pub fn new() -> (tree: Self)
        ensures
            tree.well_formed(),
            tree@ == Shape::<T>::Empty,
            tree@.is_sorted(),
    {
        BinarySearchTree { elem: None, left: None, right: None }
    }

    /// Returns a tree of one node that holds `elem`.
    pub fn leaf(elem: T) -> (tree: Self)
        ensures
            tree.well_formed(),
            tree@ == Shape::leaf(elem),
            tree@.is_sorted(),
    {
        assert(Shape::<T>::Empty.is_sorted());
        assert(Shape::<T>::Empty.values() =~= Set::<T>::empty());
        assert(edge_shape::<T>(None) == Shape::<T>::Empty);
        assert(edge_well_formed::<T>(None));
        BinarySearchTree { elem: Some(elem), left: None, right: None }
    }

    /// Adds `new_elem` to the tree, in a new leaf at the empty place that it reaches on its
    /// way down: to the left of each element that it is smaller than, to the right of the
    /// others.
    pub fn push(&mut self, new_elem: T)
        requires
            total_order::<T>(),
            old(self).well_formed(),
        ensures
            final(self).well_formed(),
            final(self)@ == old(self)@.push(new_elem),
            final(self)@.bag() == old(self)@.bag().insert(new_elem),
            final(self)@.size() == old(self)@.size() + 1,
            final(self)@.finds(new_elem),
            forall|w: T| old(self)@.finds(w) ==> final(self)@.finds(w),
            old(self)@.is_sorted() ==> final(self)@.is_sorted(),
        decreases *old(self),
    {
        proof {
            lemma_comparisons_obey::<T>();
            lemma_push(old(self)@, new_elem);
        }
        let ghost before = *self;
        match &self.elem {
            Some(elem) => {
                proof {
                    lemma_trichotomy(new_elem, *elem);
                }
                if new_elem < *elem {
                    assert(less(new_elem, *elem));
                    match &mut self.left {
                        Some(n) => n.push(new_elem),
                        None => {
                            self.left = Some(Box::new(BinarySearchTree::leaf(new_elem)));
                        },
                    }
                    assert(edge_shape(self.left) == edge_shape(before.left).push(new_elem));
                    assert(edge_well_formed(self.left));
                } else {
                    assert(!less(new_elem, *elem));
                    match &mut self.right {
                        Some(n) => n.push(new_elem),
                        None => {
                            self.right = Some(Box::new(BinarySearchTree::leaf(new_elem)));
                        },
                    }
                    assert(edge_shape(self.right) == edge_shape(before.right).push(new_elem));
                    assert(edge_well_formed(self.right));
                }
            },
            None => {
                assert(edge_shape::<T>(None) == Shape::<T>::Empty);
                self.elem = Some(new_elem);
            },
        }
    }

    /// Returns true iff the descent for `target_elem` meets it; in a sorted tree, that is
    /// whether `target_elem` is an element of the tree.
    pub fn contains(&self, target_elem: T) -> (found: bool)
        requires
            total_order::<T>(),
            self.well_formed(),
        ensures
            found == self@.finds(target_elem),
            found ==> self@.values().contains(target_elem),
            self@.is_sorted() ==> found == self@.values().contains(target_elem),
        decreases self,
    {
        proof {
            lemma_comparisons_obey::<T>();
            lemma_finds_members(self@, target_elem);
            if self@.is_sorted() {
                lemma_finds_members_of_sorted(self@, target_elem);
            }
        }
        match &self.elem {
            Some(elem) => {
                proof {
                    lemma_trichotomy(target_elem, *elem);
                }
                if target_elem == *elem {
                    true
                } else {
                    let next = if target_elem < *elem {
                        &self.left
                    } else {
                        &self.right
                    };
                    assert(self@.finds(target_elem) == edge_shape(*next).finds(target_elem));
                    assert(edge_well_formed(*next));
                    match next {
                        Some(node) => node.contains(target_elem),
                        None => false,
                    }
                }
            },
            None => false,
        }
    }

    /// The lines that draw the tree turned on its side, from top to bottom: the right
    /// subtree, the element at the root, the left subtree. Each line comes with its depth,
    /// which is `spacing` at the root and one more at each step down.
    pub fn rows(&self, spacing: u32) -> (rows: Vec<(u32, &Option<T>)>)
        requires
            self.well_formed(),
            spacing + self@.height() <= u32::MAX + 1,
        ensures
            rows.len() == drawing(self@, spacing as int).len(),
            forall|i: int|
                0 <= i < rows.len() ==> (#[trigger] rows[i]).0 == drawing(self@, spacing as int)[i].0
                    && *rows[i].1 == drawing(self@, spacing as int)[i].1,
    {
        let mut rows = Vec::new();
        self.add_rows(spacing, &mut rows);
        assert forall|i: int| 0 <= i < rows.len() implies (#[trigger] rows[i]).0 == drawing(
            self@,
            spacing as int,
        )[i].0 && *rows[i].1 == drawing(self@, spacing as int)[i].1 by {
            assert(rows[0 + i] == rows[i]);
        }
        rows
    }

    /// Appends the lines of the drawing of this tree to `rows`.
    fn add_rows<'a>(&'a self, spacing: u32, rows: &mut Vec<(u32, &'a Option<T>)>)
        requires
            self.well_formed(),
            spacing + self@.height() <= u32::MAX + 1,
        ensures
            final(rows).len() == old(rows).len() + drawing(self@, spacing as int).len(),
            forall|i: int| 0 <= i < old(rows).len() ==> final(rows)[i] == old(rows)[i],
            forall|i: int|
                0 <= i < drawing(self@, spacing as int).len() ==> (#[trigger] final(rows)[old(
                    rows,
                ).len() + i]).0 == drawing(self@, spacing as int)[i].0 && *final(rows)[old(
                    rows,
                ).len() + i].1 == drawing(self@, spacing as int)[i].1,
        decreases self,
    {
        let ghost start = rows@;
        let ghost upper = edge_shape(self.right).rows(spacing + 1);
        let ghost lower = edge_shape(self.left).rows(spacing + 1);
        proof {
            lemma_rows(edge_shape(self.right), spacing + 1);
            lemma_rows(edge_shape(self.left), spacing + 1);
            assert(edge_well_formed(self.right) && edge_well_formed(self.left));
            assert(self.right is Some ==> edge_shape(self.right).height() >= 1);
            assert(self.left is Some ==> edge_shape(self.left).height() >= 1);
            assert(self.elem is Some ==> self@.height() >= 1 + edge_shape(self.right).height()
                && self@.height() >= 1 + edge_shape(self.left).height());
        }
        if let Some(right) = &self.right {
            right.add_rows(spacing + 1, rows);
        }
        let ghost middle = rows@;
        assert(middle.len() == start.len() + upper.len());
        rows.push((spacing, &self.elem));
        if let Some(left) = &self.left {
            left.add_rows(spacing + 1, rows);
        }
        assert(rows.len() == middle.len() + 1 + lower.len());
        proof {
            let expected = drawing(self@, spacing as int);
            if self.elem is Some {
                let value = self.elem->Some_0;
                assert(self@.rows(spacing as int) == upper.push((spacing as int, value)) + lower);
                assert forall|i: int| 0 <= i < expected.len() implies (#[trigger] rows[start.len()
                    + i]).0 == expected[i].0 && *rows[start.len() + i].1 == expected[i].1 by {
                    if i < upper.len() {
                        assert(rows[start.len() + i] == middle[start.len() + i]);
                        assert(self@.rows(spacing as int)[i] == upper[i]);
                        assert(drawing(edge_shape(self.right), spacing + 1)[i] == (
                            upper[i].0,
                            Some(upper[i].1),
                        ));
                    } else if i == upper.len() {
                    } else {
                        let k = i - upper.len() - 1;
                        assert(self@.rows(spacing as int)[i] == lower[k]);
                        assert(drawing(edge_shape(self.left), spacing + 1)[k] == (
                            lower[k].0,
                            Some(lower[k].1),
                        ));
                        assert(rows[middle.len() + 1 + k] == rows[start.len() + i]);
                    }
                }
            }
        }
    }
}

} // verus!
