//! What holds of the model of the trees: how the operations change the set of values, the
//! number of nodes and the search tree property.
use crate::order::{lemma_less_transitive, lemma_trichotomy, less, total_order};
use crate::shape::{kept, Edit, Shape};
use std::cmp::Ordering;
use vstd::prelude::*;
use vstd::std_specs::cmp::OrdSpec;

verus! {

/// The descent meets only values of the tree, and in a search tree it meets every value of
/// the tree.
pub proof fn lemma_finds_members<T: Ord>(tree: Shape<T>, v: T)
    requires
        total_order::<T>(),
    ensures
        tree.finds(v) ==> tree.values().contains(v),
        tree.is_search_tree() ==> (tree.finds(v) <==> tree.values().contains(v)),
    decreases tree,
{
    match tree {
        Shape::Empty => {},
        Shape::Node { left, value, right } => {
            lemma_trichotomy(v, value);
            lemma_finds_members(*left, v);
            lemma_finds_members(*right, v);
            if tree.is_search_tree() && tree.values().contains(v) {
                if left.values().contains(v) {
                    assert(less(v, value));
                } else if right.values().contains(v) {
                    assert(less(value, v));
                }
            }
        },
    }
}

/// An insertion adds its value to the values of the tree and nothing else. It changes the
/// tree, by one more node, exactly if the descent did not meet the value before; after it,
/// the descent meets the value. It keeps a search tree a search tree.
pub proof fn lemma_insert<T: Ord>(tree: Shape<T>, v: T)
    requires
        total_order::<T>(),
    ensures
        tree.insert(v).values() == tree.values().insert(v),
        tree.insert(v).finds(v),
        tree.finds(v) ==> tree.insert(v) == tree,
        !tree.finds(v) ==> tree.insert(v).size() == tree.size() + 1,
        tree.is_search_tree() ==> tree.insert(v).is_search_tree(),
    decreases tree,
{
    lemma_trichotomy(v, v);
    match tree {
        Shape::Empty => {
            assert(tree.insert(v).values() =~= tree.values().insert(v));
        },
        Shape::Node { left, value, right } => {
            lemma_trichotomy(v, value);
            lemma_insert(*left, v);
            lemma_insert(*right, v);
            assert(tree.insert(v).values() =~= tree.values().insert(v));
        },
    }
}

/// Only the empty tree has no rightmost node. The value of the rightmost node is a value of
/// the tree, and the tree without that node has one node less and no new value.
pub proof fn lemma_rightmost<T>(tree: Shape<T>)
    ensures
        tree.rightmost() is None <==> tree is Empty,
        tree.rightmost() matches Some(last) ==> {
            &&& tree.values().contains(last)
            &&& tree.without_rightmost().size() + 1 == tree.size()
            &&& tree.without_rightmost().values().subset_of(tree.values())
        },
    decreases tree,
{
    match tree {
        Shape::Empty => {},
        Shape::Node { left, value, right } => {
            lemma_rightmost(*right);
            if *right is Empty {
                assert(right.size() == 0);
            }
        },
    }
}

/// In a search tree the value of the rightmost node is greater than all others. Without that
/// node the tree holds all other values and is a search tree still.
pub proof fn lemma_rightmost_is_greatest<T: Ord>(tree: Shape<T>)
    requires
        total_order::<T>(),
        tree.is_search_tree(),
    ensures
        tree.rightmost() matches Some(greatest) ==> {
            &&& forall|w: T| #[trigger]
                tree.values().contains(w) ==> w == greatest || less(w, greatest)
            &&& tree.without_rightmost().values() == tree.values().remove(greatest)
            &&& tree.without_rightmost().is_search_tree()
        },
    decreases tree,
{
    match tree {
        Shape::Empty => {},
        Shape::Node { left, value, right } => {
            lemma_rightmost(*right);
            lemma_rightmost_is_greatest(*right);
            lemma_trichotomy(value, value);
            if *right is Empty {
                assert(right.values() =~= Set::<T>::empty());
                assert(!left.values().contains(value));
                assert(tree.without_rightmost().values() =~= tree.values().remove(value));
            } else {
                let greatest = right.rightmost()->Some_0;
                assert(less(value, greatest));
                lemma_trichotomy(value, greatest);
                assert forall|w: T| #[trigger] tree.values().contains(w) implies w == greatest
                    || less(w, greatest) by {
                    if left.values().contains(w) {
                        lemma_less_transitive(w, value, greatest);
                    }
                }
                assert(!left.values().contains(greatest)) by {
                    if left.values().contains(greatest) {
                        assert(less(greatest, value));
                    }
                }
                assert(tree.without_rightmost().values() =~= tree.values().remove(greatest));
                assert forall|w: T| #[trigger]
                    right.without_rightmost().values().contains(w) implies less(value, w) by {
                    assert(right.values().contains(w));
                }
            }
        },
    }
}

/// A deletion changes the tree, by one node less, exactly if the descent met the value
/// before. From a search tree it takes that value and no other, and leaves a search tree.
pub proof fn lemma_delete<T: Ord>(tree: Shape<T>, v: T)
    requires
        total_order::<T>(),
    ensures
        !tree.finds(v) ==> tree.delete(v) == tree,
        tree.finds(v) ==> tree.delete(v).size() + 1 == tree.size(),
        tree.delete(v).values().subset_of(tree.values()),
        tree.is_search_tree() ==> {
            &&& tree.delete(v).is_search_tree()
            &&& tree.delete(v).values() == tree.values().remove(v)
            &&& !tree.delete(v).finds(v)
        },
    decreases tree,
{
    match tree {
        Shape::Empty => {
            assert(tree.delete(v).values() =~= tree.values().remove(v));
        },
        Shape::Node { left, value, right } => {
            lemma_trichotomy(v, value);
            lemma_trichotomy(v, v);
            lemma_delete(*left, v);
            lemma_delete(*right, v);
            lemma_rightmost(*left);
            if tree.is_search_tree() {
                lemma_rightmost_is_greatest(*left);
            }
            match v.cmp_spec(&value) {
                Ordering::Equal => {
                    if tree.is_search_tree() {
                        assert(!left.values().contains(v));
                        assert(!right.values().contains(v));
                        match left.rightmost() {
                            Some(greatest) => {
                                assert(less(greatest, value));
                                assert forall|w: T| #[trigger]
                                    right.values().contains(w) implies less(greatest, w) by {
                                    lemma_less_transitive(greatest, value, w);
                                }
                                assert forall|w: T| #[trigger]
                                    left.without_rightmost().values().contains(w) implies less(
                                    w,
                                    greatest,
                                ) by {
                                    assert(left.values().contains(w));
                                }
                            },
                            None => {},
                        }
                        assert(tree.delete(v).values() =~= tree.values().remove(v));
                    }
                },
                Ordering::Less => {
                    if tree.is_search_tree() {
                        assert(!right.values().contains(v)) by {
                            if right.values().contains(v) {
                                assert(less(value, v));
                            }
                        }
                        assert forall|w: T| #[trigger]
                            left.delete(v).values().contains(w) implies less(w, value) by {
                            assert(left.values().contains(w));
                        }
                        assert(tree.delete(v).values() =~= tree.values().remove(v));
                    }
                },
                Ordering::Greater => {
                    if tree.is_search_tree() {
                        assert(!left.values().contains(v)) by {
                            if left.values().contains(v) {
                                assert(less(v, value));
                            }
                        }
                        assert forall|w: T| #[trigger]
                            right.delete(v).values().contains(w) implies less(value, w) by {
                            assert(right.values().contains(w));
                        }
                        assert(tree.delete(v).values() =~= tree.values().remove(v));
                    }
                },
            }
            if tree.is_search_tree() {
                lemma_finds_members(tree.delete(v), v);
            }
        },
    }
}

/// A graft changes the tree exactly if the descent did not meet the key: the tree then has
/// the nodes and values of the donor besides its own. Where both are search trees and the
/// tree admits the donor, the result is a search tree.
pub proof fn lemma_graft<T: Ord>(tree: Shape<T>, key: T, donor: Shape<T>)
    requires
        total_order::<T>(),
    ensures
        tree.finds(key) ==> tree.graft(key, donor) == tree,
        !tree.finds(key) ==> {
            &&& tree.graft(key, donor).size() == tree.size() + donor.size()
            &&& tree.graft(key, donor).values() == tree.values().union(donor.values())
            &&& tree.is_search_tree() && donor.is_search_tree() && tree.admits(key, donor)
                ==> tree.graft(key, donor).is_search_tree()
        },
    decreases tree,
{
    match tree {
        Shape::Empty => {
            assert(tree.graft(key, donor).values() =~= tree.values().union(donor.values()));
        },
        Shape::Node { left, value, right } => {
            lemma_trichotomy(key, value);
            lemma_graft(*left, key, donor);
            lemma_graft(*right, key, donor);
            if !tree.finds(key) {
                assert(tree.graft(key, donor).values() =~= tree.values().union(donor.values()));
            }
        },
    }
}

/// The in-order traversal visits every node once and holds the values of the tree. Of a
/// search tree it is strictly increasing.
pub proof fn lemma_in_order<T: Ord>(tree: Shape<T>)
    requires
        total_order::<T>(),
    ensures
        tree.in_order().len() == tree.size(),
        forall|v: T| tree.in_order().contains(v) <==> tree.values().contains(v),
        tree.is_search_tree() ==> forall|i: int, j: int|
            0 <= i < j < tree.in_order().len() ==> less(
                #[trigger] tree.in_order()[i],
                #[trigger] tree.in_order()[j],
            ),
    decreases tree,
{
    match tree {
        Shape::Empty => {},
        Shape::Node { left, value, right } => {
            lemma_in_order(*left);
            lemma_in_order(*right);
            let l = left.in_order();
            let r = right.in_order();
            let all = tree.in_order();
            assert(all == l.push(value) + r);
            assert forall|v: T| all.contains(v) <==> tree.values().contains(v) by {
                if all.contains(v) {
                    let i = choose|i: int| 0 <= i < all.len() && all[i] == v;
                    if i < l.len() {
                        assert(l.contains(v));
                    } else if i > l.len() {
                        assert(r[i - l.len() - 1] == v);
                        assert(r.contains(v));
                    }
                }
                if tree.values().contains(v) {
                    if v == value {
                        assert(all[l.len() as int] == v);
                    } else if left.values().contains(v) {
                        assert(l.contains(v));
                        let i = choose|i: int| 0 <= i < l.len() && l[i] == v;
                        assert(all[i] == v);
                    } else {
                        assert(r.contains(v));
                        let i = choose|i: int| 0 <= i < r.len() && r[i] == v;
                        assert(all[i + l.len() + 1] == v);
                    }
                }
            }
            if tree.is_search_tree() {
                assert forall|i: int, j: int| 0 <= i < j < all.len() implies less(
                    #[trigger] all[i],
                    #[trigger] all[j],
                ) by {
                    let n = l.len() as int;
                    if i < n {
                        assert(l.contains(all[i]));
                        assert(left.values().contains(all[i]));
                    }
                    if j > n {
                        assert(r.contains(r[j - n - 1]));
                        assert(right.values().contains(all[j]));
                    }
                    if i > n {
                        assert(all[i] == r[i - n - 1]);
                    }
                    if i < n && j > n {
                        lemma_less_transitive(all[i], value, all[j]);
                    }
                }
            }
        },
    }
}

/// Deleting the value at the root of a search tree whose root has a left subtree puts the
/// greatest value of that subtree in its place, removes the rightmost node of that subtree and
/// leaves the right subtree as it is.
pub proof fn lemma_delete_promotes_predecessor<T: Ord>(left: Shape<T>, value: T, right: Shape<T>)
    requires
        total_order::<T>(),
        left is Node,
        (Shape::Node { left: Box::new(left), value, right: Box::new(right) }).is_search_tree(),
    ensures
        left.rightmost() matches Some(greatest) && {
            &&& (Shape::Node { left: Box::new(left), value, right: Box::new(right) }).delete(value)
                == (Shape::Node {
                left: Box::new(left.without_rightmost()),
                value: greatest,
                right: Box::new(right),
            })
            &&& left.values().contains(greatest)
            &&& forall|w: T| #[trigger] left.values().contains(w) ==> w == greatest || less(
                w,
                greatest,
            )
            &&& less(greatest, value)
        },
{
    lemma_trichotomy(value, value);
    lemma_rightmost(left);
    lemma_rightmost_is_greatest(left);
}

/// Whatever insertions and deletions were made on an empty tree, in whatever order, the
/// result is a search tree whose in-order traversal is strictly increasing, and it holds
/// exactly the values that were inserted and not deleted since: the descent meets those and
/// no others.
pub proof fn lemma_replay<T: Ord>(edits: Seq<Edit<T>>)
    requires
        total_order::<T>(),
    ensures
        Shape::replay(edits).is_search_tree(),
        Shape::replay(edits).values() == kept(edits),
        forall|v: T| Shape::replay(edits).finds(v) <==> kept(edits).contains(v),
        forall|i: int, j: int|
            0 <= i < j < Shape::replay(edits).in_order().len() ==> less(
                #[trigger] Shape::replay(edits).in_order()[i],
                #[trigger] Shape::replay(edits).in_order()[j],
            ),
    decreases edits.len(),
{
    let tree = Shape::replay(edits);
    if edits.len() == 0 {
        assert(tree.values() =~= kept(edits));
    } else {
        let before = Shape::replay(edits.drop_last());
        lemma_replay(edits.drop_last());
        match edits.last() {
            Edit::Insert(v) => {
                lemma_insert(before, v);
            },
            Edit::Delete(v) => {
                lemma_delete(before, v);
            },
        }
    }
    lemma_in_order(tree);
    assert forall|v: T| tree.finds(v) <==> kept(edits).contains(v) by {
        lemma_finds_members(tree, v);
    }
}

/// A second insertion of a value fails and leaves the tree as the first one left it.
pub proof fn lemma_insert_twice<T: Ord>(tree: Shape<T>, v: T)
    requires
        total_order::<T>(),
    ensures
        tree.insert(v).finds(v),
        tree.insert(v).insert(v) == tree.insert(v),
{
    lemma_insert(tree, v);
    lemma_insert(tree.insert(v), v);
}

/// A search tree is sorted.
pub proof fn lemma_search_tree_is_sorted<T: Ord>(tree: Shape<T>)
    requires
        total_order::<T>(),
        tree.is_search_tree(),
    ensures
        tree.is_sorted(),
    decreases tree,
{
    match tree {
        Shape::Empty => {},
        Shape::Node { left, value, right } => {
            lemma_search_tree_is_sorted(*left);
            lemma_search_tree_is_sorted(*right);
            assert forall|w: T| #[trigger] right.values().contains(w) implies !less(w, value) by {
                lemma_trichotomy(w, value);
            }
        },
    }
}

/// In a sorted tree the descent meets every value of the tree.
pub proof fn lemma_finds_members_of_sorted<T: Ord>(tree: Shape<T>, v: T)
    requires
        total_order::<T>(),
        tree.is_sorted(),
    ensures
        tree.finds(v) <==> tree.values().contains(v),
    decreases tree,
{
    lemma_finds_members(tree, v);
    match tree {
        Shape::Empty => {},
        Shape::Node { left, value, right } => {
            lemma_trichotomy(v, value);
            lemma_finds_members_of_sorted(*left, v);
            lemma_finds_members_of_sorted(*right, v);
            if tree.values().contains(v) && v != value {
                if left.values().contains(v) {
                    assert(less(v, value));
                } else {
                    assert(right.values().contains(v));
                    assert(!less(v, value));
                }
            }
        },
    }
}

/// A push adds one node with its value, and nothing else. It keeps a sorted tree sorted, and
/// after it the descent meets the value.
pub proof fn lemma_push<T: Ord>(tree: Shape<T>, v: T)
    requires
        total_order::<T>(),
    ensures
        tree.push(v).bag() == tree.bag().insert(v),
        tree.push(v).values() == tree.values().insert(v),
        tree.push(v).size() == tree.size() + 1,
        tree.push(v).finds(v),
        tree.is_sorted() ==> tree.push(v).is_sorted(),
        forall|w: T| tree.finds(w) ==> tree.push(v).finds(w),
    decreases tree,
{
    lemma_trichotomy(v, v);
    match tree {
        Shape::Empty => {
            assert(tree.push(v).bag() =~= tree.bag().insert(v));
            assert(tree.push(v).values() =~= tree.values().insert(v));
            assert(Shape::<T>::Empty.is_sorted());
            assert(Shape::<T>::Empty.values() =~= Set::<T>::empty());
        },
        Shape::Node { left, value, right } => {
            lemma_trichotomy(v, value);
            lemma_push(*left, v);
            lemma_push(*right, v);
            assert(tree.push(v).bag() =~= tree.bag().insert(v));
            assert(tree.push(v).values() =~= tree.values().insert(v));
            assert forall|w: T| tree.finds(w) implies tree.push(v).finds(w) by {
                lemma_trichotomy(w, value);
                if less(w, value) {
                    assert(left.finds(w));
                    assert(left.push(v).finds(w) || !less(v, value));
                } else if w != value {
                    assert(right.finds(w));
                    assert(right.push(v).finds(w) || less(v, value));
                }
            }
        },
    }
}

/// The drawing of a tree shows every node once, at a depth that is less than the height of
/// the tree below the root.
pub proof fn lemma_rows<T>(tree: Shape<T>, depth: int)
    ensures
        tree.rows(depth).len() == tree.size(),
        forall|i: int|
            0 <= i < tree.rows(depth).len() ==> depth <= (#[trigger] tree.rows(depth)[i]).0 < depth
                + tree.height(),
    decreases tree,
{
    match tree {
        Shape::Empty => {},
        Shape::Node { left, value, right } => {
            lemma_rows(*left, depth + 1);
            lemma_rows(*right, depth + 1);
            let upper = right.rows(depth + 1);
            let lower = left.rows(depth + 1);
            assert forall|i: int| 0 <= i < tree.rows(depth).len() implies depth <= (
            #[trigger] tree.rows(depth)[i]).0 < depth + tree.height() by {
                if i < upper.len() {
                    assert(tree.rows(depth)[i] == upper[i]);
                } else if i > upper.len() {
                    assert(tree.rows(depth)[i] == lower[i - upper.len() - 1]);
                }
            }
        },
    }
}

} // verus!
