//! A copy of a string and a linked list of pairs.
use vstd::prelude::*;

verus! {

/// Copies a [`String`] into another: afterwards `x` holds what `y` holds, and `y` is as it
/// was.
pub fn c(x: &mut String, y: &mut String)
    ensures
        *final(x) == *old(y),
        *final(y) == *old(y),
{
    *x = y.clone();
}

/// Represents some kind of linked list holding tuples generic over a type `T`.
///
/// Its view is the sequence of its pairs from the head on; a list holds at least one pair.
#[allow(dead_code)]
pub struct D<T> {
    value: (T, T),
    next: Option<Box<D<T>>>,
}

impl<T> View for D<T> {
    type V = Seq<(T, T)>;

    closed spec fn view(&self) -> Seq<(T, T)>
        decreases self,
    {
        match self.next {
            None => seq![self.value],
            Some(rest) => seq![self.value] + (*rest).view(),
        }
    }
}

/// Initializes a linked list of three pairs, (1, 2), (3, 4) and (5, 6), and lets go of it.
pub fn d() {
    let last = D { value: (5, 6), next: None };
    assert(last@ == seq![(5i32, 6i32)]);
    let second = D { value: (3, 4), next: Some(Box::new(last)) };
    assert(second@ =~= seq![(3i32, 4i32), (5i32, 6i32)]);
    let _list = D { value: (1, 2), next: Some(Box::new(second)) };
    assert(_list@ =~= seq![(1i32, 2i32), (3i32, 4i32), (5i32, 6i32)]);
}

} // verus!
