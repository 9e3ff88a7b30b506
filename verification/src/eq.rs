//! Equality of sequences of elements, and of elements with values.
use vstd::prelude::*;
use crate::elem::{ConcurrentElement, elem_eq_spec, elem_eq_value_spec, eq_is_specified};

verus! {

/// Whether `a` and `b` have the same length and equal elements, position by position.
pub fn eq_elem_iters<T: PartialEq>(a: &[ConcurrentElement<T>], b: &[ConcurrentElement<T>]) -> (equal: bool)
    ensures
        eq_is_specified::<T>() ==> (equal <==> (a@.len() == b@.len() && forall|k: int|
            0 <= k < a@.len() ==> elem_eq_spec((#[trigger] a@[k])@, b@[k]@))),
{
    if a.len() != b.len() {
        return false;
    }
    let mut k: usize = 0;
    while k < a.len()
        invariant
            a@.len() == b@.len(),
            k <= a@.len(),
            eq_is_specified::<T>() ==> forall|j: int| 0 <= j < k ==> elem_eq_spec((#[trigger] a@[j])@, b@[j]@),
        decreases a@.len() - k,
    {
        if !a[k].eq_elem(&b[k]) {
            return false;
        }
        k = k + 1;
    }
    true
}

/// Whether `a` and `b` have the same length and every element of `a` holds a value
/// equal to the value of `b` at the same position.
pub fn eq_elem_iter_to_iter<T: PartialEq>(a: &[ConcurrentElement<T>], b: &[T]) -> (equal: bool)
    ensures
        eq_is_specified::<T>() ==> (equal <==> (a@.len() == b@.len() && forall|k: int|
            0 <= k < a@.len() ==> elem_eq_value_spec((#[trigger] a@[k])@, b@[k]))),
{
    if a.len() != b.len() {
        return false;
    }
    let mut k: usize = 0;
    while k < a.len()
        invariant
            a@.len() == b@.len(),
            k <= a@.len(),
            eq_is_specified::<T>() ==> forall|j: int| 0 <= j < k ==> elem_eq_value_spec((#[trigger] a@[j])@, b@[j]),
        decreases a@.len() - k,
    {
        if !a[k].is_some() || !a[k].eq_value(&b[k]) {
            return false;
        }
        k = k + 1;
    }
    true
}

} // verus!
