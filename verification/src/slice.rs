//! Slices of a concurrent vector: a focused view on a range of its positions.
use vstd::prelude::*;
use core::ops::Range;
use crate::elem::{ConcurrentElement, eq_is_specified, value_eq_spec};
use crate::vec::ConcurrentVec;

verus! {

/// Lower limit of `range` on a vector of length `len`.
pub open spec fn range_begin(range: Range<usize>, len: nat) -> nat {
    if range.start <= len {
        range.start as nat
    } else {
        len
    }
}

/// Upper limit of `range` on a vector of length `len`.
pub open spec fn range_end(range: Range<usize>, len: nat) -> nat {
    let end = if range.end < range.start {
        range.start as nat
    } else {
        range.end as nat
    };
    if end <= len {
        end
    } else {
        len
    }
}

/// Limits of `range` on a vector of length `vec_len`.
///
/// Calls `orx_pinned_vec::utils::slice::vec_range_limits` with `Some(vec_len)`, whose
/// source takes the start and the end of the range, raises the end to the start when it
/// is smaller, and then lowers both to `vec_len` when they exceed it.
#[verifier::external_body]
fn vec_range_limits(range: &Range<usize>, vec_len: usize) -> (limits: (usize, usize))
    ensures
        limits.0 == range_begin(*range, vec_len as nat),
        limits.1 == range_end(*range, vec_len as nat),
{
    let [begin, end] = orx_pinned_vec::utils::slice::vec_range_limits(range, Some(vec_len));
    (begin, end)
}

/// A slice of a `ConcurrentVec`: `len` consecutive elements starting at position `a`.
///
/// It can be created from a vec by `ConcurrentVec::slice` or from another slice by
/// `ConcurrentSlice::slice`.
#[derive(Clone, Copy)]
pub struct ConcurrentSlice<'a, T> {
    vec: &'a ConcurrentVec<T>,
    a: usize,
    len: usize,
}

impl<'a, T> View for ConcurrentSlice<'a, T> {
    type V = Seq<T>;

    /// The values of the slice, in order.
    closed spec fn view(&self) -> Seq<T> {
        self.vec.values().subrange(self.a as int, self.a + self.len)
    }
}

impl<'a, T> ConcurrentSlice<'a, T> {
    /// The vec that the slice looks into.
    pub closed spec fn spec_vec(&self) -> ConcurrentVec<T> {
        *self.vec
    }

    /// Position in the vec of the first element of the slice.
    pub closed spec fn begin(&self) -> nat {
        self.a as nat
    }

    /// The number of elements of the slice.
    pub closed spec fn spec_len(&self) -> nat {
        self.len as nat
    }

    /// The positions of the vec that the slice covers, each with its value, if written.
    pub open spec fn elems(&self) -> Seq<Option<T>> {
        self.spec_vec()@.subrange(self.begin() as int, (self.begin() + self.spec_len()) as int)
    }

    /// Whether every position of the slice holds a value; only a slice of a vector
    /// built over a storage with positions not written may lack it.
    pub open spec fn all_written(&self) -> bool {
        forall|k: int| 0 <= k < self.spec_len() ==> #[trigger] self.elems()[k] is Some
    }

    /// The slice lies within the length of a well-formed vec.
    pub closed spec fn wf(&self) -> bool {
        &&& self.vec.wf()
        &&& self.a + self.len <= self.vec.spec_len()
    }

    /// What every well-formed slice satisfies.
    pub proof fn lemma_wf(&self)
        requires
            self.wf(),
        ensures
            self.spec_vec().wf(),
            self.begin() + self.spec_len() <= self.spec_vec().spec_len(),
            self@.len() == self.spec_len(),
            forall|i: int| 0 <= i < self.spec_len() ==> #[trigger] self@[i] == self.spec_vec().values()[self.begin() + i],
            forall|i: int| 0 <= i < self.spec_len() ==> #[trigger] self.elems()[i] == self.spec_vec()@[self.begin() + i],
            self.all_written() ==> forall|i: int| 0 <= i < self.spec_len() ==> #[trigger] self.elems()[i] == Some(self@[i]),
    {
        self.vec.lemma_wf();
        if self.all_written() {
            assert forall|i: int| 0 <= i < self.spec_len() implies #[trigger] self.elems()[i] == Some(self@[i]) by {
                assert(self.elems()[i] is Some);
            }
        }
    }

    /// Creates the slice of the `len` elements of `vec` starting at position `a`.
    pub(crate) fn new(vec: &'a ConcurrentVec<T>, a: usize, len: usize) -> (slice: Self)
        requires
            vec.wf(),
            a + len <= vec.spec_len(),
        ensures
            slice.wf(),
            slice.spec_vec() == *vec,
            slice.begin() == a,
            slice.spec_len() == len,
    {
        ConcurrentSlice { vec, a, len }
    }

    /// Position in the vec of the `i`-th element of the slice; `None` when out of bounds.
    fn idx(&self, i: usize) -> (idx: Option<usize>)
        requires
            self.wf(),
        ensures
            idx is Some <==> i < self.spec_len(),
            idx matches Some(j) ==> j == self.begin() + i,
    {
        proof {
            self.vec.lemma_wf();
        }
        if i < self.len {
            Some(self.a + i)
        } else {
            None
        }
    }

    /// Returns the length of the slice.
    pub fn len(&self) -> (len: usize)
        ensures
            len == self.spec_len(),
    {
        self.len
    }

    /// Returns whether the slice is empty.
    pub fn is_empty(&self) -> (empty: bool)
        ensures
            empty == (self.spec_len() == 0),
    {
        self.len == 0
    }

    /// Creates the slice of this slice that `range` selects; the range is cut to the
    /// bounds of this slice.
    pub fn slice(&self, range: Range<usize>) -> (slice: ConcurrentSlice<'a, T>)
        requires
            self.wf(),
        ensures
            slice.wf(),
            slice.spec_vec() == self.spec_vec(),
            self.all_written() ==> slice.all_written(),
            slice.begin() == self.begin() + range_begin(range, self.spec_len()),
            slice.spec_len() == range_end(range, self.spec_len()) - range_begin(
                range,
                self.spec_len(),
            ),
            slice@ == self@.subrange(
                range_begin(range, self.spec_len()) as int,
                range_end(range, self.spec_len()) as int,
            ),
    {
        proof {
            self.vec.lemma_wf();
        }
        let (a, b) = vec_range_limits(&range, self.len);
        let s = ConcurrentSlice::new(self.vec, self.a + a, b - a);
        assert(s@ =~= self@.subrange(a as int, b as int));
        proof {
            if self.all_written() {
                self.lemma_wf();
                s.lemma_wf();
                assert forall|k: int| 0 <= k < s.spec_len() implies #[trigger] s.elems()[k] is Some by {
                    assert(s.elems()[k] == self.elems()[a + k]);
                }
            }
        }
        s
    }

    /// Returns the element at the `i`-th position of the slice; `None` if out of bounds.
    pub fn get(&self, i: usize) -> (elem: Option<&'a ConcurrentElement<T>>)
        requires
            self.wf(),
        ensures
            elem is Some <==> i < self.spec_len(),
            elem matches Some(e) ==> e@ == self.elems()[i as int],
            self.all_written() ==> (elem matches Some(e) ==> e@ == Some(self@[i as int])),
    {
        proof {
            self.lemma_wf();
        }
        match self.idx(i) {
            Some(idx) => {
                assert(self.elems()[i as int] == self.vec@[idx as int]);
                self.vec.get(idx)
            },
            None => None,
        }
    }

    /// Returns a clone of the value at the `i`-th position of the slice; `None` if out of bounds.
    pub fn get_cloned(&self, i: usize) -> (value: Option<T>) where T: Clone
        requires
            self.wf(),
        ensures
            value is Some <==> (i < self.spec_len() && self.elems()[i as int] is Some),
            value matches Some(v) ==> cloned(self@[i as int], v),
    {
        proof {
            self.lemma_wf();
            self.vec.lemma_wf();
        }
        match self.get(i) {
            Some(e) => {
                if e.is_some() {
                    proof {
                        assert(self@[i as int] == self.vec@[self.a + i].unwrap());
                    }
                    Some(e.cloned())
                } else {
                    None
                }
            },
            None => None,
        }
    }

    /// Returns a copy of the value at the `i`-th position of the slice; `None` if out of bounds.
    pub fn get_copied(&self, i: usize) -> (value: Option<T>) where T: Copy
        requires
            self.wf(),
        ensures
            i < self.spec_len() ==> value == self.elems()[i as int],
            i >= self.spec_len() ==> value is None,
    {
        proof {
            self.lemma_wf();
        }
        match self.get(i) {
            Some(e) => {
                if e.is_some() {
                    Some(e.copied())
                } else {
                    None
                }
            },
            None => None,
        }
    }

    /// Returns the elements of the slice, in order, as a slice that iterates them.
    pub fn iter(&self) -> (elements: &'a [ConcurrentElement<T>])
        requires
            self.wf(),
        ensures
            elements@.len() == self.spec_len(),
            forall|k: int| 0 <= k < self.spec_len() ==> (#[trigger] elements@[k])@ == self.elems()[k],
            self.all_written() ==> forall|k: int|
                0 <= k < self.spec_len() ==> (#[trigger] elements@[k])@ == Some(self@[k]),
    {
        let all = self.vec.iter();
        proof {
            self.vec.lemma_wf();
            self.lemma_wf();
        }
        let elements = vstd::slice::slice_subrange(all, self.a, self.a + self.len);
        proof {
            assert forall|k: int| 0 <= k < self.spec_len() implies (#[trigger] elements@[k])@ == self.elems()[k] by {
                assert(elements@[k] == all@[self.a + k]);
            }
        }
        elements
    }

    /// Clones the values of the elements of the slice into a regular vector.
    pub fn clone_to_vec(&self) -> (values: Vec<T>) where T: Clone
        requires
            self.wf(),
            self.all_written(),
        ensures
            values@.len() == self.spec_len(),
            forall|k: int| 0 <= k < self.spec_len() ==> cloned(self@[k], #[trigger] values@[k]),
    {
        let mut values: Vec<T> = Vec::with_capacity(self.len);
        while values.len() < self.len
            invariant
                self.wf(),
                self.all_written(),
                values@.len() <= self.spec_len(),
                forall|k: int| 0 <= k < values@.len() ==> cloned(self@[k], #[trigger] values@[k]),
            decreases self.spec_len() - values@.len(),
        {
            let k = values.len();
            let e = match self.get(k) {
                Some(e) => e,
                None => unreached(),
            };
            values.push(e.cloned());
        }
        values
    }

    /// Returns the cloned values of the elements of the slice, in order.
    pub fn iter_cloned(&self) -> (values: Vec<T>) where T: Clone
        requires
            self.wf(),
            self.all_written(),
        ensures
            values@.len() == self.spec_len(),
            forall|k: int| 0 <= k < self.spec_len() ==> cloned(self@[k], #[trigger] values@[k]),
    {
        self.clone_to_vec()
    }

    /// Returns the index of the first element of the slice equal to `value`; `None` if
    /// there is none.
    pub fn index_of(&self, value: &T) -> (index: Option<usize>) where T: PartialEq
        requires
            self.wf(),
            self.all_written(),
        ensures
            eq_is_specified::<T>() ==> match index {
                Some(i) => i < self.spec_len() && value_eq_spec(self@[i as int], *value) && forall|j: int|
                    0 <= j < i ==> !value_eq_spec(#[trigger] self@[j], *value),
                None => forall|j: int|
                    0 <= j < self.spec_len() ==> !value_eq_spec(#[trigger] self@[j], *value),
            },
    {
        let mut i: usize = 0;
        while i < self.len
            invariant
                self.wf(),
                self.all_written(),
                i <= self.spec_len(),
                eq_is_specified::<T>() ==> forall|j: int|
                    0 <= j < i ==> !value_eq_spec(#[trigger] self@[j], *value),
            decreases self.spec_len() - i,
        {
            let e = match self.get(i) {
                Some(e) => e,
                None => unreached(),
            };
            if e.eq_value(value) {
                return Some(i);
            }
            i = i + 1;
        }
        None
    }

    /// Returns whether an element of the slice equal to `value` exists.
    pub fn contains(&self, value: &T) -> (found: bool) where T: PartialEq
        requires
            self.wf(),
            self.all_written(),
        ensures
            eq_is_specified::<T>() ==> (found <==> exists|j: int|
                0 <= j < self.spec_len() && value_eq_spec(#[trigger] self@[j], *value)),
    {
        let index = self.index_of(value);
        proof {
            if eq_is_specified::<T>() {
                if let Some(i) = index {
                    assert(value_eq_spec(self@[i as int], *value));
                }
            }
        }
        index.is_some()
    }
}

impl<'a, T> core::ops::Index<usize> for ConcurrentSlice<'a, T> {
    type Output = ConcurrentElement<T>;

    /// Returns the element at the `i`-th position of the slice, which must be below its length.
    fn index(&self, i: usize) -> (elem: &ConcurrentElement<T>)
        ensures
            elem@ == self.elems()[i as int],
            self.all_written() ==> elem@ == Some(self@[i as int]),
    {
        match self.get(i) {
            Some(e) => e,
            None => unreached(),
        }
    }
}

impl<'a, T> vstd::std_specs::core::IndexSpecImpl<usize> for ConcurrentSlice<'a, T> {
    /// Indexing asks for a well-formed slice and a position below its length.
    open spec fn index_req(&self, i: &usize) -> bool {
        self.wf() && *i < self.spec_len()
    }
}

impl<T> ConcurrentVec<T> {
    /// Creates the slice of the vec that `range` selects; the range is cut to the
    /// bounds of the vec.
    pub fn slice(&self, range: Range<usize>) -> (slice: ConcurrentSlice<'_, T>)
        requires
            self.wf(),
        ensures
            slice.wf(),
            slice.spec_vec() == *self,
            self.prefix_written() ==> slice.all_written(),
            slice.begin() == range_begin(range, self.spec_len()),
            slice.spec_len() == range_end(range, self.spec_len()) - range_begin(
                range,
                self.spec_len(),
            ),
            slice@ == self.values().subrange(
                range_begin(range, self.spec_len()) as int,
                range_end(range, self.spec_len()) as int,
            ),
    {
        let (a, b) = vec_range_limits(&range, self.len());
        let s = ConcurrentSlice::new(self, a, b - a);
        assert(s@ =~= self.values().subrange(a as int, b as int));
        proof {
            if self.prefix_written() {
                self.lemma_wf();
                s.lemma_wf();
                assert forall|k: int| 0 <= k < s.spec_len() implies #[trigger] s.elems()[k] is Some by {
                    assert(s.elems()[k] == self@[a + k]);
                }
            }
        }
        s
    }

    /// Creates the slice of all elements of the vec.
    pub fn as_slice(&self) -> (slice: ConcurrentSlice<'_, T>)
        requires
            self.wf(),
        ensures
            slice.wf(),
            slice.spec_vec() == *self,
            slice.begin() == 0,
            slice.spec_len() == self.spec_len(),
            slice@ == self.values(),
            self.prefix_written() ==> slice.all_written(),
    {
        let len = self.len();
        let s = self.slice(0..len);
        assert(s@ =~= self.values());
        s
    }
}

} // verus!
