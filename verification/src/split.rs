//! Splitting a concurrent vector into slices.
use vstd::prelude::*;
use crate::elem::ConcurrentElement;
use crate::slice::ConcurrentSlice;
use crate::vec::ConcurrentVec;

verus! {

/// Number of chunks of `chunk_size` elements that `len` elements split into, the last
/// one possibly shorter.
pub open spec fn num_chunks(len: nat, chunk_size: nat) -> nat {
    if chunk_size == 0 {
        0
    } else {
        ((len + chunk_size - 1) / chunk_size as int) as nat
    }
}

/// Length of the `k`-th chunk: `chunk_size`, or what is left of the `len` elements.
pub open spec fn chunk_len(len: nat, chunk_size: nat, k: nat) -> nat {
    if (k + 1) * chunk_size <= len {
        chunk_size
    } else {
        (len - k * chunk_size) as nat
    }
}

proof fn lemma_full_chunk(len: nat, cs: nat, num: nat, k: nat)
    requires
        cs > 0,
        num * cs <= len,
        k < num,
    ensures
        k * cs + cs <= len,
        chunk_len(len, cs, k) == cs,
{
    assert(k * cs + cs <= num * cs && (k + 1) * cs == k * cs + cs) by (nonlinear_arith)
        requires
            k < num,
            cs > 0,
    ;
}

proof fn lemma_full_chunks(len: nat, cs: nat, num: nat)
    requires
        cs > 0,
        num * cs <= len,
    ensures
        forall|k: nat| k < num ==> #[trigger] chunk_len(len, cs, k) == cs && k * cs + cs <= len,
{
    assert forall|k: nat| k < num implies #[trigger] chunk_len(len, cs, k) == cs && k * cs + cs <= len by {
        lemma_full_chunk(len, cs, num, k);
    }
}

proof fn lemma_chunk_arith(len: nat, cs: nat, num: nat, rem: nat)
    requires
        cs > 0,
        num * cs <= len,
        rem == len - num * cs,
        rem < cs,
    ensures
        num_chunks(len, cs) == if rem > 0 { num + 1 } else { num },
        forall|k: nat| k < num ==> #[trigger] chunk_len(len, cs, k) == cs && k * cs + cs <= len,
        rem > 0 ==> chunk_len(len, cs, num) == rem && num * cs + rem == len && (num + 1) * cs > len,
{
    assert((len + cs - 1) == (if rem > 0 { num + 1 } else { num }) * cs + (if rem > 0 { rem - 1 } else { cs - 1 })) by (nonlinear_arith)
        requires
            rem == len - num * cs,
            rem < cs,
            cs > 0,
    ;
    let q: int = if rem > 0 { num + 1int } else { num as int };
    let r: int = if rem > 0 { rem - 1int } else { cs - 1int };
    assert(0 <= r < cs);
    assert((len + cs - 1) / cs as int == q) by (nonlinear_arith)
        requires
            len + cs - 1 == q * cs + r,
            0 <= r < cs,
            cs > 0,
    ;
    lemma_full_chunks(len, cs, num);
    if rem > 0 {
        assert((num + 1) * cs == num * cs + cs) by (nonlinear_arith);
    }
}

impl<T> ConcurrentVec<T> {
    /// Divides the vec into two slices at `mid`: positions `0 .. mid` and `mid .. len`.
    pub fn split_at(&self, mid: usize) -> (slices: (ConcurrentSlice<'_, T>, ConcurrentSlice<'_, T>))
        requires
            self.wf(),
            mid <= self.spec_len(),
        ensures
            slices.0.wf(),
            slices.1.wf(),
            self.prefix_written() ==> slices.0.all_written() && slices.1.all_written(),
            slices.0@ == self.values().subrange(0, mid as int),
            slices.1@ == self.values().subrange(mid as int, self.spec_len() as int),
            slices.0.begin() == 0,
            slices.0.spec_len() == mid,
            slices.1.begin() == mid,
            slices.1.spec_len() == self.spec_len() - mid,
    {
        let len = self.len();
        (self.slice(0..mid), self.slice(mid..len))
    }

    /// Returns the first element and the slice of all the rest, or `None` if the vec is empty.
    pub fn split_first(&self) -> (split: Option<(&ConcurrentElement<T>, ConcurrentSlice<'_, T>)>)
        requires
            self.wf(),
        ensures
            split is Some <==> self.spec_len() > 0,
            split matches Some((a, b)) ==> {
                &&& a@ == self@[0]
                &&& self.prefix_written() ==> a@ == Some(self.values()[0]) && b.all_written()
                &&& b.wf()
                &&& b.begin() == 1
                &&& b@ == self.values().subrange(1, self.spec_len() as int)
            },
    {
        match self.get(0) {
            Some(a) => {
                let b = self.slice(1..self.len());
                Some((a, b))
            },
            None => None,
        }
    }

    /// Returns the last element and the slice of all the rest, or `None` if the vec is empty.
    pub fn split_last(&self) -> (split: Option<(&ConcurrentElement<T>, ConcurrentSlice<'_, T>)>)
        requires
            self.wf(),
        ensures
            split is Some <==> self.spec_len() > 0,
            split matches Some((a, b)) ==> {
                &&& a@ == self@[self.spec_len() - 1]
                &&& self.prefix_written() ==> a@ == Some(self.values()[self.spec_len() - 1]) && b.all_written()
                &&& b.wf()
                &&& b.begin() == 0
                &&& b@ == self.values().subrange(0, self.spec_len() - 1)
            },
    {
        let len = self.len();
        if len == 0 {
            None
        } else {
            let a = self.slice(0..(len - 1));
            let b = match self.get(len - 1) {
                Some(b) => b,
                None => unreached(),
            };
            Some((b, a))
        }
    }

    /// Splits the vec into consecutive slices of `chunk_size` elements; the last one is
    /// shorter when `chunk_size` does not divide the length.
    pub fn chunks(&self, chunk_size: usize) -> (chunks: Vec<ConcurrentSlice<'_, T>>)
        requires
            self.wf(),
            chunk_size > 0,
        ensures
            chunks@.len() == num_chunks(self.spec_len(), chunk_size as nat),
            forall|k: int|
                0 <= k < chunks@.len() ==> {
                    &&& (#[trigger] chunks@[k]).wf()
                    &&& chunks@[k].spec_vec() == *self
                    &&& self.prefix_written() ==> chunks@[k].all_written()
                    &&& chunks@[k].begin() == k * chunk_size
                    &&& chunks@[k].spec_len() == chunk_len(self.spec_len(), chunk_size as nat, k as nat)
                    &&& chunks@[k]@ == self.values().subrange(
                        k * chunk_size,
                        k * chunk_size + chunk_len(self.spec_len(), chunk_size as nat, k as nat),
                    )
                },
    {
        let len = self.len();
        let mut num_slices = len / chunk_size;
        proof {
            self.lemma_wf();
            assert(num_slices * chunk_size <= len && len - num_slices * chunk_size < chunk_size
                && num_slices <= num_slices * chunk_size) by (nonlinear_arith)
                requires
                    num_slices == len / chunk_size,
                    chunk_size > 0,
            ;
        }
        let remainder = len - num_slices * chunk_size;
        proof {
            lemma_chunk_arith(len as nat, chunk_size as nat, num_slices as nat, remainder as nat);
        }
        let ghost full = num_slices;
        assert forall|k: nat| k < full implies #[trigger] chunk_len(len as nat, chunk_size as nat, k) == chunk_size && k * chunk_size + chunk_size <= len by {
            lemma_full_chunk(len as nat, chunk_size as nat, full as nat, k);
        }
        if remainder > 0 {
            num_slices = num_slices + 1;
        }
        let mut chunks: Vec<ConcurrentSlice<'_, T>> = Vec::with_capacity(num_slices);
        let mut i: usize = 0;
        while i < num_slices
            invariant
                self.wf(),
                len == self.spec_len(),
                chunk_size > 0,
                full * chunk_size <= len,
                remainder == len - full * chunk_size,
                remainder < chunk_size,
                num_slices == num_chunks(len as nat, chunk_size as nat),
                num_slices == if remainder > 0 { full + 1 } else { full as int },
                forall|k: nat| k < full ==> #[trigger] chunk_len(len as nat, chunk_size as nat, k) == chunk_size && k * chunk_size + chunk_size <= len,
                remainder > 0 ==> chunk_len(len as nat, chunk_size as nat, full as nat) == remainder && full * chunk_size + remainder == len,
                i <= num_slices,
                chunks@.len() == i,
                forall|k: int|
                    0 <= k < i ==> {
                        &&& (#[trigger] chunks@[k]).wf()
                        &&& chunks@[k].spec_vec() == *self
                        &&& self.prefix_written() ==> chunks@[k].all_written()
                        &&& chunks@[k].begin() == k * chunk_size
                        &&& chunks@[k].spec_len() == chunk_len(len as nat, chunk_size as nat, k as nat)
                        &&& chunks@[k]@ == self.values().subrange(
                            k * chunk_size,
                            k * chunk_size + chunk_len(len as nat, chunk_size as nat, k as nat),
                        )
                    },
            decreases num_slices - i,
        {
            proof {
                assert(i * chunk_size + chunk_len(len as nat, chunk_size as nat, i as nat) <= len) by {
                    if i < full {
                        assert(chunk_len(len as nat, chunk_size as nat, i as nat) == chunk_size);
                    } else {
                        assert(i == full);
                    }
                }
                assert(i * chunk_size <= len) by (nonlinear_arith)
                    requires
                        i * chunk_size + chunk_len(len as nat, chunk_size as nat, i as nat) <= len,
                ;
            }
            let a = i * chunk_size;
            let b = a + if i == num_slices - 1 && remainder > 0 {
                remainder
            } else {
                chunk_size
            };
            proof {
                if i < full {
                    assert(chunk_len(len as nat, chunk_size as nat, i as nat) == chunk_size);
                }
                assert(b - a == chunk_len(len as nat, chunk_size as nat, i as nat));
            }
            let chunk = self.slice(a..b);
            chunks.push(chunk);
            i = i + 1;
        }
        chunks
    }
}

} // verus!
