//! Shorthands that map, filter, fold and reduce the values of a vector or a slice.
use vstd::prelude::*;
use crate::elem::ConcurrentElement;
use crate::slice::ConcurrentSlice;
use crate::vec::ConcurrentVec;

verus! {

/// `accs` are the successive accumulators of folding `values` with `f` from `init`:
/// `accs[0]` is `init` and `accs[k + 1]` is a result of `f(accs[k], &values[k])`.
pub open spec fn fold_steps<T, U, F: FnMut(U, &T) -> U>(f: F, values: Seq<T>, init: U, accs: Seq<U>) -> bool {
    &&& accs.len() == values.len() + 1
    &&& accs[0] == init
    &&& forall|k: int| 0 <= k < values.len() ==> call_ensures(f, (accs[k], &values[k]), #[trigger] accs[k + 1])
}

/// `accs` are the successive accumulators of reducing `values` with `f`: `accs[0]` is
/// a clone of the first value and `accs[k + 1]` a result of `f(&accs[k], &values[k + 1])`.
pub open spec fn reduce_steps<T: Clone, F: FnMut(&T, &T) -> T>(f: F, values: Seq<T>, accs: Seq<T>) -> bool {
    &&& values.len() > 0
    &&& accs.len() == values.len()
    &&& cloned(values[0], accs[0])
    &&& forall|k: int| 0 <= k < values.len() - 1 ==> call_ensures(f, (&accs[k], &values[k + 1]), #[trigger] accs[k + 1])
}

impl<'a, T> ConcurrentSlice<'a, T> {
    /// Returns the values obtained by mapping the values of the slice by `f`, in order.
    pub fn map<F, U>(&self, mut f: F) -> (mapped: Vec<U>) where F: FnMut(&T) -> U
        requires
            self.wf(),
            self.all_written(),
            forall|k: int| 0 <= k < self.spec_len() ==> call_requires(f, (&self@[k],)),
        ensures
            mapped@.len() == self.spec_len(),
            forall|k: int| 0 <= k < self.spec_len() ==> call_ensures(f, (&self@[k],), #[trigger] mapped@[k]),
    {
        let ghost f0 = f;
        let mut mapped: Vec<U> = Vec::with_capacity(self.len());
        while mapped.len() < self.len()
            invariant
                self.wf(),
                self.all_written(),
                f == f0,
                forall|k: int| 0 <= k < self.spec_len() ==> call_requires(f, (&self@[k],)),
                mapped@.len() <= self.spec_len(),
                forall|k: int| 0 <= k < mapped@.len() ==> call_ensures(f, (&self@[k],), #[trigger] mapped@[k]),
            decreases self.spec_len() - mapped@.len(),
        {
            let k = mapped.len();
            let e = match self.get(k) {
                Some(e) => e,
                None => unreached(),
            };
            let u = f(e.value_ref());
            mapped.push(u);
        }
        mapped
    }

    /// Returns the elements of the slice whose values satisfy the predicate `f`, in order.
    pub fn filter<F>(&self, mut f: F) -> (filtered: Vec<&'a ConcurrentElement<T>>) where F: FnMut(&T) -> bool
        requires
            self.wf(),
            self.all_written(),
            forall|k: int| 0 <= k < self.spec_len() ==> call_requires(f, (&self@[k],)),
        ensures
            exists|picked: Seq<int>| {
                &&& picked.len() == filtered@.len()
                &&& forall|m: int, n: int| 0 <= m < n < picked.len() ==> picked[m] < picked[n]
                &&& forall|m: int| 0 <= m < picked.len() ==> {
                    &&& 0 <= #[trigger] picked[m] < self.spec_len()
                    &&& filtered@[m]@ == Some(self@[picked[m]])
                    &&& call_ensures(f, (&self@[picked[m]],), true)
                }
                &&& forall|k: int| 0 <= k < self.spec_len() && !picked.contains(k) ==> call_ensures(f, (&self@[k],), false)
            },
    {
        let ghost f0 = f;
        let ghost mut picked: Seq<int> = Seq::empty();
        let mut filtered: Vec<&'a ConcurrentElement<T>> = Vec::new();
        let mut i: usize = 0;
        while i < self.len()
            invariant
                self.wf(),
                self.all_written(),
                f == f0,
                forall|k: int| 0 <= k < self.spec_len() ==> call_requires(f, (&self@[k],)),
                i <= self.spec_len(),
                picked.len() == filtered@.len(),
                forall|m: int, n: int| 0 <= m < n < picked.len() ==> picked[m] < picked[n],
                forall|m: int| 0 <= m < picked.len() ==> {
                    &&& 0 <= #[trigger] picked[m] < i
                    &&& filtered@[m]@ == Some(self@[picked[m]])
                    &&& call_ensures(f, (&self@[picked[m]],), true)
                },
                forall|k: int| 0 <= k < i && !picked.contains(k) ==> call_ensures(f, (&self@[k],), false),
            decreases self.spec_len() - i,
        {
            let e = match self.get(i) {
                Some(e) => e,
                None => unreached(),
            };
            let keep = f(e.value_ref());
            let ghost old_picked = picked;
            if keep {
                filtered.push(e);
                proof {
                    picked = picked.push(i as int);
                }
            }
            proof {
                assert forall|k: int| 0 <= k < i + 1 && !picked.contains(k) implies call_ensures(f, (&self@[k],), false) by {
                    if k < i {
                        if old_picked.contains(k) {
                            let m = choose|m: int| 0 <= m < old_picked.len() && old_picked[m] == k;
                            assert(picked[m] == k);
                        }
                    } else if keep {
                        assert(picked[picked.len() - 1] == k);
                    }
                }
            }
            i = i + 1;
        }
        filtered
    }

    /// Folds the values of the slice starting from `init` with the fold function `f`.
    pub fn fold<F, U>(&self, init: U, mut f: F) -> (folded: U) where F: FnMut(U, &T) -> U
        requires
            self.wf(),
            self.all_written(),
            forall|u: U, k: int| 0 <= k < self.spec_len() ==> #[trigger] call_requires(f, (u, &self@[k])),
        ensures
            exists|accs: Seq<U>| fold_steps(f, self@, init, accs) && folded == accs.last(),
    {
        let ghost f0 = f;
        let ghost mut accs: Seq<U> = seq![init];
        let mut agg = init;
        let mut i: usize = 0;
        while i < self.len()
            invariant
                self.wf(),
                self.all_written(),
                f == f0,
                forall|u: U, k: int| 0 <= k < self.spec_len() ==> #[trigger] call_requires(f, (u, &self@[k])),
                i <= self.spec_len(),
                accs.len() == i + 1,
                accs[0] == init,
                accs.last() == agg,
                forall|k: int| 0 <= k < i ==> call_ensures(f, (accs[k], &self@[k]), #[trigger] accs[k + 1]),
            decreases self.spec_len() - i,
        {
            let e = match self.get(i) {
                Some(e) => e,
                None => unreached(),
            };
            let ghost prev = accs;
            agg = f(agg, e.value_ref());
            proof {
                accs = accs.push(agg);
                assert forall|k: int| 0 <= k < i + 1 implies call_ensures(f, (accs[k], &self@[k]), #[trigger] accs[k + 1]) by {
                    if k < i {
                        assert(accs[k] == prev[k] && accs[k + 1] == prev[k + 1]);
                    }
                }
            }
            i = i + 1;
        }
        proof {
            self.lemma_wf();
            assert(fold_steps(f, self@, init, accs));
        }
        agg
    }

    /// Reduces the values of the slice with `f`; `None` if the slice is empty.
    pub fn reduce<F>(&self, mut f: F) -> (reduced: Option<T>) where T: Clone, F: FnMut(&T, &T) -> T
        requires
            self.wf(),
            self.all_written(),
            forall|x: &T, k: int| 1 <= k < self.spec_len() ==> #[trigger] call_requires(f, (x, &self@[k])),
        ensures
            reduced is None <==> self.spec_len() == 0,
            reduced matches Some(r) ==> exists|accs: Seq<T>| reduce_steps(f, self@, accs) && r == accs.last(),
    {
        if self.len() == 0 {
            return None;
        }
        let ghost f0 = f;
        let first = match self.get(0) {
            Some(e) => e,
            None => unreached(),
        };
        let mut agg = first.cloned();
        let ghost mut accs: Seq<T> = seq![agg];
        let mut i: usize = 1;
        while i < self.len()
            invariant
                self.wf(),
                self.all_written(),
                f == f0,
                forall|x: &T, k: int| 1 <= k < self.spec_len() ==> #[trigger] call_requires(f, (x, &self@[k])),
                1 <= i <= self.spec_len(),
                accs.len() == i,
                cloned(self@[0], accs[0]),
                accs.last() == agg,
                forall|k: int| 0 <= k < i - 1 ==> call_ensures(f, (&accs[k], &self@[k + 1]), #[trigger] accs[k + 1]),
            decreases self.spec_len() - i,
        {
            let e = match self.get(i) {
                Some(e) => e,
                None => unreached(),
            };
            let ghost prev = accs;
            agg = f(&agg, e.value_ref());
            proof {
                accs = accs.push(agg);
                assert forall|k: int| 0 <= k < i implies call_ensures(f, (&accs[k], &self@[k + 1]), #[trigger] accs[k + 1]) by {
                    if k < i - 1 {
                        assert(accs[k] == prev[k] && accs[k + 1] == prev[k + 1]);
                    }
                }
            }
            i = i + 1;
        }
        proof {
            self.lemma_wf();
            assert(reduce_steps(f, self@, accs));
        }
        Some(agg)
    }
}

impl<T> ConcurrentVec<T> {
    /// Returns the values obtained by mapping the values of the vec by `f`, in order.
    pub fn map<F, U>(&self, f: F) -> (mapped: Vec<U>) where F: FnMut(&T) -> U
        requires
            self.wf(),
            self.prefix_written(),
            forall|k: int| 0 <= k < self.spec_len() ==> call_requires(f, (&self.values()[k],)),
        ensures
            mapped@.len() == self.spec_len(),
            forall|k: int| 0 <= k < self.spec_len() ==> call_ensures(f, (&self.values()[k],), #[trigger] mapped@[k]),
    {
        self.as_slice().map(f)
    }

    /// Returns the elements of the vec whose values satisfy the predicate `f`, in order.
    pub fn filter<F>(&self, f: F) -> (filtered: Vec<&ConcurrentElement<T>>) where F: FnMut(&T) -> bool
        requires
            self.wf(),
            self.prefix_written(),
            forall|k: int| 0 <= k < self.spec_len() ==> call_requires(f, (&self.values()[k],)),
        ensures
            exists|picked: Seq<int>| {
                &&& picked.len() == filtered@.len()
                &&& forall|m: int, n: int| 0 <= m < n < picked.len() ==> picked[m] < picked[n]
                &&& forall|m: int| 0 <= m < picked.len() ==> {
                    &&& 0 <= #[trigger] picked[m] < self.spec_len()
                    &&& filtered@[m]@ == Some(self.values()[picked[m]])
                    &&& call_ensures(f, (&self.values()[picked[m]],), true)
                }
                &&& forall|k: int| 0 <= k < self.spec_len() && !picked.contains(k) ==> call_ensures(f, (&self.values()[k],), false)
            },
    {
        self.as_slice().filter(f)
    }

    /// Folds the values of the vec starting from `init` with the fold function `f`.
    pub fn fold<F, U>(&self, init: U, f: F) -> (folded: U) where F: FnMut(U, &T) -> U
        requires
            self.wf(),
            self.prefix_written(),
            forall|u: U, k: int| 0 <= k < self.spec_len() ==> #[trigger] call_requires(f, (u, &self.values()[k])),
        ensures
            exists|accs: Seq<U>| fold_steps(f, self.values(), init, accs) && folded == accs.last(),
    {
        self.as_slice().fold(init, f)
    }

    /// Reduces the values of the vec with `f`; `None` if the vec is empty.
    pub fn reduce<F>(&self, f: F) -> (reduced: Option<T>) where T: Clone, F: FnMut(&T, &T) -> T
        requires
            self.wf(),
            self.prefix_written(),
            forall|x: &T, k: int| 1 <= k < self.spec_len() ==> #[trigger] call_requires(f, (x, &self.values()[k])),
        ensures
            reduced is None <==> self.spec_len() == 0,
            reduced matches Some(r) ==> exists|accs: Seq<T>| reduce_steps(f, self.values(), accs) && r == accs.last(),
    {
        self.as_slice().reduce(f)
    }
}

} // verus!
