//! A mask of availability flags over the positions of a growing storage.
use vstd::prelude::*;
use crate::growth::{GrowthStrategy, default_growth, doubling_fragments_limit};
use crate::growth::{lemma_cumulative_monotone, lemma_fragment_fits};

verus! {

/// Number of `true` flags among the first `n` flags of `s`.
pub open spec fn count_true(s: Seq<bool>, n: int) -> nat
    decreases n,
{
    if n <= 0 {
        0
    } else {
        count_true(s, n - 1) + if s[n - 1] {
            1nat
        } else {
            0nat
        }
    }
}

/// The smaller of two numbers.
pub open spec fn min(a: int, b: int) -> int {
    if a <= b {
        a
    } else {
        b
    }
}

/// A mask telling which positions of a storage are available; the storage grows in
/// fragments whose capacities double, and positions added by growth are not available.
pub struct Mask {
    is_growing: bool,
    safe_cap: usize,
    available: Vec<bool>,
    fragments: Vec<usize>,
}

impl View for Mask {
    type V = Seq<bool>;

    /// The flags of all allocated positions.
    closed spec fn view(&self) -> Seq<bool> {
        self.available@
    }
}

impl Mask {
    /// The number of allocated fragments.
    pub closed spec fn num_fragments(&self) -> nat {
        self.fragments@.len()
    }

    /// The number of positions that are safe to read: those allocated and recorded.
    pub closed spec fn safe_capacity(&self) -> nat {
        self.safe_cap as nat
    }

    /// The invariant of the mask.
    pub closed spec fn wf(&self) -> bool {
        let g = default_growth();
        &&& !self.is_growing
        &&& g.wf()
        &&& 1 <= self.fragments@.len() <= g.max_fragments()
        &&& self.fragments@ == g.fragment_capacities(self.fragments@.len())
        &&& self.available@.len() == g.cumulative_capacity(self.fragments@.len())
        &&& self.safe_cap == self.available@.len()
    }

    /// What every well-formed mask satisfies: its capacity is that of its fragments,
    /// which the doubling strategy allocates, and every allocated position is safe.
    pub proof fn lemma_wf(&self)
        requires
            self.wf(),
        ensures
            self@.len() == default_growth().cumulative_capacity(self.num_fragments()),
            self.safe_capacity() == self@.len(),
            self@.len() <= default_growth().spec_maximum_capacity() <= usize::MAX,
            1 <= self.num_fragments() <= default_growth().max_fragments(),
    {
        lemma_fragment_fits(default_growth(), 0);
        lemma_cumulative_monotone(
            default_growth(),
            self.fragments@.len() as nat,
            default_growth().max_fragments(),
        );
    }

    /// Appends `n` flags with the given value.
    fn append_flags(flags: &mut Vec<bool>, n: usize, value: bool)
        requires
            old(flags)@.len() + n <= usize::MAX,
        ensures
            final(flags)@ == old(flags)@ + Seq::new(n as nat, |i: int| value),
    {
        let ghost start = flags@;
        let mut k: usize = 0;
        while k < n
            invariant
                k <= n,
                start.len() + n <= usize::MAX,
                flags@ == start + Seq::new(k as nat, |i: int| value),
            decreases n - k,
        {
            flags.push(value);
            k = k + 1;
            assert(flags@ =~= start + Seq::new(k as nat, |i: int| value));
        }
    }

    /// Allocates doubling fragments until the capacity reaches `new_capacity`; the new
    /// positions are not available.
    fn grow_storage(
        available: &mut Vec<bool>,
        fragments: &mut Vec<usize>,
        new_capacity: usize,
        value: bool,
    )
        requires
            default_growth().wf(),
            1 <= old(fragments)@.len() <= default_growth().max_fragments(),
            old(fragments)@ == default_growth().fragment_capacities(old(fragments)@.len()),
            old(available)@.len() == default_growth().cumulative_capacity(old(fragments)@.len()),
            new_capacity <= default_growth().spec_maximum_capacity(),
        ensures
            1 <= final(fragments)@.len() <= default_growth().max_fragments(),
            final(fragments)@ == default_growth().fragment_capacities(final(fragments)@.len()),
            final(available)@.len() == default_growth().cumulative_capacity(final(fragments)@.len()),
            final(available)@.len() >= new_capacity,
            final(available)@.subrange(0, old(available)@.len() as int) == old(available)@,
            forall|j: int|
                old(available)@.len() <= j < final(available)@.len() ==> #[trigger] final(available)@[j]
                    == value,
            final(fragments)@.len() > old(fragments)@.len() ==> default_growth().cumulative_capacity(
                (final(fragments)@.len() - 1) as nat,
            ) < new_capacity,
            old(available)@.len() >= new_capacity ==> final(available)@ == old(available)@
                && final(fragments)@ == old(fragments)@,
    {
        let g = GrowthStrategy::Doubling { fragments_capacity: doubling_fragments_limit() };
        let ghost a0 = available@;
        let ghost n0 = fragments@.len();
        let max_fragments = g.maximum_fragments();
        while available.len() < new_capacity
            invariant
                g == default_growth(),
                g.wf(),
                max_fragments == g.max_fragments(),
                new_capacity <= g.spec_maximum_capacity(),
                1 <= fragments@.len() <= g.max_fragments(),
                fragments@ == g.fragment_capacities(fragments@.len()),
                available@.len() == g.cumulative_capacity(fragments@.len()),
                fragments@.len() >= n0,
                available@.len() >= a0.len(),
                available@.subrange(0, a0.len() as int) == a0,
                forall|j: int| a0.len() <= j < available@.len() ==> #[trigger] available@[j] == value,
                fragments@.len() > n0 ==> g.cumulative_capacity((fragments@.len() - 1) as nat)
                    < new_capacity,
            decreases max_fragments - fragments@.len(),
        {
            let n = fragments.len();
            proof {
                if n >= max_fragments {
                    lemma_cumulative_monotone(g, g.max_fragments(), n as nat);
                }
                lemma_fragment_fits(g, n as nat);
            }
            let next = g.next_fragment_capacity(fragments);
            let ghost before = available@;
            Self::append_flags(available, next, value);
            fragments.push(next);
            proof {
                assert(fragments@ =~= g.fragment_capacities(fragments@.len()));
                assert(available@.subrange(0, a0.len() as int) =~= a0) by {
                    assert forall|j: int| 0 <= j < a0.len() implies available@[j] == a0[j] by {
                        assert(available@[j] == before[j]);
                        assert(before.subrange(0, a0.len() as int)[j] == a0[j]);
                    }
                }
                assert forall|j: int| a0.len() <= j < available@.len() implies #[trigger] available@[j]
                    == value by {
                    if j < before.len() {
                        assert(available@[j] == before[j]);
                    }
                }
            }
        }
        proof {
            if fragments@.len() > n0 {
                lemma_cumulative_monotone(g, n0, (fragments@.len() - 1) as nat);
            }
            if a0.len() >= new_capacity {
                assert(available@ =~= a0);
            }
        }
    }

    /// Creates a mask whose first `initial_len` positions are available; the storage
    /// holds the doubling fragments that these positions need, at least the first one,
    /// and its remaining positions are not available.
    pub fn new(initial_len: usize) -> (mask: Self)
        requires
            initial_len <= default_growth().spec_maximum_capacity(),
        ensures
            mask.wf(),
            mask@.len() >= initial_len,
            forall|j: int| 0 <= j < mask@.len() ==> #[trigger] mask@[j] == (j < initial_len),
            mask.num_fragments() > 1 ==> default_growth().cumulative_capacity(
                (mask.num_fragments() - 1) as nat,
            ) < initial_len,
    {
        let g = GrowthStrategy::Doubling { fragments_capacity: doubling_fragments_limit() };
        proof {
            lemma_fragment_fits(g, 0);
        }
        let mut fragments: Vec<usize> = Vec::new();
        assert(fragments@ =~= g.fragment_capacities(0));
        let first = g.next_fragment_capacity(&fragments);
        fragments.push(first);
        assert(fragments@ =~= g.fragment_capacities(1));
        assert(g.cumulative_capacity(1) == first) by {
            assert(g.cumulative_capacity(0) == 0);
        }
        let mut available: Vec<bool> = Vec::new();
        Self::append_flags(&mut available, first, false);
        Self::grow_storage(&mut available, &mut fragments, initial_len, false);
        assert forall|j: int| 0 <= j < available@.len() implies !#[trigger] available@[j] by {
            if j < first {
                assert(available@.subrange(0, first as int)[j] == available@[j]);
            }
        }
        let cap = available.len();
        let mut mask = Mask { is_growing: false, safe_cap: cap, available, fragments };
        mask.written(0, initial_len);
        mask
    }

    /// Whether the storage is being grown.
    pub fn is_growing(&self) -> (growing: bool)
        requires
            self.wf(),
        ensures
            !growing,
    {
        self.is_growing
    }

    /// The number of positions that are both allocated and safe to read.
    pub fn len(&self) -> (len: usize)
        requires
            self.wf(),
        ensures
            len == min(self@.len() as int, self.safe_capacity() as int),
    {
        let safe_cap = self.safe_cap;
        let capacity = self.available.len();
        if capacity <= safe_cap {
            capacity
        } else {
            safe_cap
        }
    }

    /// Makes sure that the positions up to `end_idx_exclusive` are allocated, growing
    /// the storage when they are not; the new positions are not available.
    pub fn taken_until(&mut self, end_idx_exclusive: usize)
        requires
            old(self).wf(),
            end_idx_exclusive <= default_growth().spec_maximum_capacity(),
        ensures
            final(self).wf(),
            final(self)@.len() >= end_idx_exclusive,
            final(self)@.len() >= old(self)@.len(),
            final(self)@.subrange(0, old(self)@.len() as int) == old(self)@,
            forall|j: int| old(self)@.len() <= j < final(self)@.len() ==> !#[trigger] final(self)@[j],
            old(self)@.len() >= end_idx_exclusive ==> final(self)@ == old(self)@,
            final(self).num_fragments() > old(self).num_fragments() ==> default_growth().cumulative_capacity(
                (final(self).num_fragments() - 1) as nat,
            ) < end_idx_exclusive,
    {
        if self.available.len() < end_idx_exclusive {
            self.grow_to(end_idx_exclusive);
        } else {
            assert(self@.subrange(0, self@.len() as int) =~= self@);
        }
    }

    /// Marks the positions `begin_idx .. end_idx_exclusive` as available.
    pub fn written(&mut self, begin_idx: usize, end_idx_exclusive: usize)
        requires
            old(self).wf(),
            begin_idx < end_idx_exclusive ==> end_idx_exclusive <= old(self)@.len(),
        ensures
            final(self).wf(),
            final(self)@.len() == old(self)@.len(),
            forall|j: int|
                0 <= j < old(self)@.len() ==> #[trigger] final(self)@[j] == (old(self)@[j] || (
                begin_idx <= j < end_idx_exclusive)),
            final(self).num_fragments() == old(self).num_fragments(),
    {
        let mut i = begin_idx;
        while i < end_idx_exclusive
            invariant
                self.wf(),
                self.fragments == old(self).fragments,
                begin_idx <= i,
                i == begin_idx || i <= end_idx_exclusive,
                i < end_idx_exclusive ==> end_idx_exclusive <= self@.len(),
                self@.len() == old(self)@.len(),
                forall|j: int|
                    0 <= j < old(self)@.len() ==> #[trigger] self@[j] == (old(self)@[j] || (
                    begin_idx <= j < i)),
            decreases end_idx_exclusive - i,
        {
            self.available.set(i, true);
            i = i + 1;
        }
    }

    /// Whether position `index` is allocated and available.
    pub fn is_available(&self, index: usize) -> (available: bool)
        requires
            self.wf(),
        ensures
            available == (index < self@.len() && self@[index as int]),
    {
        if index < self.available.len() {
            self.available[index]
        } else {
            false
        }
    }

    /// Marks every allocated position as not available.
    pub fn clear(&mut self)
        requires
            old(self).wf(),
        ensures
            final(self).wf(),
            final(self)@.len() == old(self)@.len(),
            forall|j: int| 0 <= j < final(self)@.len() ==> !#[trigger] final(self)@[j],
            final(self).num_fragments() == old(self).num_fragments(),
    {
        self.is_growing = true;
        let capacity = self.available.len();
        let mut i: usize = 0;
        while i < capacity
            invariant
                self.is_growing,
                self.fragments == old(self).fragments,
                self.safe_cap == old(self).safe_cap,
                capacity == self.available@.len(),
                capacity == old(self)@.len(),
                i <= capacity,
                forall|j: int| 0 <= j < i ==> !#[trigger] self.available@[j],
            decreases capacity - i,
        {
            self.available.set(i, false);
            i = i + 1;
        }
        self.is_growing = false;
    }

    /// The number of available positions among the first `len`, counting only
    /// positions that are allocated and safe to read.
    pub fn num_available(&self, len: usize) -> (count: usize)
        requires
            self.wf(),
        ensures
            count == count_true(self@, min(min(len as int, self@.len() as int), self.safe_capacity() as int)),
    {
        let safe_len = self.safe_cap;
        let capacity = self.available.len();
        let mut len = if len <= capacity {
            len
        } else {
            capacity
        };
        len = if len <= safe_len {
            len
        } else {
            safe_len
        };
        let mut count: usize = 0;
        let mut i: usize = 0;
        while i < len
            invariant
                self.wf(),
                len <= self@.len(),
                i <= len,
                count == count_true(self@, i as int),
                count <= i,
            decreases len - i,
        {
            if self.available[i] {
                count = count + 1;
            }
            i = i + 1;
        }
        count
    }

    /// Grows the storage until it holds `new_capacity` positions; the new positions
    /// are not available.
    fn grow_to(&mut self, new_capacity: usize)
        requires
            old(self).wf(),
            new_capacity <= default_growth().spec_maximum_capacity(),
        ensures
            final(self).wf(),
            final(self)@.len() >= new_capacity,
            final(self)@.len() >= old(self)@.len(),
            final(self)@.subrange(0, old(self)@.len() as int) == old(self)@,
            forall|j: int| old(self)@.len() <= j < final(self)@.len() ==> !#[trigger] final(self)@[j],
            old(self)@.len() >= new_capacity ==> final(self)@ == old(self)@,
            final(self).num_fragments() > old(self).num_fragments() ==> default_growth().cumulative_capacity(
                (final(self).num_fragments() - 1) as nat,
            ) < new_capacity,
    {
        self.is_growing = true;
        Self::grow_storage(&mut self.available, &mut self.fragments, new_capacity, false);
        self.safe_cap = self.available.len();
        self.is_growing = false;
    }
}

} // verus!
