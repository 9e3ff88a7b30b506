//! The concurrent vector: positions are handed out to writers first and
//! written afterwards, so that a writer never waits for another one.
use vstd::prelude::*;
use crate::elem::{ConcurrentElement, eq_is_specified, value_eq_spec};
use crate::growth::{GrowthStrategy, default_growth, doubling_fragments_limit, fragments_limit, two_pow};
use crate::growth::{lemma_cumulative_monotone, lemma_fragment_fits, lemma_maximum_capacity_fits, lemma_same_fragments};
use crate::state::{ConcurrentVecState, WritePermit};

verus! {

/// The length of the gap-free prefix of `s` that starts at `from`: the first
/// position at or after `from` that holds no value, or the end of `s`.
pub open spec fn no_gap_len<T>(s: Seq<Option<T>>, from: int) -> int
    decreases s.len() - from,
{
    if from < 0 || from >= s.len() {
        from
    } else if s[from] is None {
        from
    } else {
        no_gap_len(s, from + 1)
    }
}

/// Number of positions at the start of `s` that all hold a value.
pub open spec fn first_gap<T>(s: Seq<Option<T>>) -> int {
    no_gap_len(s, 0)
}

/// The values held by the first `n` positions of `s`.
pub open spec fn unwrapped<T>(s: Seq<Option<T>>, n: int) -> Seq<T> {
    Seq::new(n as nat, |i: int| s[i].unwrap())
}

/// The values written to the positions of `s`, in order, skipping positions not written yet.
pub open spec fn written_values<T>(s: Seq<Option<T>>) -> Seq<T>
    decreases s.len(),
{
    if s.len() == 0 {
        Seq::empty()
    } else {
        let rest = written_values(s.drop_last());
        match s.last() {
            Some(v) => rest.push(v),
            None => rest,
        }
    }
}

/// When every position of `s` is written, its written values are all its values.
pub proof fn lemma_written_values_all<T>(s: Seq<Option<T>>)
    requires
        forall|j: int| 0 <= j < s.len() ==> #[trigger] s[j] is Some,
    ensures
        written_values(s) == unwrapped(s, s.len() as int),
    decreases s.len(),
{
    if s.len() > 0 {
        let rest = s.drop_last();
        assert forall|j: int| 0 <= j < rest.len() implies #[trigger] rest[j] is Some by {
            assert(rest[j] == s[j]);
        }
        lemma_written_values_all(rest);
        assert(s.last() == s[s.len() - 1]);
        assert(written_values(s) =~= unwrapped(s, s.len() as int));
    } else {
        assert(written_values(s) =~= unwrapped(s, s.len() as int));
    }
}

/// `n` positions that hold no value yet.
pub open spec fn empty_positions<T>(n: nat) -> Seq<Option<T>> {
    Seq::new(n, |i: int| None)
}

/// `values` as written positions.
pub open spec fn written_positions<T>(values: Seq<T>) -> Seq<Option<T>> {
    Seq::new(values.len(), |i: int| Some(values[i]))
}

/// The gap-free prefix ends at the first position without a value.
pub proof fn lemma_no_gap_len<T>(s: Seq<Option<T>>, from: int)
    requires
        0 <= from <= s.len(),
    ensures
        from <= no_gap_len(s, from) <= s.len(),
        forall|j: int| from <= j < no_gap_len(s, from) ==> #[trigger] s[j] is Some,
        no_gap_len(s, from) < s.len() ==> s[no_gap_len(s, from)] is None,
    decreases s.len() - from,
{
    if from < s.len() && s[from] is Some {
        lemma_no_gap_len(s, from + 1);
    }
}

/// A position `k` after which the first value is missing (or `s` ends), with
/// every position in `from .. k` written, is where the gap-free prefix ends.
pub proof fn lemma_no_gap_len_unique<T>(s: Seq<Option<T>>, from: int, k: int)
    requires
        0 <= from <= k <= s.len(),
        forall|j: int| from <= j < k ==> #[trigger] s[j] is Some,
        k < s.len() ==> s[k] is None,
    ensures
        no_gap_len(s, from) == k,
    decreases k - from,
{
    if from < k {
        lemma_no_gap_len_unique(s, from + 1, k);
    }
}

/// Writing to a position without a value never shortens the gap-free prefix from
/// `from`, and when every position before that prefix's end held a value, every
/// position before the new end does.
pub proof fn lemma_write_keeps_no_gap_len<T>(s: Seq<Option<T>>, from: int, i: int, value: T)
    requires
        0 <= from <= s.len(),
        0 <= i < s.len(),
        s[i] is None,
    ensures
        from <= no_gap_len(s, from) <= no_gap_len(s.update(i, Some(value)), from) <= s.len(),
        (forall|j: int| 0 <= j < no_gap_len(s, from) ==> #[trigger] s[j] is Some) ==> forall|j: int|
            0 <= j < no_gap_len(s.update(i, Some(value)), from) ==> #[trigger] s.update(i, Some(value))[j] is Some,
{
    let t = s.update(i, Some(value));
    lemma_no_gap_len(s, from);
    lemma_no_gap_len(t, from);
    if no_gap_len(t, from) < no_gap_len(s, from) {
        assert(t[no_gap_len(t, from)] == s[no_gap_len(t, from)]);
    }
    if forall|j: int| 0 <= j < no_gap_len(s, from) ==> #[trigger] s[j] is Some {
        assert forall|j: int| 0 <= j < no_gap_len(t, from) implies #[trigger] t[j] is Some by {
            if j < from {
                assert(t[j] == s[j]);
            }
        }
    }
}

/// The gap-free prefix from `from` ends where the one from `mid` ends, when every
/// position from `from` up to `mid` is written.
pub proof fn lemma_no_gap_len_skip<T>(s: Seq<Option<T>>, from: int, mid: int)
    requires
        0 <= from <= mid <= s.len(),
        forall|j: int| from <= j < mid ==> #[trigger] s[j] is Some,
    ensures
        no_gap_len(s, from) == no_gap_len(s, mid),
{
    lemma_no_gap_len(s, mid);
    assert forall|j: int| from <= j < no_gap_len(s, mid) implies #[trigger] s[j] is Some by {
        if j >= mid {
            assert(s[j] is Some);
        }
    }
    lemma_no_gap_len_unique(s, from, no_gap_len(s, mid));
}

/// Overwriting a written position keeps the gap-free prefix.
pub proof fn lemma_overwrite_keeps_no_gap_len<T>(s: Seq<Option<T>>, from: int, i: int)
    requires
        0 <= from <= s.len(),
        0 <= i < s.len(),
        s[i] is Some,
    ensures
        forall|x: T| #![trigger s.update(i, Some(x))] no_gap_len(s.update(i, Some(x)), from) == no_gap_len(s, from),
{
    lemma_no_gap_len(s, from);
    assert forall|x: T| #![trigger s.update(i, Some(x))] no_gap_len(s.update(i, Some(x)), from) == no_gap_len(s, from) by {
        let t = s.update(i, Some(x));
        assert forall|j: int| from <= j < no_gap_len(s, from) implies #[trigger] t[j] is Some by {
            assert(s[j] is Some);
        }
        if no_gap_len(s, from) < s.len() {
            assert(t[no_gap_len(s, from)] == s[no_gap_len(s, from)]);
        }
        lemma_no_gap_len_unique(t, from, no_gap_len(s, from));
    }
}

/// A vector that allows growing, reading and updating, whose writers never wait for
/// one another.
///
/// Writers first take positions (`reserve_positions`) and write to them afterwards
/// (`write_reserved`); `push` and `extend` do both. Any interleaving of the steps of
/// several writers is a sequence of these calls. The length of the vector counts the
/// written positions up to the first one that is still being written; a vector built
/// over a storage counts every position of that storage as well. The storage
/// grows fragment by fragment, as its growth strategy decides, and growing never
/// changes what a position holds.
pub struct ConcurrentVec<T> {
    slots: Vec<ConcurrentElement<T>>,
    fragments: Vec<usize>,
    growth: GrowthStrategy,
    state: ConcurrentVecState,
    floor: usize,
}

impl<T> View for ConcurrentVec<T> {
    type V = Seq<Option<T>>;

    /// The positions handed out so far, each with the value written to it, if any.
    closed spec fn view(&self) -> Seq<Option<T>> {
        Seq::new(self.state.reserved(), |i: int| self.slots@[i]@)
    }
}

impl<T> Default for ConcurrentVec<T> {
    /// Creates a new concurrent vector whose storage grows by doubling the capacity of
    /// each new fragment, starting from 4.
    fn default() -> (vec: Self)
        ensures
            vec.wf(),
            vec@ == Seq::<Option<T>>::empty(),
            vec.growth_strategy() == default_growth(),
            vec.spec_capacity() == 4,
    {
        Self::with_doubling_growth()
    }
}

impl<T> core::ops::Index<usize> for ConcurrentVec<T> {
    type Output = ConcurrentElement<T>;

    /// Returns the element at the `i`-th position, which must be below the length.
    fn index(&self, i: usize) -> (elem: &ConcurrentElement<T>)
        ensures
            elem@ == self@[i as int],
            self.prefix_written() ==> elem@ == Some(self.values()[i as int]),
    {
        proof {
            self.lemma_wf();
        }
        &self.slots[i]
    }
}

impl<T> vstd::std_specs::core::IndexSpecImpl<usize> for ConcurrentVec<T> {
    /// Indexing asks for a well-formed vector and a position below its length.
    open spec fn index_req(&self, i: &usize) -> bool {
        self.wf() && *i < self.spec_len()
    }
}

impl<T> ConcurrentVec<T> {
    /// The allocated capacity.
    pub closed spec fn spec_capacity(&self) -> nat {
        self.slots@.len()
    }

    /// The number of allocated fragments.
    pub closed spec fn num_fragments(&self) -> nat {
        self.fragments@.len()
    }

    /// The growth strategy of the storage.
    pub closed spec fn growth_strategy(&self) -> GrowthStrategy {
        self.growth
    }

    /// The capacity that the storage can reach.
    pub open spec fn spec_maximum_capacity(&self) -> nat {
        self.growth_strategy().spec_maximum_capacity()
    }

    /// A position below which every position counts in the length, written or not: zero,
    /// except for a vector built over a storage, whose positions all count.
    pub closed spec fn storage_floor(&self) -> nat {
        self.floor as nat
    }

    /// The length as last recorded in the counters; it is kept equal to the length.
    pub closed spec fn recorded_len(&self) -> nat {
        self.state.written()
    }

    /// The length of the vector: the positions below the written floor, followed by the
    /// written positions up to the first one that is not written yet.
    pub open spec fn spec_len(&self) -> nat {
        no_gap_len(self@, self.storage_floor() as int) as nat
    }

    /// Whether every position below the length holds a value; only a vector built over a
    /// storage with positions not written may lack it.
    pub open spec fn prefix_written(&self) -> bool {
        forall|j: int| 0 <= j < self.spec_len() ==> #[trigger] self@[j] is Some
    }

    /// The values of the vector, in order.
    pub open spec fn values(&self) -> Seq<T> {
        unwrapped(self@, self.spec_len() as int)
    }

    /// Whether every position handed out has been written.
    pub open spec fn all_written(&self) -> bool {
        forall|j: int| 0 <= j < self@.len() ==> #[trigger] self@[j] is Some
    }

    /// The invariant of the vector.
    pub closed spec fn wf(&self) -> bool {
        &&& self.growth.wf()
        &&& 1 <= self.fragments@.len() <= self.growth.max_fragments()
        &&& self.fragments@ == self.growth.fragment_capacities(self.fragments@.len())
        &&& self.slots@.len() == self.growth.cumulative_capacity(self.fragments@.len())
        &&& self.state.written() <= self.state.reserved() <= self.slots@.len()
        &&& self.floor <= self.state.reserved()
        &&& self.state.written() == no_gap_len(self@, self.floor as int)
        &&& forall|j: int|
            self.state.reserved() <= j < self.slots@.len() ==> (#[trigger] self.slots@[j])@ is None
    }

    /// What every well-formed vector satisfies: above the written floor the length counts
    /// written positions only, the positions handed out fit in the allocated capacity,
    /// which fits in the maximum capacity, and the capacity is that of the allocated
    /// fragments.
    pub proof fn lemma_wf(&self)
        requires
            self.wf(),
        ensures
            self.spec_len() <= self@.len() <= self.spec_capacity() <= self.spec_maximum_capacity()
                <= usize::MAX,
            self.spec_capacity() == self.growth_strategy().cumulative_capacity(self.num_fragments()),
            1 <= self.num_fragments() <= self.growth_strategy().max_fragments(),
            self.growth_strategy().wf(),
            self.storage_floor() <= self.spec_len(),
            forall|j: int| self.storage_floor() <= j < self.spec_len() ==> #[trigger] self@[j] is Some,
            self.spec_len() < self@.len() ==> self@[self.spec_len() as int] is None,
            self.storage_floor() == 0 ==> self.prefix_written() && self.spec_len() == first_gap(self@),
            self.recorded_len() == self.spec_len(),
    {
        lemma_no_gap_len(self@, self.storage_floor() as int);
        lemma_maximum_capacity_fits(self.growth);
        lemma_cumulative_monotone(
            self.growth,
            self.fragments@.len() as nat,
            self.growth.max_fragments(),
        );
    }

    /// When every position handed out is written, the length is the number of
    /// positions handed out, and the values are the written ones.
    pub proof fn lemma_all_written(&self)
        requires
            self.wf(),
            self.all_written(),
        ensures
            self.spec_len() == self@.len(),
            self.prefix_written(),
            self.values() == unwrapped(self@, self@.len() as int),
            written_values(self@) == self.values(),
    {
        self.lemma_wf();
        lemma_no_gap_len_unique(self@, self.storage_floor() as int, self@.len() as int);
        lemma_written_values_all(self@);
    }

    /// `n` elements that hold no value.
    fn empty_slots(n: usize) -> (v: Vec<ConcurrentElement<T>>)
        ensures
            v@.len() == n,
            forall|j: int| 0 <= j < n ==> (#[trigger] v@[j])@ is None,
    {
        let mut v: Vec<ConcurrentElement<T>> = Vec::with_capacity(n);
        while v.len() < n
            invariant
                v@.len() <= n,
                forall|j: int| 0 <= j < v@.len() ==> (#[trigger] v@[j])@ is None,
            decreases n - v@.len(),
        {
            v.push(ConcurrentElement::none());
        }
        v
    }

    /// An empty vector whose storage grows by `growth`, with its first fragment allocated.
    fn with_growth(growth: GrowthStrategy) -> (vec: Self)
        requires
            growth.wf(),
            growth.max_fragments() >= 1,
        ensures
            vec.wf(),
            vec@ == Seq::<Option<T>>::empty(),
            vec.growth_strategy() == growth,
            vec.num_fragments() == 1,
            vec.spec_capacity() == growth.fragment_capacity(0),
    {
        let mut fragments: Vec<usize> = Vec::new();
        assert(fragments@ =~= growth.fragment_capacities(0));
        let first = growth.next_fragment_capacity(&fragments);
        fragments.push(first);
        let slots = Self::empty_slots(first);
        let vec = ConcurrentVec {
            slots,
            fragments,
            growth,
            state: ConcurrentVecState::new_for_pinned_vec(0),
            floor: 0,
        };
        assert(vec.fragments@ =~= growth.fragment_capacities(1));
        assert(growth.cumulative_capacity(1) == growth.fragment_capacity(0)) by {
            assert(growth.cumulative_capacity(0) == 0);
        }
        assert(vec@ =~= Seq::<Option<T>>::empty());
        vec
    }

    /// Creates a new concurrent vector whose storage grows by doubling the capacity of
    /// each new fragment, starting from 4.
    pub fn new() -> (vec: Self)
        ensures
            vec.wf(),
            vec@ == Seq::<Option<T>>::empty(),
            vec.growth_strategy() == default_growth(),
            vec.spec_capacity() == 4,
    {
        Self::with_doubling_growth()
    }

    /// Creates a new concurrent vector whose storage grows by doubling the capacity of
    /// each new fragment, starting from 4.
    pub fn with_doubling_growth() -> (vec: Self)
        ensures
            vec.wf(),
            vec@ == Seq::<Option<T>>::empty(),
            vec.growth_strategy() == default_growth(),
            vec.spec_capacity() == 4,
    {
        let growth = GrowthStrategy::Doubling { fragments_capacity: doubling_fragments_limit() };
        Self::with_growth(growth)
    }

    /// Creates a new concurrent vector whose storage grows by the recursive strategy of
    /// the split vector: each fragment doubles the capacity of the previous one, starting
    /// from 4, with as many fragments as the target allows.
    pub fn with_recursive_growth() -> (vec: Self)
        ensures
            vec.wf(),
            vec@ == Seq::<Option<T>>::empty(),
            vec.growth_strategy() == (GrowthStrategy::Recursive { fragments_capacity: fragments_limit() as usize }),
            vec.spec_capacity() == 4,
    {
        let growth = GrowthStrategy::Recursive { fragments_capacity: doubling_fragments_limit() };
        Self::with_growth(growth)
    }

    /// Creates a new concurrent vector whose fragments all have the capacity
    /// `2 ^ constant_fragment_capacity_exponent`, and which holds at most
    /// `fragments_capacity` fragments.
    pub fn with_linear_growth(constant_fragment_capacity_exponent: usize, fragments_capacity: usize) -> (vec: Self)
        requires
            1 <= constant_fragment_capacity_exponent < fragments_limit(),
            1 <= fragments_capacity,
            fragments_capacity * two_pow(constant_fragment_capacity_exponent as nat) <= usize::MAX,
        ensures
            vec.wf(),
            vec@ == Seq::<Option<T>>::empty(),
            vec.growth_strategy() == (GrowthStrategy::Linear {
                constant_fragment_capacity_exponent,
                fragments_capacity,
            }),
            vec.spec_capacity() == two_pow(constant_fragment_capacity_exponent as nat),
    {
        let growth = GrowthStrategy::Linear { constant_fragment_capacity_exponent, fragments_capacity };
        Self::with_growth(growth)
    }

    /// Creates a new concurrent vector whose storage has the fixed capacity
    /// `fixed_capacity` and never grows.
    pub fn with_fixed_capacity(fixed_capacity: usize) -> (vec: Self)
        ensures
            vec.wf(),
            vec@ == Seq::<Option<T>>::empty(),
            vec.growth_strategy() == (GrowthStrategy::Fixed { capacity: fixed_capacity }),
            vec.spec_capacity() == fixed_capacity,
    {
        Self::with_growth(GrowthStrategy::Fixed { capacity: fixed_capacity })
    }

    /// Allocates fragments until the capacity reaches `new_capacity`.
    fn grow_to(&mut self, new_capacity: usize)
        requires
            old(self).wf(),
            new_capacity <= old(self).spec_maximum_capacity(),
        ensures
            final(self).wf(),
            final(self)@ == old(self)@,
            final(self).storage_floor() == old(self).storage_floor(),
            final(self).grown_from(*old(self), new_capacity as int),
    {
        let ghost old_view = self@;
        let ghost n0 = self.fragments@.len();
        let max_fragments = self.growth.maximum_fragments();
        while self.slots.len() < new_capacity
            invariant
                self.wf(),
                self@ == old_view,
                self.state == old(self).state,
                self.floor == old(self).floor,
                self.growth == old(self).growth,
                max_fragments == self.growth.max_fragments(),
                new_capacity <= self.growth.spec_maximum_capacity(),
                self.fragments@.len() >= n0,
                self.fragments@.len() > n0 ==> self.growth.cumulative_capacity(
                    (self.fragments@.len() - 1) as nat,
                ) < new_capacity,
                n0 == old(self).fragments@.len(),
            decreases max_fragments - self.fragments@.len(),
        {
            let n = self.fragments.len();
            proof {
                if n >= max_fragments {
                    lemma_cumulative_monotone(self.growth, self.growth.max_fragments(), n as nat);
                }
                lemma_fragment_fits(self.growth, n as nat);
            }
            let next = self.growth.next_fragment_capacity(&self.fragments);
            proof {
                lemma_cumulative_monotone(self.growth, n as nat + 1, self.growth.max_fragments());
            }
            Self::append_empty(&mut self.slots, next);
            self.fragments.push(next);
            proof {
                assert(self.fragments@ =~= self.growth.fragment_capacities(self.fragments@.len()));
                assert(self@ =~= old_view);
            }
        }
        proof {
            if self.fragments@.len() > n0 {
                lemma_cumulative_monotone(self.growth, n0, (self.fragments@.len() - 1) as nat);
            }
        }
    }

    /// Appends `n` elements that hold no value.
    fn append_empty(slots: &mut Vec<ConcurrentElement<T>>, n: usize)
        requires
            old(slots)@.len() + n <= usize::MAX,
        ensures
            final(slots)@.len() == old(slots)@.len() + n,
            forall|j: int| 0 <= j < old(slots)@.len() ==> final(slots)@[j] == old(slots)@[j],
            forall|j: int|
                old(slots)@.len() <= j < final(slots)@.len() ==> (#[trigger] final(slots)@[j])@ is None,
    {
        let ghost start = slots@;
        let mut k: usize = 0;
        while k < n
            invariant
                slots@.len() == start.len() + k,
                k <= n,
                start.len() + n <= usize::MAX,
                forall|j: int| 0 <= j < start.len() ==> slots@[j] == start[j],
                forall|j: int| start.len() <= j < slots@.len() ==> (#[trigger] slots@[j])@ is None,
            decreases n - k,
        {
            slots.push(ConcurrentElement::none());
            k = k + 1;
        }
    }

    /// The storage of `self` is that of `prior`, with the fragments that the growth
    /// strategy allocates next added until `needed` positions fit, and no more.
    pub open spec fn grown_from(&self, prior: Self, needed: int) -> bool {
        &&& self.growth_strategy() == prior.growth_strategy()
        &&& self.spec_capacity() >= needed
        &&& self.num_fragments() >= prior.num_fragments()
        &&& self.num_fragments() > prior.num_fragments()
            ==> prior.growth_strategy().cumulative_capacity((self.num_fragments() - 1) as nat) < needed
        &&& prior.spec_capacity() >= needed ==> self.num_fragments() == prior.num_fragments()
            && self.spec_capacity() == prior.spec_capacity()
    }

    /// Hands out the next `num_items` positions, growing the storage when they do not
    /// fit, and returns the first of them. The positions hold no value until they are
    /// written by `write_reserved`.
    ///
    /// This is the first half of `push` and `extend`: in the concurrent setting other
    /// writers may take positions and write to theirs before this writer writes to its own.
    pub fn reserve_positions(&mut self, num_items: usize) -> (begin_idx: usize)
        requires
            old(self).wf(),
            old(self)@.len() + num_items <= old(self).spec_maximum_capacity(),
        ensures
            final(self).wf(),
            begin_idx == old(self)@.len(),
            final(self)@ == old(self)@ + empty_positions::<T>(num_items as nat),
            final(self).spec_len() == old(self).spec_len(),
            final(self).storage_floor() == old(self).storage_floor(),
            old(self).prefix_written() ==> final(self).prefix_written(),
            final(self).grown_from(*old(self), old(self)@.len() + num_items as int),
    {
        proof {
            self.lemma_wf();
        }
        let begin_idx = self.state.len();
        if num_items > 0 {
            let permit = self.state.write_permit_n_items(begin_idx, num_items, self.slots.len());
            match permit {
                WritePermit::GrowThenWrite => {
                    self.grow_to(begin_idx + num_items);
                },
                _ => {},
            }
        }
        let ghost mid = *self;
        let b = self.state.fetch_add_reserved(num_items);
        assert(b == begin_idx);
        proof {
            let s0 = old(self)@;
            let s1 = self@;
            assert(s1 =~= s0 + empty_positions::<T>(num_items as nat)) by {
                assert forall|j: int| 0 <= j < s1.len() implies s1[j] == (s0
                    + empty_positions::<T>(num_items as nat))[j] by {
                    if j < s0.len() {
                        assert(s0[j] == mid@[j]);
                    } else {
                        assert(mid.slots@[j]@ is None);
                    }
                }
            }
            let f = self.storage_floor() as int;
            lemma_no_gap_len(s0, f);
            lemma_no_gap_len_unique(s1, f, no_gap_len(s0, f));
            if old(self).spec_capacity() >= begin_idx + num_items && num_items > 0 {
                assert(begin_idx + num_items - 1 < old(self).spec_capacity());
            }
        }
        begin_idx
    }

    /// Writes `value` to position `idx`, which was handed out by `reserve_positions`
    /// and is not written yet.
    pub fn write_reserved(&mut self, idx: usize, value: T)
        requires
            old(self).wf(),
            idx < old(self)@.len(),
            old(self)@[idx as int] is None,
        ensures
            final(self).wf(),
            final(self)@ == old(self)@.update(idx as int, Some(value)),
            final(self).spec_len() >= old(self).spec_len(),
            final(self).storage_floor() == old(self).storage_floor(),
            old(self).prefix_written() ==> final(self).prefix_written(),
            final(self).grown_from(*old(self), 0),
            final(self).num_fragments() == old(self).num_fragments(),
    {
        proof {
            self.lemma_wf();
        }
        self.slots.set(idx, ConcurrentElement::some(value));
        proof {
            assert(self@ =~= old(self)@.update(idx as int, Some(value)));
        }
        let recorded = self.state.written_len();
        let len = self.scan_written(recorded);
        proof {
            let f = self.floor as int;
            let c = recorded as int;
            lemma_no_gap_len(old(self)@, f);
            lemma_no_gap_len(self@, c);
            assert forall|j: int| f <= j < c implies #[trigger] self@[j] is Some by {
                if j != idx {
                    assert(self@[j] == old(self)@[j]);
                }
            }
            lemma_no_gap_len_skip(self@, f, c);
        }
        self.state.raise_written(len);
        proof {
            assert(self@ =~= old(self)@.update(idx as int, Some(value)));
            let f = self.storage_floor() as int;
            lemma_write_keeps_no_gap_len(old(self)@, f, idx as int, value);
        }
    }

    /// Pushes `value` to the back of the vec and returns the position it is written to.
    ///
    /// It preserves the order of elements with respect to the order the `push` method is called.
    pub fn push(&mut self, value: T) -> (idx: usize)
        requires
            old(self).wf(),
            old(self)@.len() < old(self).spec_maximum_capacity(),
        ensures
            final(self).wf(),
            final(self).storage_floor() == old(self).storage_floor(),
            final(self).spec_len() >= old(self).spec_len(),
            old(self).prefix_written() ==> final(self).prefix_written(),
            idx == old(self)@.len(),
            final(self)@ == old(self)@.push(Some(value)),
            final(self).grown_from(*old(self), old(self)@.len() + 1int),
            old(self).all_written() ==> final(self).all_written() && final(self).values()
                == old(self).values().push(value),
    {
        let idx = self.reserve_positions(1);
        self.write_reserved(idx, value);
        proof {
            assert(self@ =~= old(self)@.push(Some(value)));
            if old(self).all_written() {
                old(self).lemma_all_written();
                self.lemma_all_written();
                assert(self.values() =~= old(self).values().push(value));
            }
        }
        idx
    }

    /// Pushes the value computed by `f` from the position that it will be written to,
    /// and returns that position.
    pub fn push_for_idx<F>(&mut self, f: F) -> (idx: usize) where F: FnOnce(usize) -> T
        requires
            old(self).wf(),
            old(self)@.len() < old(self).spec_maximum_capacity(),
            call_requires(f, (old(self)@.len() as usize,)),
        ensures
            final(self).wf(),
            final(self).storage_floor() == old(self).storage_floor(),
            final(self).spec_len() >= old(self).spec_len(),
            old(self).prefix_written() ==> final(self).prefix_written(),
            idx == old(self)@.len(),
            final(self)@.len() == old(self)@.len() + 1,
            final(self)@.subrange(0, idx as int) == old(self)@,
            final(self)@[idx as int] is Some,
            call_ensures(f, (idx,), final(self)@[idx as int].unwrap()),
            final(self).grown_from(*old(self), old(self)@.len() + 1int),
    {
        let idx = self.reserve_positions(1);
        let value = f(idx);
        self.write_reserved(idx, value);
        proof {
            assert(self@.subrange(0, idx as int) =~= old(self)@);
        }
        idx
    }

    /// Writes the first `num_items` of `values` to the positions that start at `begin_idx`,
    /// which were handed out and are not written yet.
    fn write_reserved_n_items(&mut self, begin_idx: usize, values: Vec<T>, num_items: usize)
        requires
            old(self).wf(),
            values@.len() >= num_items,
            begin_idx + num_items <= old(self)@.len(),
            forall|j: int| begin_idx <= j < begin_idx + num_items ==> #[trigger] old(self)@[j] is None,
        ensures
            final(self).wf(),
            final(self).storage_floor() == old(self).storage_floor(),
            final(self).spec_len() >= old(self).spec_len(),
            old(self).prefix_written() ==> final(self).prefix_written(),
            final(self)@.len() == old(self)@.len(),
            forall|j: int|
                0 <= j < old(self)@.len() && !(begin_idx <= j < begin_idx + num_items)
                    ==> #[trigger] final(self)@[j] == old(self)@[j],
            forall|j: int|
                begin_idx <= j < begin_idx + num_items ==> #[trigger] final(self)@[j] == Some(
                    values@[j - begin_idx],
                ),
            final(self).grown_from(*old(self), 0),
            final(self).num_fragments() == old(self).num_fragments(),
    {
        let ghost all_values = values@;
        let mut values = values;
        values.truncate(num_items);
        let mut k: usize = num_items;
        while k > 0
            invariant
                self.wf(),
                k <= num_items,
                num_items <= all_values.len(),
                values@ == all_values.subrange(0, k as int),
                begin_idx + num_items <= self@.len(),
                self@.len() == old(self)@.len(),
                self.grown_from(*old(self), 0),
                self.num_fragments() == old(self).num_fragments(),
                self.storage_floor() == old(self).storage_floor(),
                self.spec_len() >= old(self).spec_len(),
                old(self).prefix_written() ==> self.prefix_written(),
                forall|j: int|
                    0 <= j < old(self)@.len() && !(begin_idx + k <= j < begin_idx + num_items)
                        ==> #[trigger] self@[j] == old(self)@[j],
                forall|j: int|
                    begin_idx + k <= j < begin_idx + num_items ==> #[trigger] self@[j] == Some(
                        all_values[j - begin_idx],
                    ),
                forall|j: int| begin_idx <= j < begin_idx + num_items ==> #[trigger] old(self)@[j] is None,
            decreases k,
        {
            k = k - 1;
            let value = match values.pop() {
                Some(v) => v,
                None => unreached(),
            };
            assert(value == all_values[k as int]);
            proof {
                self.lemma_wf();
            }
            assert(self@[(begin_idx + k) as int] is None);
            self.write_reserved(begin_idx + k, value);
        }
    }

    /// Pushes the first `num_items` values of `values` to consecutive positions at the
    /// back of the vec, and returns the position of the first of them (the length of
    /// the vec when `num_items` is zero).
    ///
    /// All positions are taken at once; the values are written afterwards.
    pub fn extend_n_items(&mut self, values: Vec<T>, num_items: usize) -> (begin_idx: usize)
        requires
            old(self).wf(),
            values@.len() >= num_items,
            old(self)@.len() + num_items <= old(self).spec_maximum_capacity(),
        ensures
            final(self).wf(),
            final(self).storage_floor() == old(self).storage_floor(),
            final(self).spec_len() >= old(self).spec_len(),
            old(self).prefix_written() ==> final(self).prefix_written(),
            begin_idx == old(self)@.len(),
            final(self)@ == old(self)@ + written_positions(values@.take(num_items as int)),
            final(self).grown_from(*old(self), old(self)@.len() + num_items as int),
            old(self).all_written() ==> final(self).all_written() && final(self).values()
                == old(self).values() + values@.take(num_items as int),
    {
        let begin_idx = self.reserve_positions(num_items);
        let ghost mid = *self;
        self.write_reserved_n_items(begin_idx, values, num_items);
        proof {
            assert(self@ =~= old(self)@ + written_positions(values@.take(num_items as int))) by {
                assert forall|j: int| 0 <= j < self@.len() implies self@[j] == (old(self)@
                    + written_positions(values@.take(num_items as int)))[j] by {
                    if j < begin_idx {
                        assert(self@[j] == mid@[j]);
                    }
                }
            }
            if old(self).all_written() {
                old(self).lemma_all_written();
                self.lemma_all_written();
                assert(self.values() =~= old(self).values() + values@.take(num_items as int));
            }
        }
        begin_idx
    }

    /// Pushes all `values` to consecutive positions at the back of the vec, and returns
    /// the position of the first of them (the length of the vec when `values` is empty).
    pub fn extend(&mut self, values: Vec<T>) -> (begin_idx: usize)
        requires
            old(self).wf(),
            old(self)@.len() + values@.len() <= old(self).spec_maximum_capacity(),
        ensures
            final(self).wf(),
            final(self).storage_floor() == old(self).storage_floor(),
            final(self).spec_len() >= old(self).spec_len(),
            old(self).prefix_written() ==> final(self).prefix_written(),
            begin_idx == old(self)@.len(),
            final(self)@ == old(self)@ + written_positions(values@),
            final(self).grown_from(*old(self), old(self)@.len() + values@.len() as int),
            old(self).all_written() ==> final(self).all_written() && final(self).values()
                == old(self).values() + values@,
    {
        let num_items = values.len();
        let begin_idx = self.extend_n_items(values, num_items);
        proof {
            assert(values@.take(num_items as int) =~= values@);
        }
        begin_idx
    }

    /// Extends the vec with the values that `f` computes from the position the first of
    /// them will be written to; `f` must yield exactly `num_items` values.
    pub fn extend_for_idx<F>(&mut self, f: F, num_items: usize) -> (begin_idx: usize) where
        F: FnOnce(usize) -> Vec<T>,
        requires
            old(self).wf(),
            old(self)@.len() + num_items <= old(self).spec_maximum_capacity(),
            call_requires(f, (old(self)@.len() as usize,)),
            forall|values: Vec<T>|
                #[trigger] call_ensures(f, (old(self)@.len() as usize,), values) ==> values@.len() == num_items,
        ensures
            final(self).wf(),
            final(self).storage_floor() == old(self).storage_floor(),
            final(self).spec_len() >= old(self).spec_len(),
            old(self).prefix_written() ==> final(self).prefix_written(),
            begin_idx == old(self)@.len(),
            exists|values: Vec<T>|
                call_ensures(f, (begin_idx,), values) && final(self)@ == old(self)@
                    + written_positions(values@),
            final(self).grown_from(*old(self), old(self)@.len() + num_items as int),
    {
        let begin_idx = self.reserve_positions(num_items);
        let values = f(begin_idx);
        let ghost vs = values;
        let ghost mid = *self;
        self.write_reserved_n_items(begin_idx, values, num_items);
        proof {
            assert(self@ =~= old(self)@ + written_positions(vs@)) by {
                assert forall|j: int| 0 <= j < self@.len() implies self@[j] == (old(self)@
                    + written_positions(vs@))[j] by {
                    if j < begin_idx {
                        assert(self@[j] == mid@[j]);
                    }
                }
            }
        }
        begin_idx
    }

    /// Returns the element at the `i`-th position; returns `None` if the index is out of bounds.
    pub fn get(&self, i: usize) -> (elem: Option<&ConcurrentElement<T>>)
        requires
            self.wf(),
        ensures
            elem is Some <==> i < self.spec_len(),
            elem matches Some(e) ==> e@ == self@[i as int],
            self.prefix_written() ==> (elem matches Some(e) ==> e@ == Some(self.values()[i as int])),
    {
        if i < self.len() {
            proof {
                self.lemma_wf();
            }
            Some(&self.slots[i])
        } else {
            None
        }
    }

    /// Overwriting the element of a written position keeps the length.
    proof fn lemma_overwrite_keeps_len(v: Self, i: int)
        requires
            v.wf(),
            0 <= i < v@.len(),
            v@[i] is Some,
        ensures
            forall|w: Self|
                #![trigger w.spec_len()]
                #![trigger w.wf()]
                w.state == v.state && w.floor == v.floor && w.fragments == v.fragments && w.growth == v.growth
                    && w.slots@ == v.slots@.update(i, w.slots@[i]) && w.slots@[i]@ is Some ==> w.spec_len()
                    == v.spec_len() && (v.prefix_written() ==> w.prefix_written()) && w.wf(),
    {
        v.lemma_wf();
        lemma_overwrite_keeps_no_gap_len(v@, v.storage_floor() as int, i);
        assert forall|w: Self|
            #![trigger w.spec_len()]
            #![trigger w.wf()]
            w.state == v.state && w.floor == v.floor && w.fragments == v.fragments && w.growth == v.growth
                && w.slots@ == v.slots@.update(i, w.slots@[i]) && w.slots@[i]@ is Some implies w.spec_len()
                == v.spec_len() && (v.prefix_written() ==> w.prefix_written()) && w.wf() by {
            let x = w.slots@[i]@.unwrap();
            assert(w@ =~= v@.update(i, Some(x)));
            if v.prefix_written() {
                assert forall|j: int| 0 <= j < w.spec_len() implies #[trigger] w@[j] is Some by {
                    if j != i {
                        assert(w@[j] == v@[j]);
                    }
                }
            }
        }
    }

    /// Returns a mutable reference to the value at position `i`: `None` if the position
    /// is not handed out or not written yet.
    pub fn get_mut(&mut self, i: usize) -> (value: Option<&mut T>)
        requires
            old(self).wf(),
        ensures
            value is Some <==> (i < old(self)@.len() && old(self)@[i as int] is Some),
            value is None ==> *final(self) == *old(self),
            value matches Some(v) ==> *v == old(self)@[i as int].unwrap(),
            value matches Some(v) ==> final(self)@ == old(self)@.update(i as int, Some(*final(v))),
            value matches Some(v) ==> final(self).wf(),
            value matches Some(v) ==> final(self).spec_len() == old(self).spec_len(),
            value matches Some(v) ==> final(self).storage_floor() == old(self).storage_floor(),
            value matches Some(v) ==> (old(self).prefix_written() ==> final(self).prefix_written()),
            value matches Some(v) ==> final(self).spec_capacity() == old(self).spec_capacity(),
            value matches Some(v) ==> final(self).num_fragments() == old(self).num_fragments(),
            value matches Some(v) ==> final(self).growth_strategy() == old(self).growth_strategy(),
    {
        if i < self.reserved_len() && self.slots[i].is_some() {
            proof {
                self.lemma_wf();
                assert(self.slots@[i as int]@ == self@[i as int]);
                Self::lemma_overwrite_keeps_len(*self, i as int);
            }
            let e = &mut self.slots[i];
            Some(e.value_mut())
        } else {
            None
        }
    }

    /// Returns a reference to the value at position `i`: `None` if the position is not
    /// handed out or not written yet.
    pub fn get_ref(&self, i: usize) -> (value: Option<&T>)
        requires
            self.wf(),
        ensures
            value is Some <==> (i < self@.len() && self@[i as int] is Some),
            value matches Some(v) ==> *v == self@[i as int].unwrap(),
    {
        if i < self.reserved_len() {
            let e = &self.slots[i];
            if e.is_some() {
                Some(e.value_ref())
            } else {
                None
            }
        } else {
            None
        }
    }

    /// Returns references to the values written so far among the positions handed out,
    /// in order, skipping the positions that are not written yet.
    pub fn iter_ref(&self) -> (values: Vec<&T>)
        requires
            self.wf(),
        ensures
            values@.len() == written_values(self@).len(),
            forall|k: int| 0 <= k < values@.len() ==> *#[trigger] values@[k] == written_values(self@)[k],
    {
        let n = self.reserved_len();
        let mut values: Vec<&T> = Vec::new();
        let mut i: usize = 0;
        while i < n
            invariant
                self.wf(),
                n == self@.len(),
                i <= n,
                values@.len() == written_values(self@.take(i as int)).len(),
                forall|k: int| 0 <= k < values@.len() ==> *#[trigger] values@[k] == written_values(self@.take(i as int))[k],
            decreases n - i,
        {
            let ghost prev = self@.take(i as int);
            proof {
                assert(self@.take(i + 1).drop_last() =~= prev);
                assert(self.slots@[i as int]@ == self@[i as int]);
            }
            if let Some(v) = self.get_ref(i) {
                values.push(v);
            }
            proof {
                assert(self@.take(i + 1).last() == self@[i as int]);
            }
            i = i + 1;
        }
        assert(self@.take(n as int) =~= self@);
        values
    }

    /// The number of values written so far among the positions handed out.
    pub fn len_exact(&self) -> (len: usize)
        requires
            self.wf(),
        ensures
            len == written_values(self@).len(),
    {
        self.iter_ref().len()
    }

    /// Returns a clone of the value at the `i`-th position: `None` if the index is out of
    /// bounds (or, in a vector built over a storage, the position holds no value).
    pub fn get_cloned(&self, i: usize) -> (value: Option<T>) where T: Clone
        requires
            self.wf(),
        ensures
            value is Some <==> (i < self.spec_len() && self@[i as int] is Some),
            value matches Some(v) ==> cloned(self@[i as int].unwrap(), v),
            self.prefix_written() ==> (value is Some <==> i < self.spec_len()),
            self.prefix_written() ==> (value matches Some(v) ==> cloned(self.values()[i as int], v)),
    {
        if i < self.len() {
            proof {
                self.lemma_wf();
                assert(self.slots@[i as int]@ == self@[i as int]);
            }
            self.slots[i].clone_into_option()
        } else {
            None
        }
    }

    /// Returns a copy of the value at the `i`-th position: `None` if the index is out of
    /// bounds (or, in a vector built over a storage, the position holds no value).
    pub fn get_copied(&self, i: usize) -> (value: Option<T>) where T: Copy
        requires
            self.wf(),
        ensures
            i < self.spec_len() ==> value == self@[i as int],
            i >= self.spec_len() ==> value is None,
            self.prefix_written() ==> (value is Some <==> i < self.spec_len()),
            self.prefix_written() ==> (value matches Some(v) ==> v == self.values()[i as int]),
    {
        if i < self.len() {
            proof {
                self.lemma_wf();
            }
            let e = &self.slots[i];
            if e.is_some() {
                Some(e.copied())
            } else {
                None
            }
        } else {
            None
        }
    }

    /// Clones the values of the elements of the vec into a regular vector.
    pub fn clone_to_vec(&self) -> (values: Vec<T>) where T: Clone
        requires
            self.wf(),
            self.prefix_written(),
        ensures
            values@.len() == self.spec_len(),
            forall|k: int| 0 <= k < self.spec_len() ==> cloned(self.values()[k], #[trigger] values@[k]),
    {
        let len = self.len();
        proof {
            self.lemma_wf();
        }
        let mut values: Vec<T> = Vec::with_capacity(len);
        while values.len() < len
            invariant
                self.wf(),
                len == self.spec_len(),
                len <= self.slots@.len(),
                self.prefix_written(),
                values@.len() <= len,
                forall|k: int| 0 <= k < values@.len() ==> cloned(self.values()[k], #[trigger] values@[k]),
            decreases len - values@.len(),
        {
            let k = values.len();
            proof {
                self.lemma_wf();
                assert(self.slots@[k as int]@ == self@[k as int]);
            }
            values.push(self.slots[k].cloned());
        }
        values
    }

    /// Returns the cloned values of the elements of the vec, in order.
    pub fn iter_cloned(&self) -> (values: Vec<T>) where T: Clone
        requires
            self.wf(),
            self.prefix_written(),
        ensures
            values@.len() == self.spec_len(),
            forall|k: int| 0 <= k < self.spec_len() ==> cloned(self.values()[k], #[trigger] values@[k]),
    {
        self.clone_to_vec()
    }

    /// Consumes the vec and returns its storage: the elements of the positions handed out.
    pub fn into_inner(self) -> (elements: Vec<ConcurrentElement<T>>)
        requires
            self.wf(),
        ensures
            elements@.len() == self@.len(),
            forall|k: int| 0 <= k < self@.len() ==> (#[trigger] elements@[k])@ == self@[k],
    {
        let len = self.state.len();
        let mut slots = self.slots;
        slots.truncate(len);
        slots
    }

    /// The values held by `elements`, in order; every element must hold a value.
    fn values_of(elements: Vec<ConcurrentElement<T>>) -> (values: Vec<T>)
        requires
            forall|k: int| 0 <= k < elements@.len() ==> (#[trigger] elements@[k])@ is Some,
        ensures
            values@.len() == elements@.len(),
            forall|k: int| 0 <= k < elements@.len() ==> #[trigger] values@[k] == elements@[k]@.unwrap(),
    {
        let ghost view = elements@;
        let n = elements.len();
        let mut reversed: Vec<T> = Vec::with_capacity(n);
        let mut elements = elements;
        while elements.len() > 0
            invariant
                elements@.len() + reversed@.len() == n,
                n == view.len(),
                forall|k: int| 0 <= k < elements@.len() ==> #[trigger] elements@[k] == view[k],
                forall|k: int| 0 <= k < view.len() ==> (#[trigger] view[k])@ is Some,
                forall|k: int| 0 <= k < reversed@.len() ==> #[trigger] reversed@[k] == view[n - 1 - k]@.unwrap(),
            decreases elements@.len(),
        {
            let e = match elements.pop() {
                Some(e) => e,
                None => unreached(),
            };
            assert(e == view[elements@.len() as int]);
            reversed.push(e.into_value());
        }
        let mut values: Vec<T> = Vec::with_capacity(n);
        while reversed.len() > 0
            invariant
                reversed@.len() + values@.len() == n,
                n == view.len(),
                forall|k: int| 0 <= k < view.len() ==> (#[trigger] view[k])@ is Some,
                forall|k: int| 0 <= k < reversed@.len() ==> #[trigger] reversed@[k] == view[n - 1 - k]@.unwrap(),
                forall|k: int| 0 <= k < values@.len() ==> #[trigger] values@[k] == view[k]@.unwrap(),
            decreases reversed@.len(),
        {
            let v = match reversed.pop() {
                Some(v) => v,
                None => unreached(),
            };
            values.push(v);
        }
        values
    }

    /// Transforms the vec into a regular vector of its values; every position handed
    /// out must be written.
    pub fn to_vec(self) -> (values: Vec<T>)
        requires
            self.wf(),
            self.all_written(),
        ensures
            values@ == unwrapped(self@, self@.len() as int),
    {
        let ghost view = self@;
        let elements = self.into_inner();
        let values = Self::values_of(elements);
        assert(values@ =~= unwrapped(view, view.len() as int));
        values
    }

    /// Creates a vec over the elements of a storage, as `into_inner` returns it, whose
    /// storage grows by `growth`: every element is a position handed out, written when
    /// the element holds a value, and every one of them counts in the length.
    pub fn new_from_pinned(pinned: Vec<ConcurrentElement<T>>, growth: GrowthStrategy) -> (vec: Self)
        requires
            growth.wf(),
            pinned@.len() <= growth.spec_maximum_capacity(),
        ensures
            vec.wf(),
            vec@.len() == pinned@.len(),
            forall|k: int| 0 <= k < pinned@.len() ==> #[trigger] vec@[k] == pinned@[k]@,
            vec.spec_len() == pinned@.len(),
            vec.storage_floor() == pinned@.len(),
            vec.prefix_written() <==> forall|k: int| 0 <= k < pinned@.len() ==> (#[trigger] pinned@[k])@ is Some,
            vec.all_written() <==> forall|k: int| 0 <= k < pinned@.len() ==> (#[trigger] pinned@[k])@ is Some,
            vec.growth_strategy() == growth,
            vec.spec_capacity() >= pinned@.len(),
            vec.num_fragments() > 1 ==> growth.cumulative_capacity((vec.num_fragments() - 1) as nat)
                < pinned@.len(),
    {
        let ghost view = pinned@;
        let n = pinned.len();
        let mut vec = Self::with_growth(growth);
        proof {
            assert(growth.cumulative_capacity(1) == growth.fragment_capacity(0)) by {
                assert(growth.cumulative_capacity(0) == 0);
            }
        }
        vec.reserve_positions(n);
        let ghost reserved = vec;
        let mut pinned = pinned;
        while pinned.len() > 0
            invariant
                vec.wf(),
                vec.growth_strategy() == growth,
                vec.spec_capacity() == reserved.spec_capacity(),
                vec.num_fragments() == reserved.num_fragments(),
                reserved.spec_capacity() >= n,
                reserved.num_fragments() > 1 ==> growth.cumulative_capacity((reserved.num_fragments() - 1) as nat) < n,
                vec@.len() == n,
                n == view.len(),
                pinned@.len() <= n,
                forall|j: int| 0 <= j < pinned@.len() ==> #[trigger] pinned@[j] == view[j],
                forall|j: int| 0 <= j < pinned@.len() ==> #[trigger] vec@[j] is None,
                forall|j: int| pinned@.len() <= j < n ==> #[trigger] vec@[j] == view[j]@,
            decreases pinned@.len(),
        {
            let e = match pinned.pop() {
                Some(e) => e,
                None => unreached(),
            };
            let k = pinned.len();
            assert(e == view[k as int]);
            if e.is_some() {
                vec.write_reserved(k, e.into_value());
            }
        }
        vec.state = ConcurrentVecState::new_for_pinned_vec(n);
        vec.floor = n;
        proof {
            lemma_no_gap_len_unique(vec@, n as int, n as int);
            if vec.prefix_written() {
                assert forall|k: int| 0 <= k < view.len() implies (#[trigger] view[k])@ is Some by {
                    assert(vec@[k] is Some);
                }
            }
            if forall|k: int| 0 <= k < view.len() ==> (#[trigger] view[k])@ is Some {
                assert forall|j: int| 0 <= j < vec@.len() implies #[trigger] vec@[j] is Some by {
                    assert(view[j]@ is Some);
                }
            }
        }
        vec
    }

    /// Clears the vec: no position is handed out any more, and the storage keeps only
    /// its first fragment.
    pub fn clear(&mut self)
        requires
            old(self).wf(),
        ensures
            final(self).wf(),
            final(self)@ == Seq::<Option<T>>::empty(),
            final(self).growth_strategy() == old(self).growth_strategy(),
            final(self).num_fragments() == 1,
            final(self).spec_capacity() == old(self).growth_strategy().fragment_capacity(0),
    {
        proof {
            lemma_fragment_fits(self.growth, 0);
        }
        self.fragments.truncate(1);
        let first = self.fragments[0];
        self.slots = Self::empty_slots(first);
        self.state = ConcurrentVecState::new_for_pinned_vec(0);
        self.floor = 0;
        proof {
            assert(self.fragments@ =~= self.growth.fragment_capacities(1));
            assert(self.growth.cumulative_capacity(1) == self.growth.fragment_capacity(0)) by {
                assert(self.growth.cumulative_capacity(0) == 0);
            }
            assert(self@ =~= Seq::<Option<T>>::empty());
        }
    }

    /// Swaps the elements at positions `i` and `j`.
    ///
    /// Returns `true` when both are in bounds and the values are swapped (swapping a
    /// position with itself changes nothing), `false` when at least one of them is out
    /// of bounds (or, in a vector built over a storage, holds no value).
    pub fn swap(&mut self, i: usize, j: usize) -> (swapped: bool)
        requires
            old(self).wf(),
        ensures
            final(self).wf(),
            swapped <==> (i < old(self).spec_len() && j < old(self).spec_len() && old(self)@[i as int] is Some
                && old(self)@[j as int] is Some),
            swapped ==> final(self)@ == old(self)@.update(i as int, old(self)@[j as int]).update(
                j as int,
                old(self)@[i as int],
            ),
            !swapped ==> final(self)@ == old(self)@,
            final(self).spec_len() == old(self).spec_len(),
            final(self).storage_floor() == old(self).storage_floor(),
            old(self).prefix_written() ==> final(self).prefix_written(),
            final(self).spec_capacity() == old(self).spec_capacity(),
            final(self).num_fragments() == old(self).num_fragments(),
            final(self).growth_strategy() == old(self).growth_strategy(),
    {
        let len = self.len();
        proof {
            self.lemma_wf();
        }
        if i == j && i < len && self.slots[i].is_some() {
            proof {
                assert(self.slots@[i as int]@ == self@[i as int]);
                assert(self@ =~= old(self)@.update(i as int, old(self)@[j as int]).update(
                    j as int,
                    old(self)@[i as int],
                ));
            }
            true
        } else if i != j && i < len && j < len && self.slots[i].is_some() && self.slots[j].is_some() {
            proof {
                assert(self.slots@[i as int]@ == self@[i as int]);
                assert(self.slots@[j as int]@ == self@[j as int]);
            }
            let mut tmp = ConcurrentElement::none();
            core::mem::swap(&mut self.slots[i], &mut tmp);
            core::mem::swap(&mut self.slots[j], &mut tmp);
            core::mem::swap(&mut self.slots[i], &mut tmp);
            proof {
                let f = self.storage_floor() as int;
                assert(self@ =~= old(self)@.update(i as int, old(self)@[j as int]).update(
                    j as int,
                    old(self)@[i as int],
                ));
                old(self).lemma_wf();
                assert forall|k: int| f <= k < len implies #[trigger] self@[k] is Some by {
                    if k != i && k != j {
                        assert(self@[k] == old(self)@[k]);
                    }
                }
                if len < self@.len() {
                    assert(self@[len as int] == old(self)@[len as int]);
                }
                lemma_no_gap_len_unique(self@, f, len as int);
                if old(self).prefix_written() {
                    assert forall|k: int| 0 <= k < len implies #[trigger] self@[k] is Some by {
                        if k != i && k != j {
                            assert(self@[k] == old(self)@[k]);
                        }
                    }
                }
            }
            true
        } else {
            false
        }
    }

    /// Overwrites the value at a position that is already written.
    fn overwrite(&mut self, k: usize, value: T)
        requires
            old(self).wf(),
            k < old(self)@.len(),
            old(self)@[k as int] is Some,
        ensures
            final(self).wf(),
            final(self)@ == old(self)@.update(k as int, Some(value)),
            final(self).storage_floor() == old(self).storage_floor(),
            final(self).spec_capacity() == old(self).spec_capacity(),
            final(self).num_fragments() == old(self).num_fragments(),
            final(self).growth_strategy() == old(self).growth_strategy(),
    {
        proof {
            self.lemma_wf();
            lemma_overwrite_keeps_no_gap_len(self@, self.floor as int, k as int);
        }
        self.slots.set(k, ConcurrentElement::some(value));
        proof {
            assert(self@ =~= old(self)@.update(k as int, Some(value)));
        }
    }

    /// Replaces the value at position `i` with `value` and returns the old value; `None`,
    /// with the vec unchanged, when the index is out of bounds (or, in a vector built over
    /// a storage, the position holds no value).
    pub fn replace(&mut self, i: usize, value: T) -> (old_value: Option<T>)
        requires
            old(self).wf(),
        ensures
            final(self).wf(),
            old_value is Some <==> (i < old(self).spec_len() && old(self)@[i as int] is Some),
            old_value matches Some(x) ==> x == old(self)@[i as int].unwrap() && final(self)@ == old(
                self,
            )@.update(i as int, Some(value)),
            old_value is None ==> *final(self) == *old(self),
            final(self).spec_len() == old(self).spec_len(),
            final(self).storage_floor() == old(self).storage_floor(),
            old(self).prefix_written() ==> final(self).prefix_written(),
            final(self).spec_capacity() == old(self).spec_capacity(),
            final(self).num_fragments() == old(self).num_fragments(),
            final(self).growth_strategy() == old(self).growth_strategy(),
    {
        let len = self.len();
        proof {
            self.lemma_wf();
            if i < self@.len() {
                assert(self.slots@[i as int]@ == self@[i as int]);
            }
        }
        if i < len && self.slots[i].is_some() {
            proof {
                lemma_overwrite_keeps_no_gap_len(self@, self.storage_floor() as int, i as int);
            }
            let mut other = ConcurrentElement::some(value);
            core::mem::swap(&mut self.slots[i], &mut other);
            proof {
                assert(self@ =~= old(self)@.update(i as int, Some(value)));
                Self::lemma_overwrite_keeps_prefix(*old(self), *self, i as int);
            }
            Some(other.into_value())
        } else {
            None
        }
    }

    /// Sets the value at position `i` to `value` and returns `true`; returns `false`, with
    /// the vec unchanged, when the index is out of bounds (or, in a vector built over a
    /// storage, the position holds no value).
    pub fn set(&mut self, i: usize, value: T) -> (written: bool)
        requires
            old(self).wf(),
        ensures
            final(self).wf(),
            written <==> (i < old(self).spec_len() && old(self)@[i as int] is Some),
            written ==> final(self)@ == old(self)@.update(i as int, Some(value)),
            !written ==> *final(self) == *old(self),
            final(self).spec_len() == old(self).spec_len(),
            final(self).storage_floor() == old(self).storage_floor(),
            old(self).prefix_written() ==> final(self).prefix_written(),
            final(self).spec_capacity() == old(self).spec_capacity(),
            final(self).num_fragments() == old(self).num_fragments(),
            final(self).growth_strategy() == old(self).growth_strategy(),
    {
        let len = self.len();
        proof {
            self.lemma_wf();
            if i < self@.len() {
                assert(self.slots@[i as int]@ == self@[i as int]);
            }
        }
        if i < len && self.slots[i].is_some() {
            proof {
                lemma_overwrite_keeps_no_gap_len(self@, self.storage_floor() as int, i as int);
            }
            self.overwrite(i, value);
            proof {
                Self::lemma_overwrite_keeps_prefix(*old(self), *self, i as int);
            }
            true
        } else {
            false
        }
    }

    /// Updates the value at position `i` by calling `f(&mut value)` and returns `true`;
    /// returns `false`, with the vec unchanged, when the index is out of bounds (or, in a
    /// vector built over a storage, the position holds no value).
    pub fn update<F>(&mut self, i: usize, f: F) -> (updated: bool) where F: FnMut(&mut T)
        requires
            old(self).wf(),
            i < old(self).spec_len() && old(self)@[i as int] is Some ==> forall|x: &mut T|
                *x == old(self)@[i as int].unwrap() ==> call_requires(f, (x,)),
        ensures
            final(self).wf(),
            updated <==> (i < old(self).spec_len() && old(self)@[i as int] is Some),
            updated ==> exists|x: &mut T|
                *x == old(self)@[i as int].unwrap() && final(self)@ == old(self)@.update(i as int, Some(*final(x)))
                    && call_ensures(f, (x,), ()),
            !updated ==> *final(self) == *old(self),
            final(self).spec_len() == old(self).spec_len(),
            final(self).storage_floor() == old(self).storage_floor(),
            old(self).prefix_written() ==> final(self).prefix_written(),
            final(self).spec_capacity() == old(self).spec_capacity(),
            final(self).num_fragments() == old(self).num_fragments(),
            final(self).growth_strategy() == old(self).growth_strategy(),
    {
        let len = self.len();
        proof {
            self.lemma_wf();
            if i < self@.len() {
                assert(self.slots@[i as int]@ == self@[i as int]);
            }
        }
        if i < len && self.slots[i].is_some() {
            proof {
                lemma_overwrite_keeps_no_gap_len(self@, self.storage_floor() as int, i as int);
            }
            let mut e = ConcurrentElement::none();
            core::mem::swap(&mut self.slots[i], &mut e);
            e.update(f);
            core::mem::swap(&mut self.slots[i], &mut e);
            proof {
                let x = choose|x: &mut T|
                    *x == old(self)@[i as int].unwrap() && self.slots@[i as int]@ == Some(*final(x))
                        && call_ensures(f, (x,), ());
                assert(self@ =~= old(self)@.update(i as int, Some(*final(x))));
                Self::lemma_overwrite_keeps_prefix(*old(self), *self, i as int);
            }
            true
        } else {
            false
        }
    }

    /// Overwriting a written position with another value keeps the length and, when every
    /// position below the length holds a value, keeps that too.
    proof fn lemma_overwrite_keeps_prefix(v: Self, w: Self, i: int)
        requires
            v.wf(),
            0 <= i < v@.len(),
            v@[i] is Some,
            w.storage_floor() == v.storage_floor(),
            w@.len() == v@.len(),
            w@[i] is Some,
            forall|j: int| 0 <= j < v@.len() && j != i ==> #[trigger] w@[j] == v@[j],
        ensures
            w.spec_len() == v.spec_len(),
            v.prefix_written() ==> w.prefix_written(),
    {
        v.lemma_wf();
        let x = w@[i].unwrap();
        lemma_overwrite_keeps_no_gap_len(v@, v.storage_floor() as int, i);
        assert(w@ =~= v@.update(i, Some(x)));
        if v.prefix_written() {
            assert forall|j: int| 0 <= j < w.spec_len() implies #[trigger] w@[j] is Some by {
                if j != i {
                    assert(w@[j] == v@[j]);
                }
            }
        }
    }

    /// Fills all positions of the vec with clones of `value`.
    pub fn fill(&mut self, value: T) where T: Clone
        requires
            old(self).wf(),
            old(self).prefix_written(),
        ensures
            final(self).wf(),
            final(self).prefix_written(),
            final(self).storage_floor() == old(self).storage_floor(),
            final(self)@.len() == old(self)@.len(),
            final(self).spec_len() == old(self).spec_len(),
            forall|k: int|
                0 <= k < old(self).spec_len() ==> #[trigger] final(self)@[k] is Some && cloned(
                    value,
                    final(self)@[k].unwrap(),
                ),
            forall|k: int|
                old(self).spec_len() <= k < old(self)@.len() ==> #[trigger] final(self)@[k] == old(
                    self,
                )@[k],
            final(self).spec_capacity() == old(self).spec_capacity(),
            final(self).num_fragments() == old(self).num_fragments(),
            final(self).growth_strategy() == old(self).growth_strategy(),
    {
        let len = self.len();
        let mut k: usize = 0;
        proof {
            self.lemma_wf();
        }
        while k < len
            invariant
                self.wf(),
                k <= len,
                len == old(self).spec_len(),
                self@.len() == old(self)@.len(),
                self.storage_floor() == old(self).storage_floor(),
                self.spec_capacity() == old(self).spec_capacity(),
                self.num_fragments() == old(self).num_fragments(),
                self.growth_strategy() == old(self).growth_strategy(),
                forall|m: int| 0 <= m < k ==> #[trigger] self@[m] is Some && cloned(value, self@[m].unwrap()),
                forall|m: int| k <= m < self@.len() ==> #[trigger] self@[m] == old(self)@[m],
                forall|m: int| 0 <= m < len ==> #[trigger] old(self)@[m] is Some,
                len <= self@.len(),
            decreases len - k,
        {
            let v = value.clone();
            self.overwrite(k, v);
            k = k + 1;
        }
        proof {
            old(self).lemma_wf();
            self.lemma_wf();
            if len < self@.len() {
                assert(self@[len as int] == old(self)@[len as int]);
            }
            lemma_no_gap_len_unique(self@, self.storage_floor() as int, len as int);
        }
    }

    /// Fills all positions of the vec with the values created by successively calling
    /// `value(i)` for each position `i`.
    pub fn fill_with<F>(&mut self, mut value: F) where F: FnMut(usize) -> T
        requires
            old(self).wf(),
            old(self).prefix_written(),
            forall|i: usize| i < old(self).spec_len() ==> call_requires(value, (i,)),
        ensures
            final(self).wf(),
            final(self).prefix_written(),
            final(self).storage_floor() == old(self).storage_floor(),
            final(self)@.len() == old(self)@.len(),
            final(self).spec_len() == old(self).spec_len(),
            forall|k: int|
                0 <= k < old(self).spec_len() ==> #[trigger] final(self)@[k] is Some && call_ensures(
                    value,
                    (k as usize,),
                    final(self)@[k].unwrap(),
                ),
            forall|k: int|
                old(self).spec_len() <= k < old(self)@.len() ==> #[trigger] final(self)@[k] == old(
                    self,
                )@[k],
            final(self).spec_capacity() == old(self).spec_capacity(),
            final(self).num_fragments() == old(self).num_fragments(),
            final(self).growth_strategy() == old(self).growth_strategy(),
    {
        let len = self.len();
        let mut k: usize = 0;
        let ghost f0 = value;
        proof {
            self.lemma_wf();
        }
        while k < len
            invariant
                self.wf(),
                k <= len,
                value == f0,
                len == old(self).spec_len(),
                self@.len() == old(self)@.len(),
                self.storage_floor() == old(self).storage_floor(),
                self.spec_capacity() == old(self).spec_capacity(),
                self.num_fragments() == old(self).num_fragments(),
                self.growth_strategy() == old(self).growth_strategy(),
                forall|i: usize| i < len ==> call_requires(value, (i,)),
                forall|m: int|
                    0 <= m < k ==> #[trigger] self@[m] is Some && call_ensures(
                        value,
                        (m as usize,),
                        self@[m].unwrap(),
                    ),
                forall|m: int| k <= m < self@.len() ==> #[trigger] self@[m] == old(self)@[m],
                forall|m: int| 0 <= m < len ==> #[trigger] old(self)@[m] is Some,
                len <= self@.len(),
            decreases len - k,
        {
            let v = value(k);
            self.overwrite(k, v);
            k = k + 1;
        }
        proof {
            old(self).lemma_wf();
            self.lemma_wf();
            if len < self@.len() {
                assert(self@[len as int] == old(self)@[len as int]);
            }
            lemma_no_gap_len_unique(self@, self.storage_floor() as int, len as int);
        }
    }

    /// Returns the index of the first element equal to `value`; `None` if there is none.
    pub fn index_of(&self, value: &T) -> (index: Option<usize>) where T: PartialEq
        requires
            self.wf(),
            self.prefix_written(),
        ensures
            eq_is_specified::<T>() ==> match index {
                Some(i) => i < self.spec_len() && value_eq_spec(self.values()[i as int], *value)
                    && forall|j: int| 0 <= j < i ==> !value_eq_spec(#[trigger] self.values()[j], *value),
                None => forall|j: int|
                    0 <= j < self.spec_len() ==> !value_eq_spec(#[trigger] self.values()[j], *value),
            },
    {
        let len = self.len();
        let mut i: usize = 0;
        proof {
            self.lemma_wf();
        }
        while i < len
            invariant
                self.wf(),
                len == self.spec_len(),
                i <= len,
                len <= self@.len(),
                self.prefix_written(),
                eq_is_specified::<T>() ==> forall|j: int|
                    0 <= j < i ==> !value_eq_spec(#[trigger] self.values()[j], *value),
            decreases len - i,
        {
            proof {
                assert(self.slots@[i as int]@ == self@[i as int]);
            }
            if self.slots[i].eq_value(value) {
                return Some(i);
            }
            i = i + 1;
        }
        None
    }

    /// Returns whether an element equal to `value` exists.
    pub fn contains(&self, value: &T) -> (found: bool) where T: PartialEq
        requires
            self.wf(),
            self.prefix_written(),
        ensures
            eq_is_specified::<T>() ==> (found <==> exists|j: int|
                0 <= j < self.spec_len() && value_eq_spec(#[trigger] self.values()[j], *value)),
    {
        let index = self.index_of(value);
        proof {
            if eq_is_specified::<T>() {
                if let Some(i) = index {
                    assert(value_eq_spec(self.values()[i as int], *value));
                }
            }
        }
        index.is_some()
    }

    /// Creates a vec holding `values`, in order, with the doubling growth strategy.
    pub fn from_iter(values: Vec<T>) -> (vec: Self)
        requires
            values@.len() <= default_growth().spec_maximum_capacity(),
        ensures
            vec.wf(),
            vec.all_written(),
            vec.values() == values@,
            vec@ == written_positions(values@),
            vec.growth_strategy() == default_growth(),
    {
        let mut vec = Self::new();
        vec.extend(values);
        proof {
            assert(vec@ =~= written_positions(values@));
            assert(Seq::<T>::empty() + values@ =~= values@);
        }
        vec
    }

    /// Returns the elements of the vec, in order, as a slice that iterates them.
    pub fn iter(&self) -> (elements: &[ConcurrentElement<T>])
        requires
            self.wf(),
        ensures
            elements@.len() == self.spec_len(),
            forall|k: int| 0 <= k < self.spec_len() ==> (#[trigger] elements@[k])@ == self@[k],
            self.prefix_written() ==> forall|k: int|
                0 <= k < self.spec_len() ==> (#[trigger] elements@[k])@ == Some(self.values()[k]),
    {
        let len = self.len();
        proof {
            self.lemma_wf();
        }
        let elements = vstd::slice::slice_subrange(self.slots.as_slice(), 0, len);
        proof {
            assert forall|k: int| 0 <= k < self.spec_len() implies (#[trigger] elements@[k])@ == self@[k] by {
                assert(elements@[k] == self.slots@[k]);
                assert(self.slots@[k]@ == self@[k]);
            }
        }
        elements
    }

    /// Raises the maximum capacity that the vec can reach to at least `maximum_capacity`
    /// and returns the new maximum capacity. A split storage only records that it may
    /// hold more fragments; a fixed storage allocates the additional positions.
    pub fn reserve_maximum_capacity(&mut self, maximum_capacity: usize) -> (new_maximum_capacity: usize)
        requires
            old(self).wf(),
            old(self).growth_strategy().can_reserve(maximum_capacity as nat),
        ensures
            final(self).wf(),
            final(self)@ == old(self)@,
            final(self).spec_len() == old(self).spec_len(),
            old(self).growth_strategy().is_reserved_for(final(self).growth_strategy(), maximum_capacity as nat),
            new_maximum_capacity == final(self).spec_maximum_capacity(),
            new_maximum_capacity >= maximum_capacity,
            new_maximum_capacity >= old(self).spec_maximum_capacity(),
            final(self).num_fragments() == old(self).num_fragments(),
            !(old(self).growth_strategy() is Fixed) ==> final(self).spec_capacity() == old(self).spec_capacity(),
            old(self).growth_strategy() is Fixed ==> final(self).spec_capacity() == if old(self).spec_capacity() >= maximum_capacity {
                old(self).spec_capacity()
            } else {
                maximum_capacity as nat
            },
    {
        proof {
            self.lemma_wf();
        }
        let reserved = self.growth.reserved_for(maximum_capacity);
        if let GrowthStrategy::Fixed { capacity } = self.growth {
            assert(self.slots@.len() == capacity) by {
                assert(self.growth.cumulative_capacity(1) == self.growth.fragment_capacity(0)) by {
                    assert(self.growth.cumulative_capacity(0) == 0);
                }
            }
            if capacity < maximum_capacity {
                Self::append_empty(&mut self.slots, maximum_capacity - capacity);
                self.fragments.set(0, maximum_capacity);
            }
            self.growth = reserved;
            proof {
                assert(reserved.cumulative_capacity(1) == reserved.fragment_capacity(0)) by {
                    assert(reserved.cumulative_capacity(0) == 0);
                }
                assert(self.fragments@ =~= reserved.fragment_capacities(1));
                assert(self@ =~= old(self)@);
            }
        } else {
            self.growth = reserved;
            proof {
                lemma_same_fragments(old(self).growth, reserved.max_fragments(), self.fragments@.len() as nat);
                assert(self@ =~= old(self)@);
            }
        }
        reserved.maximum_capacity()
    }

    /// Returns the current allocated capacity of the collection.
    pub fn capacity(&self) -> (capacity: usize)
        requires
            self.wf(),
        ensures
            capacity == self.spec_capacity(),
    {
        self.slots.len()
    }

    /// Returns the growth strategy of the storage.
    pub fn growth(&self) -> (growth: GrowthStrategy)
        ensures
            growth == self.growth_strategy(),
    {
        self.growth
    }

    /// Returns the maximum capacity that the collection can reach.
    pub fn maximum_capacity(&self) -> (capacity: usize)
        requires
            self.wf(),
        ensures
            capacity == self.spec_maximum_capacity(),
    {
        self.growth.maximum_capacity()
    }

    /// Number of positions handed out to writers, written or not, bounded by the capacity.
    pub fn reserved_len(&self) -> (len: usize)
        requires
            self.wf(),
        ensures
            len == self@.len(),
    {
        let len = self.state.len();
        let cap = self.slots.len();
        if len <= cap {
            len
        } else {
            cap
        }
    }

    /// The end of the run of written positions that starts at `from`: the first position
    /// at or after `from` that holds no value, or the number of positions handed out.
    fn scan_written(&self, from: usize) -> (end: usize)
        requires
            self.state.reserved() <= self.slots@.len(),
            from <= self.state.reserved(),
        ensures
            end == no_gap_len(self@, from as int),
    {
        let until = self.state.len();
        let mut num_written: usize = 0;
        let mut found_gap = false;
        while !found_gap && from + num_written < until
            invariant
                until == self@.len(),
                until <= self.slots@.len(),
                from + num_written <= until,
                forall|j: int| from <= j < from + num_written ==> #[trigger] self@[j] is Some,
                found_gap ==> from + num_written < until && self@[from + num_written] is None,
            decreases until - from - num_written, if found_gap { 0nat } else { 1nat },
        {
            if self.slots[from + num_written].is_some() {
                num_written = num_written + 1;
            } else {
                found_gap = true;
            }
        }
        proof {
            lemma_no_gap_len_unique(self@, from as int, from + num_written);
        }
        from + num_written
    }

    /// Returns the number of elements which are pushed to the vec, excluding the
    /// elements which received their positions and are still being written (the positions
    /// of a storage that the vec was built over all count). The length recorded in the
    /// counters, from which the count starts, is kept equal to it by every write, so the
    /// count ends where it starts and the recorded length is the returned one.
    pub fn len(&self) -> (len: usize)
        requires
            self.wf(),
        ensures
            len == self.spec_len(),
            len == self.recorded_len(),
    {
        proof {
            self.lemma_wf();
        }
        let recorded = self.state.written_len();
        let len = self.scan_written(recorded);
        proof {
            lemma_no_gap_len_skip(self@, self.floor as int, recorded as int);
        }
        len
    }

    /// Returns whether or not the vec is empty.
    pub fn is_empty(&self) -> (empty: bool)
        requires
            self.wf(),
        ensures
            empty == (self.spec_len() == 0),
    {
        self.len() == 0
    }
}

} // verus!
