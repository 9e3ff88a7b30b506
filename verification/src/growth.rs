//! Growth strategies of the pinned storage behind a concurrent vector.
//!
//! The storage is a sequence of fragments that are allocated one after the
//! other and never moved. A strategy decides the capacity of each new fragment
//! and how many fragments the storage may ever hold; together they bound the
//! maximum capacity that the vector can reach.
use vstd::prelude::*;
use orx_split_vec::{Doubling, Growth, Linear, Recursive};

verus! {

/// Largest number of fragments that the doubling strategy can hold on this target,
/// which is also the exclusive bound of the exponent of the linear strategy:
/// 32 on a 64-bit target and 29 on a 32-bit one.
pub open spec fn fragments_limit() -> nat {
    if usize::BITS == 64 {
        32
    } else {
        29
    }
}

/// The strategy of a vector created by `ConcurrentVec::new`: doubling, with as many
/// fragments as the target allows.
pub open spec fn default_growth() -> GrowthStrategy {
    GrowthStrategy::Doubling { fragments_capacity: fragments_limit() as usize }
}

/// Largest number of fragments that the doubling strategy can hold on this target.
pub fn doubling_fragments_limit() -> (n: usize)
    ensures
        n == fragments_limit(),
{
    if usize::BITS == 64 {
        32
    } else {
        29
    }
}

/// `2^e`.
pub open spec fn two_pow(e: nat) -> nat
    decreases e,
{
    if e == 0 {
        1
    } else {
        2 * two_pow((e - 1) as nat)
    }
}

/// Capacity of the `k`-th fragment of the doubling strategy: 4, 8, 16, ...
pub open spec fn doubling_fragment(k: nat) -> nat
    decreases k,
{
    if k == 0 {
        4
    } else {
        2 * doubling_fragment((k - 1) as nat)
    }
}

/// How the pinned storage of a concurrent vector grows.
#[derive(Clone, Copy, PartialEq, Eq, Debug, Structural)]
pub enum GrowthStrategy {
    /// Each fragment doubles the capacity of the previous one, starting from 4.
    Doubling { fragments_capacity: usize },
    /// The fragments of the doubling strategy, allocated by the recursive strategy of the
    /// split vector.
    Recursive { fragments_capacity: usize },
    /// Every fragment has the capacity `2^constant_fragment_capacity_exponent`.
    Linear { constant_fragment_capacity_exponent: usize, fragments_capacity: usize },
    /// A single fragment of the given capacity; the storage never grows.
    Fixed { capacity: usize },
}

impl GrowthStrategy {
    /// Parameters that the strategy can be built with on this target.
    pub open spec fn wf(self) -> bool {
        match self {
            GrowthStrategy::Doubling { fragments_capacity } => 1 <= fragments_capacity
                <= fragments_limit(),
            GrowthStrategy::Recursive { fragments_capacity } => 1 <= fragments_capacity
                <= fragments_limit(),
            GrowthStrategy::Linear { constant_fragment_capacity_exponent, fragments_capacity } => {
                &&& 1 <= constant_fragment_capacity_exponent < fragments_limit()
                &&& 1 <= fragments_capacity
                &&& fragments_capacity * two_pow(constant_fragment_capacity_exponent as nat)
                    <= usize::MAX
            },
            GrowthStrategy::Fixed { .. } => true,
        }
    }

    /// Capacity of the `k`-th fragment.
    pub open spec fn fragment_capacity(self, k: nat) -> nat {
        match self {
            GrowthStrategy::Doubling { .. } => doubling_fragment(k),
            GrowthStrategy::Recursive { .. } => doubling_fragment(k),
            GrowthStrategy::Linear { constant_fragment_capacity_exponent, .. } => two_pow(
                constant_fragment_capacity_exponent as nat,
            ),
            GrowthStrategy::Fixed { capacity } => capacity as nat,
        }
    }

    /// Total capacity of the first `k` fragments.
    pub open spec fn cumulative_capacity(self, k: nat) -> nat
        decreases k,
    {
        if k == 0 {
            0
        } else {
            self.cumulative_capacity((k - 1) as nat) + self.fragment_capacity((k - 1) as nat)
        }
    }

    /// Number of fragments that the storage may ever hold.
    pub open spec fn max_fragments(self) -> nat {
        match self {
            GrowthStrategy::Doubling { fragments_capacity } => fragments_capacity as nat,
            GrowthStrategy::Recursive { fragments_capacity } => fragments_capacity as nat,
            GrowthStrategy::Linear { fragments_capacity, .. } => fragments_capacity as nat,
            GrowthStrategy::Fixed { .. } => 1,
        }
    }

    /// Capacity of the storage once every fragment it may hold is allocated.
    pub open spec fn spec_maximum_capacity(self) -> nat {
        self.cumulative_capacity(self.max_fragments())
    }

    /// The same strategy, allowed to hold `n` fragments.
    pub open spec fn spec_with_max_fragments(self, n: nat) -> GrowthStrategy {
        match self {
            GrowthStrategy::Doubling { .. } => GrowthStrategy::Doubling { fragments_capacity: n as usize },
            GrowthStrategy::Recursive { .. } => GrowthStrategy::Recursive { fragments_capacity: n as usize },
            GrowthStrategy::Linear { constant_fragment_capacity_exponent, .. } => GrowthStrategy::Linear {
                constant_fragment_capacity_exponent,
                fragments_capacity: n as usize,
            },
            GrowthStrategy::Fixed { capacity } => GrowthStrategy::Fixed { capacity: if capacity >= n {
                capacity
            } else {
                n as usize
            } },
        }
    }

    /// Whether the maximum capacity can be raised to `maximum_capacity`: the doubling
    /// (and recursive) strategy holds at most `fragments_limit()` fragments, and the linear one needs
    /// room for one more fragment above the requested capacity.
    pub open spec fn can_reserve(self, maximum_capacity: nat) -> bool {
        match self {
            GrowthStrategy::Doubling { .. } => maximum_capacity <= self.spec_with_max_fragments(
                fragments_limit(),
            ).spec_maximum_capacity(),
            GrowthStrategy::Recursive { .. } => maximum_capacity <= self.spec_with_max_fragments(
                fragments_limit(),
            ).spec_maximum_capacity(),
            GrowthStrategy::Linear { constant_fragment_capacity_exponent, .. } => maximum_capacity
                + two_pow(constant_fragment_capacity_exponent as nat) <= usize::MAX,
            GrowthStrategy::Fixed { .. } => true,
        }
    }

    /// `reserved` is this strategy with its maximum capacity raised to at least
    /// `maximum_capacity`: fragments are added one by one until it fits and no more;
    /// a fixed capacity is raised to the requested one.
    pub open spec fn is_reserved_for(self, reserved: GrowthStrategy, maximum_capacity: nat) -> bool {
        match self {
            GrowthStrategy::Fixed { capacity } => reserved == self.spec_with_max_fragments(maximum_capacity),
            _ => {
                &&& reserved == self.spec_with_max_fragments(reserved.max_fragments())
                &&& reserved.max_fragments() >= self.max_fragments()
                &&& reserved.spec_maximum_capacity() >= maximum_capacity
                &&& reserved.max_fragments() > self.max_fragments() ==> self.cumulative_capacity(
                    (reserved.max_fragments() - 1) as nat,
                ) < maximum_capacity
            },
        }
    }

    /// The capacities of the first `n` fragments, in order.
    pub open spec fn fragment_capacities(self, n: nat) -> Seq<usize> {
        Seq::new(n, |k: int| self.fragment_capacity(k as nat) as usize)
    }
}

/// A doubling fragment is four times a power of two.
pub proof fn lemma_doubling_fragment(k: nat)
    ensures
        doubling_fragment(k) == 4 * two_pow(k),
    decreases k,
{
    if k > 0 {
        lemma_doubling_fragment((k - 1) as nat);
    }
}

/// The first `k` doubling fragments hold four less than the next one.
pub proof fn lemma_doubling_cumulative(g: GrowthStrategy, k: nat)
    requires
        g is Doubling || g is Recursive,
    ensures
        g.cumulative_capacity(k) + 4 == doubling_fragment(k),
    decreases k,
{
    if k > 0 {
        lemma_doubling_cumulative(g, (k - 1) as nat);
    }
}

/// The maximum capacity of the doubling strategy with `n` fragments is `4 * (2^n - 1)`.
pub proof fn lemma_doubling_maximum_capacity(fragments_capacity: usize)
    ensures
        (GrowthStrategy::Doubling { fragments_capacity }).spec_maximum_capacity() == 4 * two_pow(
            fragments_capacity as nat,
        ) - 4,
{
    let g = GrowthStrategy::Doubling { fragments_capacity };
    lemma_doubling_cumulative(g, fragments_capacity as nat);
    lemma_doubling_fragment(fragments_capacity as nat);
}

/// The maximum capacity of a vector created by `ConcurrentVec::new`: 17_179_869_180 on
/// a 64-bit target and 2_147_483_644 on a 32-bit one.
pub proof fn lemma_default_maximum_capacity()
    ensures
        default_growth().spec_maximum_capacity() == if usize::BITS == 64 {
            17_179_869_180nat
        } else {
            2_147_483_644nat
        },
{
    lemma_doubling_maximum_capacity(fragments_limit() as usize);
    assert(two_pow(32) == 0x1_0000_0000 && two_pow(29) == 0x2000_0000) by {
        reveal_with_fuel(two_pow, 33);
    }
}

/// The first `k` linear fragments hold `k` times the constant fragment capacity.
pub proof fn lemma_linear_cumulative(g: GrowthStrategy, k: nat)
    requires
        g is Linear,
    ensures
        g.cumulative_capacity(k) == k * g.fragment_capacity(0),
    decreases k,
{
    if k > 0 {
        lemma_linear_cumulative(g, (k - 1) as nat);
        assert(g.fragment_capacity((k - 1) as nat) == g.fragment_capacity(0));
        assert((k - 1) * g.fragment_capacity(0) + g.fragment_capacity(0) == k * g.fragment_capacity(
            0,
        )) by (nonlinear_arith);
    } else {
        assert(0 * g.fragment_capacity(0) == 0) by (nonlinear_arith);
    }
}

/// The cumulative capacity never decreases as fragments are added.
pub proof fn lemma_cumulative_monotone(g: GrowthStrategy, i: nat, j: nat)
    requires
        i <= j,
    ensures
        g.cumulative_capacity(i) <= g.cumulative_capacity(j),
    decreases j - i,
{
    if i < j {
        lemma_cumulative_monotone(g, i, (j - 1) as nat);
    }
}

/// The maximum capacity of a well-formed strategy fits in a `usize`.
pub proof fn lemma_maximum_capacity_fits(g: GrowthStrategy)
    requires
        g.wf(),
    ensures
        g.spec_maximum_capacity() <= usize::MAX,
{
    match g {
        GrowthStrategy::Doubling { fragments_capacity } => {
            lemma_doubling_cumulative(g, fragments_capacity as nat);
            lemma_doubling_fragment(fragments_capacity as nat);
            lemma_two_pow_monotone(fragments_capacity as nat, fragments_limit());
            assert(two_pow(32) == 0x1_0000_0000 && two_pow(29) == 0x2000_0000) by {
                reveal_with_fuel(two_pow, 33);
            }
        },
        GrowthStrategy::Recursive { fragments_capacity } => {
            lemma_doubling_cumulative(g, fragments_capacity as nat);
            lemma_doubling_fragment(fragments_capacity as nat);
            lemma_two_pow_monotone(fragments_capacity as nat, fragments_limit());
            assert(two_pow(32) == 0x1_0000_0000 && two_pow(29) == 0x2000_0000) by {
                reveal_with_fuel(two_pow, 33);
            }
        },
        GrowthStrategy::Linear { fragments_capacity, .. } => {
            lemma_linear_cumulative(g, fragments_capacity as nat);
        },
        GrowthStrategy::Fixed { .. } => {
            assert(g.cumulative_capacity(0) == 0);
        },
    }
}

/// The capacities of the fragments do not depend on how many fragments a split
/// strategy may hold.
pub proof fn lemma_same_fragments(g: GrowthStrategy, n: nat, k: nat)
    requires
        !(g is Fixed),
    ensures
        g.spec_with_max_fragments(n).fragment_capacity(k) == g.fragment_capacity(k),
        g.spec_with_max_fragments(n).cumulative_capacity(k) == g.cumulative_capacity(k),
        g.spec_with_max_fragments(n).fragment_capacities(k) == g.fragment_capacities(k),
    decreases k,
{
    if k > 0 {
        lemma_same_fragments(g, n, (k - 1) as nat);
    }
    assert(g.spec_with_max_fragments(n).fragment_capacities(k) =~= g.fragment_capacities(k));
}

/// Every fragment of a split strategy holds at least one element.
pub proof fn lemma_split_fragment_positive(g: GrowthStrategy, k: nat)
    requires
        !(g is Fixed),
    ensures
        g.fragment_capacity(k) >= 1,
{
    lemma_two_pow_monotone(0, k);
    lemma_doubling_fragment(k);
    match g {
        GrowthStrategy::Linear { constant_fragment_capacity_exponent, .. } => {
            lemma_two_pow_monotone(0, constant_fragment_capacity_exponent as nat);
        },
        _ => {},
    }
}

/// `two_pow` is monotone.
pub proof fn lemma_two_pow_monotone(i: nat, j: nat)
    requires
        i <= j,
    ensures
        two_pow(i) <= two_pow(j),
    decreases j - i,
{
    if i < j {
        lemma_two_pow_monotone(i, (j - 1) as nat);
    }
}

/// Each fragment of a well-formed strategy fits in a `usize`, and so does every
/// cumulative capacity up to the maximum number of fragments.
pub proof fn lemma_fragment_fits(g: GrowthStrategy, k: nat)
    requires
        g.wf(),
        k < g.max_fragments(),
    ensures
        g.cumulative_capacity(k) + g.fragment_capacity(k) <= g.spec_maximum_capacity(),
        g.spec_maximum_capacity() <= usize::MAX,
{
    lemma_maximum_capacity_fits(g);
    lemma_cumulative_monotone(g, k + 1, g.max_fragments());
}

/// Capacity of the fragment that the doubling strategy of `orx_split_vec` allocates
/// after fragments with the given capacities.
///
/// Calls `Growth::new_fragment_capacity_from` of `orx_split_vec::Doubling`, whose source
/// returns twice the capacity of the last fragment, or 4 when there is none.
#[verifier::external_body]
fn doubling_new_fragment_capacity(fragment_capacities: &Vec<usize>) -> (capacity: usize)
    requires
        fragment_capacities.len() > 0 ==> 2 * fragment_capacities@.last() <= usize::MAX,
    ensures
        fragment_capacities.len() == 0 ==> capacity == 4,
        fragment_capacities.len() > 0 ==> capacity == 2 * fragment_capacities@.last(),
{
    Doubling.new_fragment_capacity_from(fragment_capacities.iter().copied())
}

/// Capacity of every fragment of the linear strategy of `orx_split_vec` with the given exponent.
///
/// Calls `Linear::new` and then `Growth::new_fragment_capacity_from` of
/// `orx_split_vec::Linear`; the source asserts `0 < exponent < 32` on a 64-bit target (29 on a 32-bit one) and
/// returns `2^exponent` whatever fragments came before.
#[verifier::external_body]
fn linear_fragment_capacity(constant_fragment_capacity_exponent: usize) -> (capacity: usize)
    requires
        1 <= constant_fragment_capacity_exponent < fragments_limit(),
    ensures
        capacity == two_pow(constant_fragment_capacity_exponent as nat),
{
    Linear::new(constant_fragment_capacity_exponent).new_fragment_capacity_from(
        core::iter::empty(),
    )
}

/// The capacity that the doubling strategy of `orx_split_vec` reaches with
/// `fragments_capacity` fragments.
///
/// Calls `Growth::maximum_concurrent_capacity` of `orx_split_vec::Doubling` with no
/// fragments allocated yet; the source returns the cumulative capacity of the first
/// `fragments_capacity` fragments, `4 * (2^fragments_capacity - 1)`, read from a table
/// with 33 entries on a 64-bit target (30 on a 32-bit one).
#[verifier::external_body]
fn doubling_maximum_capacity(fragments_capacity: usize) -> (capacity: usize)
    requires
        fragments_capacity <= fragments_limit(),
    ensures
        capacity == 4 * two_pow(fragments_capacity as nat) - 4,
{
    Doubling.maximum_concurrent_capacity::<u8>(&[], fragments_capacity)
}

/// Capacity of the fragment that the recursive strategy of `orx_split_vec` allocates
/// after fragments with the given capacities.
///
/// Calls `Growth::new_fragment_capacity_from` of `orx_split_vec::Recursive`, whose source
/// hands the capacities to the doubling strategy: twice the capacity of the last
/// fragment, or 4 when there is none.
#[verifier::external_body]
fn recursive_new_fragment_capacity(fragment_capacities: &Vec<usize>) -> (capacity: usize)
    requires
        fragment_capacities.len() > 0 ==> 2 * fragment_capacities@.last() <= usize::MAX,
    ensures
        fragment_capacities.len() == 0 ==> capacity == 4,
        fragment_capacities.len() > 0 ==> capacity == 2 * fragment_capacities@.last(),
{
    Recursive.new_fragment_capacity_from(fragment_capacities.iter().copied())
}

/// The capacity that the recursive strategy of `orx_split_vec` reaches with
/// `fragments_capacity` fragments.
///
/// Calls `Growth::maximum_concurrent_capacity` of `orx_split_vec::Recursive` with no
/// fragments allocated yet; the source starts from a last capacity of 2 and, for each
/// fragment, doubles it and adds it to the total: `4 * (2^fragments_capacity - 1)`. The
/// last capacity reaches `2^(fragments_capacity + 1)`, which must fit in a `usize`.
#[verifier::external_body]
fn recursive_maximum_capacity(fragments_capacity: usize) -> (capacity: usize)
    requires
        two_pow(fragments_capacity as nat + 1) <= usize::MAX,
        4 * two_pow(fragments_capacity as nat) <= usize::MAX + 4,
    ensures
        capacity == 4 * two_pow(fragments_capacity as nat) - 4,
{
    Recursive.maximum_concurrent_capacity::<u8>(&[], fragments_capacity)
}

/// The capacity that the linear strategy of `orx_split_vec` with the given exponent
/// reaches with `fragments_capacity` fragments.
///
/// Calls `Linear::new` and then `Growth::maximum_concurrent_capacity` of
/// `orx_split_vec::Linear` with no fragments allocated yet; the source returns
/// `fragments_capacity * 2^exponent`.
#[verifier::external_body]
fn linear_maximum_capacity(constant_fragment_capacity_exponent: usize, fragments_capacity: usize) -> (capacity: usize)
    requires
        1 <= constant_fragment_capacity_exponent < fragments_limit(),
        fragments_capacity * two_pow(constant_fragment_capacity_exponent as nat) <= usize::MAX,
    ensures
        capacity == fragments_capacity * two_pow(constant_fragment_capacity_exponent as nat),
{
    Linear::new(constant_fragment_capacity_exponent).maximum_concurrent_capacity::<u8>(
        &[],
        fragments_capacity,
    )
}

impl GrowthStrategy {
    /// Capacity of the fragment that follows the given ones.
    pub fn next_fragment_capacity(&self, fragment_capacities: &Vec<usize>) -> (capacity: usize)
        requires
            self.wf(),
            fragment_capacities.len() < self.max_fragments(),
            fragment_capacities@ == self.fragment_capacities(fragment_capacities.len() as nat),
        ensures
            capacity == self.fragment_capacity(fragment_capacities.len() as nat),
    {
        let n = fragment_capacities.len();
        proof {
            lemma_fragment_fits(*self, n as nat);
        }
        match self {
            GrowthStrategy::Doubling { .. } => {
                proof {
                    if n > 0 {
                        let k = (n - 1) as nat;
                        lemma_fragment_fits(*self, k);
                        assert(fragment_capacities@.last() == doubling_fragment(k));
                        assert(doubling_fragment(n as nat) == 2 * doubling_fragment(k));
                        lemma_cumulative_monotone(*self, n as nat, self.max_fragments());
                    }
                }
                doubling_new_fragment_capacity(fragment_capacities)
            },
            GrowthStrategy::Recursive { .. } => {
                proof {
                    if n > 0 {
                        let k = (n - 1) as nat;
                        lemma_fragment_fits(*self, k);
                        assert(fragment_capacities@.last() == doubling_fragment(k));
                        assert(doubling_fragment(n as nat) == 2 * doubling_fragment(k));
                        lemma_cumulative_monotone(*self, n as nat, self.max_fragments());
                    }
                }
                recursive_new_fragment_capacity(fragment_capacities)
            },
            GrowthStrategy::Linear { constant_fragment_capacity_exponent, .. } => {
                linear_fragment_capacity(*constant_fragment_capacity_exponent)
            },
            GrowthStrategy::Fixed { capacity } => *capacity,
        }
    }

    /// The same strategy, allowed to hold `n` fragments (a fixed capacity is raised to `n`).
    pub fn with_max_fragments(&self, n: usize) -> (g: GrowthStrategy)
        ensures
            g == self.spec_with_max_fragments(n as nat),
    {
        match self {
            GrowthStrategy::Doubling { .. } => GrowthStrategy::Doubling { fragments_capacity: n },
            GrowthStrategy::Recursive { .. } => GrowthStrategy::Recursive { fragments_capacity: n },
            GrowthStrategy::Linear { constant_fragment_capacity_exponent, .. } => GrowthStrategy::Linear {
                constant_fragment_capacity_exponent: *constant_fragment_capacity_exponent,
                fragments_capacity: n,
            },
            GrowthStrategy::Fixed { capacity } => GrowthStrategy::Fixed {
                capacity: if *capacity >= n {
                    *capacity
                } else {
                    n
                },
            },
        }
    }

    /// This strategy with its maximum capacity raised to at least `maximum_capacity`.
    pub fn reserved_for(&self, maximum_capacity: usize) -> (reserved: GrowthStrategy)
        requires
            self.wf(),
            self.can_reserve(maximum_capacity as nat),
        ensures
            reserved.wf(),
            self.is_reserved_for(reserved, maximum_capacity as nat),
            reserved.spec_maximum_capacity() >= self.spec_maximum_capacity(),
    {
        if let GrowthStrategy::Fixed { .. } = self {
            let g = self.with_max_fragments(maximum_capacity);
            proof {
                assert(g.cumulative_capacity(1) == g.fragment_capacity(0)) by {
                    assert(g.cumulative_capacity(0) == 0);
                }
                assert(self.cumulative_capacity(1) == self.fragment_capacity(0)) by {
                    assert(self.cumulative_capacity(0) == 0);
                }
            }
            return g;
        }
        let n0 = self.maximum_fragments();
        let mut caps: Vec<usize> = Vec::new();
        let mut total: usize = 0;
        while caps.len() < n0
            invariant
                self.wf(),
                !(self is Fixed),
                n0 == self.max_fragments(),
                caps.len() <= n0,
                caps@ == self.fragment_capacities(caps.len() as nat),
                total == self.cumulative_capacity(caps.len() as nat),
            decreases n0 - caps.len(),
        {
            let next = self.next_fragment_capacity(&caps);
            proof {
                lemma_fragment_fits(*self, caps.len() as nat);
            }
            total = total + next;
            caps.push(next);
            assert(caps@ =~= self.fragment_capacities(caps.len() as nat));
        }
        proof {
            lemma_maximum_capacity_fits(*self);
            match self {
                GrowthStrategy::Linear { .. } => {
                    lemma_linear_cumulative(*self, n0 as nat);
                    lemma_split_fragment_positive(*self, 0);
                    assert(n0 <= n0 * self.fragment_capacity(0)) by (nonlinear_arith)
                        requires
                            self.fragment_capacity(0) >= 1,
                    ;
                },
                GrowthStrategy::Doubling { .. } | GrowthStrategy::Recursive { .. } => {
                    let big = self.spec_with_max_fragments(fragments_limit());
                    lemma_same_fragments(*self, fragments_limit(), fragments_limit());
                    if total < maximum_capacity {
                        if n0 >= fragments_limit() {
                            lemma_cumulative_monotone(*self, fragments_limit(), n0 as nat);
                        }
                    }
                },
                _ => {},
            }
        }
        while total < maximum_capacity
            invariant
                self.wf(),
                !(self is Fixed),
                self.can_reserve(maximum_capacity as nat),
                n0 == self.max_fragments(),
                caps.len() >= n0,
                caps@ == self.fragment_capacities(caps.len() as nat),
                total == self.cumulative_capacity(caps.len() as nat),
                caps.len() > n0 ==> self.cumulative_capacity((caps.len() - 1) as nat) < maximum_capacity,
                self is Doubling || self is Recursive ==> caps.len() <= fragments_limit(),
                self is Doubling || self is Recursive ==> self.cumulative_capacity(fragments_limit())
                    >= maximum_capacity,
                self is Linear ==> caps.len() <= total,
            decreases if total < maximum_capacity { maximum_capacity - total } else { 0 },
        {
            let n = caps.len();
            proof {
                lemma_same_fragments(*self, n as nat + 1, n as nat);
                lemma_same_fragments(*self, n as nat + 1, n as nat + 1);
                if self is Doubling || self is Recursive {
                    if n >= fragments_limit() {
                        lemma_cumulative_monotone(*self, fragments_limit(), n as nat);
                    }
                    assert(n < fragments_limit());
                }
            }
            let wider = self.with_max_fragments(n + 1);
            proof {
                match self {
                    GrowthStrategy::Linear { constant_fragment_capacity_exponent, .. } => {
                        lemma_linear_cumulative(*self, n as nat);
                        lemma_linear_cumulative(wider, n as nat + 1);
                        let c = two_pow(constant_fragment_capacity_exponent as nat);
                        assert(wider.fragment_capacity(0) == c);
                        assert((n + 1) * c == n * c + c) by (nonlinear_arith);
                    },
                    _ => {
                        lemma_maximum_capacity_fits(self.spec_with_max_fragments(fragments_limit()));
                        lemma_same_fragments(*self, fragments_limit(), fragments_limit());
                        lemma_cumulative_monotone(*self, n as nat + 1, fragments_limit());
                    },
                }
            }
            let next = wider.next_fragment_capacity(&caps);
            proof {
                lemma_fragment_fits(wider, n as nat);
            }
            total = total + next;
            caps.push(next);
            proof {
                assert(caps@ =~= self.fragment_capacities(caps.len() as nat));
                lemma_split_fragment_positive(*self, n as nat);
            }
        }
        let reserved = self.with_max_fragments(caps.len());
        proof {
            lemma_same_fragments(*self, caps.len() as nat, caps.len() as nat);
            match self {
                GrowthStrategy::Linear { constant_fragment_capacity_exponent, .. } => {
                    lemma_linear_cumulative(*self, caps.len() as nat);
                },
                _ => {
                    lemma_same_fragments(*self, fragments_limit(), fragments_limit());
                },
            }
            lemma_cumulative_monotone(*self, n0 as nat, caps.len() as nat);
        }
        reserved
    }

    /// Maximum number of fragments that the storage may hold.
    pub fn maximum_fragments(&self) -> (n: usize)
        ensures
            n == self.max_fragments(),
    {
        match self {
            GrowthStrategy::Doubling { fragments_capacity } => *fragments_capacity,
            GrowthStrategy::Recursive { fragments_capacity } => *fragments_capacity,
            GrowthStrategy::Linear { fragments_capacity, .. } => *fragments_capacity,
            GrowthStrategy::Fixed { .. } => 1,
        }
    }

    /// Capacity of the storage once every fragment it may hold is allocated.
    pub fn maximum_capacity(&self) -> (capacity: usize)
        requires
            self.wf(),
        ensures
            capacity == self.spec_maximum_capacity(),
    {
        match self {
            GrowthStrategy::Doubling { fragments_capacity } => {
                proof {
                    lemma_doubling_maximum_capacity(*fragments_capacity);
                }
                doubling_maximum_capacity(*fragments_capacity)
            },
            GrowthStrategy::Recursive { fragments_capacity } => {
                proof {
                    lemma_doubling_cumulative(*self, *fragments_capacity as nat);
                    lemma_doubling_fragment(*fragments_capacity as nat);
                    lemma_maximum_capacity_fits(*self);
                    lemma_two_pow_monotone(*fragments_capacity as nat, fragments_limit());
                    assert(two_pow(33) == 0x2_0000_0000 && two_pow(30) == 0x4000_0000) by {
                        reveal_with_fuel(two_pow, 34);
                    }
                    assert(two_pow(*fragments_capacity as nat + 1) == 2 * two_pow(*fragments_capacity as nat));
                }
                recursive_maximum_capacity(*fragments_capacity)
            },
            GrowthStrategy::Linear { constant_fragment_capacity_exponent, fragments_capacity } => {
                proof {
                    lemma_linear_cumulative(*self, *fragments_capacity as nat);
                    assert(*fragments_capacity * two_pow(*constant_fragment_capacity_exponent as nat)
                        == two_pow(*constant_fragment_capacity_exponent as nat) * *fragments_capacity)
                        by (nonlinear_arith);
                }
                linear_maximum_capacity(*constant_fragment_capacity_exponent, *fragments_capacity)
            },
            GrowthStrategy::Fixed { capacity } => {
                proof {
                    assert(self.cumulative_capacity(0) == 0);
                }
                *capacity
            },
        }
    }
}

} // verus!
