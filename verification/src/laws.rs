//! Properties that relate several operations of the concurrent vector.
use vstd::prelude::*;
use core::ops::Range;
use crate::slice::{range_begin, range_end};
use crate::split::{chunk_len, num_chunks};
use crate::elem::ConcurrentElement;
use crate::vec::{ConcurrentVec, empty_positions, lemma_no_gap_len, lemma_write_keeps_no_gap_len, no_gap_len, written_positions};

verus! {

/// Slicing a slice is slicing the vector: the slice `r2` of the slice `r1` of a vector
/// whose values are `values` holds the values from `b1 + b2` up to `b1 + e2`, where
/// `b1 .. e1` are the limits of `r1` on the vector and `b2 .. e2` those of `r2` on the
/// first slice.
pub proof fn lemma_slice_of_slice<T>(values: Seq<T>, r1: Range<usize>, r2: Range<usize>)
    ensures
        ({
            let b1 = range_begin(r1, values.len());
            let e1 = range_end(r1, values.len());
            let b2 = range_begin(r2, (e1 - b1) as nat);
            let e2 = range_end(r2, (e1 - b1) as nat);
            &&& b1 <= e1 <= values.len()
            &&& b2 <= e2 <= e1 - b1
            &&& values.subrange(b1 as int, e1 as int).subrange(b2 as int, e2 as int)
                == values.subrange((b1 + b2) as int, (b1 + e2) as int)
        }),
{
    let b1 = range_begin(r1, values.len());
    let e1 = range_end(r1, values.len());
    let b2 = range_begin(r2, (e1 - b1) as nat);
    let e2 = range_end(r2, (e1 - b1) as nat);
    assert(values.subrange(b1 as int, e1 as int).subrange(b2 as int, e2 as int) =~= values.subrange(
        (b1 + b2) as int,
        (b1 + e2) as int,
    ));
}

/// Splitting at `mid` loses and repeats nothing: the two slices of `split_at`
/// concatenate back to the values of the vector.
pub proof fn lemma_split_at_concat<T>(values: Seq<T>, mid: int)
    requires
        0 <= mid <= values.len(),
    ensures
        values.subrange(0, mid) + values.subrange(mid, values.len() as int) == values,
{
    assert(values.subrange(0, mid) + values.subrange(mid, values.len() as int) =~= values);
}

/// The chunks of `chunks(chunk_size)` cover the `len` values exactly and in order:
/// each chunk starts where the previous one ends, every chunk but the last holds
/// `chunk_size` values, no chunk is empty, and the last one ends at `len`.
pub proof fn lemma_chunks_partition(len: nat, chunk_size: nat)
    requires
        chunk_size > 0,
    ensures
        forall|k: nat|
            k + 1 < num_chunks(len, chunk_size) ==> #[trigger] chunk_len(len, chunk_size, k)
                == chunk_size,
        forall|k: nat|
            k < num_chunks(len, chunk_size) ==> 0 < #[trigger] chunk_len(len, chunk_size, k)
                <= chunk_size && k * chunk_size + chunk_len(len, chunk_size, k) <= len,
        num_chunks(len, chunk_size) > 0 ==> ({
            let last = (num_chunks(len, chunk_size) - 1) as nat;
            last * chunk_size + chunk_len(len, chunk_size, last) == len
        }),
        num_chunks(len, chunk_size) == 0 <==> len == 0,
{
    let n = num_chunks(len, chunk_size);
    let q = len / chunk_size;
    let r = len % chunk_size;
    assert(len == q * chunk_size + r && 0 <= r < chunk_size) by (nonlinear_arith)
        requires
            q == len / chunk_size,
            r == len % chunk_size,
            chunk_size > 0,
    ;
    let m: int = if r > 0 { q + 1int } else { q as int };
    assert(len + chunk_size - 1 == m * chunk_size + (if r > 0 { r - 1int } else { chunk_size - 1int })) by (nonlinear_arith)
        requires
            len == q * chunk_size + r,
            m == if r > 0 { q + 1int } else { q as int },
            0 <= r < chunk_size,
    ;
    assert((len + chunk_size - 1) / chunk_size as int == m) by (nonlinear_arith)
        requires
            len + chunk_size - 1 == m * chunk_size + (if r > 0 { r - 1int } else { chunk_size - 1int }),
            0 <= r < chunk_size,
            chunk_size > 0,
    ;
    assert(n == m);
    assert forall|k: nat| k < n implies 0 < #[trigger] chunk_len(len, chunk_size, k) <= chunk_size
        && k * chunk_size + chunk_len(len, chunk_size, k) <= len && (k + 1 < n ==> chunk_len(
        len,
        chunk_size,
        k,
    ) == chunk_size) by {
        assert((k + 1) * chunk_size == k * chunk_size + chunk_size) by (nonlinear_arith);
        if k < q {
            assert((k + 1) * chunk_size <= q * chunk_size) by (nonlinear_arith)
                requires
                    k < q,
                    chunk_size > 0,
            ;
        } else {
            assert(k == q && r > 0);
            assert(k * chunk_size + r == len);
        }
    }
    if n > 0 {
        let last = (n - 1) as nat;
        assert((last + 1) * chunk_size == last * chunk_size + chunk_size) by (nonlinear_arith);
        if r > 0 {
            assert(last == q);
        } else {
            assert(last + 1 == q);
        }
    }
    if len == 0 {
        assert(q == 0) by (nonlinear_arith)
            requires
                len == q * chunk_size + r,
                len == 0,
                chunk_size > 0,
                r >= 0,
        ;
    }
    if n == 0 {
        assert(q == 0 && r == 0);
        assert(len == 0) by (nonlinear_arith)
            requires
                len == q * chunk_size + r,
                q == 0,
                r == 0,
        ;
    }
}

/// Swapping the same two positions twice leaves the positions as they were.
pub proof fn lemma_swap_twice<T>(s: Seq<T>, i: int, j: int)
    requires
        0 <= i < s.len(),
        0 <= j < s.len(),
    ensures
        ({
            let once = s.update(i, s[j]).update(j, s[i]);
            once.update(i, once[j]).update(j, once[i]) == s
        }),
{
    let once = s.update(i, s[j]).update(j, s[i]);
    assert(once.update(i, once[j]).update(j, once[i]) =~= s);
}

/// Pushing is taking one position and writing to it: the positions after
/// `reserve_positions(1)` and `write_reserved(idx, value)` are those after `push(value)`.
pub proof fn lemma_push_is_reserve_then_write<T>(s: Seq<Option<T>>, value: T)
    ensures
        (s + empty_positions::<T>(1)).update(s.len() as int, Some(value)) == s.push(Some(value)),
{
    assert((s + empty_positions::<T>(1)).update(s.len() as int, Some(value)) =~= s.push(Some(value)));
}

/// The positions after pushing `values` one by one.
pub open spec fn push_each<T>(s: Seq<Option<T>>, values: Seq<T>) -> Seq<Option<T>>
    decreases values.len(),
{
    if values.len() == 0 {
        s
    } else {
        push_each(s, values.drop_last()).push(Some(values.last()))
    }
}

/// Extending writes the values consecutively, in the order they come: the positions
/// after `extend(values)` are those after pushing the values one by one.
pub proof fn lemma_extend_is_push_each<T>(s: Seq<Option<T>>, values: Seq<T>)
    ensures
        s + written_positions(values) == push_each(s, values),
    decreases values.len(),
{
    if values.len() > 0 {
        lemma_extend_is_push_each(s, values.drop_last());
        assert(s + written_positions(values) =~= (s + written_positions(values.drop_last())).push(
            Some(values.last()),
        ));
    } else {
        assert(s + written_positions(values) =~= s);
    }
}

/// Positions are handed out once: two successive reservations of `n1` and `n2`
/// positions receive adjacent, disjoint ranges, and the positions taken before stay
/// as they were.
pub proof fn lemma_reservations_adjacent<T>(
    v0: ConcurrentVec<T>,
    v1: ConcurrentVec<T>,
    v2: ConcurrentVec<T>,
    b1: nat,
    n1: nat,
    b2: nat,
    n2: nat,
)
    requires
        b1 == v0@.len(),
        v1@ == v0@ + empty_positions::<T>(n1),
        b2 == v1@.len(),
        v2@ == v1@ + empty_positions::<T>(n2),
    ensures
        b2 == b1 + n1,
        v2@.len() == b2 + n2,
        v2@.subrange(0, b1 as int) == v0@,
        forall|j: int| b1 <= j < b2 + n2 ==> #[trigger] v2@[j] is None,
{
    assert(v2@.subrange(0, b1 as int) =~= v0@);
    assert forall|j: int| b1 <= j < b2 + n2 implies #[trigger] v2@[j] is None by {
        if j < b2 {
            assert(v2@[j] == v1@[j]);
        }
    }
}

/// Writers that hold different positions do not interfere: writing `a` to position
/// `i` and `b` to position `j` gives the same positions in either order.
pub proof fn lemma_writes_commute<T>(s: Seq<Option<T>>, i: int, a: T, j: int, b: T)
    requires
        0 <= i < s.len(),
        0 <= j < s.len(),
        i != j,
    ensures
        s.update(i, Some(a)).update(j, Some(b)) == s.update(j, Some(b)).update(i, Some(a)),
{
    assert(s.update(i, Some(a)).update(j, Some(b)) =~= s.update(j, Some(b)).update(i, Some(a)));
}

/// Writing never shortens the vector: after a writer writes to a position that was
/// handed out and not written, the gap-free prefix from any floor is at least as long
/// as it was, and the positions below its former end stay as they were.
pub proof fn lemma_write_keeps_length<T>(s: Seq<Option<T>>, from: int, i: int, value: T)
    requires
        0 <= from <= s.len(),
        0 <= i < s.len(),
        s[i] is None,
    ensures
        no_gap_len(s.update(i, Some(value)), from) >= no_gap_len(s, from),
        forall|j: int| from <= j < no_gap_len(s, from) ==> #[trigger] s.update(i, Some(value))[j] == s[j],
{
    lemma_write_keeps_no_gap_len(s, from, i, value);
    lemma_no_gap_len(s, from);
}

/// Successive lengths never decrease: along any sequence of vectors in which each one
/// comes from the previous one by a reservation, a write or an overwrite (each of which
/// ensures that the length does not decrease), a later length is never smaller.
pub proof fn lemma_len_monotone<T>(states: Seq<ConcurrentVec<T>>)
    requires
        forall|k: int| 0 < k < states.len() ==> #[trigger] states[k].spec_len() >= states[k - 1].spec_len(),
    ensures
        forall|i: int, j: int| 0 <= i <= j < states.len() ==> #[trigger] states[i].spec_len() <= #[trigger] states[j].spec_len(),
    decreases states.len(),
{
    if states.len() > 1 {
        let prefix = states.drop_last();
        assert forall|k: int| 0 < k < prefix.len() implies #[trigger] prefix[k].spec_len() >= prefix[k - 1].spec_len() by {
            assert(prefix[k] == states[k] && prefix[k - 1] == states[k - 1]);
        }
        lemma_len_monotone(prefix);
        let n = states.len() - 1;
        assert forall|i: int, j: int| 0 <= i <= j < states.len() implies #[trigger] states[i].spec_len() <= #[trigger] states[j].spec_len() by {
            if j < n {
                assert(prefix[i] == states[i] && prefix[j] == states[j]);
            } else if i < n {
                assert(prefix[i] == states[i] && prefix[n - 1] == states[n - 1]);
                assert(states[n].spec_len() >= states[n - 1].spec_len());
            }
        }
    }
}

/// Total length of the first `k` blocks.
pub open spec fn total_len<A>(blocks: Seq<Seq<A>>, k: int) -> int
    decreases k,
{
    if k <= 0 {
        0
    } else {
        total_len(blocks, k - 1) + blocks[k - 1].len()
    }
}

proof fn lemma_total_len_monotone<A>(blocks: Seq<Seq<A>>, i: int, j: int)
    requires
        0 <= i <= j,
    ensures
        total_len(blocks, i) <= total_len(blocks, j),
    decreases j - i,
{
    if i < j {
        lemma_total_len_monotone(blocks, i, j - 1);
    }
}

/// Appending blocks one after the other puts each block right after the previous one:
/// the `k`-th block starts where the blocks before it end, blocks do not overlap, the
/// positions before the first block stay, and each position of a block holds what the
/// block holds.
pub proof fn lemma_appends_consecutive<A>(states: Seq<Seq<A>>, blocks: Seq<Seq<A>>, begins: Seq<int>)
    requires
        states.len() == blocks.len() + 1,
        begins.len() == blocks.len(),
        forall|k: int| 0 <= k < blocks.len() ==> #[trigger] begins[k] == states[k].len() && states[k + 1] == states[k] + blocks[k],
    ensures
        forall|k: int| 0 <= k < blocks.len() ==> #[trigger] begins[k] == states[0].len() + total_len(blocks, k),
        states.last().len() == states[0].len() + total_len(blocks, blocks.len() as int),
        states.last().subrange(0, states[0].len() as int) == states[0],
        forall|k: int, t: int|
            0 <= k < blocks.len() && 0 <= t < blocks[k].len() ==> #[trigger] states.last()[begins[k] + t] == blocks[k][t],
        forall|k: int, m: int| 0 <= k < m < blocks.len() ==> #[trigger] begins[k] + blocks[k].len() <= #[trigger] begins[m],
    decreases blocks.len(),
{
    let n = blocks.len() as int;
    if n == 0 {
        assert(states.last().subrange(0, states[0].len() as int) =~= states[0]);
    } else {
        let ps = states.drop_last();
        let pb = blocks.drop_last();
        let pg = begins.drop_last();
        assert forall|k: int| 0 <= k < pb.len() implies #[trigger] pg[k] == ps[k].len() && ps[k + 1] == ps[k] + pb[k] by {
            assert(pg[k] == begins[k] && ps[k] == states[k] && ps[k + 1] == states[k + 1] && pb[k] == blocks[k]);
        }
        lemma_appends_consecutive(ps, pb, pg);
        let prev = states[n - 1];
        assert(begins[n - 1] == states[n - 1].len());
        assert(ps.last() == prev);
        assert(states.last() == prev + blocks[n - 1]);
        assert(total_len(pb, n - 1) == total_len(blocks, n - 1)) by {
            lemma_total_len_prefix(blocks, n - 1);
        }
        assert forall|k: int| 0 <= k < n implies #[trigger] begins[k] == states[0].len() + total_len(blocks, k) by {
            if k < n - 1 {
                assert(pg[k] == begins[k]);
                lemma_total_len_prefix(blocks, k);
            }
        }
        assert(states.last().subrange(0, states[0].len() as int) =~= states[0]) by {
            lemma_total_len_monotone(blocks, 0, n - 1);
            assert forall|j: int| 0 <= j < states[0].len() implies states.last()[j] == states[0][j] by {
                assert(states.last()[j] == prev[j]);
                assert(ps.last().subrange(0, states[0].len() as int)[j] == states[0][j]);
            }
        }
        assert forall|k: int, t: int| 0 <= k < n && 0 <= t < blocks[k].len() implies #[trigger] states.last()[begins[k] + t] == blocks[k][t] by {
            if k < n - 1 {
                lemma_total_len_prefix(blocks, k + 1);
                lemma_total_len_monotone(blocks, k + 1, n - 1);
                assert(pb[k] == blocks[k] && pg[k] == begins[k]);
                assert(ps.last()[pg[k] + t] == pb[k][t]);
                assert(states.last()[begins[k] + t] == prev[begins[k] + t]);
            }
        }
        assert forall|k: int, m: int| 0 <= k < m < n implies #[trigger] begins[k] + blocks[k].len() <= #[trigger] begins[m] by {
            lemma_total_len_prefix(blocks, k + 1);
            lemma_total_len_monotone(blocks, k + 1, m);
        }
    }
}

proof fn lemma_total_len_prefix<A>(blocks: Seq<Seq<A>>, k: int)
    requires
        0 <= k < blocks.len(),
    ensures
        total_len(blocks.drop_last(), k) == total_len(blocks, k),
    decreases k,
{
    if k > 0 {
        lemma_total_len_prefix(blocks, k - 1);
    }
}

/// Reservations by any number of writers receive disjoint, consecutive ranges: the `k`-th
/// reservation starts where the ones before it end, and its positions hold no value
/// until they are written.
pub proof fn lemma_reservations_consecutive<T>(states: Seq<Seq<Option<T>>>, sizes: Seq<nat>, begins: Seq<int>)
    requires
        states.len() == sizes.len() + 1,
        begins.len() == sizes.len(),
        forall|k: int| 0 <= k < sizes.len() ==> #[trigger] begins[k] == states[k].len() && states[k + 1] == states[k]
            + empty_positions::<T>(sizes[k]),
    ensures
        forall|k: int| 0 <= k < sizes.len() ==> #[trigger] begins[k] == states[0].len() + total_len(
            Seq::new(sizes.len(), |j: int| empty_positions::<T>(sizes[j])),
            k,
        ),
        states.last().subrange(0, states[0].len() as int) == states[0],
        forall|k: int, t: int| 0 <= k < sizes.len() && 0 <= t < sizes[k] ==> #[trigger] states.last()[begins[k] + t] is None,
        forall|k: int, m: int| 0 <= k < m < sizes.len() ==> #[trigger] begins[k] + sizes[k] <= #[trigger] begins[m],
{
    let blocks = Seq::new(sizes.len(), |j: int| empty_positions::<T>(sizes[j]));
    assert forall|k: int| 0 <= k < blocks.len() implies #[trigger] begins[k] == states[k].len() && states[k + 1] == states[k] + blocks[k] by {
        assert(begins[k] == states[k].len());
        assert(blocks[k] == empty_positions::<T>(sizes[k]));
    }
    lemma_appends_consecutive(states, blocks, begins);
    assert forall|k: int, t: int| 0 <= k < sizes.len() && 0 <= t < sizes[k] implies #[trigger] states.last()[begins[k] + t] is None by {
        assert(blocks[k][t] is None);
    }
    assert forall|k: int, m: int| 0 <= k < m < sizes.len() implies #[trigger] begins[k] + sizes[k] <= #[trigger] begins[m] by {
        assert(blocks[k].len() == sizes[k]);
    }
}

/// Extensions by any number of writers receive disjoint, consecutive ranges: the `k`-th
/// extension starts where the ones before it end, and position `begins[k] + t` holds the
/// `t`-th value of the `k`-th extension.
pub proof fn lemma_extends_consecutive<T>(states: Seq<Seq<Option<T>>>, values: Seq<Seq<T>>, begins: Seq<int>)
    requires
        states.len() == values.len() + 1,
        begins.len() == values.len(),
        forall|k: int| 0 <= k < values.len() ==> #[trigger] begins[k] == states[k].len() && states[k + 1] == states[k]
            + written_positions(values[k]),
    ensures
        forall|k: int| 0 <= k < values.len() ==> #[trigger] begins[k] == states[0].len() + total_len(values, k),
        states.last().len() == states[0].len() + total_len(values, values.len() as int),
        states.last().subrange(0, states[0].len() as int) == states[0],
        forall|k: int, t: int|
            0 <= k < values.len() && 0 <= t < values[k].len() ==> #[trigger] states.last()[begins[k] + t] == Some(values[k][t]),
        forall|k: int, m: int| 0 <= k < m < values.len() ==> #[trigger] begins[k] + values[k].len() <= #[trigger] begins[m],
{
    let blocks = Seq::new(values.len(), |j: int| written_positions(values[j]));
    assert forall|k: int| 0 <= k < blocks.len() implies #[trigger] begins[k] == states[k].len() && states[k + 1] == states[k] + blocks[k] by {
        assert(begins[k] == states[k].len());
        assert(blocks[k] == written_positions(values[k]));
    }
    lemma_appends_consecutive(states, blocks, begins);
    assert forall|k: int| 0 <= k <= values.len() implies #[trigger] total_len(blocks, k) == total_len(values, k) by {
        lemma_total_len_same(blocks, values, k);
    }
    assert(total_len(blocks, values.len() as int) == total_len(values, values.len() as int));
    assert forall|k: int, t: int| 0 <= k < values.len() && 0 <= t < values[k].len() implies #[trigger] states.last()[begins[k] + t] == Some(values[k][t]) by {
        assert(blocks[k][t] == Some(values[k][t]));
    }
    assert forall|k: int, m: int| 0 <= k < m < values.len() implies #[trigger] begins[k] + values[k].len() <= #[trigger] begins[m] by {
        assert(blocks[k].len() == values[k].len());
    }
}

proof fn lemma_total_len_same<A, B>(a: Seq<Seq<A>>, b: Seq<Seq<B>>, k: int)
    requires
        a.len() == b.len(),
        0 <= k <= a.len(),
        forall|j: int| 0 <= j < a.len() ==> #[trigger] a[j].len() == b[j].len(),
    ensures
        total_len(a, k) == total_len(b, k),
    decreases k,
{
    if k > 0 {
        lemma_total_len_same(a, b, k - 1);
    }
}

/// Pushes by any number of writers receive distinct, consecutive positions: the `k`-th
/// push gets the position `k` after the first one, and the positions end up holding the
/// pushed values in the order of the calls after the positions there were before.
pub proof fn lemma_pushes_consecutive<T>(states: Seq<Seq<Option<T>>>, values: Seq<T>, indices: Seq<int>)
    requires
        states.len() == values.len() + 1,
        indices.len() == values.len(),
        forall|k: int| 0 <= k < values.len() ==> #[trigger] indices[k] == states[k].len() && states[k + 1] == states[k].push(
            Some(values[k]),
        ),
    ensures
        forall|k: int| 0 <= k < values.len() ==> #[trigger] indices[k] == states[0].len() + k,
        states.last() == states[0] + written_positions(values),
    decreases values.len(),
{
    if values.len() > 0 {
        let n = values.len() as int;
        let ps = states.drop_last();
        let pv = values.drop_last();
        let pi = indices.drop_last();
        assert forall|k: int| 0 <= k < pv.len() implies #[trigger] pi[k] == ps[k].len() && ps[k + 1] == ps[k].push(Some(pv[k])) by {
            assert(pi[k] == indices[k] && ps[k] == states[k] && ps[k + 1] == states[k + 1] && pv[k] == values[k]);
        }
        lemma_pushes_consecutive(ps, pv, pi);
        assert forall|k: int| 0 <= k < n implies #[trigger] indices[k] == states[0].len() + k by {
            if k < n - 1 {
                assert(pi[k] == indices[k]);
            } else {
                assert(ps.last() == states[n - 1]);
            }
        }
        assert(ps.last() == states[n - 1]);
        assert(indices[n - 1] == states[n - 1].len());
        assert(states.last() =~= states[0] + written_positions(values));
    } else {
        assert(states.last() =~= states[0] + written_positions(values));
    }
}

/// Taking the storage out and wrapping it again gives the vector back: the vector that
/// `new_from_pinned` creates from the elements that `into_inner` returns holds the same
/// positions, written or not, and every one of them counts in its length; when every
/// position was written, the length and the values are those of the vector.
pub proof fn lemma_into_inner_round_trip<T>(
    v: ConcurrentVec<T>,
    elements: Seq<ConcurrentElement<T>>,
    w: ConcurrentVec<T>,
)
    requires
        v.wf(),
        elements.len() == v@.len(),
        forall|k: int| 0 <= k < v@.len() ==> (#[trigger] elements[k])@ == v@[k],
        w@.len() == elements.len(),
        forall|k: int| 0 <= k < elements.len() ==> #[trigger] w@[k] == elements[k]@,
        w.spec_len() == elements.len(),
    ensures
        w@ == v@,
        w.spec_len() == v@.len(),
        v.all_written() ==> w.spec_len() == v.spec_len() && w.values() == v.values(),
{
    assert(w@ =~= v@);
    if v.all_written() {
        v.lemma_all_written();
        assert(w.values() =~= v.values());
    }
}

/// Values pushed after taking a storage in come after the storage's values: taking the
/// storage out again gives the elements that were taken in, followed by the pushed values.
pub proof fn lemma_storage_then_pushes<T>(
    pinned: Seq<ConcurrentElement<T>>,
    states: Seq<Seq<Option<T>>>,
    values: Seq<T>,
    indices: Seq<int>,
    elements: Seq<ConcurrentElement<T>>,
)
    requires
        states.len() == values.len() + 1,
        indices.len() == values.len(),
        states[0].len() == pinned.len(),
        forall|k: int| 0 <= k < pinned.len() ==> #[trigger] states[0][k] == pinned[k]@,
        forall|k: int| 0 <= k < values.len() ==> #[trigger] indices[k] == states[k].len() && states[k + 1] == states[k].push(
            Some(values[k]),
        ),
        elements.len() == states.last().len(),
        forall|k: int| 0 <= k < elements.len() ==> (#[trigger] elements[k])@ == states.last()[k],
    ensures
        elements.len() == pinned.len() + values.len(),
        forall|k: int| 0 <= k < pinned.len() ==> (#[trigger] elements[k])@ == pinned[k]@,
        forall|k: int| 0 <= k < values.len() ==> (#[trigger] elements[pinned.len() + k])@ == Some(values[k]),
{
    lemma_pushes_consecutive(states, values, indices);
    assert forall|k: int| 0 <= k < pinned.len() implies (#[trigger] elements[k])@ == pinned[k]@ by {
        assert(states.last()[k] == states[0][k]);
    }
    assert forall|k: int| 0 <= k < values.len() implies (#[trigger] elements[pinned.len() + k])@ == Some(values[k]) by {
        assert(states.last()[pinned.len() + k] == written_positions(values)[k]);
    }
}

} // verus!
