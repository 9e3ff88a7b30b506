# orx-concurrent-vec, verified

A vector whose writers first take positions and then write to them, so that no
writer waits for another: `push` and `extend` hand out the next positions
(`reserve_positions`) and write the values there (`write_reserved`). The length
counts the written positions up to the first one that is still being written; a
vector built over a storage (`new_from_pinned`) counts every position of that
storage, written or not. Every write keeps the length recorded in the counters equal
to the length, so that `len` starts its count where the written run ends. The storage grows by whole fragments whose capacities
come from the growth strategies of `orx-split-vec` (doubling, recursive or linear), or it has
a fixed capacity; growing never changes what a position holds.

Every operation is proved with Verus against a model of the vector: the positions
handed out, each with the value written to it, if any.

The storage is a `Vec` of elements together with the list of fragment capacities,
and an element holds an `Option`. The pinned collections of `orx-split-vec`,
`orx-fixed-vec` and `orx-pinned-concurrent-col` are generic over the element type,
so their contents cannot be given a name for Verus (such a name takes no generic
parameter), whether the collection is declared as an outside type or held in a field
of a struct hidden from Verus; and the methods that read and write their positions are
`unsafe`. The
same holds of the split vector of atomic flags behind `Mask`. The logic that sits on
top of them (write permits, reservation, growth by fragments, the maximum capacity and
its reservation) is written and verified here, over the fragment capacities and
maximum capacities that `orx-split-vec` computes.

Layout:

* `src/growth.rs` – growth strategies, fragment capacities and maximum capacities.
* `src/state.rs` – the counters and the write permit that a writer receives.
* `src/elem.rs` – an element: a position and its value.
* `src/vec.rs` – the vector: growth, reservation, writing, reading, mutation.
* `src/slice.rs`, `src/split.rs` – slices, `split_at`, `split_first`, `split_last`, `chunks`.
* `src/iter_shorthands.rs` – `map`, `filter`, `fold`, `reduce`.
* `src/eq.rs` – equality of sequences of elements.
* `src/mask.rs` – availability flags over a growing storage.
* `src/laws.rs` – properties that relate several operations.
* `app/lib.rs` – serialization with serde, and a vector shared between threads behind a lock.
