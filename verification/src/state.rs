//! Counters of a concurrent vector and the decision each writer takes before writing.
use vstd::prelude::*;

verus! {

/// What a writer must do before writing to a position, or to a range of positions.
#[derive(Clone, Copy, PartialEq, Eq, Debug, Structural)]
pub enum WritePermit {
    /// The positions are within the allocated capacity: write directly.
    JustWrite,
    /// The storage must grow first, and this writer is the one that grows it.
    GrowThenWrite,
    /// Another writer is responsible for the growth: wait and ask again.
    Spin,
}

/// The write permit for position `idx` of a storage of the given capacity.
pub open spec fn spec_write_permit(idx: nat, capacity: nat) -> WritePermit {
    if idx < capacity {
        WritePermit::JustWrite
    } else if idx == capacity {
        WritePermit::GrowThenWrite
    } else {
        WritePermit::Spin
    }
}

/// The write permit for the positions `begin_idx .. begin_idx + num_items`.
pub open spec fn spec_write_permit_n_items(begin_idx: nat, num_items: nat, capacity: nat) -> WritePermit {
    if begin_idx + num_items - 1 < capacity {
        WritePermit::JustWrite
    } else if begin_idx > capacity {
        WritePermit::Spin
    } else {
        WritePermit::GrowThenWrite
    }
}

/// The counters of a concurrent vector.
///
/// * `len_reserved` is the number of positions handed out to writers; every push
///   and extend takes the next positions from it.
/// * `len_written` is the recorded length: every position below it counts in the
///   length, and the vector raises it as positions get written.
pub struct ConcurrentVecState {
    pub(crate) len_reserved: usize,
    pub(crate) len_written: usize,
}

impl ConcurrentVecState {
    /// Number of positions handed out to writers.
    pub closed spec fn reserved(&self) -> nat {
        self.len_reserved as nat
    }

    /// Position below which every position counts in the length.
    pub closed spec fn written(&self) -> nat {
        self.len_written as nat
    }

    /// The state of a vector built over a storage of `len` positions, which are all handed
    /// out and all count in the length.
    pub fn new_for_pinned_vec(len: usize) -> (state: Self)
        ensures
            state.reserved() == len,
            state.written() == len,
    {
        ConcurrentVecState { len_reserved: len, len_written: len }
    }

    /// The state of a vector built over a concurrent storage of `len` positions, which are
    /// all handed out and all count in the length.
    pub fn new_for_con_pinned_vec(len: usize) -> (state: Self)
        ensures
            state.reserved() == len,
            state.written() == len,
    {
        ConcurrentVecState { len_reserved: len, len_written: len }
    }

    /// Position below which every position counts in the length.
    pub(crate) fn written_len(&self) -> (len: usize)
        ensures
            len == self.written(),
    {
        self.len_written
    }

    /// Hands out the next `num_items` positions and returns the first of them.
    pub(crate) fn fetch_add_reserved(&mut self, num_items: usize) -> (begin_idx: usize)
        requires
            old(self).reserved() + num_items <= usize::MAX,
        ensures
            begin_idx == old(self).reserved(),
            final(self).reserved() == old(self).reserved() + num_items,
            final(self).written() == old(self).written(),
    {
        let begin_idx = self.len_reserved;
        self.len_reserved = begin_idx + num_items;
        begin_idx
    }

    /// Raises the recorded written length to `len`, as a reader that found the positions
    /// up to `len` written records it.
    pub(crate) fn raise_written(&mut self, len: usize)
        requires
            old(self).written() <= len <= old(self).reserved(),
        ensures
            final(self).written() == len,
            final(self).reserved() == old(self).reserved(),
    {
        self.len_written = len;
    }

    /// Number of positions handed out to writers.
    pub fn len(&self) -> (len: usize)
        ensures
            len == self.reserved(),
    {
        self.len_reserved
    }

    /// The length below which no position is left unwritten, as far as the
    /// counters tell: the number of positions handed out.
    pub fn try_get_no_gap_len(&self) -> (len: Option<usize>)
        ensures
            len matches Some(l) && l == self.reserved(),
    {
        Some(self.len())
    }

    /// The decision of a writer that holds position `idx` of a storage with the given capacity.
    pub fn write_permit(&self, idx: usize, capacity: usize) -> (permit: WritePermit)
        ensures
            permit == spec_write_permit(idx as nat, capacity as nat),
    {
        if idx < capacity {
            WritePermit::JustWrite
        } else if idx == capacity {
            WritePermit::GrowThenWrite
        } else {
            WritePermit::Spin
        }
    }

    /// The decision of a writer that holds the `num_items` positions starting at `begin_idx`.
    pub fn write_permit_n_items(&self, begin_idx: usize, num_items: usize, capacity: usize) -> (permit:
        WritePermit)
        requires
            1 <= begin_idx + num_items <= usize::MAX,
        ensures
            permit == spec_write_permit_n_items(begin_idx as nat, num_items as nat, capacity as nat),
    {
        let last_idx = begin_idx + num_items - 1;
        if last_idx < capacity {
            WritePermit::JustWrite
        } else if begin_idx > capacity {
            WritePermit::Spin
        } else {
            WritePermit::GrowThenWrite
        }
    }
}

} // verus!
