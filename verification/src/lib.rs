//! A vector that hands out positions to its writers before they write, and
//! grows its pinned storage fragment by fragment.
mod elem;
mod eq;
mod growth;
mod iter_shorthands;
mod mask;
pub mod laws;
mod slice;
mod split;
mod state;
mod vec;

pub use elem::ConcurrentElement;
pub use eq::{eq_elem_iter_to_iter, eq_elem_iters};
pub use growth::{GrowthStrategy, lemma_default_maximum_capacity, lemma_doubling_maximum_capacity};
pub use mask::Mask;
pub use slice::ConcurrentSlice;
pub use state::{ConcurrentVecState, WritePermit};
pub use vec::ConcurrentVec;
