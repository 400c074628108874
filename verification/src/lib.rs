//! Chunk-parallel array algorithms over integer buffers: a two-phase
//! prefix sum, a bitonic sorting network, and a recursive odd-even
//! (Batcher) merge sort, together with the pair-exchange primitive and
//! the validators they share.  Every sorting pass is specified as the
//! application of a compare-exchange network that depends only on the
//! buffer length.

pub mod bitonic;
pub mod bitonic_sorted;
pub mod even_odd;
pub mod net;
pub mod pref_sum_mod;
pub mod sort_utils;
