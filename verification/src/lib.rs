//! Verified core of a chromatic tuner's signal path.
//!
//! `ring_buffer` keeps the most recent block of an audio stream; the other
//! modules hold the index logic of the pitch search.

use vstd::prelude::*;

pub mod extrema;
pub mod fft_order;
pub mod ring_buffer;
pub mod yin_search;

verus! {

/// Number of samples in one analysis block (a power of two).
pub const BLOCK_SIZE: usize = 4096;

} // verus!
