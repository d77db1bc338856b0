//! Block-wise digital audio filtering: a signal held as fixed-size
//! sample blocks, and a family of stateful low-pass filter kernels
//! (integrator, single-pole IIR, direct-form-1 biquad, comb) that
//! preserve continuity across block boundaries. Samples are carried as
//! IEEE-754 binary32 bit patterns; the arithmetic on them goes through
//! contracts over named soft-float operations.

use vstd::prelude::*;

pub mod errors;
pub mod filters;
pub mod fp32;
pub mod material;
pub mod utils;

verus! {

/// Number of samples in one full block of a signal.
pub const BLOCK_SIZE: usize = 64;

} // verus!
