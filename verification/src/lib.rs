//! Exact-arithmetic soft clipping for audio sample blocks.
//!
//! A soft clipper compresses the amplitude of samples that lie beyond a
//! threshold (the clip level) with a smooth rational curve, leaving samples
//! inside the threshold untouched.  This crate carries out that transform in
//! exact rational arithmetic and proves the curve's defining properties:
//! identity inside the linear region, odd symmetry, compression above the
//! threshold, and continuity at the knees.

pub mod rat;
pub mod clip;
pub mod laws;
