//! A deterministic die-rolling experiment library: a seedable xorshift
//! pseudo-random generator, sampling of ten-sided die faces, scalar
//! reductions over samples, and frequency histograms of trial outcomes.

pub mod engine;
pub mod histogram;
pub mod rng;
