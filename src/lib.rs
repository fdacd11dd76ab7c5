//! A succinct rank/select index over a fixed bit array.
//!
//! The index answers `rank` (how many set or clear bits precede a position),
//! `select` (where the k-th set or clear bit lies) and `access` (the bit at a
//! position) using a three-tier summary that adds about 3% to the bits it
//! indexes.

pub mod bits;
mod intrinsics;
pub mod kd;
pub mod succinct;
pub mod util;
