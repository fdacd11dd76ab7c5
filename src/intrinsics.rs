//! Machine-word bit operations, taken from `bitintr` and from std.
use vstd::arithmetic::power2::pow2;
use vstd::prelude::*;

use crate::bits::{deposit, popcount};

verus! {

/// Relies on `bitintr::x86::bmi2::bzhi`: clears the bits of `x` at positions
/// `n` and above, that is, keeps `x` modulo `2^n`. Its portable form computes
/// `x & ((1 << n) - 1)`, which overflows the shift for `n >= 64`.
#[verifier::external_body]
pub(crate) fn bzhi64(x: u64, n: u32) -> (r: u64)
    requires
        n < 64,
    ensures
        r as nat == x as nat % pow2(n as nat),
{
    bitintr::x86::bmi2::bzhi(x, n as u64)
}

/// Relies on `bitintr::x86::bmi::bextr`: the `len` bits of `x` that start at
/// bit `start`, moved down to bit 0. Its portable form computes
/// `(x >> start) & ((1 << len) - 1)`, which overflows the shifts at 64.
#[verifier::external_body]
pub(crate) fn bextr64(x: u64, start: u32, len: u32) -> (r: u64)
    requires
        start < 64,
        len < 64,
    ensures
        r as nat == (x as nat / pow2(start as nat)) % pow2(len as nat),
{
    bitintr::x86::bmi::bextr(x, start as u64, len as u64)
}

/// Relies on `bitintr::x86::bmi2::pdep`: scatters the low bits of `x`, in
/// order, to the positions of the set bits of `mask`; other bits are zero.
/// Its portable form doubles a probe bit once per set bit of the mask, which
/// overflows when all 64 are set.
#[verifier::external_body]
pub(crate) fn pdep64(x: u64, mask: u64) -> (r: u64)
    requires
        mask != u64::MAX,
    ensures
        r as nat == deposit(x as nat, mask as nat),
{
    bitintr::x86::bmi2::pdep(x, mask)
}

/// Relies on `u64::count_ones`: the number of ones in the binary
/// representation of the word.
pub assume_specification[ u64::count_ones ](w: u64) -> (r: u32)
    ensures
        r as nat == popcount(w as nat),
;

} // verus!
