//! Small arithmetic and search helpers.
use vstd::prelude::*;

verus! {

/// Quotient and remainder of `x` by `y`.
pub fn div_rem(x: usize, y: usize) -> (r: (usize, usize))
    requires
        y > 0,
    ensures
        r.0 == x / y,
        r.1 == x % y,
{
    (x / y, x % y)
}

/// The smallest index in `lo .. hi` at which `p` holds, or `hi` where it holds
/// nowhere there. `p` must be monotonic over the range: once true, true for
/// every larger index. The probe sits slightly past the midpoint, which keeps
/// repeated searches over large arrays from landing on the same cache sets;
/// the answer does not depend on it.
pub fn binary_search<P>(lo: usize, hi: usize, p: P) -> (r: usize) where P: Fn(usize) -> bool
    requires
        lo <= hi,
        forall|m: usize| lo <= m < hi ==> call_requires(p, (m,)),
        forall|m: usize, n: usize|
            lo <= m <= n < hi && call_ensures(p, (m,), true) && call_ensures(p, (n,), false)
                ==> false,
    ensures
        lo <= r <= hi,
        forall|m: usize| lo <= m < r ==> !call_ensures(p, (m,), true),
        r > lo ==> call_ensures(p, ((r - 1) as usize,), false),
        r < hi ==> call_ensures(p, (r,), true),
{
    let mut l = lo;
    let mut h = hi;
    loop
        invariant
            lo <= l <= h <= hi,
            forall|m: usize| lo <= m < hi ==> call_requires(p, (m,)),
            forall|m: usize, n: usize|
                lo <= m <= n < hi && call_ensures(p, (m,), true) && call_ensures(p, (n,), false)
                    ==> false,
            forall|m: usize| lo <= m < l ==> !call_ensures(p, (m,), true),
            l > lo ==> call_ensures(p, ((l - 1) as usize,), false),
            h < hi ==> call_ensures(p, (h,), true),
        decreases h - l,
    {
        if l >= h {
            return l;
        }
        let hml = h - l;
        proof {
            assert((hml >> 1) + (hml >> 6) < hml) by (bit_vector)
                requires
                    hml > 0,
            ;
        }
        let mid = l + (hml >> 1) + (hml >> 6);
        if p(mid) {
            h = mid;
        } else {
            l = mid + 1;
        }
    }
}

} // verus!
