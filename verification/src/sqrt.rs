//! Integer ceiling square root, computed by binary search.

use vstd::prelude::*;

verus! {

/// `r` is the ceiling of the square root of `n`: the smallest
/// integer whose square is at least `n`.
pub open spec fn is_ceil_sqrt(n: int, r: int) -> bool {
    &&& 0 <= r
    &&& n <= r * r
    &&& r > 0 ==> (r - 1) * (r - 1) < n
}

/// Squaring is monotone on the non-negative integers.
proof fn lemma_square_le(a: int, b: int)
    by (nonlinear_arith)
    requires
        0 <= a <= b,
    ensures
        a * a <= b * b,
{
}

/// The ceiling square root of a number is unique.
pub proof fn lemma_ceil_sqrt_unique(n: int, r1: int, r2: int)
    requires
        is_ceil_sqrt(n, r1),
        is_ceil_sqrt(n, r2),
    ensures
        r1 == r2,
{
    if r1 < r2 {
        lemma_square_le(r1, r2 - 1);
        assert(false);
    }
    if r2 < r1 {
        lemma_square_le(r2, r1 - 1);
        assert(false);
    }
}

/// A perfect square has its root as ceiling square root: any `r`
/// satisfying the ceiling property for `k * k` equals `k`.
pub proof fn lemma_ceil_sqrt_perfect_square(k: int, r: int)
    requires
        0 <= k,
        is_ceil_sqrt(k * k, r),
    ensures
        r == k,
{
    assert(k > 0 ==> (k - 1) * (k - 1) < k * k) by (nonlinear_arith);
    assert(is_ceil_sqrt(k * k, k));
    lemma_ceil_sqrt_unique(k * k, r, k);
}

/// One past a perfect square rounds up: any `r` satisfying the
/// ceiling property for `k * k + 1` with `k >= 1` equals `k + 1`.
pub proof fn lemma_ceil_sqrt_above_square(k: int, r: int)
    requires
        1 <= k,
        is_ceil_sqrt(k * k + 1, r),
    ensures
        r == k + 1,
{
    assert(k * k + 1 <= (k + 1) * (k + 1)) by (nonlinear_arith)
        requires
            1 <= k,
    ;
    assert(is_ceil_sqrt(k * k + 1, k + 1));
    lemma_ceil_sqrt_unique(k * k + 1, r, k + 1);
}

/// Returns the ceiling of the square root of `n`, by binary search
/// over the candidate roots in `[1, n]`. The square of a candidate is
/// taken in 128 bits, so no intermediate product can overflow.
pub fn usqrt(n: u64) -> (r: u64)
    ensures
        is_ceil_sqrt(n as int, r as int),
{
    if n == 0 {
        return 0;
    }
    let mut low: u64 = 1;
    let mut high: u64 = n;
    proof {
        assert(n <= n * n) by (nonlinear_arith)
            requires
                1 <= n,
        ;
    }
    while low < high
        invariant
            1 <= low <= high <= n,
            (low - 1) * (low - 1) < n,
            n <= high * high,
        decreases high - low,
    {
        let mid: u64 = low + (high - low) / 2;
        proof {
            assert((mid as int) * (mid as int) <= u128::MAX) by (nonlinear_arith)
                requires
                    0 <= mid <= u64::MAX,
            ;
        }
        let sq: u128 = (mid as u128) * (mid as u128);
        if sq == n as u128 {
            proof {
                assert((mid - 1) * (mid - 1) < mid * mid) by (nonlinear_arith)
                    requires
                        1 <= mid,
                ;
            }
            return mid;
        } else if sq > n as u128 {
            high = mid;
        } else {
            low = mid + 1;
        }
    }
    high
}

} // verus!
