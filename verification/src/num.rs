//! Integer square roots, the only non-trivial scalar operation the
//! geometry needs: normalising a direction vector divides by the length
//! `sqrt(x*x + y*y)`, computed here exactly as a floor square root.

use vstd::prelude::*;

verus! {

/// `r` is the floor square root of `n`: the greatest integer whose square
/// does not exceed `n`.
pub open spec fn is_sqrt(n: int, r: int) -> bool {
    0 <= r && r * r <= n && n < (r + 1) * (r + 1)
}

/// The floor square root of `n` as a spec-level value.
pub open spec fn sqrt_of(n: int) -> int {
    choose|r: int| #[trigger] is_sqrt(n, r)
}

/// Every non-negative integer has a floor square root.
pub proof fn lemma_sqrt_exists(n: int)
    requires
        0 <= n,
    ensures
        exists|r: int| #[trigger] is_sqrt(n, r),
    decreases n,
{
    if n == 0 {
        assert(is_sqrt(0, 0));
    } else {
        lemma_sqrt_exists(n - 1);
        let r = choose|r: int| #[trigger] is_sqrt(n - 1, r);
        if (r + 1) * (r + 1) <= n {
            assert(n < (r + 2) * (r + 2)) by (nonlinear_arith)
                requires
                    0 <= r,
                    n - 1 < (r + 1) * (r + 1),
                    (r + 1) * (r + 1) <= n,
            ;
            assert(is_sqrt(n, r + 1));
        } else {
            assert(is_sqrt(n, r));
        }
    }
}

/// The floor square root is unique.
pub proof fn lemma_sqrt_unique(n: int, r1: int, r2: int)
    requires
        is_sqrt(n, r1),
        is_sqrt(n, r2),
    ensures
        r1 == r2,
{
    if r1 < r2 {
        assert((r1 + 1) * (r1 + 1) <= r2 * r2) by (nonlinear_arith)
            requires
                0 <= r1,
                0 <= r2,
                r1 < r2,
        ;
    }
    if r2 < r1 {
        assert((r2 + 1) * (r2 + 1) <= r1 * r1) by (nonlinear_arith)
            requires
                0 <= r1,
                0 <= r2,
                r2 < r1,
        ;
    }
}

/// `sqrt_of(n)` satisfies the characterisation for every non-negative `n`.
pub proof fn lemma_sqrt_of(n: int)
    requires
        0 <= n,
    ensures
        is_sqrt(n, sqrt_of(n)),
{
    lemma_sqrt_exists(n);
}

/// Floor square root, by binary search on the answer.
pub fn isqrt(n: u128) -> (r: u128)
    ensures
        is_sqrt(n as int, r as int),
        r as int == sqrt_of(n as int),
{
    let mut lo: u128 = 0;
    let mut hi: u128 = 0x10000000000000000u128;
    assert((n as int) < (hi as int) * (hi as int)) by (nonlinear_arith)
        requires
            n as int <= 0xffffffffffffffffffffffffffffffff,
            hi as int == 0x10000000000000000,
    ;
    while lo + 1 < hi
        invariant
            (lo as int) * (lo as int) <= n as int,
            (n as int) < (hi as int) * (hi as int),
            lo < hi,
            hi <= 0x10000000000000000u128,
        decreases hi - lo,
    {
        let mid = lo + (hi - lo) / 2;
        assert(mid as int * mid as int <= 0xffffffffffffffffffffffffffffffff) by (nonlinear_arith)
            requires
                mid as int <= 0xffffffffffffffff,
        ;
        if mid * mid <= n {
            lo = mid;
        } else {
            hi = mid;
        }
    }
    proof {
        lemma_sqrt_of(n as int);
        lemma_sqrt_unique(n as int, lo as int, sqrt_of(n as int));
    }
    lo
}

} // verus!
