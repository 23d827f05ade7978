//! Rounding-up division, for counting groups.
use vstd::prelude::*;

verus! {

/// `n / d` rounded up.
pub open spec fn ceil_div(n: int, d: int) -> int {
    (n + d - 1) / d
}

/// `c` groups of `d` are the fewest that hold `n` items.
pub proof fn lemma_ceil_div_unique(n: int, d: int, c: int)
    requires
        d > 0,
        n >= 0,
        c >= 0,
        c * d >= n,
        c == 0 || (c - 1) * d < n,
    ensures
        ceil_div(n, d) == c,
{
    if c == 0 {
        assert(n == 0);
        assert((d - 1) / d == 0) by (nonlinear_arith)
            requires
                d > 0,
        ;
    } else {
        assert((n + d - 1) / d == c) by (nonlinear_arith)
            requires
                d > 0,
                n >= 0,
                c >= 1,
                c * d >= n,
                (c - 1) * d < n,
        {
            assert(c * d <= n + d - 1);
            assert(n + d - 1 < (c + 1) * d);
        }
    }
}

/// `(c + 1) * d` is `c * d + d`.
pub proof fn lemma_mul_succ(c: int, d: int)
    ensures
        (c + 1) * d == c * d + d,
{
    assert((c + 1) * d == c * d + d) by (nonlinear_arith);
}

} // verus!
