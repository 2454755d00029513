//! Integer arithmetic the analyzer rests on: sums, squares, and an exact
//! integer square root.

use vstd::prelude::*;

verus! {

/// The sum of the values.
pub open spec fn sum(s: Seq<u64>) -> nat
    decreases s.len(),
{
    if s.len() == 0 {
        0
    } else {
        sum(s.drop_last()) + s.last() as nat
    }
}

/// The sum of the squared values.
pub open spec fn sum_sq(s: Seq<u64>) -> nat
    decreases s.len(),
{
    if s.len() == 0 {
        0
    } else {
        sum_sq(s.drop_last()) + (s.last() * s.last()) as nat
    }
}

/// Every term of the sum of squared deviations from `x` is a square, so the
/// whole is nonnegative: `sum_sq(s) + len*x^2 >= 2*x*sum(s)`.
pub proof fn lemma_sum_sq_deviation(s: Seq<u64>, x: int)
    ensures
        sum_sq(s) + s.len() * x * x >= 2 * x * sum(s),
    decreases s.len(),
{
    if s.len() == 0 {
        assert(s.len() * x * x == 0) by (nonlinear_arith)
            requires
                s.len() == 0,
        {
        }
        assert(2 * x * sum(s) == 0) by (nonlinear_arith)
            requires
                sum(s) == 0,
        {
        }
    } else {
        let t = s.drop_last();
        let n = t.len() as int;
        let d = s.last() as int;
        lemma_sum_sq_deviation(t, x);
        assert(sum(s) == sum(t) + d);
        assert(sum_sq(s) == sum_sq(t) + d * d);
        assert(sum_sq(s) + s.len() * x * x >= 2 * x * sum(s)) by (nonlinear_arith)
            requires
                sum_sq(t) + n * x * x >= 2 * x * sum(t),
                sum(s) == sum(t) + d,
                sum_sq(s) == sum_sq(t) + d * d,
                s.len() == n + 1,
        {
        }
    }
}

/// The Cauchy–Schwarz bound that keeps the variance numerator nonnegative:
/// `len * sum_sq(s) >= sum(s)^2`.
pub proof fn lemma_cauchy_schwarz(s: Seq<u64>)
    ensures
        s.len() * sum_sq(s) >= sum(s) * sum(s),
    decreases s.len(),
{
    if s.len() == 0 {
    } else {
        let t = s.drop_last();
        let n = t.len() as int;
        let d = s.last() as int;
        let s1 = sum(t) as int;
        let s2 = sum_sq(t) as int;
        lemma_cauchy_schwarz(t);
        lemma_sum_sq_deviation(t, d);
        assert(sum(s) == sum(t) + d);
        assert(sum_sq(s) == sum_sq(t) + d * d);
        assert(s.len() * sum_sq(s) >= sum(s) * sum(s)) by (nonlinear_arith)
            requires
                n >= 0,
                n * s2 >= s1 * s1,
                s2 + n * d * d >= 2 * d * s1,
                sum(s) == s1 + d,
                sum_sq(s) == s2 + d * d,
                s.len() == n + 1,
                s1 == sum(t),
                s2 == sum_sq(t),
        {
        }
    }
}

/// Whether `r` is the integer square root of `v`.
pub open spec fn is_sqrt(r: nat, v: nat) -> bool {
    r * r <= v < (r + 1) * (r + 1)
}

/// The integer square root: the unique `r` with `r^2 <= v < (r+1)^2`.
pub open spec fn spec_isqrt(v: nat) -> nat {
    choose|r: nat| is_sqrt(r, v)
}

/// Every value has an integer square root.
pub proof fn lemma_sqrt_exists(v: nat)
    ensures
        is_sqrt(spec_isqrt(v), v),
    decreases v,
{
    if v == 0 {
        assert(is_sqrt(0, 0)) by (nonlinear_arith);
        assert(exists|r: nat| is_sqrt(r, v));
    } else {
        lemma_sqrt_exists((v - 1) as nat);
        let r = spec_isqrt((v - 1) as nat);
        if (r + 1) * (r + 1) <= v {
            assert(v == (r + 1) * (r + 1));
            assert(is_sqrt(r + 1, v)) by (nonlinear_arith)
                requires
                    v == (r + 1) * (r + 1),
            {
            }
            assert(exists|r2: nat| is_sqrt(r2, v));
        } else {
            assert(is_sqrt(r, v));
            assert(exists|r2: nat| is_sqrt(r2, v));
        }
    }
}

/// Integer square roots are unique.
pub proof fn lemma_sqrt_unique(r1: nat, r2: nat, v: nat)
    requires
        is_sqrt(r1, v),
        is_sqrt(r2, v),
    ensures
        r1 == r2,
{
    if r1 < r2 {
        assert((r1 + 1) * (r1 + 1) <= r2 * r2) by (nonlinear_arith)
            requires
                r1 + 1 <= r2,
        {
        }
    }
    if r2 < r1 {
        assert((r2 + 1) * (r2 + 1) <= r1 * r1) by (nonlinear_arith)
            requires
                r2 + 1 <= r1,
        {
        }
    }
}

/// A root demonstrates the value of [`spec_isqrt`].
pub proof fn lemma_sqrt_is_spec(r: nat, v: nat)
    requires
        is_sqrt(r, v),
    ensures
        spec_isqrt(v) == r,
{
    assert(is_sqrt(spec_isqrt(v), v));
    lemma_sqrt_unique(spec_isqrt(v), r, v);
}

/// Smaller values have no larger integer square root.
pub proof fn lemma_sqrt_monotone(r1: nat, v1: nat, r2: nat, v2: nat)
    requires
        is_sqrt(r1, v1),
        is_sqrt(r2, v2),
        v1 <= v2,
    ensures
        r1 <= r2,
{
    if r2 < r1 {
        assert((r2 + 1) * (r2 + 1) <= r1 * r1) by (nonlinear_arith)
            requires
                r2 + 1 <= r1,
        {
        }
    }
}

/// The integer square root, by binary search on the root.
pub fn isqrt_u128(v: u128) -> (r: u128)
    ensures
        is_sqrt(r as nat, v as nat),
        r as nat == spec_isqrt(v as nat),
{
    let mut lo: u128 = 0;
    let mut hi: u128 = 0xFFFF_FFFF_FFFF_FFFF;
    if v < hi {
        hi = v;
    }
    // Invariant: lo^2 <= v and v < (hi+1)^2.
    proof {
        assert((v as int) < ((hi as int) + 1) * ((hi as int) + 1)) by (nonlinear_arith)
            requires
                hi as int == if v < 0xFFFF_FFFF_FFFF_FFFFu128 {
                    v as int
                } else {
                    0xFFFF_FFFF_FFFF_FFFFu128 as int
                },
                0 <= v <= 0xFFFF_FFFF_FFFF_FFFF_FFFF_FFFF_FFFF_FFFFu128,
        {
        }
    }
    while lo < hi
        invariant
            lo <= hi <= 0xFFFF_FFFF_FFFF_FFFF,
            (lo * lo) as nat <= v as nat,
            (v as int) < ((hi as int) + 1) * ((hi as int) + 1),
        decreases hi - lo,
    {
        let mid = lo + (hi - lo + 1) / 2;
        proof {
            assert(mid * mid <= 0xFFFF_FFFF_FFFF_FFFF * 0xFFFF_FFFF_FFFF_FFFF) by (nonlinear_arith)
                requires
                    0 <= mid <= 0xFFFF_FFFF_FFFF_FFFFu128,
            {
            }
        }
        if mid * mid <= v {
            lo = mid;
        } else {
            hi = mid - 1;
        }
    }
    proof {
        lemma_sqrt_is_spec(lo as nat, v as nat);
    }
    lo
}

} // verus!
