//! Fixed-point base-2 logarithm, used by the continuous escape estimate.
//!
//! The input is a squared magnitude at scale `SCALE^2` (2^48); the result
//! is `log2` of the value it denotes, at scale `SCALE`, computed as an
//! exact integer part plus 24 fractional bits obtained by the classical
//! repeated-squaring recurrence.  Every truncation the algorithm performs
//! is part of its specification, so the result is pinned bit for bit.

use crate::fixed::SCALE;
use vstd::arithmetic::div_mod::{
    lemma_div_by_multiple, lemma_div_is_ordered, lemma_div_pos_is_pos, lemma_multiply_divide_lt,
};
use vstd::arithmetic::mul::lemma_mul_inequality;
use vstd::arithmetic::power2::{
    lemma_pow2_adds, lemma_pow2_pos, lemma_pow2_strictly_increases, lemma_pow2_unfold, lemma2_to64,
    lemma2_to64_rest, pow2,
};
use vstd::prelude::*;

verus! {

/// Floor of the base-2 logarithm of a positive integer.
pub open spec fn flog2(n: int) -> nat
    decreases n,
{
    if n < 2 {
        0
    } else {
        1 + flog2(n / 2)
    }
}

/// The 24 fractional bits of a base-2 logarithm, produced by repeated
/// squaring of a mantissa `y` in `[SCALE, 2 * SCALE)`: each squaring
/// (truncated back to scale `SCALE`) doubles the remaining exponent; a
/// mantissa that reaches `[2, 4)` yields a one bit and is halved.
pub open spec fn log2_frac(y: int, n: nat) -> int
    decreases n,
{
    if n == 0 {
        0
    } else {
        let ysq = y * y / (SCALE as int);
        if ysq >= 2 * SCALE {
            pow2((n - 1) as nat) + log2_frac(ysq / 2, (n - 1) as nat)
        } else {
            log2_frac(ysq, (n - 1) as nat)
        }
    }
}

/// Base-2 logarithm of a squared magnitude `raw` at scale `SCALE^2`,
/// returned at scale `SCALE`: the integer part is `flog2(raw) - 48`, the
/// fraction comes from the squaring recurrence on the 24-bit mantissa.
pub open spec fn log2_sq_spec(raw: int) -> int {
    let k = flog2(raw);
    let y = raw / (pow2((k - 24) as nat) as int);
    (k - 48) * (SCALE as int) + log2_frac(y, 24)
}

/// `flog2` is the unique `k` with `pow2(k) <= n < pow2(k + 1)`.
proof fn lemma_flog2_characterises(n: int, k: nat)
    requires
        pow2(k) <= n < pow2(k + 1),
    ensures
        flog2(n) == k,
    decreases k,
{
    lemma_pow2_unfold(k + 1);
    if k == 0 {
        assert(pow2(0) == 1) by {
            lemma2_to64();
        }
    } else {
        lemma_pow2_unfold(k);
        lemma_pow2_pos((k - 1) as nat);
        assert(pow2((k - 1) as nat) <= n / 2 < pow2(k));
        lemma_flog2_characterises(n / 2, (k - 1) as nat);
        assert(n >= 2);
    }
}

/// The fractional bits stay below `pow2(n)`.
proof fn lemma_log2_frac_bounds(y: int, n: nat)
    ensures
        0 <= log2_frac(y, n) < pow2(n),
    decreases n,
{
    lemma_pow2_pos(n);
    if n > 0 {
        lemma_pow2_unfold(n);
        let ysq = y * y / (SCALE as int);
        lemma_log2_frac_bounds(ysq / 2, (n - 1) as nat);
        lemma_log2_frac_bounds(ysq, (n - 1) as nat);
    }
}

/// Fixed-point base-2 logarithm of a squared magnitude (scale `SCALE^2`,
/// at least one: the logarithm is non-negative).  The result is at scale
/// `SCALE` and stays below 80 units, since the input is below 2^128.
pub fn log2_of_sq(raw: u128) -> (r: u64)
    requires
        raw >= (SCALE as int) * (SCALE as int),
    ensures
        r == log2_sq_spec(raw as int),
        r <= 80 * SCALE,
{
    let ghost rawi = raw as int;
    proof {
        lemma2_to64();
    }
    // Find the most significant bit: p == pow2(k) <= raw < 2 * pow2(k).
    let mut p: u128 = 1;
    let mut k: u32 = 0;
    while raw / 2 >= p
        invariant
            p == pow2(k as nat),
            1 <= p <= raw,
            k <= 127,
            rawi == raw as int,
        decreases raw - p,
    {
        proof {
            lemma_pow2_unfold((k + 1) as nat);
            if k >= 127 {
                lemma2_to64_rest();
                lemma_pow2_adds(63, 64);
                assert(pow2(127) == pow2(63) * pow2(64));
                assert(false);
            }
        }
        p = p * 2;
        k = k + 1;
    }
    proof {
        lemma_pow2_unfold((k + 1) as nat);
        assert(raw < 2 * p);
        assert(flog2(rawi) == k as nat) by {
            lemma_flog2_characterises(rawi, k as nat);
        }
        assert(pow2(48) == (SCALE as int) * (SCALE as int)) by {
            lemma2_to64();
            lemma_pow2_adds(24, 24);
        }
        if (k as nat) < 48 {
            if k as nat + 1 < 49 {
                lemma_pow2_strictly_increases(k as nat + 1, 49);
            }
            lemma_pow2_unfold(49);
            lemma_pow2_adds(24, 24);
            lemma2_to64_rest();
            assert(false);
        }
        lemma_pow2_adds((k - 24) as nat, 24);
        lemma_pow2_pos((k - 24) as nat);
        lemma2_to64();
    }
    // Normalise to a 24-bit mantissa y in [SCALE, 2 * SCALE).
    let d: u128 = p / (SCALE as u128);
    proof {
        assert(pow2(k as nat) == pow2((k - 24) as nat) * pow2(24));
        assert(pow2(24) == SCALE) by {
            lemma2_to64();
        }
        lemma_div_by_multiple(pow2((k - 24) as nat) as int, SCALE as int);
        assert(d == pow2((k - 24) as nat));
        assert(d * (SCALE as int) == p);
        lemma_div_is_ordered(p as int, rawi, d as int);
        lemma_div_by_multiple(SCALE as int, d as int);
        assert((SCALE as int) * (d as int) == (d as int) * (SCALE as int));
        assert(raw / d >= SCALE);
        lemma_multiply_divide_lt(rawi, d as int, 2 * SCALE);
    }
    let y0: u64 = (raw / d) as u64;
    let ghost yspec = rawi / (pow2((k - 24) as nat) as int);
    // Extract 24 fractional bits by repeated squaring.
    let mut y: u64 = y0;
    let mut frac: u64 = 0;
    let mut i: u32 = 0;
    while i < 24
        invariant
            i <= 24,
            SCALE <= y < 2 * SCALE,
            frac < pow2(i as nat),
            log2_frac(yspec, 24) == frac * (pow2((24 - i) as nat) as int) + log2_frac(
                y as int,
                (24 - i) as nat,
            ),
        decreases 24 - i,
    {
        let ghost m = (24 - i) as nat;
        let ghost old_y = y as int;
        let ghost old_frac = frac as int;
        proof {
            lemma2_to64();
            lemma_pow2_strictly_increases(i as nat, 24);
            assert((y as int) * (y as int) <= (2 * SCALE - 1) * (2 * SCALE - 1)) by {
                lemma_mul_inequality(y as int, 2 * SCALE - 1, y as int);
                lemma_mul_inequality(y as int, 2 * SCALE - 1, 2 * SCALE - 1);
            }
            lemma_div_is_ordered(
                (y as int) * (y as int),
                (2 * SCALE - 1) * (2 * SCALE - 1),
                SCALE as int,
            );
            assert((SCALE as int) * (SCALE as int) <= (y as int) * (y as int)) by {
                lemma_mul_inequality(SCALE as int, y as int, SCALE as int);
                lemma_mul_inequality(SCALE as int, y as int, y as int);
            }
            lemma_div_is_ordered(
                (SCALE as int) * (SCALE as int),
                (y as int) * (y as int),
                SCALE as int,
            );
            lemma_div_by_multiple(SCALE as int, SCALE as int);
        }
        let ysq: u64 = y * y / SCALE;
        if ysq >= 2 * SCALE {
            y = ysq / 2;
            frac = frac * 2 + 1;
        } else {
            y = ysq;
            frac = frac * 2;
        }
        i = i + 1;
        proof {
            let p1 = pow2((m - 1) as nat) as int;
            lemma_pow2_unfold(m);
            lemma_pow2_unfold(i as nat);
            lemma_pow2_pos((m - 1) as nat);
            assert((2 * old_frac + 1) * p1 == 2 * (old_frac * p1) + p1) by (nonlinear_arith);
            assert((2 * old_frac) * p1 == 2 * (old_frac * p1)) by (nonlinear_arith);
            assert(old_frac * (2 * p1) == 2 * (old_frac * p1)) by (nonlinear_arith);
            assert(log2_frac(yspec, 24) == frac * (pow2((24 - i) as nat) as int) + log2_frac(
                y as int,
                (24 - i) as nat,
            ));
        }
    }
    proof {
        assert(pow2(0) == 1) by {
            lemma2_to64();
        }
        lemma_log2_frac_bounds(yspec, 24);
        assert(pow2(24) == SCALE) by {
            lemma2_to64();
        }
        assert(frac < SCALE);
        assert(k <= 127);
        assert(i == 24);
        assert(log2_frac(y as int, 0) == 0);
        assert(log2_frac(yspec, 24) == frac * (pow2(0) as int) + log2_frac(y as int, 0));
        assert(frac * (pow2(0) as int) == frac * 1int);
        assert(log2_frac(yspec, 24) == frac);
        assert(flog2(rawi) == k as nat);
        assert(yspec == rawi / (pow2((flog2(rawi) - 24) as nat) as int));
        assert(log2_sq_spec(rawi) == (k as int - 48) * (SCALE as int) + log2_frac(yspec, 24));
    }
    (k as u64 - 48) * SCALE + frac
}

} // verus!
