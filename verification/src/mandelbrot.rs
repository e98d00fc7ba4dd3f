//! Complex fixed-point arithmetic and per-point escape-time iteration.
//!
//! The quadratic-map orbit is mirrored by the spec function [`orbit`], so
//! the escape loop carries an exact contract: the returned count is the
//! first iteration whose squared magnitude exceeds the squared bailout,
//! or the full budget when no iterate escapes.

use crate::fixed::{fmul, Fixed, MAX_MAG, SCALE};
use vstd::arithmetic::div_mod::{lemma_div_is_ordered, lemma_div_of0, lemma_div_pos_is_pos};
use vstd::arithmetic::mul::{lemma_mul_is_associative, lemma_mul_upper_bound};
use vstd::math::abs;
use vstd::prelude::*;

verus! {

/// Largest magnitude accepted for coordinates and bailout radius fed to the
/// escape iteration: 2^41, i.e. real values up to 2^17 units.  Keeps one
/// iteration step free of overflow.
pub const ITER_LIMIT: u64 = 0x200_0000_0000;

/// A complex number with fixed-point coordinates.
#[derive(Clone, Copy, Debug, PartialEq, Eq, Structural)]
pub struct Complex {
    pub re: Fixed,
    pub im: Fixed,
}

/// Real part of one quadratic-map step: `(re - im)(re + im) + c_re`.
pub open spec fn step_re(zre: int, zim: int, cre: int) -> int {
    fmul(zre - zim, zre + zim) + cre
}

/// Imaginary part of one quadratic-map step: `2 re im + c_im`.
pub open spec fn step_im(zre: int, zim: int, cim: int) -> int {
    2 * fmul(zre, zim) + cim
}

/// The orbit of the quadratic map after `n` steps, starting from `z0`.
pub open spec fn orbit(cre: int, cim: int, zre: int, zim: int, n: nat) -> (int, int)
    decreases n,
{
    if n == 0 {
        (zre, zim)
    } else {
        let p = orbit(cre, cim, zre, zim, (n - 1) as nat);
        (step_re(p.0, p.1, cre), step_im(p.0, p.1, cim))
    }
}

/// Squared magnitude of a pair of scaled coordinates (scale `SCALE^2`).
pub open spec fn sq_norm(z: (int, int)) -> int {
    z.0 * z.0 + z.1 * z.1
}

/// Truncating division of a scaled coordinate by a squared magnitude
/// (scale `SCALE^2`), rounding toward zero.
pub open spec fn fdiv_sq(a: int, d: int) -> int {
    let q = (abs(a) as int) * (SCALE as int) * (SCALE as int) / d;
    if a < 0 {
        -q
    } else {
        q
    }
}

impl Complex {
    /// The pair of scaled coordinate values.
    pub open spec fn vals(self) -> (int, int) {
        (self.re.val(), self.im.val())
    }

    /// Both coordinates well-formed.
    pub open spec fn wf(self) -> bool {
        self.re.wf() && self.im.wf()
    }

    /// Both coordinate magnitudes within the iteration limit.
    pub open spec fn bounded(self) -> bool {
        self.re.mag <= ITER_LIMIT && self.im.mag <= ITER_LIMIT
    }

    pub fn new(re: Fixed, im: Fixed) -> (r: Self)
        ensures
            r.re == re,
            r.im == im,
    {
        Complex { re, im }
    }

    /// The additive identity, 0 + 0i.
    pub fn id() -> (r: Self)
        ensures
            r.wf(),
            r.bounded(),
            r.vals() == (0int, 0int),
    {
        Complex { re: Fixed::zero(), im: Fixed::zero() }
    }

    /// One step of the quadratic map: `z^2 + c`, computed as
    /// `((re - im)(re + im) + c.re, 2 re im + c.im)`.
    pub fn mandelbrot_iter(&self, c: &Self) -> (r: Self)
        requires
            self.wf(),
            c.wf(),
            self.bounded(),
            c.bounded(),
        ensures
            r.wf(),
            r.re.val() == step_re(self.re.val(), self.im.val(), c.re.val()),
            r.im.val() == step_im(self.re.val(), self.im.val(), c.im.val()),
    {
        let diff = self.re.sub(self.im);
        let sum = self.re.add(self.im);
        proof {
            assert(diff.mag <= self.re.mag + self.im.mag);
            assert(sum.mag <= self.re.mag + self.im.mag);
            lemma_mul_upper_bound(
                diff.mag as int,
                2 * ITER_LIMIT,
                sum.mag as int,
                2 * ITER_LIMIT,
            );
            lemma_div_is_ordered(
                (diff.mag as int) * (sum.mag as int),
                (2 * ITER_LIMIT) * (2 * ITER_LIMIT),
                SCALE as int,
            );
            lemma_div_pos_is_pos((diff.mag as int) * (sum.mag as int), SCALE as int);
            lemma_mul_upper_bound(self.re.mag as int, ITER_LIMIT as int, self.im.mag as int, ITER_LIMIT as int);
            lemma_div_is_ordered(
                (self.re.mag as int) * (self.im.mag as int),
                (ITER_LIMIT as int) * (ITER_LIMIT as int),
                SCALE as int,
            );
            lemma_div_pos_is_pos((self.re.mag as int) * (self.im.mag as int), SCALE as int);
        }
        let prod = diff.mul(sum);
        let re = prod.add(c.re);
        let half_im = self.re.mul(self.im);
        proof {
            assert(abs(self.re.val()) == self.re.mag);
            assert(abs(self.im.val()) == self.im.mag);
        }
        let im = half_im.add(half_im).add(c.im);
        Complex { re, im }
    }

    /// Squared magnitude, exact, at scale `SCALE^2`.
    pub fn abs_value_sq(&self) -> (r: u128)
        requires
            self.wf(),
        ensures
            r == sq_norm(self.vals()),
    {
        proof {
            lemma_mul_upper_bound(self.re.mag as int, MAX_MAG as int, self.re.mag as int, MAX_MAG as int);
            lemma_mul_upper_bound(self.im.mag as int, MAX_MAG as int, self.im.mag as int, MAX_MAG as int);
            assert((-(self.re.mag as int)) * (-(self.re.mag as int)) == (self.re.mag as int) * (self.re.mag as int))
                by (nonlinear_arith);
            assert((-(self.im.mag as int)) * (-(self.im.mag as int)) == (self.im.mag as int) * (self.im.mag as int))
                by (nonlinear_arith);
        }
        (self.re.mag as u128) * (self.re.mag as u128) + (self.im.mag as u128) * (self.im.mag as u128)
    }

    /// Multiplicative inverse: the conjugate divided by the squared
    /// magnitude.  Defined for any non-zero point whose inverse fits the
    /// magnitude range; used by palette and debug tooling, not by the
    /// escape loop.
    pub fn inverse(self) -> (r: Self)
        requires
            self.wf(),
            sq_norm(self.vals()) > 0,
            (self.re.mag as int) * ((SCALE as int) * (SCALE as int)) / sq_norm(self.vals())
                <= MAX_MAG,
            (self.im.mag as int) * ((SCALE as int) * (SCALE as int)) / sq_norm(self.vals())
                <= MAX_MAG,
        ensures
            r.wf(),
            r.re.val() == fdiv_sq(self.re.val(), sq_norm(self.vals())),
            r.im.val() == fdiv_sq(-self.im.val(), sq_norm(self.vals())),
    {
        let norm: u128 = self.abs_value_sq();
        let sc: u128 = (SCALE as u128) * (SCALE as u128);
        let re_mag_wide: u128 = (self.re.mag as u128) * sc / norm;
        let im_mag_wide: u128 = (self.im.mag as u128) * sc / norm;
        proof {
            lemma_mul_is_associative(self.re.mag as int, SCALE as int, SCALE as int);
            lemma_mul_is_associative(self.im.mag as int, SCALE as int, SCALE as int);
            assert(abs(self.re.val()) == self.re.mag);
            assert(abs(-self.im.val()) == self.im.mag);
        }
        let re = Fixed::new(self.re.neg, re_mag_wide as u64);
        let im = Fixed::new(!self.im.neg && self.im.mag > 0, im_mag_wide as u64);
        Complex { re, im }
    }

    /// Escape-time iteration: run the quadratic map from `z_0` for at most
    /// `max_iters` steps, stopping at the first iterate whose squared
    /// magnitude exceeds the squared bailout.  A starting point whose
    /// squared magnitude already exceeds the (unsquared) bailout is
    /// returned at once with count zero.
    pub fn escape_count(&self, z_0: Self, bound: Fixed, max_iters: usize) -> (r: (usize, Self))
        requires
            self.wf(),
            z_0.wf(),
            bound.wf(),
            !bound.neg,
            self.bounded(),
            z_0.bounded(),
            bound.mag <= ITER_LIMIT,
            max_iters < usize::MAX,
        ensures
            r.1.wf(),
            r.0 <= max_iters,
            sq_norm(z_0.vals()) > bound.val() * (SCALE as int) ==> r == (0usize, z_0),
            sq_norm(z_0.vals()) <= bound.val() * (SCALE as int) ==> {
                let bsq = bound.val() * bound.val();
                &&& max_iters >= 1 ==> 1 <= r.0
                &&& max_iters == 0 ==> r == (0usize, z_0)
                &&& r.1.vals() == orbit(self.re.val(), self.im.val(), z_0.re.val(), z_0.im.val(), r.0 as nat)
                &&& forall|i: nat|
                    1 <= i < r.0 ==> sq_norm(
                        orbit(self.re.val(), self.im.val(), z_0.re.val(), z_0.im.val(), i),
                    ) <= bsq
                &&& r.0 < max_iters ==> sq_norm(
                    orbit(self.re.val(), self.im.val(), z_0.re.val(), z_0.im.val(), r.0 as nat),
                ) > bsq
            },
    {
        let z0_norm: u128 = z_0.abs_value_sq();
        if z0_norm > (bound.mag as u128) * (SCALE as u128) {
            return (0, z_0);
        }
        proof {
            lemma_mul_upper_bound(bound.mag as int, MAX_MAG as int, bound.mag as int, MAX_MAG as int);
        }
        let bound_sq: u128 = (bound.mag as u128) * (bound.mag as u128);
        proof {
            assert(bound.val() * bound.val() == (bound.mag as int) * (bound.mag as int));
        }
        let ghost cre = self.re.val();
        let ghost cim = self.im.val();
        let ghost zre = z_0.re.val();
        let ghost zim = z_0.im.val();
        let mut z_iter = z_0;
        let mut iter: usize = 1;
        while iter <= max_iters
            invariant
                1 <= iter,
                max_iters >= 1 ==> iter <= max_iters + 1,
                max_iters == 0 ==> iter == 1,
                self.wf(),
                self.bounded(),
                z_iter.wf(),
                z_iter.bounded(),
                bound.wf(),
                !bound.neg,
                bound.mag <= ITER_LIMIT,
                bound_sq == (bound.mag as int) * (bound.mag as int),
                max_iters < usize::MAX,
                z_0.wf(),
                sq_norm(z_0.vals()) <= bound.val() * (SCALE as int),
                z_iter.vals() == orbit(cre, cim, zre, zim, (iter - 1) as nat),
                cre == self.re.val() && cim == self.im.val(),
                zre == z_0.re.val() && zim == z_0.im.val(),
                iter == 1 ==> z_iter == z_0,
                forall|i: nat| 1 <= i < iter ==> sq_norm(orbit(cre, cim, zre, zim, i)) <= bound_sq as int,
            decreases max_iters + 1 - iter,
        {
            z_iter = z_iter.mandelbrot_iter(self);
            proof {
                assert(z_iter.vals() == orbit(cre, cim, zre, zim, iter as nat));
            }
            let norm: u128 = z_iter.abs_value_sq();
            if norm > bound_sq {
                return (iter, z_iter);
            }
            proof {
                lemma_sq_norm_bounds_parts(z_iter.re.val(), z_iter.im.val(), bound.mag as int);
            }
            iter = iter + 1;
        }
        (max_iters, z_iter)
    }
}

/// Each coordinate of a pair is bounded by `b` when the squared magnitude
/// is at most `b * b`.
proof fn lemma_sq_norm_bounds_parts(re: int, im: int, b: int)
    by (nonlinear_arith)
    requires
        b >= 0,
        re * re + im * im <= b * b,
    ensures
        -b <= re <= b,
        -b <= im <= b,
{
}

/// The orbit of the origin under `c = 0` never moves.
pub proof fn lemma_origin_orbit_is_zero(n: nat)
    ensures
        orbit(0, 0, 0, 0, n) == (0int, 0int),
    decreases n,
{
    if n > 0 {
        lemma_origin_orbit_is_zero((n - 1) as nat);
        lemma_div_of0(SCALE as int);
        assert(abs(0int) == 0nat);
        assert((abs(0int) as int) * (abs(0int) as int) == 0int);
        assert(fmul(0, 0) == 0);
    }
}

/// The origin never escapes: under any non-negative squared bailout and any
/// iteration budget, an escape count satisfying the escape-time contract
/// for `c = z_0 = 0` is the full budget.
pub proof fn lemma_origin_never_escapes(bsq: int, max_iters: nat, n: nat)
    requires
        bsq >= 0,
        n <= max_iters,
        n < max_iters ==> sq_norm(orbit(0, 0, 0, 0, n)) > bsq,
    ensures
        n == max_iters,
{
    lemma_origin_orbit_is_zero(n);
}

/// Starting from the origin, the first iterate is `c` itself.
pub proof fn lemma_first_iterate_is_c(cre: int, cim: int)
    ensures
        orbit(cre, cim, 0, 0, 1) == (cre, cim),
{
    lemma_div_of0(SCALE as int);
    assert(abs(0int) == 0nat);
    assert((abs(0int) as int) * (abs(0int) as int) == 0int);
    assert(fmul(0, 0) == 0);
    assert(orbit(cre, cim, 0, 0, 0) == (0int, 0int));
}

/// A point already outside the bailout disk (squared magnitude above the
/// squared bailout) escapes on the very first iteration, so its count is
/// below any budget of at least two.
pub proof fn lemma_far_point_escapes_first(cre: int, cim: int, bsq: int, max_iters: nat, n: nat)
    requires
        sq_norm((cre, cim)) > bsq,
        1 <= n <= max_iters,
        forall|i: nat| 1 <= i < n ==> sq_norm(orbit(cre, cim, 0, 0, i)) <= bsq,
    ensures
        n == 1,
{
    lemma_first_iterate_is_c(cre, cim);
    if n > 1 {
        assert(sq_norm(orbit(cre, cim, 0, 0, 1)) <= bsq);
    }
}

/// The escape count that the escape-time contract determines: the first
/// index in `[1, max]` whose orbit point lies outside the squared bailout,
/// or `max` when none does (and 0 when the budget itself is 0).
pub open spec fn escape_steps(cre: int, cim: int, zre: int, zim: int, bsq: int, max: nat) -> nat
    decreases max,
{
    if max == 0 {
        0
    } else {
        let p = escape_steps(cre, cim, zre, zim, bsq, (max - 1) as nat);
        if p < max - 1 {
            p
        } else if p >= 1 && sq_norm(orbit(cre, cim, zre, zim, p)) > bsq {
            p
        } else {
            max
        }
    }
}

/// A count satisfying the escape-time postconditions equals
/// [`escape_steps`]: the contract pins the result down.
pub proof fn lemma_escape_steps_characterised(
    cre: int,
    cim: int,
    zre: int,
    zim: int,
    bsq: int,
    max: nat,
    n: nat,
)
    requires
        n <= max,
        max >= 1 ==> n >= 1,
        forall|i: nat| 1 <= i < n ==> sq_norm(orbit(cre, cim, zre, zim, i)) <= bsq,
        n < max ==> sq_norm(orbit(cre, cim, zre, zim, n)) > bsq,
    ensures
        escape_steps(cre, cim, zre, zim, bsq, max) == n,
    decreases max,
{
    if max == 0 {
    } else {
        let pm = (max - 1) as nat;
        if n < max {
            lemma_escape_steps_characterised(cre, cim, zre, zim, bsq, pm, n);
        } else {
            lemma_escape_steps_characterised(cre, cim, zre, zim, bsq, pm, pm);
            if pm >= 1 {
                assert(sq_norm(orbit(cre, cim, zre, zim, pm)) <= bsq);
            }
        }
    }
}

} // verus!
