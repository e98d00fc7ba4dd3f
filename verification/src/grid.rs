//! Grid evaluation: drive the escape-time iteration over every pixel of a
//! width x height viewport, turn each raw result into a fixed-point hue
//! value, and normalise the grid either by plain division or by histogram
//! equalisation.
//!
//! Cells are independent, so any evaluation order gives the same grid; the
//! column function [`escape_counts_column`] is the unit of work a parallel
//! driver can hand out without changing a single bit of the result.

use crate::fixed::{Fixed, SCALE};
use crate::log2::{log2_of_sq, log2_sq_spec};
use crate::mandelbrot::{
    escape_steps, lemma_escape_steps_characterised, orbit, sq_norm, Complex, ITER_LIMIT,
};
use crate::opts::{flerp, Interval};
use vstd::arithmetic::div_mod::{lemma_div_by_multiple, lemma_div_is_ordered, lemma_div_pos_is_pos};
use vstd::arithmetic::mul::lemma_mul_inequality;
use vstd::math::max;
use vstd::prelude::*;

verus! {

/// Largest iteration budget the grid functions accept: 2^28.  Keeps every
/// scaled hue value comfortably inside a `u64`.
pub const MAX_ITERS_LIMIT: usize = 0x1000_0000;

/// Largest pixel count accepted along one axis (and for a whole frame):
/// 2^28.
pub const MAX_PIXELS: usize = 0x1000_0000;

/// The fixed-point fraction `idx / n` used to place pixel `idx` of `n`
/// along one axis: the lower-left sample of the pixel cell.
pub open spec fn pixel_frac(idx: int, n: int) -> int {
    idx * SCALE / n
}

/// The continuous escape estimate at scale `SCALE`:
/// `(count + 1) - log2(log2(|z|^2) / 2)` for escaped points, clamped into
/// `[0, max_iters]`; bounded points get `max_iters` exactly.  The two
/// logarithm arguments are clamped to at least one, so the estimate is
/// defined for every bailout radius.
pub open spec fn smooth_spec(count: int, nsq: int, max_iters: int) -> int {
    if count >= max_iters {
        max_iters * SCALE
    } else {
        let clamped = max(nsq, (SCALE as int) * (SCALE as int));
        let lg = log2_sq_spec(clamped);
        let inner = max(lg / 2, SCALE as int);
        let nu = log2_sq_spec(inner * (SCALE as int));
        if nu >= (count + 1) * SCALE {
            0
        } else {
            (count + 1) * SCALE - nu
        }
    }
}

/// The hue value of pixel `(x, y)`: map the pixel to its point of the
/// complex plane, run the escape iteration from the origin, then apply
/// the discrete or smooth post-processing.
pub open spec fn cell_value(
    xlo: int,
    xhi: int,
    ylo: int,
    yhi: int,
    bval: int,
    max_iters: nat,
    smooth: bool,
    w: int,
    h: int,
    x: int,
    y: int,
) -> int {
    let cre = flerp(xlo, xhi, pixel_frac(x, w));
    let cim = flerp(ylo, yhi, pixel_frac(y, h));
    let bsq = bval * bval;
    let n = escape_steps(cre, cim, 0, 0, bsq, max_iters);
    let z = orbit(cre, cim, 0, 0, n);
    if smooth {
        smooth_spec(n as int, sq_norm(z), max_iters as int)
    } else {
        n * SCALE
    }
}

/// Continuous escape estimate for one raw escape result.
pub fn smooth_value(count: usize, z_norm: u128, max_iters: usize) -> (r: u64)
    requires
        count <= max_iters,
        max_iters <= MAX_ITERS_LIMIT,
        z_norm >= 0,
    ensures
        r == smooth_spec(count as int, z_norm as int, max_iters as int),
        r <= max_iters * SCALE,
{
    if count >= max_iters {
        return (max_iters as u64) * SCALE;
    }
    let sq_one: u128 = 0x1_0000_0000_0000;
    proof {
        assert(sq_one == (SCALE as int) * (SCALE as int));
    }
    let clamped: u128 = if z_norm < sq_one {
        sq_one
    } else {
        z_norm
    };
    let lg: u64 = log2_of_sq(clamped);
    let half: u64 = lg / 2;
    let inner: u64 = if half < SCALE {
        SCALE
    } else {
        half
    };
    let nu: u64 = log2_of_sq((inner as u128) * (SCALE as u128));
    let base: u64 = (count as u64 + 1) * SCALE;
    proof {
        lemma_mul_inequality(count as int + 1, max_iters as int, SCALE as int);
    }
    if nu >= base {
        0
    } else {
        base - nu
    }
}

/// One column of the escape-count grid: the hue values of pixels
/// `(x, 0) .. (x, height - 1)`.
pub fn escape_counts_column(
    x_range: &Interval,
    y_range: &Interval,
    x: usize,
    width: usize,
    height: usize,
    max_iters: usize,
    bound: Fixed,
    smooth: bool,
) -> (col: Vec<u64>)
    requires
        x_range.wf() && x_range.bounded(),
        y_range.wf() && y_range.bounded(),
        bound.wf() && !bound.neg,
        bound.mag <= ITER_LIMIT,
        x < width <= MAX_PIXELS,
        height <= MAX_PIXELS,
        max_iters <= MAX_ITERS_LIMIT,
    ensures
        col@.len() == height,
        forall|y: int|
            0 <= y < height ==> col@[y] == cell_value(
                x_range.lower.val(),
                x_range.upper.val(),
                y_range.lower.val(),
                y_range.upper.val(),
                bound.val(),
                max_iters as nat,
                smooth,
                width as int,
                height as int,
                x as int,
                y,
            ),
        forall|y: int| 0 <= y < height ==> col@[y] <= max_iters * SCALE,
{
    let mut col: Vec<u64> = Vec::new();
    let frac_x: u64 = (x as u64) * SCALE / (width as u64);
    proof {
        lemma_mul_inequality(x as int, width as int, SCALE as int);
        lemma_div_is_ordered((x as int) * (SCALE as int), (width as int) * (SCALE as int), width as int);
        lemma_div_by_multiple(SCALE as int, width as int);
        assert((SCALE as int) * (width as int) == (width as int) * (SCALE as int));
        lemma_div_pos_is_pos((x as int) * (SCALE as int), width as int);
    }
    let c_re = x_range.lerp(frac_x);
    let mut y: usize = 0;
    while y < height
        invariant
            y <= height,
            col@.len() == y,
            x_range.wf() && x_range.bounded(),
            y_range.wf() && y_range.bounded(),
            bound.wf() && !bound.neg,
            bound.mag <= ITER_LIMIT,
            x < width <= MAX_PIXELS,
            height <= MAX_PIXELS,
            max_iters <= MAX_ITERS_LIMIT,
            c_re.wf(),
            c_re.mag <= ITER_LIMIT,
            frac_x == pixel_frac(x as int, width as int),
            c_re.val() == flerp(x_range.lower.val(), x_range.upper.val(), frac_x as int),
            forall|j: int|
                0 <= j < y ==> col@[j] == cell_value(
                    x_range.lower.val(),
                    x_range.upper.val(),
                    y_range.lower.val(),
                    y_range.upper.val(),
                    bound.val(),
                    max_iters as nat,
                    smooth,
                    width as int,
                    height as int,
                    x as int,
                    j,
                ),
            forall|j: int| 0 <= j < y ==> col@[j] <= max_iters * SCALE,
        decreases height - y,
    {
        let frac_y: u64 = (y as u64) * SCALE / (height as u64);
        proof {
            lemma_mul_inequality(y as int, height as int, SCALE as int);
            lemma_div_is_ordered(
                (y as int) * (SCALE as int),
                (height as int) * (SCALE as int),
                height as int,
            );
            lemma_div_by_multiple(SCALE as int, height as int);
            assert((SCALE as int) * (height as int) == (height as int) * (SCALE as int));
            lemma_div_pos_is_pos((y as int) * (SCALE as int), height as int);
        }
        let c_im = y_range.lerp(frac_y);
        let c = Complex::new(c_re, c_im);
        let (count, z_final) = c.escape_count(Complex::id(), bound, max_iters);
        proof {
            assert(sq_norm((0int, 0int)) == 0);
            assert(bound.val() >= 0);
            lemma_escape_steps_characterised(
                c.re.val(),
                c.im.val(),
                0,
                0,
                bound.val() * bound.val(),
                max_iters as nat,
                count as nat,
            );
        }
        let value: u64 = if smooth {
            let z_norm = z_final.abs_value_sq();
            smooth_value(count, z_norm, max_iters)
        } else {
            proof {
                lemma_mul_inequality(count as int, max_iters as int, SCALE as int);
            }
            (count as u64) * SCALE
        };
        col.push(value);
        y = y + 1;
    }
    col
}

/// The full escape-count grid, column by column: `r[x][y]` is the hue
/// value of pixel `(x, y)`.  The result is a pure function of the
/// arguments, so any schedule that computes the same columns produces a
/// bit-identical grid.
pub fn generate_escape_counts(
    x_range: &Interval,
    y_range: &Interval,
    width: usize,
    height: usize,
    max_iters: usize,
    bound: Fixed,
    smooth: bool,
) -> (r: Vec<Vec<u64>>)
    requires
        x_range.wf() && x_range.bounded(),
        y_range.wf() && y_range.bounded(),
        bound.wf() && !bound.neg,
        bound.mag <= ITER_LIMIT,
        width <= MAX_PIXELS,
        height <= MAX_PIXELS,
        max_iters <= MAX_ITERS_LIMIT,
    ensures
        r@.len() == width,
        forall|x: int| 0 <= x < width ==> #[trigger] r@[x]@.len() == height,
        forall|x: int, y: int|
            0 <= x < width && 0 <= y < height ==> #[trigger] r@[x]@[y] == cell_value(
                x_range.lower.val(),
                x_range.upper.val(),
                y_range.lower.val(),
                y_range.upper.val(),
                bound.val(),
                max_iters as nat,
                smooth,
                width as int,
                height as int,
                x,
                y,
            ),
        forall|x: int, y: int|
            0 <= x < width && 0 <= y < height ==> #[trigger] r@[x]@[y] <= max_iters * SCALE,
{
    let mut grid: Vec<Vec<u64>> = Vec::new();
    let mut x: usize = 0;
    while x < width
        invariant
            x <= width,
            grid@.len() == x,
            x_range.wf() && x_range.bounded(),
            y_range.wf() && y_range.bounded(),
            bound.wf() && !bound.neg,
            bound.mag <= ITER_LIMIT,
            width <= MAX_PIXELS,
            height <= MAX_PIXELS,
            max_iters <= MAX_ITERS_LIMIT,
            forall|i: int| 0 <= i < x ==> #[trigger] grid@[i]@.len() == height,
            forall|i: int, y: int|
                0 <= i < x && 0 <= y < height ==> #[trigger] grid@[i]@[y] == cell_value(
                    x_range.lower.val(),
                    x_range.upper.val(),
                    y_range.lower.val(),
                    y_range.upper.val(),
                    bound.val(),
                    max_iters as nat,
                    smooth,
                    width as int,
                    height as int,
                    i,
                    y,
                ),
            forall|i: int, y: int|
                0 <= i < x && 0 <= y < height ==> #[trigger] grid@[i]@[y] <= max_iters * SCALE,
        decreases width - x,
    {
        let col = escape_counts_column(x_range, y_range, x, width, height, max_iters, bound, smooth);
        grid.push(col);
        x = x + 1;
    }
    grid
}

/// Plain normalisation: divide every hue value by the iteration budget,
/// mapping the grid into `[0, SCALE]`.
pub fn normalise_escape_counts(escape_counts: &Vec<Vec<u64>>, max_iters: usize) -> (r: Vec<
    Vec<u64>,
>)
    requires
        max_iters >= 1,
        forall|x: int, y: int|
            0 <= x < escape_counts@.len() && 0 <= y < escape_counts@[x]@.len()
                ==> #[trigger] escape_counts@[x]@[y] <= max_iters * SCALE,
    ensures
        r@.len() == escape_counts@.len(),
        forall|x: int| 0 <= x < r@.len() ==> #[trigger] r@[x]@.len() == escape_counts@[x]@.len(),
        forall|x: int, y: int|
            0 <= x < r@.len() && 0 <= y < r@[x]@.len() ==> #[trigger] r@[x]@[y] == escape_counts@[x]@[y]
                / (max_iters as u64),
        forall|x: int, y: int|
            0 <= x < r@.len() && 0 <= y < r@[x]@.len() ==> #[trigger] r@[x]@[y] <= SCALE,
{
    let mut out: Vec<Vec<u64>> = Vec::new();
    let mut x: usize = 0;
    while x < escape_counts.len()
        invariant
            x <= escape_counts@.len(),
            out@.len() == x,
            max_iters >= 1,
            forall|i: int, y: int|
                0 <= i < escape_counts@.len() && 0 <= y < escape_counts@[i]@.len()
                    ==> #[trigger] escape_counts@[i]@[y] <= max_iters * SCALE,
            forall|i: int| 0 <= i < x ==> #[trigger] out@[i]@.len() == escape_counts@[i]@.len(),
            forall|i: int, y: int|
                0 <= i < x && 0 <= y < out@[i]@.len() ==> #[trigger] out@[i]@[y]
                    == escape_counts@[i]@[y] / (max_iters as u64),
            forall|i: int, y: int|
                0 <= i < x && 0 <= y < out@[i]@.len() ==> #[trigger] out@[i]@[y] <= SCALE,
        decreases escape_counts@.len() - x,
    {
        let colref = &escape_counts[x];
        let mut col: Vec<u64> = Vec::new();
        let mut y: usize = 0;
        while y < colref.len()
            invariant
                y <= colref@.len(),
                col@.len() == y,
                max_iters >= 1,
                colref@ == escape_counts@[x as int]@,
                x < escape_counts@.len(),
                forall|i: int, j: int|
                    0 <= i < escape_counts@.len() && 0 <= j < escape_counts@[i]@.len()
                        ==> #[trigger] escape_counts@[i]@[j] <= max_iters * SCALE,
                forall|j: int|
                    0 <= j < y ==> #[trigger] col@[j] == colref@[j] / (max_iters as u64),
                forall|j: int| 0 <= j < y ==> #[trigger] col@[j] <= SCALE,
            decreases colref@.len() - y,
        {
            let v: u64 = colref[y];
            proof {
                assert(v <= max_iters * SCALE);
                lemma_div_is_ordered(v as int, (max_iters as int) * (SCALE as int), max_iters as int);
                lemma_div_by_multiple(SCALE as int, max_iters as int);
                assert((SCALE as int) * (max_iters as int) == (max_iters as int) * (SCALE as int));
                lemma_div_pos_is_pos(v as int, max_iters as int);
            }
            col.push(v / (max_iters as u64));
            y = y + 1;
        }
        out.push(col);
        x = x + 1;
    }
    out
}

} // verus!
