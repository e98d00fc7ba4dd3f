//! Render options: axis intervals, the centred 16:9 viewport, output
//! resolutions and the choice of plotting algorithm.

use crate::fixed::{fmul, Fixed, SCALE};
use crate::grid::{cell_value, generate_escape_counts, normalise_escape_counts, MAX_ITERS_LIMIT, MAX_PIXELS};
use crate::hist::{generate_hist_counts, grid_seq, hist_value, total_cells};
use crate::mandelbrot::{Complex, ITER_LIMIT};
use vstd::arithmetic::div_mod::{lemma_div_by_multiple, lemma_div_is_ordered, lemma_div_pos_is_pos};
use vstd::arithmetic::mul::{
    lemma_mul_inequality, lemma_mul_is_commutative, lemma_mul_is_distributive_sub_other_way,
};
use vstd::math::abs;
use vstd::prelude::*;

verus! {

/// Largest magnitude accepted for a viewport centre: 2^40.  Leaves room
/// for the half-width of the widest viewport inside [`ITER_LIMIT`].
pub const CENTRE_LIMIT: u64 = 0x100_0000_0000;

/// Linear interpolation between two scaled values with a fractional blend
/// factor in `[0, SCALE]`, truncating toward zero.
pub open spec fn flerp(lo: int, hi: int, frac: int) -> int {
    lo + fmul(hi - lo, frac)
}

/// Bounds along one axis.  An inverted interval (`upper < lower`) is
/// permitted and simply flips the interpolation direction.
#[derive(Clone, Copy, Debug, PartialEq, Eq, Structural)]
pub struct Interval {
    pub lower: Fixed,
    pub upper: Fixed,
}

impl Interval {
    pub open spec fn wf(self) -> bool {
        self.lower.wf() && self.upper.wf()
    }

    /// Both endpoint magnitudes small enough to feed the escape iteration.
    pub open spec fn bounded(self) -> bool {
        self.lower.mag <= ITER_LIMIT && self.upper.mag <= ITER_LIMIT
    }

    /// `lower + (upper - lower) * frac`, with `frac` a fixed-point blend
    /// factor in `[0, 1]`.  The result always lies between the endpoints.
    pub fn lerp(&self, frac: u64) -> (r: Fixed)
        requires
            self.wf(),
            self.bounded(),
            frac <= SCALE,
        ensures
            r.wf(),
            r.val() == flerp(self.lower.val(), self.upper.val(), frac as int),
            self.lower.val() <= self.upper.val() ==> self.lower.val() <= r.val()
                <= self.upper.val(),
            self.upper.val() <= self.lower.val() ==> self.upper.val() <= r.val()
                <= self.lower.val(),
    {
        let diff = self.upper.sub(self.lower);
        proof {
            lemma_mul_inequality(frac as int, SCALE as int, diff.mag as int);
            lemma_div_is_ordered(
                (diff.mag as int) * (frac as int),
                (diff.mag as int) * (SCALE as int),
                SCALE as int,
            );
            lemma_div_by_multiple(diff.mag as int, SCALE as int);
            lemma_div_pos_is_pos((diff.mag as int) * (frac as int), SCALE as int);
            assert((diff.mag as int) * (frac as int) == (frac as int) * (diff.mag as int));
        }
        let step = diff.mul(Fixed::new(false, frac));
        proof {
            assert(abs(diff.val()) == diff.mag);
            assert(abs(step.val()) <= diff.mag);
        }
        self.lower.add(step)
    }
}

/// The two axis intervals of a 16:9 viewport centred on `centre`: the
/// half-widths are `16 / zoom` horizontally and `9 / zoom` vertically.
/// The half-widths are fixed-point quotients, so a zoom beyond
/// `16 * SCALE` truncates them to zero and the viewport degenerates to
/// its centre point; callers wanting deeper zooms need a finer scale.
pub fn get_intervals(centre: Complex, zoom: u64) -> (r: (Interval, Interval))
    requires
        centre.wf(),
        centre.re.mag <= CENTRE_LIMIT,
        centre.im.mag <= CENTRE_LIMIT,
        zoom >= 1,
    ensures
        r.0.wf() && r.1.wf(),
        r.0.bounded() && r.1.bounded(),
        r.0.lower.val() == centre.re.val() - 16 * (SCALE as int) / (zoom as int),
        r.0.upper.val() == centre.re.val() + 16 * (SCALE as int) / (zoom as int),
        r.1.lower.val() == centre.im.val() - 9 * (SCALE as int) / (zoom as int),
        r.1.upper.val() == centre.im.val() + 9 * (SCALE as int) / (zoom as int),
{
    proof {
        lemma_div_pos_is_pos(16 * (SCALE as int), zoom as int);
        lemma_div_pos_is_pos(9 * (SCALE as int), zoom as int);
        assert(16 * (SCALE as int) / (zoom as int) <= 16 * (SCALE as int)) by {
            lemma_mul_inequality(1, zoom as int, 16 * (SCALE as int));
            lemma_div_is_ordered(16 * (SCALE as int), 16 * (SCALE as int) * (zoom as int), zoom as int);
            lemma_div_by_multiple(16 * (SCALE as int), zoom as int);
        }
        assert(9 * (SCALE as int) / (zoom as int) <= 9 * (SCALE as int)) by {
            lemma_mul_inequality(1, zoom as int, 9 * (SCALE as int));
            lemma_div_is_ordered(9 * (SCALE as int), 9 * (SCALE as int) * (zoom as int), zoom as int);
            lemma_div_by_multiple(9 * (SCALE as int), zoom as int);
        }
    }
    let half_x = Fixed::new(false, 16 * SCALE / zoom);
    let half_y = Fixed::new(false, 9 * SCALE / zoom);
    let x_range = Interval { lower: centre.re.sub(half_x), upper: centre.re.add(half_x) };
    let y_range = Interval { lower: centre.im.sub(half_y), upper: centre.im.add(half_y) };
    (x_range, y_range)
}

/// A saved viewport bookmark: a centre point and an integer zoom.
#[derive(Clone, Copy, Debug, PartialEq, Eq, Structural)]
pub struct NamedPoint {
    pub point: Complex,
    pub zoom: usize,
}

/// Output image resolution presets.
#[derive(Clone, Copy, Debug, PartialEq, Eq, Structural)]
pub enum Resolution {
    Low,
    Med,
    High,
}

impl Resolution {
    /// Width and height of this preset.
    pub open spec fn dimensions(self) -> (usize, usize) {
        match self {
            Resolution::Low => (320usize, 180usize),
            Resolution::Med => (960usize, 540usize),
            Resolution::High => (1920usize, 1080usize),
        }
    }

    pub fn to_dimensions(self) -> (r: (usize, usize))
        ensures
            r == self.dimensions(),
            1 <= r.0 <= 1920,
            1 <= r.1 <= 1080,
    {
        match self {
            Resolution::Low => (320, 180),
            Resolution::Med => (960, 540),
            Resolution::High => (1920, 1080),
        }
    }
}

/// How raw escape counts are produced and normalised.
#[derive(Clone, Copy, Debug, PartialEq, Eq, Structural)]
pub enum PlottingAlgorithm {
    Vanilla,
    Smooth,
    Histogram,
    SmoothHistogram,
}

impl PlottingAlgorithm {
    /// Whether per-point values use the continuous escape estimate.
    pub open spec fn smooth(self) -> bool {
        self == PlottingAlgorithm::Smooth || self == PlottingAlgorithm::SmoothHistogram
    }

    /// Whether final values are histogram-equalised rather than divided
    /// by the iteration budget.
    pub open spec fn histogram(self) -> bool {
        self == PlottingAlgorithm::Histogram || self == PlottingAlgorithm::SmoothHistogram
    }

    pub fn is_smooth(self) -> (r: bool)
        ensures
            r == self.smooth(),
    {
        match self {
            PlottingAlgorithm::Smooth | PlottingAlgorithm::SmoothHistogram => true,
            _ => false,
        }
    }

    pub fn is_histogram(self) -> (r: bool)
        ensures
            r == self.histogram(),
    {
        match self {
            PlottingAlgorithm::Histogram | PlottingAlgorithm::SmoothHistogram => true,
            _ => false,
        }
    }
}


/// A uniform grid of `len` columns of height `h` holds `len * h` cells.
proof fn lemma_total_cells_uniform(g: Seq<Seq<u64>>, h: int)
    requires
        h >= 0,
        forall|i: int| 0 <= i < g.len() ==> #[trigger] g[i].len() == h,
    ensures
        total_cells(g) == g.len() * h,
    decreases g.len(),
{
    if g.len() == 0 {
        assert(0int * h == 0) by (nonlinear_arith);
    } else {
        lemma_total_cells_uniform(g.drop_last(), h);
        lemma_mul_is_distributive_sub_other_way(h, g.len() as int, 1);
        assert(1int * h == h) by (nonlinear_arith);
    }
}

/// The explicit, immutable parameters of one render: viewport centre and
/// zoom, output size, iteration budget, bailout radius and algorithm.
/// The whole pipeline is a pure function of these fields.
#[derive(Clone, Copy, Debug)]
pub struct RenderRequest {
    pub centre: Complex,
    pub zoom: u64,
    pub width: usize,
    pub height: usize,
    pub max_iters: usize,
    pub bailout: Fixed,
    pub algorithm: PlottingAlgorithm,
}

impl RenderRequest {
    /// Parameters the pipeline accepts: a bounded centre, a positive
    /// zoom, a frame of at most `MAX_PIXELS` cells, a positive iteration
    /// budget within the limit, and a non-negative bounded bailout.
    pub open spec fn wf(self) -> bool {
        &&& self.centre.wf()
        &&& self.centre.re.mag <= CENTRE_LIMIT
        &&& self.centre.im.mag <= CENTRE_LIMIT
        &&& self.zoom >= 1
        &&& 1 <= self.width
        &&& 1 <= self.height
        &&& self.width * self.height <= MAX_PIXELS
        &&& 1 <= self.max_iters <= MAX_ITERS_LIMIT
        &&& self.bailout.wf()
        &&& !self.bailout.neg
        &&& self.bailout.mag <= ITER_LIMIT
    }

    /// The raw (pre-normalisation) hue of pixel `(x, y)`.
    pub open spec fn raw_cell(self, x: int, y: int) -> int {
        let hx = 16 * (SCALE as int) / (self.zoom as int);
        let hy = 9 * (SCALE as int) / (self.zoom as int);
        cell_value(
            self.centre.re.val() - hx,
            self.centre.re.val() + hx,
            self.centre.im.val() - hy,
            self.centre.im.val() + hy,
            self.bailout.val(),
            self.max_iters as nat,
            self.algorithm.smooth(),
            self.width as int,
            self.height as int,
            x,
            y,
        )
    }

    /// The whole raw grid, column by column.
    pub open spec fn raw_grid(self) -> Seq<Seq<u64>> {
        Seq::new(
            self.width as nat,
            |x: int| Seq::new(self.height as nat, |y: int| self.raw_cell(x, y) as u64),
        )
    }

    /// The normalised hue of pixel `(x, y)`: the raw value put through
    /// histogram equalisation or plain division by the budget.
    pub open spec fn hue_spec(self, x: int, y: int) -> int {
        if self.algorithm.histogram() {
            hist_value(
                self.raw_grid(),
                self.max_iters as int,
                (self.width * self.height) as int,
                self.raw_grid()[x][y],
            )
        } else {
            self.raw_cell(x, y) / (self.max_iters as int)
        }
    }

    /// The end-to-end numeric pipeline: viewport, per-pixel escape
    /// iteration, post-processing and normalisation.  Every value of the
    /// result lies in `[0, SCALE]`, and the grid is a pure function of
    /// the request: repeated calls give bit-identical results.
    pub fn get_hue_array(&self) -> (r: Vec<Vec<u64>>)
        requires
            self.wf(),
        ensures
            r@.len() == self.width,
            forall|x: int| 0 <= x < self.width ==> #[trigger] r@[x]@.len() == self.height,
            forall|x: int, y: int|
                0 <= x < self.width && 0 <= y < self.height ==> #[trigger] r@[x]@[y]
                    == self.hue_spec(x, y),
            forall|x: int, y: int|
                0 <= x < self.width && 0 <= y < self.height ==> #[trigger] r@[x]@[y] <= SCALE,
    {
        let (x_range, y_range) = get_intervals(self.centre, self.zoom);
        let smooth = self.algorithm.is_smooth();
        proof {
            assert(self.width <= MAX_PIXELS) by {
                lemma_mul_inequality(1, self.height as int, self.width as int);
                lemma_mul_is_commutative(self.height as int, self.width as int);
            }
            assert(self.height <= MAX_PIXELS) by {
                lemma_mul_inequality(1, self.width as int, self.height as int);
            }
        }
        let escape_counts = generate_escape_counts(
            &x_range,
            &y_range,
            self.width,
            self.height,
            self.max_iters,
            self.bailout,
            smooth,
        );
        proof {
            assert(grid_seq(escape_counts@) =~~= self.raw_grid());
        }
        if self.algorithm.is_histogram() {
            let total = self.width * self.height;
            proof {
                lemma_mul_inequality(1, self.width as int, self.height as int);
                lemma_total_cells_uniform(grid_seq(escape_counts@), self.height as int);
            }
            let hue = generate_hist_counts(&escape_counts, self.max_iters, total);
            hue
        } else {
            normalise_escape_counts(&escape_counts, self.max_iters)
        }
    }
}

} // verus!
