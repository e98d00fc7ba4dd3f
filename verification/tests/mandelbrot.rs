use mandelbrust::fixed::Fixed;
use mandelbrust::grid::{generate_escape_counts, normalise_escape_counts, smooth_value};
use mandelbrust::log2::log2_of_sq;
use mandelbrust::mandelbrot::Complex;
use mandelbrust::opts::{get_intervals, Interval};
use mandelbrust::SCALE;

fn units(n: u64) -> Fixed {
    Fixed::from_units(n, false)
}

fn neg_units(n: u64) -> Fixed {
    Fixed::from_units(n, true)
}

#[test]
fn origin_never_escapes() {
    // c = 0 + 0i stays bounded for any budget: the count is the budget.
    let c = Complex::id();
    let (count, z) = c.escape_count(Complex::id(), units(2), 50);
    assert_eq!(count, 50);
    assert_eq!(z.re.mag, 0);
    assert_eq!(z.im.mag, 0);
}

#[test]
fn far_point_escapes_on_first_iteration() {
    // |c| > 2 puts the first iterate outside the squared bailout at once.
    let c = Complex::new(units(3), Fixed::zero());
    let (count, z) = c.escape_count(Complex::id(), units(2), 10);
    assert_eq!(count, 1);
    assert_eq!(z.re, units(3));

    let c = Complex::new(Fixed::zero(), neg_units(3));
    let (count, _) = c.escape_count(Complex::id(), units(2), 10);
    assert_eq!(count, 1);
}

#[test]
fn escape_count_is_deterministic() {
    let c = Complex::new(Fixed::new(true, SCALE / 2), Fixed::new(false, SCALE / 4));
    let a = c.escape_count(Complex::id(), units(2), 200);
    let b = c.escape_count(Complex::id(), units(2), 200);
    assert_eq!(a.0, b.0);
    assert_eq!(a.1, b.1);
}

#[test]
fn mandelbrot_iter_computes_quadratic_step() {
    // z = 1 + i, c = 1: next = ((1-1)(1+1) + 1, 2*1*1 + 0) = (1, 2).
    let z = Complex::new(units(1), units(1));
    let c = Complex::new(units(1), Fixed::zero());
    let next = z.mandelbrot_iter(&c);
    assert_eq!(next.re, units(1));
    assert_eq!(next.im, units(2));
}

#[test]
fn abs_value_sq_is_exact() {
    // |3 + 4i|^2 = 25, at scale SCALE^2.
    let z = Complex::new(units(3), units(4));
    assert_eq!(z.abs_value_sq(), 25u128 << 48);
}

#[test]
fn inverse_of_real_point() {
    // (2 + 0i)^-1 = 0.5 + 0i.
    let z = Complex::new(units(2), Fixed::zero());
    let inv = z.inverse();
    assert_eq!(inv.re, Fixed::new(false, SCALE / 2));
    assert_eq!(inv.im.mag, 0);
    // (0 + 0.5i)^-1 = 0 - 2i.
    let z = Complex::new(Fixed::zero(), Fixed::new(false, SCALE / 2));
    let inv = z.inverse();
    assert_eq!(inv.re.mag, 0);
    assert_eq!(inv.im, neg_units(2));
}

#[test]
fn viewport_has_sixteen_by_nine_half_widths() {
    let (xr, yr) = get_intervals(Complex::id(), 8);
    assert_eq!(xr.lower, neg_units(2));
    assert_eq!(xr.upper, units(2));
    assert_eq!(yr.lower, Fixed::new(true, 9 * SCALE / 8));
    assert_eq!(yr.upper, Fixed::new(false, 9 * SCALE / 8));
}

#[test]
fn interval_lerp_hits_midpoint_and_ends() {
    let iv = Interval { lower: neg_units(2), upper: units(2) };
    assert_eq!(iv.lerp(0), neg_units(2));
    assert_eq!(iv.lerp(SCALE), units(2));
    assert_eq!(iv.lerp(SCALE / 2).mag, 0);
}

#[test]
fn log2_of_powers_of_two_is_exact() {
    assert_eq!(log2_of_sq(1u128 << 48), 0);
    assert_eq!(log2_of_sq(2u128 << 48), SCALE);
    assert_eq!(log2_of_sq(16u128 << 48), 4 * SCALE);
    // log2(3) lies strictly between 1 and 2.
    let l3 = log2_of_sq(3u128 << 48);
    assert!(l3 > SCALE && l3 < 2 * SCALE);
}

#[test]
fn smooth_value_on_power_of_two_norm() {
    // |z|^2 = 16: log2 = 4, halved to 2, log2 again = 1, so the
    // continuous count is (5 + 1) - 1 = 5 units.
    assert_eq!(smooth_value(5, 16u128 << 48, 1000), 5 * SCALE);
    // A bounded point gets the budget itself.
    assert_eq!(smooth_value(1000, 0, 1000), 1000 * SCALE);
}

#[test]
fn discrete_grid_matches_per_point_escape() {
    let (xr, yr) = get_intervals(Complex::id(), 8);
    let grid = generate_escape_counts(&xr, &yr, 4, 4, 30, units(2), false);
    assert_eq!(grid.len(), 4);
    for (x, col) in grid.iter().enumerate() {
        assert_eq!(col.len(), 4);
        for (y, &v) in col.iter().enumerate() {
            let fx = (x as u64) * SCALE / 4;
            let fy = (y as u64) * SCALE / 4;
            let c = Complex::new(xr.lerp(fx), yr.lerp(fy));
            let (count, _) = c.escape_count(Complex::id(), units(2), 30);
            assert_eq!(v, (count as u64) * SCALE);
        }
    }
}

#[test]
fn normalise_divides_by_budget() {
    let grid = vec![vec![SCALE, 2 * SCALE], vec![0, SCALE / 2]];
    let out = normalise_escape_counts(&grid, 2);
    assert_eq!(out[0][0], SCALE / 2);
    assert_eq!(out[0][1], SCALE);
    assert_eq!(out[1][0], 0);
    assert_eq!(out[1][1], SCALE / 4);
}
