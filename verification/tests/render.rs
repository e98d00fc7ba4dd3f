use mandelbrust::fixed::Fixed;
use mandelbrust::hist::generate_hist_counts;
use mandelbrust::mandelbrot::Complex;
use mandelbrust::opts::{PlottingAlgorithm, RenderRequest, Resolution};
use mandelbrust::SCALE;

fn fixed_from_f64(x: f64) -> Fixed {
    Fixed::new(x < 0.0, (x.abs() * SCALE as f64) as u64)
}

fn classic_request(algorithm: PlottingAlgorithm) -> RenderRequest {
    RenderRequest {
        centre: Complex::new(fixed_from_f64(-0.745), fixed_from_f64(0.113)),
        zoom: 400000,
        width: 4,
        height: 4,
        max_iters: 1000,
        bailout: Fixed::new(false, 4 * SCALE),
        algorithm,
    }
}

#[test]
fn render_grid_is_in_range_and_deterministic() {
    let req = classic_request(PlottingAlgorithm::Vanilla);
    let grid = req.get_hue_array();
    assert_eq!(grid.len(), 4);
    for col in &grid {
        assert_eq!(col.len(), 4);
        for &v in col {
            assert!(v <= SCALE);
        }
    }
    let again = req.get_hue_array();
    assert_eq!(grid, again);
}

#[test]
fn render_modes_all_stay_in_range() {
    for algorithm in [
        PlottingAlgorithm::Vanilla,
        PlottingAlgorithm::Smooth,
        PlottingAlgorithm::Histogram,
        PlottingAlgorithm::SmoothHistogram,
    ] {
        let req = classic_request(algorithm);
        for col in req.get_hue_array() {
            for v in col {
                assert!(v <= SCALE);
            }
        }
    }
}

#[test]
fn histogram_equalises_cumulative_counts() {
    // Buckets 0, 1, 2, 2 of budget 2 over 4 points: cumulative counts
    // 1, 2, 4, so the cells map to 1/4, 2/4 and 4/4.
    let grid = vec![vec![0], vec![SCALE], vec![2 * SCALE], vec![2 * SCALE]];
    let out = generate_hist_counts(&grid, 2, 4);
    assert_eq!(out[0][0], SCALE / 4);
    assert_eq!(out[1][0], SCALE / 2);
    assert_eq!(out[2][0], SCALE);
    assert_eq!(out[3][0], SCALE);
}

#[test]
fn histogram_interpolates_fractional_values() {
    // A value halfway through bucket 0 blends the two cumulative counts.
    let grid = vec![vec![SCALE / 2], vec![SCALE], vec![SCALE]];
    let out = generate_hist_counts(&grid, 1, 3);
    // Bucket 0 holds one cell, bucket 1 two: cum = 1, 3.
    // (1 * SCALE + (3 - 1) * SCALE/2) / 3 = 2 * SCALE / 3.
    assert_eq!(out[0][0], 2 * (SCALE as u64) * 1 / 3);
    assert_eq!(out[1][0], SCALE);
}

#[test]
fn histogram_output_is_monotone_in_raw_value() {
    let grid = vec![vec![0, SCALE / 3, SCALE, SCALE + SCALE / 2, 3 * SCALE]];
    let out = generate_hist_counts(&grid, 3, 5);
    for w in out[0].windows(2) {
        assert!(w[0] <= w[1]);
    }
}

#[test]
fn resolutions_map_to_dimensions() {
    assert_eq!(Resolution::Low.to_dimensions(), (320, 180));
    assert_eq!(Resolution::Med.to_dimensions(), (960, 540));
    assert_eq!(Resolution::High.to_dimensions(), (1920, 1080));
}

#[test]
fn algorithm_flags() {
    assert!(!PlottingAlgorithm::Vanilla.is_smooth());
    assert!(!PlottingAlgorithm::Vanilla.is_histogram());
    assert!(PlottingAlgorithm::Smooth.is_smooth());
    assert!(!PlottingAlgorithm::Smooth.is_histogram());
    assert!(!PlottingAlgorithm::Histogram.is_smooth());
    assert!(PlottingAlgorithm::Histogram.is_histogram());
    assert!(PlottingAlgorithm::SmoothHistogram.is_smooth());
    assert!(PlottingAlgorithm::SmoothHistogram.is_histogram());
}
