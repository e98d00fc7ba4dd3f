use mandelbrust::palette::{ColorPalette, ConfigRGB, PaletteError, Rgb};
use mandelbrust::SCALE;

fn stop(value: u64, red: u8, green: u8, blue: u8) -> ConfigRGB {
    ConfigRGB { value, red, green, blue }
}

fn greyscale() -> ColorPalette {
    ColorPalette::new(vec![stop(0, 0, 0, 0), stop(SCALE, 255, 255, 255)]).unwrap()
}

#[test]
fn build_rejects_too_few_stops() {
    let r = ColorPalette::new(vec![stop(0, 0, 0, 0)]);
    assert_eq!(r.unwrap_err(), PaletteError::TooFewStops);
    let r = ColorPalette::new(vec![]);
    assert_eq!(r.unwrap_err(), PaletteError::TooFewStops);
}

#[test]
fn build_rejects_short_span() {
    // Last stop at one half, not at one: no palette.
    let r = ColorPalette::new(vec![stop(0, 0, 0, 0), stop(SCALE / 2, 9, 9, 9)]);
    assert_eq!(r.unwrap_err(), PaletteError::BadEndpoints);
    let r = ColorPalette::new(vec![stop(SCALE / 4, 0, 0, 0), stop(SCALE, 9, 9, 9)]);
    assert_eq!(r.unwrap_err(), PaletteError::BadEndpoints);
}

#[test]
fn build_sorts_stops() {
    let p = ColorPalette::new(vec![
        stop(SCALE, 3, 3, 3),
        stop(0, 1, 1, 1),
        stop(SCALE / 2, 2, 2, 2),
    ])
    .unwrap();
    let values: Vec<u64> = p.color_vals.iter().map(|s| s.value).collect();
    assert_eq!(values, vec![0, SCALE / 2, SCALE]);
    assert_eq!(p.value(0), Rgb(1, 1, 1));
}

#[test]
fn lookup_hits_endpoints_exactly() {
    let p = greyscale();
    assert_eq!(p.value(0), Rgb(0, 0, 0));
    assert_eq!(p.value(SCALE), Rgb(255, 255, 255));
}

#[test]
fn lookup_clamps_above_one() {
    let p = greyscale();
    assert_eq!(p.value(SCALE + 12345), Rgb(255, 255, 255));
}

#[test]
fn lookup_interpolates_between_stops() {
    let p = greyscale();
    // Halfway: 255 * (SCALE/2) / SCALE = 127 after truncation.
    assert_eq!(p.value(SCALE / 2), Rgb(127, 127, 127));
    // Quarter of the way.
    assert_eq!(p.value(SCALE / 4), Rgb(63, 63, 63));
}

#[test]
fn lookup_midpoint_lies_between_neighbours() {
    let p = ColorPalette::new(vec![
        stop(0, 0, 200, 255),
        stop(SCALE / 2, 100, 100, 5),
        stop(SCALE, 200, 0, 0),
    ])
    .unwrap();
    assert_eq!(p.value(0), Rgb(0, 200, 255));
    assert_eq!(p.value(SCALE / 2), Rgb(100, 100, 5));
    let mid = p.value(SCALE / 4);
    assert!(mid.0 <= 100);
    assert!((100..=200).contains(&mid.1));
    assert!((5..=255).contains(&mid.2));
}

#[test]
fn lookup_exact_inner_stop() {
    let p = ColorPalette::new(vec![
        stop(0, 1, 2, 3),
        stop(SCALE / 4, 40, 50, 60),
        stop(SCALE, 200, 210, 220),
    ])
    .unwrap();
    assert_eq!(p.value(SCALE / 4), Rgb(40, 50, 60));
}

#[test]
fn repeat_once_is_identity() {
    // Identity holds for every valid palette, evenly spaced or not.
    let p = ColorPalette::new(vec![
        stop(0, 1, 1, 1),
        stop(SCALE / 4, 2, 2, 2),
        stop(SCALE, 3, 3, 3),
    ])
    .unwrap();
    let original = p.color_vals.clone();
    let r = p.repeat(1);
    assert_eq!(r.color_vals, original);

    let p = ColorPalette::new(vec![
        stop(0, 1, 1, 1),
        stop(SCALE / 2, 2, 2, 2),
        stop(SCALE, 3, 3, 3),
    ])
    .unwrap();
    let original = p.color_vals.clone();
    let r = p.repeat(1);
    assert_eq!(r.color_vals, original);
}

#[test]
fn repeat_of_two_stops_is_unchanged() {
    let p = greyscale();
    let original = p.color_vals.clone();
    let r = p.repeat(50);
    assert_eq!(r.color_vals, original);
}

#[test]
fn repeat_keeps_relative_positions() {
    // A band's interior stops keep their offsets, compressed by 1/n.
    let p = ColorPalette::new(vec![
        stop(0, 1, 1, 1),
        stop(SCALE / 4, 2, 2, 2),
        stop(SCALE, 3, 3, 3),
    ])
    .unwrap();
    let r = p.repeat(2);
    let values: Vec<u64> = r.color_vals.iter().map(|s| s.value).collect();
    assert_eq!(values, vec![0, SCALE / 8, SCALE / 2, SCALE / 2 + SCALE / 8, SCALE]);
    let reds: Vec<u8> = r.color_vals.iter().map(|s| s.red).collect();
    assert_eq!(reds, vec![1, 2, 1, 2, 3]);
}

#[test]
fn build_rejects_duplicate_positions() {
    let r = ColorPalette::new(vec![
        stop(0, 0, 0, 0),
        stop(SCALE, 1, 1, 1),
        stop(SCALE, 2, 2, 2),
    ]);
    assert_eq!(r.unwrap_err(), PaletteError::DuplicateStops);
    let r = ColorPalette::new(vec![
        stop(0, 0, 0, 0),
        stop(SCALE / 2, 5, 5, 5),
        stop(SCALE / 2, 6, 6, 6),
        stop(SCALE, 1, 1, 1),
    ]);
    assert_eq!(r.unwrap_err(), PaletteError::DuplicateStops);
}

#[test]
fn repeat_doubles_the_bands() {
    let p = ColorPalette::new(vec![
        stop(0, 1, 1, 1),
        stop(SCALE / 2, 2, 2, 2),
        stop(SCALE, 3, 3, 3),
    ])
    .unwrap();
    let r = p.repeat(2);
    let values: Vec<u64> = r.color_vals.iter().map(|s| s.value).collect();
    assert_eq!(values, vec![0, SCALE / 4, SCALE / 2, 3 * (SCALE / 4), SCALE]);
    let reds: Vec<u8> = r.color_vals.iter().map(|s| s.red).collect();
    assert_eq!(reds, vec![1, 2, 1, 2, 3]);
}

#[test]
fn to_rgb_copies_channels() {
    assert_eq!(stop(0, 7, 8, 9).to_rgb(), Rgb(7, 8, 9));
}

#[test]
fn lerp_between_two_stops() {
    let a = stop(0, 0, 255, 100);
    let b = stop(SCALE, 255, 0, 100);
    // Halfway between: both the rising and the falling channel pass
    // through 127.5 and truncate to 127; the constant channel stays put.
    assert_eq!(a.lerp(&b, SCALE / 2), Rgb(127, 127, 100));
}
