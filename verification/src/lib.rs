//! Escape-time rendering of the Mandelbrot set over a rectangular viewport,
//! with histogram-equalisation colouring and interpolated colour palettes.
//!
//! All numeric work is done in binary fixed-point arithmetic (24 fractional
//! bits, see [`fixed`]), so that every stage of the pipeline — per-point
//! escape iteration, viewport mapping, grid evaluation, histogram
//! equalisation and palette lookup — carries an exact contract.

pub mod fixed;
pub mod grid;
pub mod hist;
pub mod log2;
pub mod mandelbrot;
pub mod opts;
pub mod palette;

pub use fixed::Fixed;
pub use fixed::SCALE;
pub use mandelbrot::Complex;
pub use opts::Interval;
pub use opts::NamedPoint;
pub use opts::PlottingAlgorithm;
pub use opts::RenderRequest;
pub use opts::Resolution;
pub use palette::ColorPalette;
pub use palette::ConfigRGB;
pub use palette::PaletteError;
pub use palette::Rgb;
