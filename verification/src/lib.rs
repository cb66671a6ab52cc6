//! Per-pixel affine brightness and contrast remapping of raw image buffers.
//!
//! A transform sends every byte `v` of an image to `v * scale + offset`,
//! rounded to the nearest integer (ties away from zero) and saturated to
//! `0..=255`. Scale and offset are binary64 numbers, handed over as bit
//! patterns; the library evaluates the expression as binary64 arithmetic
//! does, in integer arithmetic on multiples of `2^-1074`.
//!
//! - `binary64`: bit patterns, and the byte that a number stands for.
//! - `rounding`: rounding to the binary64 grid.
//! - `affine`: `v * scale + offset` for one input byte.
//! - `lut`: transform parameters and the lookup table built from them.
//! - `buffer`: the pixel buffer, with row stride and row padding.
//! - `strategy`: the sequential, the flat parallel and the row-chunked
//!   parallel way of applying a table to a buffer.
//! - `registry`: strategies by name.
//! - `oracle`: a cross-check of the strategies against each other.
//! - `laws`: what holds of the library as a whole.

pub mod error;
pub mod binary64;
pub mod rounding;
pub mod affine;
pub mod lut;
pub mod buffer;
pub mod strategy;
pub mod registry;
pub mod oracle;
pub mod laws;

pub use affine::adjust_value;
pub use buffer::PixelBuffer;
pub use error::TransformError;
pub use lut::{LookupTable, LookupTableBuilder, TransformParams};
pub use oracle::EquivalenceOracle;
pub use registry::StrategyRegistry;
pub use strategy::{
    adjust_brightness_contrast_own, adjust_brightness_contrast_own_parallel,
    adjust_brightness_contrast_own_parallel_rows, Outcome, Strategy,
};
