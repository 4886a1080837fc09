//! Status-line monitor core: a bounded, persisted history of fixed-point
//! samples, a glyph sparkline renderer, and threshold classification.
//!
//! Samples are real-valued measurements (percentages, degrees) held as
//! fixed-point integers in thousandths of a unit, so `60.5` is `60500`.

pub mod codec;
pub mod cpu;
pub mod digits;
pub mod history;
pub mod output;
pub mod spark;
pub mod temperature;
pub mod threshold;

use vstd::prelude::*;

verus! {

/// Fixed-point scale: sample values are in thousandths of a unit.
pub const MILLI_PER_UNIT: i64 = 1000;

} // verus!
