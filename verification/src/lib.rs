//! Kerbal Rocket Kalculator: the part catalog, its bookkeeping and the
//! selection rules of a rocket-stage calculator, with verified contracts.
//!
//! The numeric model of a stage (tank heights, thrust-to-weight ratios,
//! delta-v) works on floating point and lives in the program around this
//! library; what is here is the exact, integer and text logic it relies on.

pub mod modules;
