//! A streaming burst analyzer for one voltage-like signal.
//!
//! A host offers one sample per tick and calls [`analyzer::BurstAnalyzer`]
//! with the time the tick took. The analyzer keeps the extrema of the
//! running window, detects bursts by hysteresis between thresholds taken from
//! the extrema of the last completed window, and publishes minimum, maximum
//! and mean burst period each time a window is over.
//!
//! Samples and times are IEEE 754 binary64 values. The analyzer computes
//! with them on their encodings, in integer arithmetic: [`binary64`] holds
//! the encoding and its comparisons, [`rounding`] says what rounding to
//! nearest means, [`pack`] rounds, [`arith`] holds the four operations, and
//! [`arith_laws`] what is proved of them. [`model`] is the analyzer as a
//! state machine over mathematical state, [`laws`] what holds of it, and
//! [`descriptor`] what it declares of itself to a host.

pub mod analyzer;
pub mod arith;
pub mod arith_laws;
pub mod binary64;
pub mod descriptor;
pub mod laws;
pub mod model;
pub mod pack;
pub mod rounding;
pub mod text;
