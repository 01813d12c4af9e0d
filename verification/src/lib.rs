//! A two-waveform signal pipeline: synthetic sine and square samples are
//! smoothed by a moving-average stage and framed as ASCII lines.
//!
//! Sample values are IEEE 754 binary32 numbers, carried everywhere as their
//! 32-bit patterns. What the stages compute on them is integer code, proved
//! against the rounding rule of the standard.
//!
//! - [`sample`]: the payloads that travel between the stages.
//! - [`binary32`], [`rounding`]: sums and quotients of patterns, and the facts
//!   about rounding that they rest on.
//! - [`decimal`]: decimal text with seven fractional digits.
//! - [`generator`]: the sine and the square generator.
//! - [`history`], [`filter`]: the history buffers and the moving average.
//! - [`link`], [`pipeline`]: the bounded channels and the stages wired up.
//! - [`publisher`]: the header, the lines and the output stage.

pub mod binary32;
pub mod decimal;
pub mod filter;
pub mod generator;
pub mod history;
pub mod link;
pub mod pipeline;
pub mod publisher;
pub mod rounding;
pub mod sample;
