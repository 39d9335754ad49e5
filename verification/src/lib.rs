//! A verified engine that converts ASCII hex input to its binary equivalent.
//!
//! The input is processed in memory-bounded passes; each pass is split into
//! hex-pair-aligned chunks that are decoded in parallel and then recombined
//! in their original order, so that the committed output is always a prefix
//! of the final decoding.

pub mod commit;
pub mod convert;
pub mod engine;
pub mod errors;
pub mod executor;
pub mod hex;
pub mod planner;
