//! Adaptive piecewise-linear compression of one-dimensional sample rows.
//!
//! A row of samples is approximated by linear segments of variable length.
//! Each segment's endpoint is stored as a half-precision number whose three
//! lowest bits carry the segment's length class, two bytes per point.
//!
//! This library holds everything about that scheme that is decided on
//! integers: the byte layout of a point, the walk of the checkpoints of a
//! candidate segment, the growth and fallback of segments, and the bookkeeping
//! of the emitted stream. The arithmetic on the samples themselves is done by
//! the caller, who is asked one question at a time.

pub mod classes;
pub mod encoder;
pub mod state;
pub mod preservation;
pub mod laws;
pub mod compressor;
pub mod pass;
pub mod preprocess;
pub mod decoder;
