//! A one-dimensional wave-height simulator in fixed-point arithmetic.
//!
//! Point sources oscillate across a bounded interval with reflecting ends,
//! deposit raised-cosine bumps onto a discrete height field, and the field is
//! quantized into a palette of glyphs, one frame at a time.

pub mod field;
pub mod render;
pub mod simulation;
pub mod source;
