//! Rasterisation of straight line segments with a configurable thickness.
//!
//! A segment between two integer points is walked with an integer error
//! accumulator. At every point of the central line a span of pixels is filled
//! at right angles to the line, on both sides, so that the segment gets its
//! thickness. All arithmetic is done in integers.
//!
//! - `geometry`: points, the normalised delta of a segment and its direction.
//! - `length`: the integer square root, the length of a segment and the
//!   number of steps of a span.
//! - `stepper`: the stepping rule that the central line and the spans share.
//! - `pixel`: pixels and their mathematical model.
//! - `span`: the perpendicular span filler.
//! - `central`: the central line and its closed form.
//! - `line`: the line driver, `thick_line` and `draw_thick_line`.
//! - `canvas`: a pixel buffer to draw on.
//! - `region`: which places a thick line fills, and in which colour.
//! - `theorems`: what holds of every thick line.
//! - `gaps`: the region of a thick line is connected, and its near side has
//!   no gap.
//! - `crossing`: where a span crosses the central line, and what a surface
//!   shows after a line has been drawn.
//! - `aligned`: segments along an axis or a diagonal.
//! - `reversal`: drawing a segment from its other end.
pub mod aligned;
pub mod canvas;
pub mod central;
pub mod crossing;
pub mod gaps;
pub mod geometry;
pub mod length;
pub mod line;
pub mod pixel;
pub mod region;
pub mod reversal;
pub mod span;
pub mod stepper;
pub mod theorems;
