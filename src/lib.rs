//! Change detection against a rolling temporal mean of recent video frames.
//!
//! A frame is a planar sequence of 8-bit samples laid out channel by channel,
//! then row by row: sample `(c, y, x)` of a `height` by `width` frame sits at
//! `c * height * width + y * width + x`. The model keeps the last `window`
//! frames and, for each new one, reports the frame together with the per-sample
//! sum of the window; the temporal mean is that sum divided by `window`, kept
//! exact as a fraction.

pub mod interest;
pub mod model;
pub mod laws;
pub mod ring;
