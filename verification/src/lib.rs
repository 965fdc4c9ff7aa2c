//! Rendering and streaming engine for a terminal time-series plotter.
//!
//! The library turns flexible time-window specifiers into absolute UTC
//! instants, quantized sample columns into rows of colored glyphs, and
//! drives a self-correcting polling schedule for follow mode. All I/O,
//! JSON traversal and floating-point scaling live in the surrounding
//! application; this crate holds the verified logic.

pub mod instant;
pub mod render;
pub mod sched;
pub mod timefmt;
