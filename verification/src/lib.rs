//! A line-indexed text buffer.
//!
//! The buffer owns a flat character sequence together with an incrementally
//! maintained index of line boundaries, a cursor offset, and a cached current
//! line.  A separate two-dimensional cursor provides bounds-clamped line and
//! column counters for screen bookkeeping.

pub mod buffer;
pub mod cursor;
pub mod text;
