//! Polyline simplification on the integer grid.
//!
//! A polyline is an ordered sequence of points with integer coordinates.
//! Two reducers shorten it while keeping its shape within a tolerance:
//! [`visvalingam`] removes the points whose triangle with their current
//! neighbours is smallest, [`rdp`] keeps the points that deviate most from
//! the chord of their range. Coordinates are `i32`, so that every area and
//! every offset is exact within 128 bits.
//!
//! Simplification by effective area rests on two structures, the
//! [`adjacency`] records of the shrinking polyline and the [`queue`] of
//! candidate removals. The [`reducer`] joins them and takes one decision
//! at a time; a caller whose areas are not integers can drive it with
//! numbers that order as its areas do.
//!
//! The module [`report`] reads the text reports that come with a trace,
//! the timings of the compiler passes and the output of `time`, and says
//! where their fields stand; [`text`] holds the searches that it rests on.

pub mod adjacency;
pub mod effective_area;
pub mod geometry;
pub mod indices;
pub mod perpendicular_distance;
pub mod queue;
pub mod reducer;
pub mod report;
pub mod text;
pub mod wide;

pub use effective_area::{visvalingam, visvalingam_indices};
pub use geometry::Point;
pub use perpendicular_distance::{rdp, rdp_indices};
pub use report::{extract_time, pass_timing};
