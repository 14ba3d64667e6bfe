//! Sweep-line subdivision of the edges of two polygons on the integer grid.
//!
//! The edges of a subject and a clipping polygon are held as pairs of sweep
//! events in an arena. The sweep pops the events in order, keeps the segments
//! that cross the sweep line in a status line, splits segments where they
//! cross or overlap, and labels every segment against the other polygon.
//!
//! All predicates are exact. A crossing that falls between grid points is
//! rounded to the nearest one, so a split can bend a segment by up to half a
//! grid step. Where that breaks the order of the status line, or would need
//! a split behind the sweep, the sweep stops with an error: the grid has to
//! be fine against the distances between the vertices and edges of the
//! input.

pub mod error;
pub mod event;
pub mod fields;
pub mod geometry;
pub mod invariants;
pub mod precision;
pub mod queue;
pub mod resolve;
pub mod status;
pub mod sweep;
