//! Segment-match aggregation and coverage classification for GPS traces.
//!
//! Given a map-matching result (matchings, legs and the node paths they
//! traversed, plus per-input-point tracepoints) and an index from road-network
//! node id to coordinate, this crate decides, for every directed pair of
//! adjacent network nodes appearing in any leg, whether the recorded trace
//! covered that edge end-to-end: the observations attributed to the edge are
//! ordered along it and the edge counts as fully covered when no gap between
//! consecutive observations exceeds a configured distance threshold.
//!
//! Coordinates are planar fixed-point values: each axis holds an integer
//! number of micro-units (for geographic data, micro-degrees). All geometry
//! is exact integer arithmetic on these values.

pub mod decimal;
pub mod geometry;
pub mod osrm;
pub mod segments;
