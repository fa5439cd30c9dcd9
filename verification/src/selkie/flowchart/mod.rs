//! Flowcharts: the database that a reader fills and an editor changes, and the
//! source text that it is written back to.
pub mod annotations;
pub mod parts;
pub mod types;
pub mod overrides;
pub mod writer;
pub mod laws;
pub mod placement;
pub mod round_trip;
