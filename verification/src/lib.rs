//! A registry of named, append-only scalar time series ("signals") fed by
//! concurrent producers, together with the per-frame query pipeline of a
//! plotting front end: an amortized visible-window tracker that maps a time
//! viewport to an index range of a signal's buffer, and two downsampling
//! strategies (fixed-stride decimation and largest-triangle-three-buckets)
//! that reduce that range to a bounded set of indices.
//!
//! Timestamps and sample values are signed 64-bit fixed-point ticks; the
//! scale is chosen by the caller and never interpreted here. Every buffer
//! keeps the invariant that its time column is strictly increasing and as
//! long as its data column.

pub mod channel;
pub mod downsampling;
pub mod hashtree;
pub mod names;
pub mod signal;
pub mod simpletree;
pub mod state;
pub mod tabs;
pub mod vectree;
