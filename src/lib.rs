//! Elevation schedules for radar beam plots.
//!
//! A schedule is written as a short list of tiers: each tier gives the
//! elevation (in tenths of a degree) at which it starts and the step used
//! until the next tier starts. This crate expands such a list into the full,
//! ordered list of elevation codes, with every step proved.

pub mod elevation;
