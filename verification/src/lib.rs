//! Presence analytics for a stream of timestamped online/offline events.
//!
//! The crate turns an ascending event stream into a canonical set of online
//! intervals, attributes online time to calendar days in a fixed local zone,
//! computes the median daily online duration, and reports unusually long
//! offline gaps.

pub mod builder;
pub mod days;
pub mod gaps;
pub mod interval_set;
pub mod median;
