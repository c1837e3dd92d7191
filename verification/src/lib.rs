//! Per-contributor activity statistics over a project's commit history.
//!
//! The crate has three parts: a line-oriented alias store that folds many
//! raw committer identities into one canonical contributor, a classification
//! pipeline that decides which canonical identities each commit is credited
//! to under a set of filter predicates, and an aggregator that turns the
//! credited commits into per-contributor rows with medians and column
//! extrema.

use vstd::prelude::*;

pub mod options;
pub mod pipeline;
pub mod stats;
pub mod store;
pub mod text;

verus! {

/// Seconds in one hour, the base unit of the time-window filter.
pub const HOURS: i64 = 3600;

/// Seconds in one day.
pub const DAYS: i64 = 24 * 3600;

/// Seconds in one week.
pub const WEEKS: i64 = 7 * 24 * 3600;

/// Seconds in one month, counted as thirty days.
pub const MONTHS: i64 = 30 * 24 * 3600;

/// Seconds in one year, counted as fifty-two weeks.
pub const YEARS: i64 = 52 * 7 * 24 * 3600;

} // verus!
